use lease_viewer::lease::FileParseError;
use lease_viewer::server::{load_all, FileRead};

fn good_file(hw_and_ip: &[(&str, &str)]) -> String {
    let mut text = String::from("header\n");
    for (ip, hw) in hw_and_ip {
        text.push_str(&format!("{ip},{hw},,86400,1716402166,1,0,0,,0,,0\n"));
    }
    text
}

#[test]
fn aggregate_concatenates_in_order() {
    let files = vec![
        FileRead::Content(good_file(&[("10.0.0.1", "aa:aa"), ("10.0.0.2", "bb:bb")])),
        FileRead::Content(good_file(&[("10.0.0.3", "cc:cc")])),
    ];
    let leases = load_all(&files).unwrap();
    let hws: Vec<&str> = leases.iter().map(|l| l.hw_addr.as_str()).collect();
    assert_eq!(hws, vec!["aa:aa", "bb:bb", "cc:cc"]);
}

#[test]
fn aggregate_fails_on_second_file_and_discards_first() {
    // the second of three files fails to parse: its error is the result,
    // and the records already loaded from the first file are discarded
    let files = vec![
        FileRead::Content(good_file(&[("10.0.0.1", "aa:aa")])),
        FileRead::Content("header\nbad-line\n".to_owned()),
        FileRead::Content(good_file(&[("10.0.0.3", "cc:cc")])),
    ];
    let r = load_all(&files);
    match r {
        Err(FileParseError::ParseLease { line, .. }) => assert_eq!(line, 0),
        other => panic!("expected the second file's parse error, got {:?}", other),
    }
}

#[test]
fn aggregate_surfaces_read_failures() {
    let files = vec![
        FileRead::Content(good_file(&[("10.0.0.1", "aa:aa")])),
        FileRead::Failed("permission denied".to_owned()),
    ];
    let r = load_all(&files);
    match r {
        Err(FileParseError::FileOpen(msg)) => assert_eq!(msg, "permission denied"),
        other => panic!("expected an open failure, got {:?}", other),
    }
}

#[test]
fn aggregate_propagates_empty_file() {
    let files = vec![FileRead::Content("header\n".to_owned())];
    assert!(matches!(load_all(&files), Err(FileParseError::Empty)));
}

#[test]
fn aggregate_of_nothing_is_empty() {
    let files: Vec<FileRead> = Vec::new();
    let leases = load_all(&files).unwrap();
    assert!(leases.is_empty());
}
