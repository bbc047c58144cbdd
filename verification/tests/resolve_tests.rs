use lease_viewer::config::{parse_bind_addr, BindAddr, Error, Settings};
use lease_viewer::server::{
    directory_files, is_wildcard, matching_files, route_for, Context, DirEntry, Route,
};

#[test]
fn wildcard_keeps_prefixed_entries_without_locks() {
    let entries = vec![
        "/var/lib/kea/kea-leases4.csv".to_owned(),
        "/var/lib/kea/kea-leases4.csv.lock".to_owned(),
        "/var/lib/kea/kea-leases4.csv.2".to_owned(),
    ];
    let kept = matching_files("/var/lib/kea/kea-leases4.csv*", &entries);
    assert_eq!(
        kept,
        vec![
            "/var/lib/kea/kea-leases4.csv".to_owned(),
            "/var/lib/kea/kea-leases4.csv.2".to_owned(),
        ]
    );
}

#[test]
fn wildcard_drops_entries_outside_prefix() {
    let entries = vec![
        "/var/lib/kea/kea-leases4.csv".to_owned(),
        "/var/lib/kea/kea-leases6.csv".to_owned(),
        "/var/lib/kea/other.txt".to_owned(),
    ];
    let kept = matching_files("/var/lib/kea/kea-leases4.csv*", &entries);
    assert_eq!(kept, vec!["/var/lib/kea/kea-leases4.csv".to_owned()]);
}

#[test]
fn directory_mode_keeps_plain_files_only() {
    let entries = vec![
        DirEntry { path: "/leases/a.csv".to_owned(), is_file: true },
        DirEntry { path: "/leases/sub".to_owned(), is_file: false },
        DirEntry { path: "/leases/b.csv.lock".to_owned(), is_file: true },
        DirEntry { path: "/leases/b.csv".to_owned(), is_file: true },
    ];
    let kept = directory_files(&entries);
    assert_eq!(kept, vec!["/leases/a.csv".to_owned(), "/leases/b.csv".to_owned()]);
}

#[test]
fn wildcard_detection() {
    assert!(is_wildcard("/var/lib/kea/kea-leases4.csv*"));
    assert!(!is_wildcard("/var/lib/kea/kea-leases4.csv"));
    assert!(!is_wildcard(""));
}

#[test]
fn routes() {
    assert_eq!(route_for("/"), Route::Leases);
    assert_eq!(route_for("/favicon.ico"), Route::Favicon);
    assert_eq!(route_for("/other"), Route::NotFound);
    assert_eq!(route_for(""), Route::NotFound);
}

#[test]
fn bind_addr_parses() {
    assert_eq!(
        parse_bind_addr("127.0.0.1:8080").unwrap(),
        BindAddr { ip: 0x7f000001, port: 8080 }
    );
    assert_eq!(
        parse_bind_addr("0.0.0.0:80").unwrap(),
        BindAddr { ip: 0, port: 80 }
    );
    assert!(matches!(parse_bind_addr("localhost:80"), Err(Error::AddrParse(_))));
    assert!(matches!(parse_bind_addr("1.2.3.4"), Err(Error::AddrParse(_))));
    assert!(matches!(parse_bind_addr("1.2.3.4:99999"), Err(Error::AddrParse(_))));
}

#[test]
fn settings_defaults() {
    let st = Settings::new(None, None).unwrap();
    assert_eq!(st.leases_db, "/var/lib/kea/kea-leases4.csv*");
    assert_eq!(st.bind_addr, BindAddr { ip: 0x7f000001, port: 8080 });
}

#[test]
fn settings_overrides() {
    let st = Settings::new(
        Some("/tmp/leases.csv".to_owned()),
        Some("0.0.0.0:9000".to_owned()),
    )
    .unwrap();
    assert_eq!(st.leases_db, "/tmp/leases.csv");
    assert_eq!(st.bind_addr, BindAddr { ip: 0, port: 9000 });
    assert!(Settings::new(None, Some("nope".to_owned())).is_err());
}

#[test]
fn context_holds_settings() {
    let st = Settings::new(None, None).unwrap();
    let ctx = Context::new(st);
    assert_eq!(ctx.settings.leases_db, "/var/lib/kea/kea-leases4.csv*");
}
