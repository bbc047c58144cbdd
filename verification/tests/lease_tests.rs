use lease_viewer::lease::{
    parse_datetime, parse_file, parse_line, FileParseError, ParseError, MAX_LEASE_TS,
    MIN_LEASE_TS,
};

#[test]
fn test_parse_lease() {
    let l = r#"192.168.1.21,c7:91:77:a0:03:dd,,86400,1716402166,1,0,0,,0,,0"#;
    println!("Testing with lease:\n{l}");
    let lease = parse_line(l);

    println!("{:?}", lease);
    assert!(lease.is_ok());
}

#[test]
fn test_read_lease_file() {
    let lease_file = "address,hwaddr,client_id,valid_lifetime,expire,subnet_id,fqdn_fwd,fqdn_rev,hostname,state,user_context,pool_id\n\
        192.168.1.21,c7:91:77:a0:03:dd,,86400,1716402166,1,0,0,,0,,0\n\
        192.168.1.30,aa:bb:cc:dd:ee:ff,01:aa:bb,7200,1716402000,1,0,0,host-a,0,ctx,2\n";
    println!("Testing with lease file: {lease_file:?}");
    let lease_list = parse_file(lease_file);

    println!("{:?}", lease_list);
    assert!(lease_list.is_ok());
}

#[test]
fn parse_line_example_fields() {
    let l = parse_line("192.168.1.21,c7:91:77:a0:03:dd,,86400,1716402166,1,0,0,,0,,0").unwrap();
    assert_eq!(l.ip_addr, 3232235797u32); // 192.168.1.21
    assert_eq!(l.hw_addr, "c7:91:77:a0:03:dd");
    assert_eq!(l.client_id, None);
    assert_eq!(l.lifetime, 86400);
    assert_eq!(l.expires, 1716402166);
    assert_eq!(l.subnet_id, 1);
    assert_eq!(l.fqdn_fwd, 0);
    assert_eq!(l.fqdn_rev, 0);
    assert_eq!(l.hostname, None);
    assert_eq!(l.state, 0);
    assert_eq!(l.user_context, None);
    assert_eq!(l.pool_id, 0);
}

#[test]
fn parse_line_optional_fields_present() {
    let l = parse_line("10.0.0.1,aa:bb,client-1,60,0,7,1,1,myhost,2,note,9").unwrap();
    assert_eq!(l.ip_addr, 0x0a000001);
    assert_eq!(l.client_id.as_deref(), Some("client-1"));
    assert_eq!(l.hostname.as_deref(), Some("myhost"));
    assert_eq!(l.user_context.as_deref(), Some("note"));
    assert_eq!(l.subnet_id, 7);
    assert_eq!(l.state, 2);
    assert_eq!(l.pool_id, 9);
}

#[test]
fn parse_line_not_enough_fields() {
    // two fields: the address parses, then the line runs out
    let r = parse_line("192.168.1.21,c7:91:77:a0:03:dd");
    assert!(matches!(r, Err(ParseError::NotEnoughFields(2))));
    // eleven fields: one short of a full record
    let r = parse_line("192.168.1.21,aa,,86400,1716402166,1,0,0,,0,");
    assert!(matches!(r, Err(ParseError::NotEnoughFields(11))));
}

#[test]
fn parse_line_bad_ip() {
    let r = parse_line("not-an-ip,aa:bb,,86400,1716402166,1,0,0,,0,,0");
    assert!(matches!(r, Err(ParseError::IpAddr(s)) if s == "not-an-ip"));
    // a leading zero in an octet is rejected
    let r = parse_line("192.168.001.21,aa:bb,,86400,1716402166,1,0,0,,0,,0");
    assert!(matches!(r, Err(ParseError::IpAddr(_))));
    // an out-of-range octet is rejected
    let r = parse_line("192.168.1.256,aa:bb,,86400,1716402166,1,0,0,,0,,0");
    assert!(matches!(r, Err(ParseError::IpAddr(_))));
}

#[test]
fn parse_line_bad_duration() {
    let r = parse_line("192.168.1.21,aa:bb,,1d,1716402166,1,0,0,,0,,0");
    assert!(matches!(r, Err(ParseError::Duration(s)) if s == "1d"));
}

#[test]
fn parse_line_bad_time() {
    let r = parse_line("192.168.1.21,aa:bb,,86400,never,1,0,0,,0,,0");
    assert!(matches!(r, Err(ParseError::Time(s)) if s == "never"));
}

#[test]
fn parse_line_bad_numeric_fields() {
    let r = parse_line("192.168.1.21,aa:bb,,86400,1716402166,x,0,0,,0,,0");
    assert!(matches!(r, Err(ParseError::SubnetId(_))));
    let r = parse_line("192.168.1.21,aa:bb,,86400,1716402166,1,x,0,,0,,0");
    assert!(matches!(r, Err(ParseError::FqdnFwd(_))));
    let r = parse_line("192.168.1.21,aa:bb,,86400,1716402166,1,0,x,,0,,0");
    assert!(matches!(r, Err(ParseError::FqdnRev(_))));
    let r = parse_line("192.168.1.21,aa:bb,,86400,1716402166,1,0,0,,x,,0");
    assert!(matches!(r, Err(ParseError::State(_))));
    let r = parse_line("192.168.1.21,aa:bb,,86400,1716402166,1,0,0,,0,,x");
    assert!(matches!(r, Err(ParseError::PoolId(_))));
}

#[test]
fn parse_datetime_chrono_range() {
    // the exact bounds that chrono can represent; one step beyond each fails
    assert_eq!(parse_datetime(&MIN_LEASE_TS.to_string()).unwrap(), MIN_LEASE_TS);
    assert_eq!(parse_datetime(&MAX_LEASE_TS.to_string()).unwrap(), MAX_LEASE_TS);
    assert!(matches!(
        parse_datetime(&(MIN_LEASE_TS - 1).to_string()),
        Err(ParseError::Time(_))
    ));
    assert!(matches!(
        parse_datetime(&(MAX_LEASE_TS + 1).to_string()),
        Err(ParseError::Time(_))
    ));
    assert_eq!(parse_datetime("-1").unwrap(), -1);
}

#[test]
fn parse_file_empty_inputs() {
    // a file with no lines at all
    assert!(matches!(parse_file(""), Err(FileParseError::Empty)));
    // a file consisting of only a header line
    assert!(matches!(parse_file("header\n"), Err(FileParseError::Empty)));
    assert!(matches!(parse_file("header"), Err(FileParseError::Empty)));
}

#[test]
fn parse_file_error_line_numbers() {
    // header present, second line malformed: the error points at data line 0
    let r = parse_file("header\nbad-line\n");
    match r {
        Err(FileParseError::ParseLease { line, .. }) => assert_eq!(line, 0),
        other => panic!("expected a parse failure, got {:?}", other),
    }
    // one good record first: the error points at data line 1
    let r = parse_file(
        "header\n192.168.1.21,aa:bb,,86400,1716402166,1,0,0,,0,,0\nbad-line\n",
    );
    match r {
        Err(FileParseError::ParseLease { line, .. }) => assert_eq!(line, 1),
        other => panic!("expected a parse failure, got {:?}", other),
    }
}

#[test]
fn parse_file_keeps_order() {
    let text = "header\n\
        10.0.0.2,bb:bb,,60,100,1,0,0,,0,,0\n\
        10.0.0.1,aa:aa,,60,100,1,0,0,,0,,0\n";
    let leases = parse_file(text).unwrap();
    assert_eq!(leases.len(), 2);
    assert_eq!(leases[0].hw_addr, "bb:bb");
    assert_eq!(leases[1].hw_addr, "aa:aa");
}

#[test]
fn parse_file_crlf_lines() {
    let text = "header\r\n10.0.0.1,aa:aa,,60,100,1,0,0,,0,,0\r\n";
    let leases = parse_file(text).unwrap();
    assert_eq!(leases.len(), 1);
    assert_eq!(leases[0].hw_addr, "aa:aa");
}

#[test]
fn parse_line_extra_fields_ignored() {
    // consumption is strictly in order: a thirteenth field is never reached
    let l = parse_line("10.0.0.1,aa:bb,,60,100,1,0,0,,0,,7,extra").unwrap();
    assert_eq!(l.pool_id, 7);
}

#[test]
fn parse_line_numeric_limits() {
    let l = parse_line("255.255.255.255,aa,,18446744073709551615,100,4294967295,0,0,,0,,0")
        .unwrap();
    assert_eq!(l.ip_addr, u32::MAX);
    assert_eq!(l.lifetime, u64::MAX);
    assert_eq!(l.subnet_id, u32::MAX);
    let r = parse_line("10.0.0.1,aa,,18446744073709551616,100,1,0,0,,0,,0");
    assert!(matches!(r, Err(ParseError::Duration(_))));
    let r = parse_line("10.0.0.1,aa,,60,100,4294967296,0,0,,0,,0");
    assert!(matches!(r, Err(ParseError::SubnetId(_))));
    let r = parse_line("10.0.0.1,aa,,,100,1,0,0,,0,,0");
    assert!(matches!(r, Err(ParseError::Duration(s)) if s.is_empty()));
    let l = parse_line("0.0.0.0,aa,,0,0,0,0,0,,0,,0").unwrap();
    assert_eq!(l.ip_addr, 0);
    assert_eq!(l.lifetime, 0);
}

#[test]
fn parse_line_negative_expiry() {
    let l = parse_line("10.0.0.1,aa,,60,-1,1,0,0,,0,,0").unwrap();
    assert_eq!(l.expires, -1);
}
