use lease_viewer::lease::Lease;
use lease_viewer::server::{preprocess_leases, sort_field_from_str, RequestParams, SortField};

fn mk_lease(ip: u32, hw: &str, expires: i64, hostname: Option<&str>) -> Lease {
    Lease {
        ip_addr: ip,
        hw_addr: hw.to_owned(),
        client_id: None,
        lifetime: 3600,
        expires,
        subnet_id: 1,
        fqdn_fwd: 0,
        fqdn_rev: 0,
        hostname: hostname.map(|h| h.to_owned()),
        state: 0,
        user_context: None,
        pool_id: 0,
    }
}

fn no_params() -> RequestParams {
    RequestParams { sort_on: None, sort_desc: false }
}

#[test]
fn dedup_keeps_latest_expiry() {
    let mut leases = vec![
        mk_lease(0x0a000001, "aa:aa", 100, None),
        mk_lease(0x0a000002, "aa:aa", 200, None),
    ];
    preprocess_leases(&mut leases, &no_params());
    assert_eq!(leases.len(), 1);
    assert_eq!(leases[0].expires, 200);
    assert_eq!(leases[0].ip_addr, 0x0a000002);
}

#[test]
fn dedup_keeps_singletons() {
    let mut leases = vec![
        mk_lease(0x0a000002, "bb:bb", 50, None),
        mk_lease(0x0a000001, "aa:aa", 100, None),
    ];
    preprocess_leases(&mut leases, &no_params());
    assert_eq!(leases.len(), 2);
}

#[test]
fn default_order_is_ip_ascending() {
    let mut leases = vec![
        mk_lease(0x0a000003, "cc:cc", 100, None),
        mk_lease(0x0a000001, "aa:aa", 100, None),
        mk_lease(0x0a000002, "bb:bb", 100, None),
    ];
    preprocess_leases(&mut leases, &no_params());
    let ips: Vec<u32> = leases.iter().map(|l| l.ip_addr).collect();
    assert_eq!(ips, vec![0x0a000001, 0x0a000002, 0x0a000003]);
}

#[test]
fn mac_descending_order() {
    let mut leases = vec![
        mk_lease(0x0a000001, "aa:aa", 100, None),
        mk_lease(0x0a000003, "cc:cc", 100, None),
        mk_lease(0x0a000002, "bb:bb", 100, None),
    ];
    let params = RequestParams { sort_on: Some("mac".to_owned()), sort_desc: true };
    preprocess_leases(&mut leases, &params);
    let hws: Vec<&str> = leases.iter().map(|l| l.hw_addr.as_str()).collect();
    assert_eq!(hws, vec!["cc:cc", "bb:bb", "aa:aa"]);
}

#[test]
fn expiry_ascending_order() {
    let mut leases = vec![
        mk_lease(0x0a000001, "aa:aa", 300, None),
        mk_lease(0x0a000002, "bb:bb", 100, None),
        mk_lease(0x0a000003, "cc:cc", 200, None),
    ];
    let params = RequestParams { sort_on: Some("exp".to_owned()), sort_desc: false };
    preprocess_leases(&mut leases, &params);
    let exps: Vec<i64> = leases.iter().map(|l| l.expires).collect();
    assert_eq!(exps, vec![100, 200, 300]);
}

#[test]
fn name_order_absent_hostname_first() {
    let mut leases = vec![
        mk_lease(0x0a000001, "aa:aa", 100, Some("zeta")),
        mk_lease(0x0a000002, "bb:bb", 100, None),
        mk_lease(0x0a000003, "cc:cc", 100, Some("alpha")),
    ];
    let params = RequestParams { sort_on: Some("name".to_owned()), sort_desc: false };
    preprocess_leases(&mut leases, &params);
    let names: Vec<Option<&str>> = leases.iter().map(|l| l.hostname.as_deref()).collect();
    assert_eq!(names, vec![None, Some("alpha"), Some("zeta")]);
}

#[test]
fn unrecognized_sort_field_keeps_dedup_order() {
    // the deduplicated collection stands in hardware-address order; an
    // unknown sort field must leave it that way
    let mut leases = vec![
        mk_lease(0x0a000001, "cc:cc", 100, None),
        mk_lease(0x0a000002, "aa:aa", 100, None),
        mk_lease(0x0a000003, "bb:bb", 100, None),
    ];
    let params = RequestParams { sort_on: Some("bogus".to_owned()), sort_desc: false };
    preprocess_leases(&mut leases, &params);
    let hws: Vec<&str> = leases.iter().map(|l| l.hw_addr.as_str()).collect();
    assert_eq!(hws, vec!["aa:aa", "bb:bb", "cc:cc"]);
}

#[test]
fn sort_field_names() {
    assert_eq!(sort_field_from_str("ip"), Some(SortField::Ip));
    assert_eq!(sort_field_from_str("mac"), Some(SortField::Mac));
    assert_eq!(sort_field_from_str("exp"), Some(SortField::Expiry));
    assert_eq!(sort_field_from_str("name"), Some(SortField::Name));
    assert_eq!(sort_field_from_str("hostname"), None);
    assert_eq!(sort_field_from_str(""), None);
}

#[test]
fn dedup_tie_on_expiry_is_deterministic() {
    let mut a = vec![
        mk_lease(0x0a000001, "aa:aa", 100, None),
        mk_lease(0x0a000002, "aa:aa", 100, None),
    ];
    let mut b = vec![
        mk_lease(0x0a000001, "aa:aa", 100, None),
        mk_lease(0x0a000002, "aa:aa", 100, None),
    ];
    preprocess_leases(&mut a, &no_params());
    preprocess_leases(&mut b, &no_params());
    assert_eq!(a.len(), 1);
    assert_eq!(a[0].ip_addr, b[0].ip_addr);
}
