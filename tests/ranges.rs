use portscan::decimal::{parse_bounded, to_decimal};
use portscan::range::{parse_ip_range, parse_port_range, single_port};

#[test]
fn ascending_port_range_is_inclusive_and_increasing() {
    let r = parse_port_range("20-25");
    assert_eq!(r, vec![20, 21, 22, 23, 24, 25]);
    assert_eq!(r.len(), 25 - 20 + 1);
    assert_eq!(r[0], 20);
    assert_eq!(*r.last().unwrap(), 25);
}

#[test]
fn one_port_range_has_one_port() {
    assert_eq!(parse_port_range("80-80"), vec![80]);
}

#[test]
fn full_port_range_reaches_the_top() {
    let r = parse_port_range("65530-65535");
    assert_eq!(r, vec![65530, 65531, 65532, 65533, 65534, 65535]);
}

#[test]
fn descending_port_range_is_empty() {
    assert!(parse_port_range("30-20").is_empty());
    assert!(parse_port_range("1-0").is_empty());
}

#[test]
fn single_port_is_trimmed_and_parsed() {
    assert_eq!(parse_port_range("22"), vec![22]);
    assert_eq!(parse_port_range("  443 \n"), vec![443]);
    assert_eq!(parse_port_range("+8"), vec![8]);
}

#[test]
fn malformed_single_port_gives_no_port() {
    assert!(parse_port_range("abc").is_empty());
    assert!(parse_port_range("").is_empty());
    assert!(parse_port_range("65536").is_empty());
    assert!(single_port(" 22").is_empty());
    assert_eq!(single_port("22"), vec![22]);
}

#[test]
fn malformed_range_bound_counts_as_zero() {
    assert_eq!(parse_port_range("x-3"), vec![0, 1, 2, 3]);
    assert_eq!(parse_port_range("-2"), vec![0, 1, 2]);
    assert!(parse_port_range("5-").is_empty());
    assert_eq!(parse_port_range("0-x"), vec![0]);
    assert_eq!(parse_port_range("70000-1"), vec![0, 1]);
}

#[test]
fn port_range_bounds_are_not_trimmed() {
    assert_eq!(parse_port_range(" 3-4"), vec![0, 1, 2, 3, 4]);
}

#[test]
fn address_range_shares_prefix() {
    let r = parse_ip_range("192.168.1.1-3");
    assert_eq!(r, vec!["192.168.1.1", "192.168.1.2", "192.168.1.3"]);
    for a in &r {
        assert!(a.starts_with("192.168.1."));
    }
}

#[test]
fn address_range_up_to_255() {
    let r = parse_ip_range("10.0.0.250-255");
    assert_eq!(r.len(), 6);
    assert_eq!(r[5], "10.0.0.255");
}

#[test]
fn single_address_is_kept_verbatim() {
    assert_eq!(parse_ip_range("10.0.0.1"), vec!["10.0.0.1"]);
    assert_eq!(parse_ip_range("localhost"), vec!["localhost"]);
    assert_eq!(parse_ip_range("a-b"), vec!["a-b"]);
}

#[test]
fn descending_address_range_is_empty() {
    assert!(parse_ip_range("10.0.0.9-3").is_empty());
}

#[test]
fn malformed_octet_counts_as_zero() {
    assert_eq!(parse_ip_range("10.0.0.x-2"), vec!["10.0.0.0", "10.0.0.1", "10.0.0.2"]);
    assert!(parse_ip_range("10.0.0.250-300").is_empty());
}

#[test]
fn address_range_splits_on_last_dot() {
    assert_eq!(parse_ip_range("a.b-c.1-2"), vec!["a.b-c.1", "a.b-c.2"]);
}

#[test]
fn decimal_text_and_parse() {
    assert_eq!(to_decimal(0), "0");
    assert_eq!(to_decimal(7), "7");
    assert_eq!(to_decimal(80), "80");
    assert_eq!(to_decimal(65535), "65535");
    assert_eq!(parse_bounded("255", 255), Some(255));
    assert_eq!(parse_bounded("256", 255), None);
    assert_eq!(parse_bounded("007", 255), Some(7));
    assert_eq!(parse_bounded("+", 255), None);
    assert_eq!(parse_bounded("-1", 255), None);
    assert_eq!(parse_bounded("1 ", 255), None);
    assert_eq!(parse_bounded("99999", 65535), None);
}
