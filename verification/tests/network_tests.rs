use pam_filter::error::RuleError;
use pam_filter::network::{create_list_ipv4, find_ip_match, Ipv4Subnet, Pattern};

fn addr(a: u32, b: u32, c: u32, d: u32) -> u32 {
    (a << 24) | (b << 16) | (c << 8) | d
}

#[test]
fn test_find_ip_match_tp_ipv4range() {
    let ret = find_ip_match("127.0.0.1-127.0.0.1");

    assert!(ret.is_ok());
    assert_eq!(ret.unwrap(), Pattern::Ipv4Range);
}

#[test]
fn test_find_ip_match_tn_ipv4range_preceded_by_invalid() {
    let ret = find_ip_match("1127.0.0.1-127.0.0.1");

    assert!(ret.is_err());
    assert!(matches!(ret.unwrap_err(), RuleError::SyntaxError(_)));
}

#[test]
fn test_find_ip_match_tn_ipv4range_superceded_by_invalid() {
    let ret = find_ip_match("127.0.0.1-127.0.0.1a");

    assert!(ret.is_err());
    assert!(matches!(ret.unwrap_err(), RuleError::SyntaxError(_)));
}

#[test]
fn test_find_ip_match_tp_ipv4net() {
    let ret = find_ip_match("127.0.0.1/32");

    assert!(ret.is_ok());
    assert_eq!(ret.unwrap(), Pattern::Ipv4Net);
}

#[test]
fn test_find_ip_match_tp_ipv4net_subnet_0to32() {
    for i in 0..=32 {
        let ret = find_ip_match(format!("127.0.0.1/{}", i.to_string()).as_str());

        assert!(ret.is_ok());
        assert_eq!(ret.unwrap(), Pattern::Ipv4Net);
    }
}

#[test]
fn test_find_ip_match_tn_ipv4net_invalid_subnet() {
    let ret = find_ip_match("127.0.0.1/33");

    assert!(ret.is_err());
    assert!(matches!(ret.unwrap_err(), RuleError::SyntaxError(_)));
}

#[test]
fn test_find_ip_match_tn_ipv4net_invalid_subnet_3digits() {
    let ret = find_ip_match("127.0.0.1/100");

    assert!(ret.is_err());
    assert!(matches!(ret.unwrap_err(), RuleError::SyntaxError(_)));
}

#[test]
fn test_find_ip_match_tp_ipv4addr() {
    let ret = find_ip_match("127.0.0.1");

    assert!(ret.is_ok());
    assert_eq!(ret.unwrap(), Pattern::Ipv4Addr);
}

#[test]
fn test_find_ip_match_tn_ipv4addr_preceded_by_invalid() {
    let ret = find_ip_match("1127.0.0.1");

    assert!(ret.is_err());
    assert!(matches!(ret.unwrap_err(), RuleError::SyntaxError(_)));
}

#[test]
fn test_find_ip_match_tn_ipv4addr_superceded_by_invalid() {
    let ret = find_ip_match("127.0.0.1111");

    assert!(ret.is_err());
    assert!(matches!(ret.unwrap_err(), RuleError::SyntaxError(_)));
}

// the grammar does not check whether an IP octet is in 0-255;
// that is handled by the strict numeric parse, so checking twice
// is unnecessary and this classification is expected
#[test]
fn test_find_ip_match_fp_ipv4addr_out_of_range() {
    let ret = find_ip_match("127.0.0.256");

    assert!(ret.is_ok());
    assert_eq!(ret.unwrap(), Pattern::Ipv4Addr);
}

#[test]
fn test_create_list_ipv4_tp_ipv4addr_single() {
    let ret = create_list_ipv4(vec!["127.0.0.255".to_owned()]);
    assert!(ret.is_ok());

    let list = ret.unwrap();
    assert_eq!(list.ips.len(), 1);
    assert_eq!(list.subnets.len(), 0);
    assert_eq!(list.ranges.len(), 0);
    assert!(list.ips.contains(addr(127, 0, 0, 255)));
}

#[test]
fn test_create_list_ipv4_tp_ipv4addr_multiple() {
    let ret = create_list_ipv4(vec!["127.0.0.255".to_owned(), "0.0.0.0".to_owned()]);
    assert!(ret.is_ok());

    let list = ret.unwrap();
    assert_eq!(list.ips.len(), 2);
    assert_eq!(list.subnets.len(), 0);
    assert_eq!(list.ranges.len(), 0);
    assert!(list.ips.contains(addr(127, 0, 0, 255)));
    assert!(list.ips.contains(addr(0, 0, 0, 0)));
}

#[test]
fn test_create_list_ipv4_tn_ipv4addr_out_of_range() {
    let ret = create_list_ipv4(vec!["127.0.0.256".to_owned()]);

    assert!(ret.is_err());
}

#[test]
fn test_create_list_ipv4_tp_ipv4net_single() {
    let ret = create_list_ipv4(vec!["127.0.0.255/32".to_owned()]);
    assert!(ret.is_ok());

    let list = ret.unwrap();
    assert_eq!(list.ips.len(), 0);
    assert_eq!(list.subnets.len(), 1);
    assert_eq!(list.ranges.len(), 0);
    assert_eq!(
        list.subnets[0],
        Ipv4Subnet { addr: addr(127, 0, 0, 255), prefix: 32 }
    );
}

#[test]
fn test_create_list_ipv4_tp_ipv4net_multiple() {
    let ret = create_list_ipv4(vec!["127.0.0.255/32".to_owned(), "0.0.0.0/32".to_owned()]);
    assert!(ret.is_ok());

    let list = ret.unwrap();
    assert_eq!(list.ips.len(), 0);
    assert_eq!(list.subnets.len(), 2);
    assert_eq!(list.ranges.len(), 0);
    assert_eq!(
        list.subnets[0],
        Ipv4Subnet { addr: addr(127, 0, 0, 255), prefix: 32 }
    );
    assert_eq!(
        list.subnets[1],
        Ipv4Subnet { addr: addr(0, 0, 0, 0), prefix: 32 }
    );
}

#[test]
fn test_create_list_ipv4_tn_ipv4net_invalid_subnet() {
    let ret = create_list_ipv4(vec!["127.0.0.255/33".to_owned()]);
    assert!(ret.is_err());
}

#[test]
fn test_create_list_ipv4_tp_ipv4range_single() {
    let ret = create_list_ipv4(vec!["127.0.0.254-127.0.0.255".to_owned()]);
    assert!(ret.is_ok());

    let list = ret.unwrap();
    assert_eq!(list.ips.len(), 0);
    assert_eq!(list.subnets.len(), 0);
    assert_eq!(list.ranges.len(), 1);
    assert_eq!(list.ranges[0].0, addr(127, 0, 0, 254));
    assert_eq!(list.ranges[0].1, addr(127, 0, 0, 255));
}

#[test]
fn test_create_list_ipv4_tn_ipv4range_equal() {
    let ret = create_list_ipv4(vec!["127.0.0.254-127.0.0.254".to_owned()]);
    assert!(ret.is_err());
}

#[test]
fn test_create_list_ipv4_tn_ipv4range_invalid() {
    let ret = create_list_ipv4(vec!["127.0.0.255-127.0.0.254".to_owned()]);
    assert!(ret.is_err());
}
