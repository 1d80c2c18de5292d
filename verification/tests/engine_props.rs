use pam_filter::addr::{encode_ipv4, parse_ipv4};
use pam_filter::error::RuleError;
use pam_filter::filter::{check_allowed, filter_from_ips, filter_from_users, policy_allows, Filter};
use pam_filter::network::create_list_ipv4;

fn addr(a: u32, b: u32, c: u32, d: u32) -> u32 {
    (a << 24) | (b << 16) | (c << 8) | d
}

fn ip_filter(rules: &[&str]) -> pam_filter::filter::FilterIp {
    filter_from_ips(rules.iter().map(|s| s.to_string()).collect()).unwrap()
}

#[test]
fn parse_strict_values() {
    assert_eq!(parse_ipv4("0.0.0.0"), Some(0));
    assert_eq!(parse_ipv4("255.255.255.255"), Some(0xFFFF_FFFF));
    assert_eq!(parse_ipv4("192.168.0.1"), Some(addr(192, 168, 0, 1)));
    assert_eq!(parse_ipv4("127.0.0.256"), None);
    assert_eq!(parse_ipv4("127.0.0"), None);
    assert_eq!(parse_ipv4("127.0.0.0.1"), None);
    assert_eq!(parse_ipv4("127.0.0.1a"), None);
    assert_eq!(parse_ipv4(""), None);
    // the grammar admits leading zeros; only the numeric bound is strict
    assert_eq!(parse_ipv4("127.0.0.01"), Some(addr(127, 0, 0, 1)));
}

#[test]
fn encode_canonical_values() {
    assert_eq!(encode_ipv4(0).as_str(), "0.0.0.0");
    assert_eq!(encode_ipv4(0xFFFF_FFFF).as_str(), "255.255.255.255");
    assert_eq!(encode_ipv4(addr(192, 168, 0, 1)).as_str(), "192.168.0.1");
    assert_eq!(encode_ipv4(addr(10, 20, 30, 40)).as_str(), "10.20.30.40");
}

#[test]
fn parse_encode_round_trip() {
    for s in ["0.0.0.0", "255.255.255.255", "8.8.8.8", "172.16.254.3", "127.0.0.01"] {
        let v = parse_ipv4(s).unwrap();
        assert_eq!(parse_ipv4(encode_ipv4(v).as_str()), Some(v));
    }
}

#[test]
fn range_rule_bounds_inclusive() {
    let f = ip_filter(&["10.0.0.2-10.0.0.5"]);
    assert!(!f.contains(&"10.0.0.1".to_string()));
    assert!(f.contains(&"10.0.0.2".to_string()));
    assert!(f.contains(&"10.0.0.3".to_string()));
    assert!(f.contains(&"10.0.0.5".to_string()));
    assert!(!f.contains(&"10.0.0.6".to_string()));
}

#[test]
fn range_rule_spans_octets() {
    let f = ip_filter(&["10.0.0.250-10.0.1.5"]);
    assert!(f.contains(&"10.0.0.255".to_string()));
    assert!(f.contains(&"10.0.1.0".to_string()));
    assert!(!f.contains(&"10.0.1.6".to_string()));
}

#[test]
fn subnet_rule_top_bits() {
    let f = ip_filter(&["127.0.0.0/24"]);
    assert!(f.contains(&"127.0.0.0".to_string()));
    assert!(f.contains(&"127.0.0.255".to_string()));
    assert!(!f.contains(&"127.0.1.0".to_string()));
    assert!(!f.contains(&"128.0.0.1".to_string()));
}

#[test]
fn subnet_rule_prefix_edges() {
    let everything = ip_filter(&["1.2.3.4/0"]);
    assert!(everything.contains(&"255.255.255.255".to_string()));
    assert!(everything.contains(&"0.0.0.0".to_string()));

    let single = ip_filter(&["1.2.3.4/32"]);
    assert!(single.contains(&"1.2.3.4".to_string()));
    assert!(!single.contains(&"1.2.3.5".to_string()));
}

#[test]
fn exact_rule_membership() {
    let f = ip_filter(&["203.0.113.9"]);
    assert!(f.contains(&"203.0.113.9".to_string()));
    assert!(!f.contains(&"203.0.113.8".to_string()));
    // a candidate that does not parse matches nothing
    assert!(!f.contains(&"not-an-address".to_string()));
    assert!(!f.contains(&"".to_string()));
}

#[test]
fn emptiness_iff_no_rules() {
    let empty = ip_filter(&[]);
    assert!(empty.is_empty());

    assert!(!ip_filter(&["1.2.3.4"]).is_empty());
    assert!(!ip_filter(&["1.2.3.0/24"]).is_empty());
    assert!(!ip_filter(&["1.2.3.4-1.2.3.5"]).is_empty());
}

#[test]
fn duplicate_exact_addresses_deduplicated() {
    let ret = create_list_ipv4(vec!["127.0.0.1".to_owned(), "127.0.0.1".to_owned()]);
    let list = ret.unwrap();
    assert_eq!(list.ips.len(), 1);
}

#[test]
fn duplicate_subnets_and_ranges_kept() {
    let list =
        create_list_ipv4(vec!["127.0.0.0/24".to_owned(), "127.0.0.0/24".to_owned()]).unwrap();
    assert_eq!(list.subnets.len(), 2);
    assert_eq!(list.subnets[0], list.subnets[1]);

    let list =
        create_list_ipv4(vec!["1.2.3.4-1.2.3.9".to_owned(), "1.2.3.4-1.2.3.9".to_owned()])
            .unwrap();
    assert_eq!(list.ranges.len(), 2);
    assert_eq!(list.ranges[0], list.ranges[1]);
}

#[test]
fn prefix_out_of_grammar_is_syntax_error() {
    let ret = create_list_ipv4(vec!["127.0.0.1/33".to_owned()]);
    assert!(matches!(ret.unwrap_err(), RuleError::SyntaxError(_)));
}

#[test]
fn equal_range_bounds_is_range_order_error() {
    let ret = create_list_ipv4(vec!["127.0.0.1-127.0.0.1".to_owned()]);
    assert!(matches!(ret.unwrap_err(), RuleError::RangeOrderError(_)));
}

#[test]
fn octet_out_of_bound_is_parse_error() {
    let ret = create_list_ipv4(vec!["127.0.0.256".to_owned()]);
    assert!(matches!(ret.unwrap_err(), RuleError::ParseError(_)));

    let ret = create_list_ipv4(vec!["127.0.0.256/24".to_owned()]);
    assert!(matches!(ret.unwrap_err(), RuleError::ParseError(_)));

    let ret = create_list_ipv4(vec!["127.0.0.256-127.0.0.999".to_owned()]);
    assert!(matches!(ret.unwrap_err(), RuleError::ParseError(_)));
}

#[test]
fn build_is_fail_fast() {
    // the first invalid rule decides the error, later rules are not reached
    let ret = create_list_ipv4(vec![
        "1.2.3.4".to_owned(),
        "5.6.7.8-5.6.7.8".to_owned(),
        "bogus".to_owned(),
    ]);
    assert!(matches!(ret.unwrap_err(), RuleError::RangeOrderError(_)));
}

#[test]
fn deny_takes_precedence_over_allow() {
    let deny = ip_filter(&["127.0.0.1"]);
    let allow = ip_filter(&["127.0.0.0/24"]);
    let candidate = "127.0.0.1".to_string();
    assert!(allow.contains(&candidate));
    assert!(!policy_allows(&deny, &allow, &candidate));
}

#[test]
fn empty_allow_set_skips_the_check() {
    let deny = ip_filter(&[]);
    let allow = ip_filter(&[]);
    let candidate = "8.8.8.8".to_string();
    assert!(!allow.contains(&candidate));
    assert!(check_allowed(&allow, &candidate));
    assert!(policy_allows(&deny, &allow, &candidate));
}

#[test]
fn nonempty_allow_set_must_match() {
    let deny = ip_filter(&[]);
    let allow = ip_filter(&["10.0.0.0/8"]);
    assert!(policy_allows(&deny, &allow, &"10.1.2.3".to_string()));
    assert!(!policy_allows(&deny, &allow, &"8.8.8.8".to_string()));
}

#[test]
fn precedence_tries_all_three_kinds() {
    let f = ip_filter(&["1.1.1.1", "2.2.2.0/30", "3.3.3.3-3.3.3.7"]);
    assert!(f.contains(&"1.1.1.1".to_string()));
    assert!(f.contains(&"2.2.2.1".to_string()));
    assert!(f.contains(&"3.3.3.5".to_string()));
    assert!(!f.contains(&"4.4.4.4".to_string()));
}

#[test]
fn user_filter_through_capability_interface() {
    let f = filter_from_users(vec!["doe".to_owned(), "www-data".to_owned()]).unwrap();
    assert!(f.contains(&"doe".to_string()));
    assert!(f.contains(&"www-data".to_string()));
    assert!(!f.contains(&"root".to_string()));
    assert!(!f.is_empty());

    let empty = filter_from_users(vec![]).unwrap();
    assert!(empty.is_empty());
}
