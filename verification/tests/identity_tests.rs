use pam_filter::error::RuleError;
use pam_filter::filter::{check_identity, filter_from_users, Filter};

#[test]
fn identity_uppercase_is_syntax_error() {
    let ret = filter_from_users(vec!["Root".to_owned()]);
    assert!(matches!(ret.unwrap_err(), RuleError::SyntaxError(s) if s == "Root"));
}

#[test]
fn identity_grammar_accepts() {
    assert!(check_identity("root"));
    assert!(check_identity("_daemon"));
    assert!(check_identity("a"));
    assert!(check_identity("user-name_1"));
    assert!(check_identity("machine$"));
    // 32 ordinary characters
    assert!(check_identity("abcdefghijklmnopqrstuvwxyz_01234"));
    // 31 characters plus the trailing dollar sign fills the 32 slots
    assert!(check_identity("abcdefghijklmnopqrstuvwxyz_0123$"));
}

#[test]
fn identity_grammar_rejects() {
    assert!(!check_identity(""));
    assert!(!check_identity("Root"));
    assert!(!check_identity("1user"));
    assert!(!check_identity("-user"));
    assert!(!check_identity("$"));
    assert!(!check_identity("user name"));
    assert!(!check_identity("us$er"));
    // 33 ordinary characters
    assert!(!check_identity("abcdefghijklmnopqrstuvwxyz_012345"));
    // 32 characters plus the trailing dollar sign exceeds the 32 slots
    assert!(!check_identity("abcdefghijklmnopqrstuvwxyz_01234$"));
}

#[test]
fn identity_build_is_fail_fast_and_names_offender() {
    let ret = filter_from_users(vec!["good".to_owned(), "Bad".to_owned(), "Worse".to_owned()]);
    assert!(matches!(ret.unwrap_err(), RuleError::SyntaxError(s) if s == "Bad"));
}

#[test]
fn identity_names_deduplicated() {
    let f = filter_from_users(vec!["doe".to_owned(), "doe".to_owned()]).unwrap();
    assert_eq!(f.users.len(), 1);
    assert!(f.contains(&"doe".to_string()));
}
