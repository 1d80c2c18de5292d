use std::any::{Any, TypeId};

use pam_filter::network::find_ip_match;

#[test]
fn test_assert_eq_type_tp_expr_ty() {
    let expr: i8 = 1;
    let boxed: Box<dyn Any> = Box::new(expr);
    assert!((&*boxed).type_id() == TypeId::of::<i8>());
}

#[test]
fn test_assert_ne_type_tp_expr_ty() {
    let expr: i8 = 1;
    let boxed: Box<dyn Any> = Box::new(expr);
    assert!(!((&*boxed).type_id() == TypeId::of::<i16>()));
}

#[test]
fn test_is_same_tp_two_args() {
    assert!(TypeId::of::<i8>() == TypeId::of::<i8>() && true);
}

#[test]
fn test_rule_error_type_id() {
    let err = find_ip_match("not an address").unwrap_err();
    let boxed: Box<dyn Any> = Box::new(err);
    assert!((&*boxed).type_id() == TypeId::of::<pam_filter::error::RuleError>());
}
