//! The configuration surface: ordered rule-string lists per category.

use vstd::prelude::*;

verus! {

/// The rule lists a configuration hands to the engine, one ordered list
/// per category. Only the address and name categories are wired into the
/// engine; the others are accepted but unused.
#[derive(Debug, Default)]
pub struct Cli {
    pub ip_allow: Vec<String>,
    pub ip_deny: Vec<String>,
    pub mac_allow: Vec<String>,
    pub mac_deny: Vec<String>,
    pub port_allow: Vec<String>,
    pub port_deny: Vec<String>,
    pub name_allow: Vec<String>,
    pub name_deny: Vec<String>,
}

} // verus!
