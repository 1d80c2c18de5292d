//! The failure taxonomy of rule compilation.
//!
//! `SyntaxError`: no grammar matched the rule (or an identity rule fell
//! outside the login-name grammar). `ParseError`: an octet failed the
//! strict numeric bound. `RangeOrderError`: a range's lower bound was not
//! strictly below its upper bound. Every variant carries the offending
//! rule string.

use vstd::prelude::*;

verus! {

/// Why a rule was rejected, together with the rule itself.
#[derive(Debug, Clone, PartialEq, Eq)]
pub enum RuleError {
    SyntaxError(String),
    ParseError(String),
    RangeOrderError(String),
}

/// The mathematical shape of a `RuleError`.
pub enum SpecRuleError {
    Syntax(Seq<char>),
    Parse(Seq<char>),
    RangeOrder(Seq<char>),
}

impl View for RuleError {
    type V = SpecRuleError;

    open spec fn view(&self) -> SpecRuleError {
        match self {
            RuleError::SyntaxError(s) => SpecRuleError::Syntax(s@),
            RuleError::ParseError(s) => SpecRuleError::Parse(s@),
            RuleError::RangeOrderError(s) => SpecRuleError::RangeOrder(s@),
        }
    }
}

} // verus!
