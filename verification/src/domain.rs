//! Address families a name-resolution request may ask for.

use vstd::prelude::*;

verus! {

/// The address family restriction of a forward lookup.
#[allow(non_camel_case_types)]
#[derive(Debug, Clone, Copy, PartialEq, Eq, Structural)]
pub enum AiFamily {
    AF_INET,
    AF_INET6,
    AF_UNSPEC,
}

} // verus!
