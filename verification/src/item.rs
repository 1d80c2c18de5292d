//! The connection attributes an authorization decision is made about.

use vstd::prelude::*;

verus! {

/// The attributes of one connection attempt: the requesting service, the
/// target login name, the remote user, and the remote host (a textual
/// address, possibly empty when unknown).
#[derive(Debug, Clone)]
pub struct Connection {
    pub service: String,
    pub user: String,
    pub ruser: String,
    pub rhost: String,
}

} // verus!
