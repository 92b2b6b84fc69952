//! Internet socket addresses.
use vstd::prelude::*;

use crate::socket::{lawful, RemoteAddr};

verus! {

/// An Internet address, as the number that its bytes write.
#[derive(Debug, Clone, Copy, PartialEq, Eq, Hash, Structural)]
pub enum IpAddr {
    /// A version 4 address.
    V4(u32),
    /// A version 6 address.
    V6(u128),
}

/// An Internet socket address. The flow information and the scope are those of a
/// version 6 address, and zero beside a version 4 address.
#[derive(Debug, Clone, Copy, Eq, Hash)]
pub struct SocketAddr {
    /// The address of the host.
    pub ip: IpAddr,
    /// The port.
    pub port: u16,
    /// The flow information.
    pub flowinfo: u32,
    /// The scope.
    pub scope_id: u32,
}

impl PartialEq for SocketAddr {
    fn eq(&self, other: &Self) -> (r: bool) {
        self.ip == other.ip && self.port == other.port && self.flowinfo == other.flowinfo
            && self.scope_id == other.scope_id
    }
}

impl vstd::std_specs::cmp::PartialEqSpecImpl for SocketAddr {
    open spec fn obeys_eq_spec() -> bool {
        true
    }

    open spec fn eq_spec(&self, other: &Self) -> bool {
        self.ip == other.ip && self.port == other.port && self.flowinfo == other.flowinfo
            && self.scope_id == other.scope_id
    }
}

impl RemoteAddr for SocketAddr {
    open spec fn is_same_host(&self, other: &Self) -> bool {
        self.ip == other.ip
    }

    fn same_host(&self, other: &Self) -> (r: bool) {
        self.ip == other.ip
    }
}

/// Socket addresses can key sessions.
pub proof fn socket_addr_lawful()
    ensures
        lawful::<SocketAddr>(),
{
}

} // verus!
