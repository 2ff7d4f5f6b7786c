//! What the parser records about a URI reference.

use crate::ip::{Ipv4Addr, Ipv6Addr};
use vstd::prelude::*;

verus! {

/// The kind of a host, with the address it denotes if it is an IP address.
pub enum HostSpec {
    /// An IPv4 address, by its four octets.
    Ipv4(Seq<u8>),
    /// An IPv6 address, by its eight segments.
    Ipv6(Seq<u16>),
    /// An IP address of a future version.
    IpvFuture,
    /// A registered name.
    RegName,
}

/// The classification of a host, as recorded at parse time.
#[derive(Clone, Copy, Debug)]
pub enum HostMeta {
    /// An IPv4 address.
    Ipv4(Ipv4Addr),
    /// An IPv6 address.
    Ipv6(Ipv6Addr),
    /// An IP address of a future version.
    IpvFuture,
    /// A registered name.
    RegName,
}

impl View for HostMeta {
    type V = HostSpec;

    open spec fn view(&self) -> HostSpec {
        match *self {
            HostMeta::Ipv4(a) => HostSpec::Ipv4(a@),
            HostMeta::Ipv6(a) => HostSpec::Ipv6(a@),
            HostMeta::IpvFuture => HostSpec::IpvFuture,
            HostMeta::RegName => HostSpec::RegName,
        }
    }
}

/// Where the host lies within an authority, and what it is.
#[derive(Clone, Copy, Debug)]
pub struct AuthMeta {
    /// The byte offsets at which the host starts and ends.
    pub host_bounds: (usize, usize),
    /// The classification of the host.
    pub host_meta: HostMeta,
}

/// The byte ranges of the components of a URI reference.
pub struct Parts {
    /// The scheme, without its colon.
    pub scheme: Option<(int, int)>,
    /// The authority, without the two slashes before it.
    pub authority: Option<(int, int)>,
    /// The path.
    pub path: (int, int),
    /// The query, without its question mark.
    pub query: Option<(int, int)>,
    /// The fragment, without its number sign.
    pub fragment: Option<(int, int)>,
}

/// The byte ranges of the components of a URI reference, as recorded at
/// parse time, with what is known about the authority.
#[derive(Clone, Copy, Debug)]
pub struct Meta {
    /// The scheme, without its colon.
    pub scheme: Option<(usize, usize)>,
    /// The authority, without the two slashes before it.
    pub authority: Option<(usize, usize)>,
    /// The host of the authority, if there is an authority.
    pub auth_meta: Option<AuthMeta>,
    /// The path.
    pub path: (usize, usize),
    /// The query, without its question mark.
    pub query: Option<(usize, usize)>,
    /// The fragment, without its number sign.
    pub fragment: Option<(usize, usize)>,
}

/// A recorded range as a range of integers.
pub open spec fn range_of(r: Option<(usize, usize)>) -> Option<(int, int)> {
    match r {
        Some((a, b)) => Some((a as int, b as int)),
        None => None,
    }
}

impl View for Meta {
    type V = Parts;

    open spec fn view(&self) -> Parts {
        Parts {
            scheme: range_of(self.scheme),
            authority: range_of(self.authority),
            path: (self.path.0 as int, self.path.1 as int),
            query: range_of(self.query),
            fragment: range_of(self.fragment),
        }
    }
}

} // verus!
