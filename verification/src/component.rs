//! Components of URI reference.

use crate::encoding::encoder::{Port, RegName, Userinfo};
use crate::encoding::table::{digit_spec, is_digit};
use crate::encoding::{decode_spec, EStr};
use crate::error::PortError;
use crate::internal::{AuthMeta, HostMeta, HostSpec};
use crate::ip::{Ipv4Addr, Ipv6Addr};
use crate::parser::{
    check_scheme, classify_host, host_bounds, is_authority, is_scheme, lemma_authority_is_ascii,
    lemma_host_bounds, lemma_scheme_is_ascii, lemma_validates_plain,
};
use crate::text::{ascii_slice, lemma_ascii_bytes, lemma_ascii_of_bytes};
use core::num::ParseIntError;
use vstd::prelude::*;
use vstd::std_specs::cmp::PartialEqSpecImpl;
use vstd::string::*;
use vstd::utf8::{decode_utf8, valid_utf8};

verus! {

/// The lower-case form of a byte: itself unless it is an upper-case letter.
pub open spec fn to_lower(x: u8) -> u8 {
    if 0x41 <= x <= 0x5a {
        (x + 0x20) as u8
    } else {
        x
    }
}

/// Whether two byte strings are equal when the case of ASCII letters is ignored.
pub open spec fn eq_ignore_case(a: Seq<u8>, b: Seq<u8>) -> bool {
    a.len() == b.len() && forall|i: int| 0 <= i < a.len() ==> to_lower(a[i]) == to_lower(b[i])
}

/// The scheme component of URI reference.
///
/// Schemes are compared case-insensitively; `as_str` gives the text as it
/// was written.
#[derive(Clone, Copy, Debug)]
pub struct Scheme<'a> {
    inner: &'a str,
}

impl<'a> View for Scheme<'a> {
    type V = Seq<u8>;

    closed spec fn view(&self) -> Seq<u8> {
        self.inner.spec_bytes()
    }
}

impl<'a> Scheme<'a> {
    #[verifier::type_invariant]
    closed spec fn inv(&self) -> bool {
        is_ascii(self.inner) && is_scheme(self.inner.spec_bytes())
    }

    /// Wraps a string slice that is already known to be a scheme name.
    pub(crate) fn new_validated(scheme: &'a str) -> (r: Scheme<'a>)
        requires
            is_scheme(scheme.spec_bytes()),
        ensures
            r@ == scheme.spec_bytes(),
    {
        proof {
            lemma_scheme_is_ascii(scheme.spec_bytes());
            lemma_ascii_of_bytes(scheme);
        }
        Scheme { inner: scheme }
    }

    /// Converts a string slice that is a valid scheme name to a `Scheme`.
    pub fn new_or_panic(s: &'a str) -> (r: Scheme<'a>)
        requires
            is_scheme(s.spec_bytes()),
        ensures
            r@ == s.spec_bytes(),
    {
        match Self::new(s) {
            Some(scheme) => scheme,
            None => unreached(),
        }
    }

    /// Converts a string slice to a `Scheme`, returning `None` if it is not
    /// a valid scheme name.
    pub fn new(s: &'a str) -> (r: Option<Scheme<'a>>)
        ensures
            r is Some <==> is_scheme(s.spec_bytes()),
            r matches Some(scheme) ==> scheme@ == s.spec_bytes(),
    {
        if check_scheme(s.as_bytes(), &crate::encoding::table::scheme()) {
            Some(Scheme::new_validated(s))
        } else {
            None
        }
    }

    /// Returns the scheme component as a string slice.
    pub fn as_str(&self) -> (r: &'a str)
        ensures
            r.spec_bytes() == self@,
            is_ascii(r),
            is_scheme(self@),
    {
        proof {
            use_type_invariant(self);
        }
        self.inner
    }
}

impl<'a> PartialEq for Scheme<'a> {
    fn eq(&self, other: &Self) -> (r: bool) {
        let a = self.inner.as_bytes();
        let b = other.inner.as_bytes();
        if a.len() != b.len() {
            return false;
        }
        let mut i: usize = 0;
        while i < a.len()
            invariant
                i <= a@.len() == b@.len(),
                a@ == self@,
                b@ == other@,
                forall|j: int| 0 <= j < i ==> to_lower(a@[j]) == to_lower(b@[j]),
            decreases a@.len() - i,
        {
            if lower(a[i]) != lower(b[i]) {
                return false;
            }
            i += 1;
        }
        true
    }
}

impl<'a> PartialEqSpecImpl for Scheme<'a> {
    open spec fn obeys_eq_spec() -> bool {
        true
    }

    open spec fn eq_spec(&self, other: &Scheme<'a>) -> bool {
        eq_ignore_case(self@, other@)
    }
}

impl<'a> Eq for Scheme<'a> {

}

/// The lower-case form of a byte.
pub fn lower(x: u8) -> (r: u8)
    ensures
        r == to_lower(x),
{
    if x >= 'A' as u8 && x <= 'Z' as u8 {
        x + 0x20
    } else {
        x
    }
}

/// The userinfo of an authority: what stands before the `@` that ends it.
pub open spec fn userinfo_of(a: Seq<u8>) -> Option<Seq<u8>> {
    match host_bounds(a) {
        Some((start, _)) => if start > 0 {
            Some(a.subrange(0, start - 1))
        } else {
            None
        },
        None => None,
    }
}

/// The host of an authority, with the brackets of an IP literal.
pub open spec fn host_of(a: Seq<u8>) -> Seq<u8> {
    match host_bounds(a) {
        Some((start, end)) => a.subrange(start, end),
        None => Seq::empty(),
    }
}

/// The port of an authority: what follows the colon after the host.
pub open spec fn port_of(a: Seq<u8>) -> Option<Seq<u8>> {
    match host_bounds(a) {
        Some((_, end)) => if end < a.len() {
            Some(a.subrange(end + 1, a.len() as int))
        } else {
            None
        },
        None => None,
    }
}

/// The number that a string of decimal digits denotes.
pub open spec fn decimal_value(s: Seq<u8>) -> nat
    decreases s.len(),
{
    if s.len() == 0 {
        0
    } else {
        decimal_value(s.drop_last()) * 10 + (s.last() - 0x30) as nat
    }
}

/// Whether `s` is a non-empty string of decimal digits.
pub open spec fn is_decimal(s: Seq<u8>) -> bool {
    s.len() > 0 && forall|i: int| 0 <= i < s.len() ==> is_digit(#[trigger] s[i])
}

/// The error of a conversion from text to an integer.
#[verifier::external_type_specification]
#[verifier::external_body]
pub struct ExParseIntError(core::num::ParseIntError);

/// `str::parse::<u16>`: for a non-empty string of decimal digits it gives the
/// number they denote if that is at most `u16::MAX`, and an error if it is
/// more. Nothing is claimed for other strings.
#[verifier::external_body]
fn parse_u16(s: &str) -> (r: Result<u16, ParseIntError>)
    ensures
        is_decimal(s.spec_bytes()) ==> (r is Ok <==> decimal_value(s.spec_bytes()) <= u16::MAX),
        is_decimal(s.spec_bytes()) ==> (r matches Ok(v) ==> v == decimal_value(s.spec_bytes())),
{
    s.parse::<u16>()
}

/// The parsed host component of URI reference.
#[derive(Clone, Copy, Debug)]
pub enum Host<'a> {
    /// An IPv4 address.
    Ipv4(Ipv4Addr),
    /// An IPv6 address.
    Ipv6(Ipv6Addr),
    /// An IP address of future version.
    IpvFuture,
    /// A registered name.
    ///
    /// Note that registered names are case-insensitive.
    RegName(EStr<'a, RegName>),
}

/// What a [`Host`] holds.
pub enum HostView {
    /// An IPv4 address, by its four octets.
    Ipv4(Seq<u8>),
    /// An IPv6 address, by its eight segments.
    Ipv6(Seq<u16>),
    /// An IP address of future version.
    IpvFuture,
    /// A registered name, by its text.
    RegName(Seq<u8>),
}

impl<'a> View for Host<'a> {
    type V = HostView;

    open spec fn view(&self) -> HostView {
        match *self {
            Host::Ipv4(a) => HostView::Ipv4(a@),
            Host::Ipv6(a) => HostView::Ipv6(a@),
            Host::IpvFuture => HostView::IpvFuture,
            Host::RegName(name) => HostView::RegName(name@),
        }
    }
}

/// The parsed host of an authority text.
pub open spec fn host_parsed_of(a: Seq<u8>) -> Option<HostView> {
    match classify_host(host_of(a)) {
        Some(HostSpec::Ipv4(o)) => Some(HostView::Ipv4(o)),
        Some(HostSpec::Ipv6(g)) => Some(HostView::Ipv6(g)),
        Some(HostSpec::IpvFuture) => Some(HostView::IpvFuture),
        Some(HostSpec::RegName) => Some(HostView::RegName(host_of(a))),
        None => None,
    }
}

/// The authority component of URI reference.
#[derive(Clone, Copy, Debug)]
pub struct Authority<'a> {
    val: &'a str,
    meta: AuthMeta,
}

impl<'a> View for Authority<'a> {
    type V = Seq<u8>;

    closed spec fn view(&self) -> Seq<u8> {
        self.val.spec_bytes()
    }
}

/// Whether `meta` records the host of the authority `a`.
pub open spec fn auth_meta_matches(meta: AuthMeta, a: Seq<u8>) -> bool {
    &&& host_bounds(a) == Some((meta.host_bounds.0 as int, meta.host_bounds.1 as int))
    &&& classify_host(host_of(a)) == Some(meta.host_meta@)
}

impl<'a> Authority<'a> {
    #[verifier::type_invariant]
    closed spec fn inv(&self) -> bool {
        &&& is_ascii(self.val)
        &&& is_authority(self.val.spec_bytes())
        &&& auth_meta_matches(self.meta, self.val.spec_bytes())
    }

    /// Puts together an authority that is known to be valid and what is
    /// known about its host.
    pub(crate) fn new(val: &'a str, meta: AuthMeta) -> (r: Authority<'a>)
        requires
            is_authority(val.spec_bytes()),
            auth_meta_matches(meta, val.spec_bytes()),
        ensures
            r@ == val.spec_bytes(),
    {
        proof {
            lemma_authority_is_ascii(val.spec_bytes());
            lemma_ascii_of_bytes(val);
        }
        Authority { val, meta }
    }

    /// An empty authority component.
    pub fn empty() -> (r: Authority<'static>)
        ensures
            r@ == Seq::<u8>::empty(),
    {
        let val = "";
        let meta = AuthMeta { host_bounds: (0, 0), host_meta: HostMeta::RegName };
        proof {
            reveal_strlit("");
            lemma_ascii_bytes(val);
            let a = val.spec_bytes();
            assert(a =~= Seq::<u8>::empty());
            assert(host_of(a) =~= Seq::<u8>::empty());
        }
        Authority::new(val, meta)
    }

    /// What was recorded about the host.
    pub(crate) fn meta(&self) -> (r: AuthMeta)
        ensures
            auth_meta_matches(r, self@),
    {
        proof {
            use_type_invariant(self);
        }
        self.meta
    }

    /// Returns the authority component as a string slice.
    pub fn as_str(&self) -> (r: &'a str)
        ensures
            r.spec_bytes() == self@,
            is_ascii(r),
            is_authority(self@),
    {
        proof {
            use_type_invariant(self);
        }
        self.val
    }

    /// Returns the optional userinfo subcomponent.
    pub fn userinfo(&self) -> (r: Option<EStr<'a, Userinfo>>)
        ensures
            r is Some == userinfo_of(self@) is Some,
            r matches Some(u) ==> Some(u@) == userinfo_of(self@),
    {
        proof {
            use_type_invariant(self);
            lemma_host_bounds(self@);
        }
        let host_start = self.meta.host_bounds.0;
        if host_start != 0 {
            Some(EStr::new_validated(ascii_slice(self.val, 0, host_start - 1)))
        } else {
            None
        }
    }

    /// Returns the host subcomponent as a string slice.
    ///
    /// The host subcomponent is always present, although it may be empty.
    /// The square brackets enclosing an IPv6 or IPvFuture address are
    /// included.
    pub fn host(&self) -> (r: &'a str)
        ensures
            r.spec_bytes() == host_of(self@),
            is_ascii(r),
    {
        proof {
            use_type_invariant(self);
            lemma_host_bounds(self@);
        }
        let (start, end) = self.meta.host_bounds;
        ascii_slice(self.val, start, end)
    }

    /// Returns the parsed host subcomponent.
    pub fn host_parsed(&self) -> (r: Host<'a>)
        ensures
            Some(r@) == host_parsed_of(self@),
    {
        proof {
            use_type_invariant(self);
            lemma_host_bounds(self@);
        }
        match self.meta.host_meta {
            HostMeta::Ipv4(addr) => Host::Ipv4(addr),
            HostMeta::Ipv6(addr) => Host::Ipv6(addr),
            HostMeta::IpvFuture => Host::IpvFuture,
            HostMeta::RegName => Host::RegName(EStr::new_validated(self.host())),
        }
    }

    /// Returns the optional port subcomponent.
    ///
    /// Note that the port may be empty, with leading zeros, or larger than
    /// `u16::MAX`.
    pub fn port(&self) -> (r: Option<EStr<'a, Port>>)
        ensures
            r is Some == port_of(self@) is Some,
            r matches Some(p) ==> Some(p@) == port_of(self@),
    {
        proof {
            use_type_invariant(self);
            lemma_host_bounds(self@);
            lemma_ascii_bytes(self.val);
        }
        let host_end = self.meta.host_bounds.1;
        let n = self.val.as_bytes().len();
        if host_end != n {
            Some(EStr::new_validated(ascii_slice(self.val, host_end + 1, n)))
        } else {
            None
        }
    }

    /// Converts the port subcomponent to `u16`, if present and nonempty.
    ///
    /// Returns `Ok(None)` if the port is not present or is empty. Leading
    /// zeros are ignored. Returns `Err` if the port is more than `u16::MAX`.
    pub fn port_to_u16(&self) -> (r: Result<Option<u16>, PortError>)
        ensures
            r == match port_number_of(self@) {
                PortNumber::Absent => Ok::<Option<u16>, PortError>(None),
                PortNumber::Number(v) => Ok(Some(v)),
                PortNumber::TooLarge => Err(PortError {  }),
            },
    {
        match self.port() {
            Some(p) => {
                if p.is_empty() {
                    Ok(None)
                } else {
                    proof {
                        lemma_validates_plain(digit_spec(), p@, 0);
                    }
                    match parse_u16(p.as_str()) {
                        Ok(v) => Ok(Some(v)),
                        Err(_) => Err(PortError {  }),
                    }
                }
            },
            None => Ok(None),
        }
    }

    /// Finds where the authority points: the host as an address or a
    /// decoded name, with the port, or `default_port` if the port is not
    /// present or is empty.
    pub fn endpoint(&self, default_port: u16) -> (r: Result<Endpoint, EndpointError>)
        ensures
            r matches Ok(e) ==> endpoint_of(self@, default_port) == Ok::<
                EndpointView,
                EndpointError,
            >(e@),
            r matches Err(e) ==> endpoint_of(self@, default_port) == Err::<
                EndpointView,
                EndpointError,
            >(e),
    {
        let port = match self.port_to_u16() {
            Ok(Some(port)) => port,
            Ok(None) => default_port,
            Err(_) => {
                return Err(EndpointError::InvalidPort);
            },
        };
        match self.host_parsed() {
            Host::Ipv4(addr) => Ok(Endpoint::Ipv4(addr, port)),
            Host::Ipv6(addr) => Ok(Endpoint::Ipv6(addr, port)),
            Host::IpvFuture => Err(EndpointError::UnsupportedAddress),
            Host::RegName(name) => match name.decode_to_string() {
                Ok(name) => Ok(Endpoint::Name(name, port)),
                Err(_) => Err(EndpointError::NameNotUtf8),
            },
        }
    }

    /// Checks whether the authority component contains a userinfo subcomponent.
    pub fn has_userinfo(&self) -> (r: bool)
        ensures
            r == userinfo_of(self@) is Some,
    {
        proof {
            use_type_invariant(self);
            lemma_host_bounds(self@);
        }
        self.meta.host_bounds.0 != 0
    }

    /// Checks whether the authority component contains a port subcomponent.
    pub fn has_port(&self) -> (r: bool)
        ensures
            r == port_of(self@) is Some,
    {
        proof {
            use_type_invariant(self);
            lemma_host_bounds(self@);
        }
        self.meta.host_bounds.1 != self.val.as_bytes().len()
    }
}

/// Where an authority points: an IP address or a host name, with a port.
#[derive(Debug, PartialEq, Eq)]
pub enum Endpoint {
    /// An IPv4 address and a port.
    Ipv4(Ipv4Addr, u16),
    /// An IPv6 address and a port.
    Ipv6(Ipv6Addr, u16),
    /// A host name, decoded, and a port.
    Name(String, u16),
}

/// What an [`Endpoint`] holds.
pub enum EndpointView {
    /// The four octets of an IPv4 address and a port.
    Ipv4(Seq<u8>, u16),
    /// The eight segments of an IPv6 address and a port.
    Ipv6(Seq<u16>, u16),
    /// A host name and a port.
    Name(Seq<char>, u16),
}

impl View for Endpoint {
    type V = EndpointView;

    open spec fn view(&self) -> EndpointView {
        match *self {
            Endpoint::Ipv4(a, port) => EndpointView::Ipv4(a@, port),
            Endpoint::Ipv6(a, port) => EndpointView::Ipv6(a@, port),
            Endpoint::Name(name, port) => EndpointView::Name(name@, port),
        }
    }
}

/// Why an authority points nowhere.
#[derive(Clone, Copy, Debug, PartialEq, Eq)]
pub enum EndpointError {
    /// The port is more than `u16::MAX`.
    InvalidPort,
    /// The host is an IP address of a future version.
    UnsupportedAddress,
    /// The registered name does not decode to valid UTF-8.
    NameNotUtf8,
}

/// Where an authority text points, with `default_port` where it has no port
/// or an empty one. A port that is too large is an error, whatever the host;
/// then an IP address of a future version is one; a registered name is
/// decoded and must then be valid UTF-8.
pub open spec fn endpoint_of(a: Seq<u8>, default_port: u16) -> Result<
    EndpointView,
    EndpointError,
> {
    let port = match port_number_of(a) {
        PortNumber::Number(v) => v,
        _ => default_port,
    };
    if port_number_of(a) is TooLarge {
        Err(EndpointError::InvalidPort)
    } else {
        match host_parsed_of(a) {
            Some(HostView::Ipv4(o)) => Ok(EndpointView::Ipv4(o, port)),
            Some(HostView::Ipv6(g)) => Ok(EndpointView::Ipv6(g, port)),
            Some(HostView::RegName(name)) => if valid_utf8(decode_spec(name)) {
                Ok(EndpointView::Name(decode_utf8(decode_spec(name)), port))
            } else {
                Err(EndpointError::NameNotUtf8)
            },
            _ => Err(EndpointError::UnsupportedAddress),
        }
    }
}

/// What the port of an authority says as a number.
pub enum PortNumber {
    /// There is no port, or it is empty.
    Absent,
    /// The port denotes this number.
    Number(u16),
    /// The port denotes a number above `u16::MAX`.
    TooLarge,
}

/// The port of an authority text as a number.
pub open spec fn port_number_of(a: Seq<u8>) -> PortNumber {
    match port_of(a) {
        Some(p) => if p.len() == 0 {
            PortNumber::Absent
        } else if decimal_value(p) <= u16::MAX {
            PortNumber::Number(decimal_value(p) as u16)
        } else {
            PortNumber::TooLarge
        },
        None => PortNumber::Absent,
    }
}

} // verus!
