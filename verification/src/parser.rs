//! The grammar of URI references and the parser that checks a text against
//! it and finds the bounds of its components.
//!
//! A URI reference falls into its components at fixed marks: the scheme ends
//! at a colon that comes before any slash, question mark or number sign; an
//! authority follows two slashes and ends before the next slash, question
//! mark or number sign; the path ends before the first question mark or
//! number sign; the query ends before the first number sign; the fragment is
//! the rest. The text is a URI reference if each component found this way
//! follows the grammar of its kind.

use crate::encoding::table::{
    digit, digit_spec, fragment, fragment_spec, ipv_future, ipv_future_spec, is_alpha,
    is_scheme_char, path, path_spec, query, query_spec, reg_name, reg_name_spec, scheme,
    scheme_spec, userinfo, userinfo_spec, Table, TableSpec,
};
use crate::error::{Component, ParseError};
use crate::internal::{AuthMeta, HostMeta, HostSpec, Meta, Parts};
use crate::ip::{
    check_ipv_future, colon, ipv4_octets, ipv6_segments, is_ipv_future, lemma_ipv4_is_ascii,
    lemma_ipv6_is_ascii, lemma_ipv_future_is_ascii, parse_v4, parse_v6,
};
use crate::text::{all_ascii, find_first_of, first_of, lemma_first_of};
use vstd::prelude::*;
use vstd::slice::slice_subrange;

verus! {

/// The stop set `@`.
pub open spec fn at_sign() -> Seq<u8> {
    seq!['@' as u8]
}

/// The stop set `]`.
pub open spec fn closing_bracket() -> Seq<u8> {
    seq![']' as u8]
}

/// The marks one of which ends a scheme, or shows that there is none.
pub open spec fn scheme_stops() -> Seq<u8> {
    seq![':' as u8, '/' as u8, '?' as u8, '#' as u8]
}

/// The marks that end an authority.
pub open spec fn authority_stops() -> Seq<u8> {
    seq!['/' as u8, '?' as u8, '#' as u8]
}

/// The marks that end a path.
pub open spec fn path_stops() -> Seq<u8> {
    seq!['?' as u8, '#' as u8]
}

/// The mark that ends a query.
pub open spec fn query_stops() -> Seq<u8> {
    seq!['#' as u8]
}

/// `scheme = ALPHA *( ALPHA / DIGIT / "+" / "-" / "." )`
pub open spec fn is_scheme(s: Seq<u8>) -> bool {
    &&& s.len() > 0
    &&& is_alpha(s[0])
    &&& forall|i: int| 1 <= i < s.len() ==> is_scheme_char(#[trigger] s[i])
}

/// What a host is: an IP literal if it is enclosed in brackets, and then an
/// IPv6 or an IPvFuture address; else an IPv4 address if the whole of it is
/// one; else a registered name. `None` if it is none of these.
pub open spec fn classify_host(h: Seq<u8>) -> Option<HostSpec> {
    if h.len() >= 2 && h[0] == '[' as u8 && h.last() == ']' as u8 {
        let inner = h.subrange(1, h.len() - 1);
        match ipv6_segments(inner) {
            Some(a) => Some(HostSpec::Ipv6(a)),
            None => if is_ipv_future(inner) {
                Some(HostSpec::IpvFuture)
            } else {
                None
            },
        }
    } else {
        match ipv4_octets(h) {
            Some(a) => Some(HostSpec::Ipv4(a)),
            None => if reg_name_spec().validates(h) {
                Some(HostSpec::RegName)
            } else {
                None
            },
        }
    }
}

/// Where the host lies in an authority. It starts after the first `@`, or
/// at the start if there is none. If it opens with a bracket it ends with
/// the first closing bracket, which the end or a colon must follow; else it
/// ends before the first colon. `None` if a bracket is not closed so.
pub open spec fn host_bounds(a: Seq<u8>) -> Option<(int, int)> {
    let at = first_of(a, 0, at_sign());
    let start = if at < a.len() {
        at + 1
    } else {
        0
    };
    if start < a.len() && a[start] == '[' as u8 {
        let close = first_of(a, start, closing_bracket());
        if close < a.len() && (close + 1 == a.len() || a[close + 1] == ':' as u8) {
            Some((start, close + 1))
        } else {
            None
        }
    } else {
        Some((start, first_of(a, start, colon())))
    }
}

/// `authority = [ userinfo "@" ] host [ ":" port ]`
pub open spec fn is_authority(a: Seq<u8>) -> bool {
    match host_bounds(a) {
        Some((start, end)) => {
            &&& start > 0 ==> userinfo_spec().validates(a.subrange(0, start - 1))
            &&& classify_host(a.subrange(start, end)) is Some
            &&& end < a.len() ==> digit_spec().validates(a.subrange(end + 1, a.len() as int))
        },
        None => false,
    }
}

/// The range of the scheme: what stands before a colon that comes before any
/// slash, question mark or number sign.
pub open spec fn scheme_range(s: Seq<u8>) -> Option<(int, int)> {
    let c = first_of(s, 0, scheme_stops());
    if c < s.len() && s[c] == ':' as u8 {
        Some((0, c))
    } else {
        None
    }
}

/// Where the part after the scheme starts.
pub open spec fn hier_start(s: Seq<u8>) -> int {
    match scheme_range(s) {
        Some((_, c)) => c + 1,
        None => 0,
    }
}

/// The range of the authority: what follows two slashes after the scheme, up
/// to the next slash, question mark or number sign.
pub open spec fn authority_range(s: Seq<u8>) -> Option<(int, int)> {
    let h = hier_start(s);
    if h + 1 < s.len() && s[h] == '/' as u8 && s[h + 1] == '/' as u8 {
        Some((h + 2, first_of(s, h + 2, authority_stops())))
    } else {
        None
    }
}

/// The range of the path: from the end of what precedes it to the first
/// question mark or number sign.
pub open spec fn path_range(s: Seq<u8>) -> (int, int) {
    let start = match authority_range(s) {
        Some((_, e)) => e,
        None => hier_start(s),
    };
    (start, first_of(s, start, path_stops()))
}

/// The range of the query: what follows a question mark after the path, up
/// to the first number sign.
pub open spec fn query_range(s: Seq<u8>) -> Option<(int, int)> {
    let p = path_range(s).1;
    if p < s.len() && s[p] == '?' as u8 {
        Some((p + 1, first_of(s, p + 1, query_stops())))
    } else {
        None
    }
}

/// The range of the fragment: what follows the number sign, if there is one
/// after the query or the path.
pub open spec fn fragment_range(s: Seq<u8>) -> Option<(int, int)> {
    let q = match query_range(s) {
        Some((_, e)) => e,
        None => path_range(s).1,
    };
    if q < s.len() {
        Some((q + 1, s.len() as int))
    } else {
        None
    }
}

/// The ranges of all components.
pub open spec fn parts(s: Seq<u8>) -> Parts {
    Parts {
        scheme: scheme_range(s),
        authority: authority_range(s),
        path: path_range(s),
        query: query_range(s),
        fragment: fragment_range(s),
    }
}

/// The part of `s` in an optional range.
pub open spec fn slice_opt(s: Seq<u8>, r: Option<(int, int)>) -> Option<Seq<u8>> {
    match r {
        Some((a, b)) => Some(s.subrange(a, b)),
        None => None,
    }
}

/// Whether the part of `s` in an optional range, if there is one, follows `t`.
pub open spec fn part_validates(t: TableSpec, s: Seq<u8>, r: Option<(int, int)>) -> bool {
    match r {
        Some((a, b)) => t.validates(s.subrange(a, b)),
        None => true,
    }
}

/// `URI-reference = URI / relative-ref`: each component that `s` falls into
/// follows its grammar.
pub open spec fn is_uri_reference(s: Seq<u8>) -> bool {
    &&& match scheme_range(s) {
        Some((a, b)) => is_scheme(s.subrange(a, b)),
        None => true,
    }
    &&& match authority_range(s) {
        Some((a, b)) => is_authority(s.subrange(a, b)),
        None => true,
    }
    &&& path_spec().validates(s.subrange(path_range(s).0, path_range(s).1))
    &&& part_validates(query_spec(), s, query_range(s))
    &&& part_validates(fragment_spec(), s, fragment_range(s))
}

/// The first component of `s`, in the order in which they stand, that does
/// not follow its grammar, with the index at which it starts; `None` if all
/// of them do.
pub open spec fn first_invalid(s: Seq<u8>) -> Option<(Component, int)> {
    if scheme_range(s) is Some && !is_scheme(scheme_of(s).unwrap()) {
        Some((Component::Scheme, 0))
    } else if authority_range(s) is Some && !is_authority(authority_of(s).unwrap()) {
        Some((Component::Authority, authority_range(s).unwrap().0))
    } else if !path_spec().validates(path_of(s)) {
        Some((Component::Path, path_range(s).0))
    } else if !part_validates(query_spec(), s, query_range(s)) {
        Some((Component::Query, query_range(s).unwrap().0))
    } else if !part_validates(fragment_spec(), s, fragment_range(s)) {
        Some((Component::Fragment, fragment_range(s).unwrap().0))
    } else {
        None
    }
}

/// A text is a URI reference if and only if none of its components is invalid.
pub proof fn lemma_first_invalid(s: Seq<u8>)
    ensures
        is_uri_reference(s) <==> first_invalid(s) is None,
{
}

/// The host of a URI reference's authority, if it has one: its bounds within
/// the authority, and what it is.
pub open spec fn authority_host(s: Seq<u8>) -> Option<((int, int), HostSpec)> {
    match authority_range(s) {
        Some((a, b)) => match host_bounds(s.subrange(a, b)) {
            Some((hs, he)) => match classify_host(s.subrange(a, b).subrange(hs, he)) {
                Some(k) => Some(((hs, he), k)),
                None => None,
            },
            None => None,
        },
        None => None,
    }
}

/// The text of a URI reference with the given components: the scheme with a
/// colon after it, the authority with two slashes before it, the path, the
/// query with a question mark before it and the fragment with a number sign
/// before it, each only if it is there.
pub open spec fn assemble(
    scheme: Option<Seq<u8>>,
    authority: Option<Seq<u8>>,
    path: Seq<u8>,
    query: Option<Seq<u8>>,
    fragment: Option<Seq<u8>>,
) -> Seq<u8> {
    (match scheme {
        Some(s) => s.push(':' as u8),
        None => Seq::empty(),
    }) + (match authority {
        Some(a) => seq!['/' as u8, '/' as u8] + a,
        None => Seq::empty(),
    }) + path + (match query {
        Some(q) => seq!['?' as u8] + q,
        None => Seq::empty(),
    }) + (match fragment {
        Some(f) => seq!['#' as u8] + f,
        None => Seq::empty(),
    })
}

/// The scheme of a URI reference.
pub open spec fn scheme_of(s: Seq<u8>) -> Option<Seq<u8>> {
    slice_opt(s, scheme_range(s))
}

/// The authority of a URI reference.
pub open spec fn authority_of(s: Seq<u8>) -> Option<Seq<u8>> {
    slice_opt(s, authority_range(s))
}

/// The path of a URI reference.
pub open spec fn path_of(s: Seq<u8>) -> Seq<u8> {
    s.subrange(path_range(s).0, path_range(s).1)
}

/// The query of a URI reference.
pub open spec fn query_of(s: Seq<u8>) -> Option<Seq<u8>> {
    slice_opt(s, query_range(s))
}

/// The fragment of a URI reference.
pub open spec fn fragment_of(s: Seq<u8>) -> Option<Seq<u8>> {
    slice_opt(s, fragment_range(s))
}

/// The components lie in order within the text, and each mark stands where
/// the component after it begins.
pub proof fn lemma_parts_in_order(s: Seq<u8>)
    ensures
        match scheme_range(s) {
            Some((a, b)) => a == 0 && 0 <= b < s.len() && s[b] == ':' as u8 && hier_start(s) == b
                + 1,
            None => hier_start(s) == 0,
        },
        match authority_range(s) {
            Some((a, b)) => a == hier_start(s) + 2 && a <= b <= s.len() && s[a - 2] == '/' as u8
                && s[a - 1] == '/' as u8 && path_range(s).0 == b,
            None => path_range(s).0 == hier_start(s),
        },
        0 <= hier_start(s) <= path_range(s).0 <= path_range(s).1 <= s.len(),
        match query_range(s) {
            Some((a, b)) => a == path_range(s).1 + 1 && a <= b <= s.len() && s[a - 1] == '?' as u8,
            None => true,
        },
        match fragment_range(s) {
            Some((a, b)) => b == s.len() && a <= b && s[a - 1] == '#' as u8 && a - 1 == (
            match query_range(s) {
                Some((_, e)) => e,
                None => path_range(s).1,
            }),
            None => s.len() == (match query_range(s) {
                Some((_, e)) => e,
                None => path_range(s).1,
            }),
        },
{
    lemma_first_of(s, 0, scheme_stops());
    let h = hier_start(s);
    if h + 2 <= s.len() {
        lemma_first_of(s, h + 2, authority_stops());
    }
    let path_start = path_range(s).0;
    lemma_first_of(s, path_start, path_stops());
    let path_end = path_range(s).1;
    if path_end < s.len() {
        lemma_first_of(s, path_end + 1, query_stops());
        assert(path_stops().contains(s[path_end]));
        assert(path_stops()[0] == '?' as u8 && path_stops()[1] == '#' as u8);
    }
    match query_range(s) {
        Some((_, e)) => {
            if e < s.len() {
                assert(query_stops().contains(s[e]));
                assert(query_stops()[0] == '#' as u8);
            }
        },
        None => {},
    }
}

/// Reassembling the components that a text falls into gives the text back.
pub proof fn lemma_round_trip(s: Seq<u8>)
    ensures
        assemble(scheme_of(s), authority_of(s), path_of(s), query_of(s), fragment_of(s)) == s,
{
    lemma_parts_in_order(s);
    let n = s.len() as int;
    let h = hier_start(s);
    let (path_start, path_end) = path_range(s);
    let q = match query_range(s) {
        Some((_, e)) => e,
        None => path_end,
    };
    let scheme_part = match scheme_of(s) {
        Some(x) => x.push(':' as u8),
        None => Seq::empty(),
    };
    let authority_part = match authority_of(s) {
        Some(a) => seq!['/' as u8, '/' as u8] + a,
        None => Seq::empty(),
    };
    let query_part = match query_of(s) {
        Some(x) => seq!['?' as u8] + x,
        None => Seq::empty(),
    };
    let fragment_part = match fragment_of(s) {
        Some(f) => seq!['#' as u8] + f,
        None => Seq::empty(),
    };
    assert(scheme_part =~= s.subrange(0, h));
    assert(authority_part =~= s.subrange(h, path_start));
    assert(query_part =~= s.subrange(path_end, q));
    assert(fragment_part =~= s.subrange(q, n));
    assert(s.subrange(0, h) + s.subrange(h, path_start) =~= s.subrange(0, path_start));
    assert(s.subrange(0, path_start) + s.subrange(path_start, path_end) =~= s.subrange(0, path_end));
    assert(s.subrange(0, path_end) + s.subrange(path_end, q) =~= s.subrange(0, q));
    assert(s.subrange(0, q) + s.subrange(q, n) =~= s);
}

/// The host lies within the authority, after the `@` that ends a userinfo
/// and before the colon that starts a port.
pub proof fn lemma_host_bounds(a: Seq<u8>)
    ensures
        match host_bounds(a) {
            Some((start, end)) => {
                &&& 0 <= start <= end <= a.len()
                &&& start > 0 ==> a[start - 1] == '@' as u8
                &&& end < a.len() ==> a[end] == ':' as u8
            },
            None => true,
        },
{
    lemma_first_of(a, 0, at_sign());
    let at = first_of(a, 0, at_sign());
    if at < a.len() {
        assert(at_sign().contains(a[at]));
        assert(at_sign()[0] == '@' as u8);
    }
    let start = if at < a.len() {
        at + 1
    } else {
        0
    };
    lemma_first_of(a, start, closing_bracket());
    lemma_first_of(a, start, colon());
    let c = first_of(a, start, colon());
    if c < a.len() {
        assert(colon().contains(a[c]));
        assert(colon()[0] == ':' as u8);
    }
}

/// A table without encoded octets validates exactly the strings of its bytes.
pub proof fn lemma_validates_plain(t: TableSpec, s: Seq<u8>, i: int)
    requires
        !t.enc,
        0 <= i,
    ensures
        t.validates_from(s, i) <==> forall|j: int|
            i <= j < s.len() ==> t.bytes.contains(#[trigger] s[j]),
    decreases s.len() - i,
{
    if i < s.len() {
        lemma_validates_plain(t, s, i + 1);
    }
}

/// Whether what was recorded about a text is what its grammar says.
pub open spec fn meta_matches(m: Meta, s: Seq<u8>) -> bool {
    &&& m@ == parts(s)
    &&& match (m.auth_meta, authority_host(s)) {
        (Some(am), Some((hb, k))) => am.host_bounds.0 == hb.0 && am.host_bounds.1 == hb.1
            && am.host_meta@ == k,
        (None, None) => true,
        _ => false,
    }
}

/// The content of [`Tables`]: what each of its tables allows.
pub struct TablesSpec {
    /// The characters of a scheme after its first letter.
    pub scheme: TableSpec,
    /// The userinfo of an authority.
    pub userinfo: TableSpec,
    /// A host that is a registered name.
    pub reg_name: TableSpec,
    /// The last part of an IPvFuture address.
    pub ipv_future: TableSpec,
    /// The port of an authority.
    pub port: TableSpec,
    /// The path.
    pub path: TableSpec,
    /// The query.
    pub query: TableSpec,
    /// The fragment.
    pub fragment: TableSpec,
}

/// The tables of the grammar of URI references: for each kind of component
/// the predefined table of its grammar.
pub open spec fn grammar_tables() -> TablesSpec {
    TablesSpec {
        scheme: scheme_spec(),
        userinfo: userinfo_spec(),
        reg_name: reg_name_spec(),
        ipv_future: ipv_future_spec(),
        port: digit_spec(),
        path: path_spec(),
        query: query_spec(),
        fragment: fragment_spec(),
    }
}

/// The tables that a text is checked against, one for each kind of
/// component. They are built once and serve for any number of texts.
pub struct Tables {
    scheme: Table,
    userinfo: Table,
    reg_name: Table,
    ipv_future: Table,
    port: Table,
    path: Table,
    query: Table,
    fragment: Table,
}

impl View for Tables {
    type V = TablesSpec;

    closed spec fn view(&self) -> TablesSpec {
        TablesSpec {
            scheme: self.scheme@,
            userinfo: self.userinfo@,
            reg_name: self.reg_name@,
            ipv_future: self.ipv_future@,
            port: self.port@,
            path: self.path@,
            query: self.query@,
            fragment: self.fragment@,
        }
    }
}

impl Tables {
    #[verifier::type_invariant]
    closed spec fn inv(&self) -> bool {
        self@ == grammar_tables()
    }

    /// Builds the tables of the grammar of URI references.
    pub fn new() -> (r: Tables)
        ensures
            r@ == grammar_tables(),
    {
        Tables {
            scheme: scheme(),
            userinfo: userinfo(),
            reg_name: reg_name(),
            ipv_future: ipv_future(),
            port: digit(),
            path: path(),
            query: query(),
            fragment: fragment(),
        }
    }
}

/// Checks that the whole of `s` is a scheme name, reading the characters
/// allowed after its first letter from `tail_chars`.
pub(crate) fn check_scheme(s: &[u8], tail_chars: &Table) -> (r: bool)
    requires
        tail_chars@ == scheme_spec(),
    ensures
        r == is_scheme(s@),
{
    let n = s.len();
    if n == 0 {
        return false;
    }
    let first = s[0];
    let letter = (first >= 'A' as u8 && first <= 'Z' as u8) || (first >= 'a' as u8 && first
        <= 'z' as u8);
    if !letter {
        return false;
    }
    let rest = slice_subrange(s, 1, n);
    let ok = tail_chars.validate(rest);
    proof {
        lemma_validates_plain(scheme_spec(), rest@, 0);
        if ok {
            assert forall|i: int| 1 <= i < s@.len() implies is_scheme_char(#[trigger] s@[i]) by {
                assert(rest@[i - 1] == s@[i]);
            }
        } else {
            let j = choose|j: int| 0 <= j < rest@.len() && !scheme_spec().bytes.contains(rest@[j]);
            assert(rest@[j] == s@[j + 1]);
        }
    }
    ok
}

/// Classifies a host that takes up the whole of `h`.
pub fn parse_host(h: &[u8], tables: &Tables) -> (r: Option<HostMeta>)
    ensures
        r matches Some(m) ==> classify_host(h@) == Some(m@),
        r is None ==> classify_host(h@) is None,
{
    proof {
        use_type_invariant(tables);
    }
    let n = h.len();
    if n >= 2 && h[0] == '[' as u8 && h[n - 1] == ']' as u8 {
        let inner = slice_subrange(h, 1, n - 1);
        match parse_v6(inner) {
            Some(a) => Some(HostMeta::Ipv6(a)),
            None => if check_ipv_future(inner, &tables.ipv_future) {
                Some(HostMeta::IpvFuture)
            } else {
                None
            },
        }
    } else {
        match parse_v4(h) {
            Some(a) => Some(HostMeta::Ipv4(a)),
            None => if tables.reg_name.validate(h) {
                Some(HostMeta::RegName)
            } else {
                None
            },
        }
    }
}

/// Checks that the whole of `a` is an authority, and finds and classifies
/// its host.
pub fn parse_authority(a: &[u8], tables: &Tables) -> (r: Option<AuthMeta>)
    ensures
        r matches Some(m) ==> is_authority(a@) && host_bounds(a@) == Some(
            (m.host_bounds.0 as int, m.host_bounds.1 as int),
        ) && classify_host(a@.subrange(m.host_bounds.0 as int, m.host_bounds.1 as int)) == Some(
            m.host_meta@,
        ) && m.host_bounds.0 <= m.host_bounds.1 <= a@.len(),
        r is None ==> !is_authority(a@),
{
    proof {
        use_type_invariant(tables);
    }
    let n = a.len();
    let at_stop: [u8; 1] = ['@' as u8];
    let close_stop: [u8; 1] = [']' as u8];
    let colon_stop: [u8; 1] = [':' as u8];
    assert(at_stop@ =~= at_sign());
    assert(close_stop@ =~= closing_bracket());
    assert(colon_stop@ =~= colon());
    let at = find_first_of(a, 0, &at_stop);
    let start = if at < n {
        at + 1
    } else {
        0
    };
    let end = if start < n && a[start] == '[' as u8 {
        let close = find_first_of(a, start, &close_stop);
        if close >= n {
            return None;
        }
        if n - close > 1 && a[close + 1] != ':' as u8 {
            return None;
        }
        close + 1
    } else {
        find_first_of(a, start, &colon_stop)
    };
    if start > 0 {
        if !tables.userinfo.validate(slice_subrange(a, 0, start - 1)) {
            return None;
        }
    }
    let host_meta = match parse_host(slice_subrange(a, start, end), tables) {
        Some(m) => m,
        None => {
            return None;
        },
    };
    if end < n {
        if !tables.port.validate(slice_subrange(a, end + 1, n)) {
            return None;
        }
    }
    Some(AuthMeta { host_bounds: (start, end), host_meta })
}

/// Checks that the whole of `s` is a URI reference, and finds the bounds of
/// its components.
pub fn parse_bytes(s: &[u8], tables: &Tables) -> (r: Result<Meta, ParseError>)
    ensures
        r is Ok <==> is_uri_reference(s@),
        r matches Ok(m) ==> meta_matches(m, s@),
        r matches Err(e) ==> first_invalid(s@) == Some((e.component, e.index as int)),
{
    let n = s.len();
    let stops_scheme: [u8; 4] = [':' as u8, '/' as u8, '?' as u8, '#' as u8];
    let stops_authority: [u8; 3] = ['/' as u8, '?' as u8, '#' as u8];
    let stops_path: [u8; 2] = ['?' as u8, '#' as u8];
    let stops_query: [u8; 1] = ['#' as u8];
    assert(stops_scheme@ =~= scheme_stops());
    assert(stops_authority@ =~= authority_stops());
    assert(stops_path@ =~= path_stops());
    assert(stops_query@ =~= query_stops());
    proof {
        use_type_invariant(tables);
        lemma_parts_in_order(s@);
    }
    let c = find_first_of(s, 0, &stops_scheme);
    let (scheme_part, hier): (Option<(usize, usize)>, usize) = if c < n && s[c] == ':' as u8 {
        if !check_scheme(slice_subrange(s, 0, c), &tables.scheme) {
            return Err(ParseError { component: Component::Scheme, index: 0 });
        }
        (Some((0, c)), c + 1)
    } else {
        (None, 0)
    };
    let (authority_part, auth_meta, path_start): (
        Option<(usize, usize)>,
        Option<AuthMeta>,
        usize,
    ) = if n - hier >= 2 && s[hier] == '/' as u8 && s[hier + 1] == '/' as u8 {
        let a_start = hier + 2;
        let a_end = find_first_of(s, a_start, &stops_authority);
        match parse_authority(slice_subrange(s, a_start, a_end), tables) {
            Some(m) => (Some((a_start, a_end)), Some(m), a_end),
            None => {
                return Err(ParseError { component: Component::Authority, index: a_start });
            },
        }
    } else {
        (None, None, hier)
    };
    let path_end = find_first_of(s, path_start, &stops_path);
    if !tables.path.validate(slice_subrange(s, path_start, path_end)) {
        return Err(ParseError { component: Component::Path, index: path_start });
    }
    let (query_part, query_end): (Option<(usize, usize)>, usize) = if path_end < n && s[path_end]
        == '?' as u8 {
        let q_end = find_first_of(s, path_end + 1, &stops_query);
        if !tables.query.validate(slice_subrange(s, path_end + 1, q_end)) {
            return Err(ParseError { component: Component::Query, index: path_end + 1 });
        }
        (Some((path_end + 1, q_end)), q_end)
    } else {
        (None, path_end)
    };
    let fragment_part: Option<(usize, usize)> = if query_end < n {
        if !tables.fragment.validate(slice_subrange(s, query_end + 1, n)) {
            return Err(ParseError { component: Component::Fragment, index: query_end + 1 });
        }
        Some((query_end + 1, n))
    } else {
        None
    };
    Ok(
        Meta {
            scheme: scheme_part,
            authority: authority_part,
            auth_meta,
            path: (path_start, path_end),
            query: query_part,
            fragment: fragment_part,
        },
    )
}

/// A scheme is written in ASCII.
pub proof fn lemma_scheme_is_ascii(s: Seq<u8>)
    requires
        is_scheme(s),
    ensures
        all_ascii(s),
{
    assert forall|i: int| 0 <= i < s.len() implies (#[trigger] s[i]) < 128 by {
        if i > 0 {
            assert(is_scheme_char(s[i]));
        }
    }
}

/// What a table validates is written in ASCII.
pub proof fn lemma_validated_is_ascii(t: TableSpec, s: Seq<u8>, i: int)
    requires
        t.wf(),
        0 <= i,
        t.validates_from(s, i),
    ensures
        forall|j: int| i <= j < s.len() ==> (#[trigger] s[j]) < 128,
    decreases s.len() - i,
{
    if i < s.len() {
        if t.enc && s[i] == '%' as u8 {
            lemma_validated_is_ascii(t, s, i + 3);
        } else {
            assert(t.bytes.contains(s[i]));
            lemma_validated_is_ascii(t, s, i + 1);
        }
    }
}

/// A host is written in ASCII.
pub proof fn lemma_host_is_ascii(h: Seq<u8>)
    requires
        classify_host(h) is Some,
    ensures
        all_ascii(h),
{
    if h.len() >= 2 && h[0] == '[' as u8 && h.last() == ']' as u8 {
        let inner = h.subrange(1, h.len() - 1);
        if ipv6_segments(inner) is Some {
            lemma_ipv6_is_ascii(inner);
        } else {
            lemma_ipv_future_is_ascii(inner);
        }
        assert forall|i: int| 0 <= i < h.len() implies (#[trigger] h[i]) < 128 by {
            if 1 <= i < h.len() - 1 {
                assert(inner[i - 1] == h[i]);
            }
        }
    } else if ipv4_octets(h) is Some {
        lemma_ipv4_is_ascii(h);
    } else {
        lemma_validated_is_ascii(reg_name_spec(), h, 0);
    }
}

/// An authority is written in ASCII.
pub proof fn lemma_authority_is_ascii(a: Seq<u8>)
    requires
        is_authority(a),
    ensures
        all_ascii(a),
{
    lemma_host_bounds(a);
    let (start, end) = host_bounds(a).unwrap();
    let host = a.subrange(start, end);
    lemma_host_is_ascii(host);
    if start > 0 {
        lemma_validated_is_ascii(userinfo_spec(), a.subrange(0, start - 1), 0);
    }
    if end < a.len() {
        lemma_validated_is_ascii(digit_spec(), a.subrange(end + 1, a.len() as int), 0);
    }
    assert forall|i: int| 0 <= i < a.len() implies (#[trigger] a[i]) < 128 by {
        if i < start - 1 {
            assert(a.subrange(0, start - 1)[i] == a[i]);
        } else if start <= i < end {
            assert(host[i - start] == a[i]);
        } else if i > end {
            assert(a.subrange(end + 1, a.len() as int)[i - end - 1] == a[i]);
        }
    }
}

/// A URI reference is written in ASCII.
pub proof fn lemma_uri_reference_is_ascii(s: Seq<u8>)
    requires
        is_uri_reference(s),
    ensures
        all_ascii(s),
{
    lemma_parts_in_order(s);
    let n = s.len() as int;
    let (path_start, path_end) = path_range(s);
    lemma_validated_is_ascii(path_spec(), s.subrange(path_start, path_end), 0);
    match authority_range(s) {
        Some((a, b)) => {
            lemma_authority_is_ascii(s.subrange(a, b));
        },
        None => {},
    }
    match query_range(s) {
        Some((a, b)) => {
            lemma_validated_is_ascii(query_spec(), s.subrange(a, b), 0);
        },
        None => {},
    }
    match fragment_range(s) {
        Some((a, b)) => {
            lemma_validated_is_ascii(fragment_spec(), s.subrange(a, b), 0);
        },
        None => {},
    }
    assert forall|i: int| 0 <= i < n implies (#[trigger] s[i]) < 128 by {
        let h = hier_start(s);
        if i < h - 1 {
            let (a, b) = scheme_range(s).unwrap();
            let sch = s.subrange(a, b);
            assert(sch[i] == s[i]);
            if i > 0 {
                assert(is_scheme_char(sch[i]));
            }
        } else if i < h {
        } else if i < path_start {
            let (a, b) = authority_range(s).unwrap();
            if i >= a {
                assert(s.subrange(a, b)[i - a] == s[i]);
            }
        } else if i < path_end {
            assert(s.subrange(path_start, path_end)[i - path_start] == s[i]);
        } else {
            let q = match query_range(s) {
                Some((_, e)) => e,
                None => path_end,
            };
            if i < q {
                let (a, b) = query_range(s).unwrap();
                if i >= a {
                    assert(s.subrange(a, b)[i - a] == s[i]);
                }
            } else if i > q {
                let (a, b) = fragment_range(s).unwrap();
                assert(s.subrange(a, b)[i - a] == s[i]);
            } else {
                let (a, b) = fragment_range(s).unwrap();
            }
        }
    }
}

} // verus!
