//! The IP literals of a host: strict IPv4, IPv6 and IPvFuture.
//!
//! The grammars are those of RFC 3986, section 3.2.2. In particular an IPv4
//! address is exactly four decimal octets without superfluous leading zeros:
//! anything else is left to be read as a registered name.

use crate::encoding::table::{
    hex_digit_value, hex_value, ipv_future_spec, is_digit, is_hexdig, Table,
};
use crate::text::{all_ascii, find_first_of, first_of, lemma_first_of};
use vstd::prelude::*;
use vstd::slice::slice_subrange;

verus! {

/// An IPv4 address.
#[derive(Clone, Copy, Debug, PartialEq, Eq)]
pub struct Ipv4Addr {
    octets: [u8; 4],
}

impl View for Ipv4Addr {
    type V = Seq<u8>;

    closed spec fn view(&self) -> Seq<u8> {
        self.octets@
    }
}

impl Ipv4Addr {
    /// The address `a.b.c.d`.
    pub fn new(a: u8, b: u8, c: u8, d: u8) -> (r: Ipv4Addr)
        ensures
            r@ == seq![a, b, c, d],
    {
        let r = Ipv4Addr { octets: [a, b, c, d] };
        assert(r@ =~= seq![a, b, c, d]);
        r
    }

    /// The four octets, most significant first.
    pub fn octets(&self) -> (r: [u8; 4])
        ensures
            r@ == self@,
            self@.len() == 4,
    {
        self.octets
    }

    /// Whether this is an address of the loopback network `127.0.0.0/8`.
    pub fn is_loopback(&self) -> (r: bool)
        ensures
            r == (self@[0] == 127),
    {
        self.octets[0] == 127
    }
}

/// An IPv6 address.
#[derive(Clone, Copy, Debug, PartialEq, Eq)]
pub struct Ipv6Addr {
    segments: [u16; 8],
}

impl View for Ipv6Addr {
    type V = Seq<u16>;

    closed spec fn view(&self) -> Seq<u16> {
        self.segments@
    }
}

impl Ipv6Addr {
    /// The address with the given eight 16-bit segments.
    pub fn new(segments: [u16; 8]) -> (r: Ipv6Addr)
        ensures
            r@ == segments@,
    {
        Ipv6Addr { segments }
    }

    /// The eight 16-bit segments, most significant first.
    pub fn segments(&self) -> (r: [u16; 8])
        ensures
            r@ == self@,
            self@.len() == 8,
    {
        self.segments
    }

    /// Whether this is the loopback address `::1`.
    pub fn is_loopback(&self) -> (r: bool)
        ensures
            r == (self@ =~= seq![0u16, 0u16, 0u16, 0u16, 0u16, 0u16, 0u16, 1u16]),
    {
        let s = &self.segments;
        s[0] == 0 && s[1] == 0 && s[2] == 0 && s[3] == 0 && s[4] == 0 && s[5] == 0 && s[6] == 0
            && s[7] == 1
    }
}

/// The one-element stop set `.`.
pub open spec fn dot() -> Seq<u8> {
    seq!['.' as u8]
}

/// The one-element stop set `:`.
pub open spec fn colon() -> Seq<u8> {
    seq![':' as u8]
}

/// `dec-octet`: a decimal number from 0 to 255 with no leading zero, except
/// the single digit `0`.
pub open spec fn dec_octet(s: Seq<u8>) -> Option<u8> {
    if s.len() == 1 && is_digit(s[0]) {
        Some((s[0] - 0x30) as u8)
    } else if s.len() == 2 && is_digit(s[0]) && s[0] != '0' as u8 && is_digit(s[1]) {
        Some(((s[0] - 0x30) * 10 + (s[1] - 0x30)) as u8)
    } else if s.len() == 3 && is_digit(s[0]) && s[0] != '0' as u8 && is_digit(s[1]) && is_digit(
        s[2],
    ) && (s[0] - 0x30) * 100 + (s[1] - 0x30) * 10 + (s[2] - 0x30) <= 255 {
        Some(((s[0] - 0x30) * 100 + (s[1] - 0x30) * 10 + (s[2] - 0x30)) as u8)
    } else {
        None
    }
}

/// `IPv4address = dec-octet "." dec-octet "." dec-octet "." dec-octet`,
/// matching the whole of `s`: the four octets, or `None`.
pub open spec fn ipv4_octets(s: Seq<u8>) -> Option<Seq<u8>> {
    let d1 = first_of(s, 0, dot());
    let d2 = first_of(s, d1 + 1, dot());
    let d3 = first_of(s, d2 + 1, dot());
    if d3 < s.len() {
        match (
            dec_octet(s.subrange(0, d1)),
            dec_octet(s.subrange(d1 + 1, d2)),
            dec_octet(s.subrange(d2 + 1, d3)),
            dec_octet(s.subrange(d3 + 1, s.len() as int)),
        ) {
            (Some(a), Some(b), Some(c), Some(d)) => Some(seq![a, b, c, d]),
            _ => None,
        }
    } else {
        None
    }
}

/// The number that a string of hexadecimal digits denotes.
pub open spec fn hex_number(s: Seq<u8>) -> int
    decreases s.len(),
{
    if s.len() == 0 {
        0
    } else {
        hex_number(s.drop_last()) * 16 + hex_value(s.last())
    }
}

/// `h16 = 1*4HEXDIG`: the 16 bits it denotes, or `None`.
pub open spec fn h16(s: Seq<u8>) -> Option<u16> {
    if 1 <= s.len() <= 4 && (forall|i: int| 0 <= i < s.len() ==> is_hexdig(#[trigger] s[i])) {
        Some(hex_number(s) as u16)
    } else {
        None
    }
}

/// A non-empty list of `h16` pieces separated by single colons, the last of
/// which may be an IPv4 address if `v4_tail` says so (it then stands for two
/// pieces): the 16-bit groups in order, or `None`.
pub open spec fn groups(s: Seq<u8>, v4_tail: bool) -> Option<Seq<u16>>
    decreases s.len(),
{
    let c = first_of(s, 0, colon());
    if c < 0 || c >= s.len() {
        match h16(s) {
            Some(v) => Some(seq![v]),
            None => if v4_tail {
                match ipv4_octets(s) {
                    Some(o) => Some(
                        seq![(o[0] * 256 + o[1]) as u16, (o[2] * 256 + o[3]) as u16],
                    ),
                    None => None,
                }
            } else {
                None
            },
        }
    } else {
        match (h16(s.subrange(0, c)), groups(s.subrange(c + 1, s.len() as int), v4_tail)) {
            (Some(v), Some(rest)) => Some(seq![v] + rest),
            _ => None,
        }
    }
}

/// The index of the first `::` at or after `from`, or the length of `s`.
pub open spec fn double_colon(s: Seq<u8>, from: int) -> int
    decreases s.len() - from,
{
    if from < 0 || from + 1 >= s.len() {
        s.len() as int
    } else if s[from] == ':' as u8 && s[from + 1] == ':' as u8 {
        from
    } else {
        double_colon(s, from + 1)
    }
}

/// The groups on one side of a `::`, where nothing stands for no group.
pub open spec fn side_groups(s: Seq<u8>, v4_tail: bool) -> Option<Seq<u16>> {
    if s.len() == 0 {
        Some(Seq::empty())
    } else {
        groups(s, v4_tail)
    }
}

/// `IPv6address`: eight 16-bit groups written in hexadecimal and separated by
/// colons, where one `::` may stand for one or more groups of zeros and the
/// last two groups may be written as an IPv4 address. Gives the eight
/// segments, or `None`.
pub open spec fn ipv6_segments(s: Seq<u8>) -> Option<Seq<u16>> {
    let e = double_colon(s, 0);
    if e >= s.len() {
        match groups(s, true) {
            Some(g) => if g.len() == 8 {
                Some(g)
            } else {
                None
            },
            None => None,
        }
    } else {
        match (
            side_groups(s.subrange(0, e), false),
            side_groups(s.subrange(e + 2, s.len() as int), true),
        ) {
            (Some(h), Some(t)) => if h.len() + t.len() <= 7 {
                Some(h + Seq::new((8 - h.len() - t.len()) as nat, |i: int| 0u16) + t)
            } else {
                None
            },
            _ => None,
        }
    }
}

/// `IPvFuture = "v" 1*HEXDIG "." 1*( unreserved / sub-delims / ":" )`, with
/// the letter `v` in either case.
pub open spec fn is_ipv_future(s: Seq<u8>) -> bool {
    let d = first_of(s, 1, dot());
    &&& s.len() >= 1
    &&& (s[0] == 'v' as u8 || s[0] == 'V' as u8)
    &&& 2 <= d
    &&& d + 1 < s.len()
    &&& forall|i: int| 1 <= i < d ==> is_hexdig(#[trigger] s[i])
    &&& forall|i: int| d < i < s.len() ==> ipv_future_spec().bytes.contains(#[trigger] s[i])
}

/// Reads a decimal octet that takes up the whole of `s`.
pub fn read_dec_octet(s: &[u8]) -> (r: Option<u8>)
    ensures
        r == dec_octet(s@),
{
    let n = s.len();
    if n == 0 || n > 3 {
        return None;
    }
    let mut i: usize = 0;
    while i < n
        invariant
            i <= n == s@.len(),
            forall|j: int| 0 <= j < i ==> is_digit(#[trigger] s@[j]),
        decreases n - i,
    {
        if s[i] < '0' as u8 || s[i] > '9' as u8 {
            return None;
        }
        i += 1;
    }
    if n > 1 && s[0] == '0' as u8 {
        return None;
    }
    let zero = '0' as u8;
    let v: u16 = if n == 1 {
        (s[0] - zero) as u16
    } else if n == 2 {
        (s[0] - zero) as u16 * 10 + (s[1] - zero) as u16
    } else {
        (s[0] - zero) as u16 * 100 + (s[1] - zero) as u16 * 10 + (s[2] - zero) as u16
    };
    if v > 255 {
        None
    } else {
        Some(v as u8)
    }
}

/// Reads an IPv4 address that takes up the whole of `s`.
pub fn parse_v4(s: &[u8]) -> (r: Option<Ipv4Addr>)
    ensures
        r matches Some(a) ==> ipv4_octets(s@) == Some(a@),
        r is None ==> ipv4_octets(s@) is None,
{
    let stop: [u8; 1] = ['.' as u8];
    assert(stop@ =~= dot());
    let n = s.len();
    let d1 = find_first_of(s, 0, &stop);
    if d1 >= n {
        return None;
    }
    let d2 = find_first_of(s, d1 + 1, &stop);
    if d2 >= n {
        return None;
    }
    let d3 = find_first_of(s, d2 + 1, &stop);
    if d3 >= n {
        return None;
    }
    let a = read_dec_octet(slice_subrange(s, 0, d1));
    let b = read_dec_octet(slice_subrange(s, d1 + 1, d2));
    let c = read_dec_octet(slice_subrange(s, d2 + 1, d3));
    let d = read_dec_octet(slice_subrange(s, d3 + 1, n));
    match (a, b, c, d) {
        (Some(a), Some(b), Some(c), Some(d)) => Some(Ipv4Addr::new(a, b, c, d)),
        _ => None,
    }
}

/// A string of `n` hexadecimal digits denotes a number below `16^n`.
pub proof fn lemma_hex_number_bound(s: Seq<u8>)
    requires
        s.len() <= 4,
    ensures
        0 <= hex_number(s) < 65536,
        s.len() <= 3 ==> hex_number(s) < 4096,
        s.len() <= 2 ==> hex_number(s) < 256,
        s.len() <= 1 ==> hex_number(s) < 16,
        s.len() == 0 ==> hex_number(s) == 0,
    decreases s.len(),
{
    if s.len() > 0 {
        lemma_hex_number_bound(s.drop_last());
    }
}

/// Reads a group of one to four hexadecimal digits that takes up the whole of `s`.
pub fn read_h16(s: &[u8]) -> (r: Option<u16>)
    ensures
        r == h16(s@),
{
    let n = s.len();
    if n == 0 || n > 4 {
        return None;
    }
    let mut v: u16 = 0;
    let mut i: usize = 0;
    while i < n
        invariant
            i <= n == s@.len(),
            n <= 4,
            forall|j: int| 0 <= j < i ==> is_hexdig(#[trigger] s@[j]),
            v == hex_number(s@.subrange(0, i as int)),
        decreases n - i,
    {
        proof {
            lemma_hex_number_bound(s@.subrange(0, i as int));
            assert(s@.subrange(0, i + 1).drop_last() =~= s@.subrange(0, i as int));
        }
        match hex_digit_value(s[i]) {
            Some(d) => {
                v = v * 16 + d as u16;
            },
            None => {
                return None;
            },
        }
        i += 1;
    }
    assert(s@.subrange(0, n as int) =~= s@);
    Some(v)
}

/// A list of groups holds at least one group.
pub proof fn lemma_groups_is_not_empty(s: Seq<u8>, v4_tail: bool)
    ensures
        groups(s, v4_tail) matches Some(g) ==> g.len() >= 1,
{
}

/// Whether `r` holds the groups `g`: `None` if there are none or more than
/// eight, else their number and the groups themselves in the first places.
pub open spec fn holds_groups(r: Option<([u16; 8], usize)>, g: Option<Seq<u16>>) -> bool {
    match g {
        Some(g) => if g.len() <= 8 {
            r matches Some((arr, n)) && n == g.len() && arr@.subrange(0, n as int) == g
        } else {
            r is None
        },
        None => r is None,
    }
}

/// Reads a list of groups that takes up the whole of `s`, if it has no more
/// than eight groups.
pub fn read_groups(s: &[u8], v4_tail: bool) -> (r: Option<([u16; 8], usize)>)
    ensures
        holds_groups(r, groups(s@, v4_tail)),
{
    let stop: [u8; 1] = [':' as u8];
    assert(stop@ =~= colon());
    let mut arr: [u16; 8] = [0; 8];
    let mut n: usize = 0;
    let mut rest: &[u8] = s;
    assert(arr@.subrange(0, 0) =~= Seq::<u16>::empty());
    loop
        invariant
            stop@ == colon(),
            n <= 8,
            groups(s@, v4_tail) == match groups(rest@, v4_tail) {
                Some(g) => Some(arr@.subrange(0, n as int) + g),
                None => None,
            },
        decreases rest@.len(),
    {
        proof {
            lemma_groups_is_not_empty(rest@, v4_tail);
        }
        let ghost before = arr@.subrange(0, n as int);
        let c = find_first_of(rest, 0, &stop);
        if c >= rest.len() {
            match read_h16(rest) {
                Some(v) => {
                    if n >= 8 {
                        return None;
                    }
                    arr[n] = v;
                    n += 1;
                    assert(arr@.subrange(0, n as int) =~= before + seq![v]);
                    return Some((arr, n));
                },
                None => {},
            }
            if !v4_tail {
                return None;
            }
            match parse_v4(rest) {
                Some(a) => {
                    if n >= 7 {
                        return None;
                    }
                    let o = a.octets();
                    arr[n] = (o[0] as u16) * 256 + o[1] as u16;
                    arr[n + 1] = (o[2] as u16) * 256 + o[3] as u16;
                    n += 2;
                    proof {
                        let so = ipv4_octets(rest@).unwrap();
                        let g = groups(rest@, v4_tail).unwrap();
                        assert(g =~= seq![
                            (so[0] * 256 + so[1]) as u16,
                            (so[2] * 256 + so[3]) as u16,
                        ]);
                        assert(arr@.subrange(0, n as int) =~= before + g);
                    }
                    return Some((arr, n));
                },
                None => {
                    return None;
                },
            }
        }
        match read_h16(slice_subrange(rest, 0, c)) {
            Some(v) => {
                let ghost old_rest = rest@;
                rest = slice_subrange(rest, c + 1, rest.len());
                proof {
                    lemma_groups_is_not_empty(rest@, v4_tail);
                }
                if n >= 8 {
                    return None;
                }
                arr[n] = v;
                n += 1;
                proof {
                    assert(arr@.subrange(0, n as int) =~= before + seq![v]);
                    match groups(rest@, v4_tail) {
                        Some(g) => {
                            assert(before + (seq![v] + g) =~= arr@.subrange(0, n as int) + g);
                        },
                        None => {},
                    }
                }
            },
            None => {
                return None;
            },
        }
    }
}

/// Finds the first `::` in `s`.
pub fn find_double_colon(s: &[u8]) -> (r: usize)
    ensures
        r == double_colon(s@, 0),
        r <= s@.len(),
        r < s@.len() ==> r + 2 <= s@.len(),
{
    let n = s.len();
    let mut i: usize = 0;
    while i < n && n - i > 1
        invariant
            i <= n == s@.len(),
            double_colon(s@, 0) == double_colon(s@, i as int),
        decreases n - i,
    {
        if s[i] == ':' as u8 && s[i + 1] == ':' as u8 {
            return i;
        }
        i += 1;
    }
    n
}

/// Reads an IPv6 address that takes up the whole of `s`.
pub fn parse_v6(s: &[u8]) -> (r: Option<Ipv6Addr>)
    ensures
        r matches Some(a) ==> ipv6_segments(s@) == Some(a@),
        r is None ==> ipv6_segments(s@) is None,
{
    let n = s.len();
    let e = find_double_colon(s);
    if e >= n {
        match read_groups(s, true) {
            Some((arr, k)) => {
                if k != 8 {
                    return None;
                }
                assert(arr@.subrange(0, 8) =~= arr@);
                Some(Ipv6Addr::new(arr))
            },
            None => None,
        }
    } else {
        let none: [u16; 8] = [0; 8];
        assert(none@.subrange(0, 0) =~= Seq::<u16>::empty());
        let (head, hl): ([u16; 8], usize) = if e == 0 {
            (none, 0)
        } else {
            match read_groups(slice_subrange(s, 0, e), false) {
                Some(g) => g,
                None => {
                    return None;
                },
            }
        };
        let (tail, tl): ([u16; 8], usize) = if e + 2 == n {
            (none, 0)
        } else {
            match read_groups(slice_subrange(s, e + 2, n), true) {
                Some(g) => g,
                None => {
                    return None;
                },
            }
        };
        let ghost h = head@.subrange(0, hl as int);
        let ghost t = tail@.subrange(0, tl as int);
        assert(side_groups(s@.subrange(0, e as int), false) == Some(h));
        assert(side_groups(s@.subrange(e + 2, n as int), true) == Some(t));
        if hl + tl > 7 {
            return None;
        }
        let mut segs: [u16; 8] = [0; 8];
        let mut i: usize = 0;
        while i < hl
            invariant
                i <= hl <= 7,
                h == head@.subrange(0, hl as int),
                forall|j: int| 0 <= j < i ==> segs@[j] == h[j],
            decreases hl - i,
        {
            segs[i] = head[i];
            i += 1;
        }
        let mut z: usize = hl;
        while z < 8 - tl
            invariant
                hl <= z <= 8 - tl,
                hl + tl <= 7,
                forall|j: int| 0 <= j < hl ==> segs@[j] == h[j],
                forall|j: int| hl <= j < z ==> segs@[j] == 0,
            decreases 8 - tl - z,
        {
            segs[z] = 0;
            z += 1;
        }
        let mut k: usize = 0;
        while k < tl
            invariant
                k <= tl,
                hl + tl <= 7,
                t == tail@.subrange(0, tl as int),
                forall|j: int| 0 <= j < hl ==> segs@[j] == h[j],
                forall|j: int| hl <= j < 8 - tl ==> segs@[j] == 0,
                forall|j: int| 0 <= j < k ==> segs@[8 - tl + j] == t[j],
            decreases tl - k,
        {
            segs[8 - tl + k] = tail[k];
            k += 1;
        }
        assert(segs@ =~= h + Seq::new((8 - hl - tl) as nat, |i: int| 0u16) + t);
        Some(Ipv6Addr::new(segs))
    }
}

/// Checks that the whole of `s` is an IPvFuture address, reading the
/// characters allowed after its dot from `tail_chars`.
pub(crate) fn check_ipv_future(s: &[u8], tail_chars: &Table) -> (r: bool)
    requires
        tail_chars@ == ipv_future_spec(),
    ensures
        r == is_ipv_future(s@),
{
    let n = s.len();
    if n == 0 {
        return false;
    }
    if s[0] != 'v' as u8 && s[0] != 'V' as u8 {
        return false;
    }
    let stop: [u8; 1] = ['.' as u8];
    assert(stop@ =~= dot());
    let d = find_first_of(s, 1, &stop);
    if d < 2 || n - d <= 1 {
        return false;
    }
    let mut i: usize = 1;
    while i < d
        invariant
            1 <= i <= d < n == s@.len(),
            d == first_of(s@, 1, dot()),
            forall|j: int| 1 <= j < i ==> is_hexdig(#[trigger] s@[j]),
        decreases d - i,
    {
        if hex_digit_value(s[i]).is_none() {
            return false;
        }
        i += 1;
    }
    let mut k: usize = d + 1;
    while k < n
        invariant
            d < k <= n == s@.len(),
            d == first_of(s@, 1, dot()),
            tail_chars@ == ipv_future_spec(),
            forall|j: int| d < j < k ==> ipv_future_spec().bytes.contains(#[trigger] s@[j]),
        decreases n - k,
    {
        if !tail_chars.allows(s[k]) {
            return false;
        }
        k += 1;
    }
    true
}

/// An IPv4 address is written in ASCII.
pub proof fn lemma_ipv4_is_ascii(s: Seq<u8>)
    requires
        ipv4_octets(s) is Some,
    ensures
        all_ascii(s),
{
    let n = s.len() as int;
    let d1 = first_of(s, 0, dot());
    lemma_first_of(s, 0, dot());
    let d2 = first_of(s, d1 + 1, dot());
    if d1 < n {
        lemma_first_of(s, d1 + 1, dot());
    }
    let d3 = first_of(s, d2 + 1, dot());
    if d2 < n {
        lemma_first_of(s, d2 + 1, dot());
    }
    assert(dot()[0] == '.' as u8);
    assert forall|i: int| 0 <= i < n implies (#[trigger] s[i]) < 128 by {
        if i < d1 {
            let p = s.subrange(0, d1);
            assert(p[i] == s[i]);
        } else if i == d1 {
            assert(dot().contains(s[i]));
        } else if i < d2 {
            let p = s.subrange(d1 + 1, d2);
            assert(p[i - d1 - 1] == s[i]);
        } else if i == d2 {
            assert(dot().contains(s[i]));
        } else if i < d3 {
            let p = s.subrange(d2 + 1, d3);
            assert(p[i - d2 - 1] == s[i]);
        } else if i == d3 {
            assert(dot().contains(s[i]));
        } else {
            let p = s.subrange(d3 + 1, n);
            assert(p[i - d3 - 1] == s[i]);
        }
    }
}

/// A list of groups is written in ASCII.
pub proof fn lemma_groups_is_ascii(s: Seq<u8>, v4_tail: bool)
    requires
        groups(s, v4_tail) is Some,
    ensures
        all_ascii(s),
    decreases s.len(),
{
    let n = s.len() as int;
    let c = first_of(s, 0, colon());
    lemma_first_of(s, 0, colon());
    assert(colon()[0] == ':' as u8);
    if c >= n {
        if h16(s) is None {
            lemma_ipv4_is_ascii(s);
        }
    } else {
        let rest = s.subrange(c + 1, n);
        lemma_groups_is_ascii(rest, v4_tail);
        assert forall|i: int| 0 <= i < n implies (#[trigger] s[i]) < 128 by {
            if i < c {
                assert(s.subrange(0, c)[i] == s[i]);
            } else if i == c {
                assert(colon().contains(s[i]));
            } else {
                assert(rest[i - c - 1] == s[i]);
            }
        }
    }
}

/// What `double_colon` finds: two colons, unless the string ended.
pub proof fn lemma_double_colon(s: Seq<u8>, from: int)
    requires
        0 <= from,
    ensures
        from <= double_colon(s, from) || double_colon(s, from) == s.len(),
        double_colon(s, from) <= s.len(),
        double_colon(s, from) < s.len() ==> double_colon(s, from) + 1 < s.len() && s[double_colon(
            s,
            from,
        )] == ':' as u8 && s[double_colon(s, from) + 1] == ':' as u8,
    decreases s.len() - from,
{
    if from + 1 < s.len() && !(s[from] == ':' as u8 && s[from + 1] == ':' as u8) {
        lemma_double_colon(s, from + 1);
    }
}

/// An IPv6 address is written in ASCII.
pub proof fn lemma_ipv6_is_ascii(s: Seq<u8>)
    requires
        ipv6_segments(s) is Some,
    ensures
        all_ascii(s),
{
    let n = s.len() as int;
    let e = double_colon(s, 0);
    lemma_double_colon(s, 0);
    if e >= n {
        lemma_groups_is_ascii(s, true);
    } else {
        let head = s.subrange(0, e);
        let tail = s.subrange(e + 2, n);
        if head.len() > 0 {
            lemma_groups_is_ascii(head, false);
        }
        if tail.len() > 0 {
            lemma_groups_is_ascii(tail, true);
        }
        assert forall|i: int| 0 <= i < n implies (#[trigger] s[i]) < 128 by {
            if i < e {
                assert(head[i] == s[i]);
            } else if i >= e + 2 {
                assert(tail[i - e - 2] == s[i]);
            }
        }
    }
}

/// An IPvFuture address is written in ASCII.
pub proof fn lemma_ipv_future_is_ascii(s: Seq<u8>)
    requires
        is_ipv_future(s),
    ensures
        all_ascii(s),
{
    let d = first_of(s, 1, dot());
    lemma_first_of(s, 1, dot());
    assert(dot()[0] == '.' as u8);
    assert forall|i: int| 0 <= i < s.len() implies (#[trigger] s[i]) < 128 by {
        if i == d {
            assert(dot().contains(s[i]));
        } else if i > d {
            assert(ipv_future_spec().bytes.contains(s[i]));
        } else if i >= 1 {
            assert(is_hexdig(s[i]));
        }
    }
}

} // verus!
