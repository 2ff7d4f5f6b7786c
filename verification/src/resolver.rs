//! Reference resolution (RFC 3986, section 5): merging of paths, removal of
//! dot segments, and the choice of the components of the target.

use crate::encoding::table::is_scheme_char;
use crate::parser::{
    assemble, authority_of, fragment_of, is_scheme, is_uri_reference, path_of, query_of,
    scheme_of, scheme_stops,
};
use crate::text::{find_first_of, first_of, lemma_first_of, lemma_first_of_unique};
use vstd::prelude::*;
use vstd::slice::slice_subrange;

verus! {

/// The stop set `/`.
pub open spec fn slash() -> Seq<u8> {
    seq!['/' as u8]
}

/// The byte of `s` at index `i`, or -1 where `s` has none.
pub open spec fn byte_at(s: Seq<u8>, i: int) -> int {
    if 0 <= i < s.len() {
        s[i] as int
    } else {
        -1
    }
}

/// `out` without its last segment and the slash before it: everything from
/// the last slash on is dropped, and all of it if there is no slash.
pub open spec fn truncate_segment(out: Seq<u8>) -> Seq<u8>
    decreases out.len(),
{
    if out.len() == 0 {
        out
    } else if out.last() == '/' as u8 {
        out.drop_last()
    } else {
        truncate_segment(out.drop_last())
    }
}

/// The removal of dot segments with `out` written so far and the input
/// `inp` read up to index `i`. At the start of what is left of the input:
/// `../` and `./` are dropped; `/./` becomes `/`, and so does `/.` if it is
/// all that is left; `/../` becomes `/` and the last segment written is taken
/// back, and likewise `/..` if it is all that is left; `.` and `..`, if all
/// that is left, are dropped; otherwise the first segment, with the slash
/// before it if there is one and up to the next slash, moves to the output.
pub open spec fn remove_dots_from(inp: Seq<u8>, i: int, out: Seq<u8>) -> Seq<u8>
    decreases inp.len() - i,
{
    let n = inp.len() as int;
    let dot = '.' as u8 as int;
    let sl = '/' as u8 as int;
    let a = byte_at(inp, i);
    let b = byte_at(inp, i + 1);
    let c = byte_at(inp, i + 2);
    let d = byte_at(inp, i + 3);
    if i < 0 || i >= n {
        out
    } else if a == dot && b == dot && c == sl {
        remove_dots_from(inp, i + 3, out)
    } else if a == dot && b == sl {
        remove_dots_from(inp, i + 2, out)
    } else if a == sl && b == dot && c == sl {
        remove_dots_from(inp, i + 2, out)
    } else if a == sl && b == dot && i + 2 == n {
        out.push('/' as u8)
    } else if a == sl && b == dot && c == dot && d == sl {
        remove_dots_from(inp, i + 3, truncate_segment(out))
    } else if a == sl && b == dot && c == dot && i + 3 == n {
        truncate_segment(out).push('/' as u8)
    } else if a == dot && (i + 1 == n || (b == dot && i + 2 == n)) {
        out
    } else {
        proof {
            lemma_first_of(inp, i + 1, slash());
        }
        let j = first_of(inp, i + 1, slash());
        remove_dots_from(inp, j, out + inp.subrange(i, j))
    }
}

/// The path without its dot segments.
pub open spec fn remove_dots(path: Seq<u8>) -> Seq<u8> {
    remove_dots_from(path, 0, Seq::empty())
}

/// Whether a complete segment `.` or `..` starts at index `p` of `s`.
pub open spec fn is_dot_segment_at(s: Seq<u8>, p: int) -> bool {
    &&& 0 <= p < s.len()
    &&& p == 0 || s[p - 1] == '/' as u8
    &&& s[p] == '.' as u8
    &&& {
        ||| byte_at(s, p + 1) == -1
        ||| byte_at(s, p + 1) == '/' as u8
        ||| byte_at(s, p + 1) == '.' as u8 && (byte_at(s, p + 2) == -1 || byte_at(s, p + 2)
            == '/' as u8)
    }
}

/// Whether no segment of `s` is `.` or `..`.
pub open spec fn has_no_dot_segments(s: Seq<u8>) -> bool {
    forall|p: int| !is_dot_segment_at(s, p)
}

/// The part of a path up to and including its last slash; empty if it has none.
pub open spec fn dir_part(path: Seq<u8>) -> Seq<u8>
    decreases path.len(),
{
    if path.len() == 0 {
        path
    } else if path.last() == '/' as u8 {
        path
    } else {
        dir_part(path.drop_last())
    }
}

/// The merge of a reference's path with the path of the base. If the base
/// has an authority, the reference's path takes the place of what follows
/// the last slash of the base's path; if it has none, the reference's path
/// is put after a slash.
pub open spec fn merge_paths(base_has_authority: bool, base_path: Seq<u8>, ref_path: Seq<u8>) -> Seq<
    u8,
> {
    if base_has_authority {
        dir_part(base_path) + ref_path
    } else {
        seq!['/' as u8] + ref_path
    }
}

/// The target of the resolution of the reference `r` against `base`, which
/// has a scheme. The first rule that applies decides:
/// the reference has a scheme: all is taken from it;
/// it has an authority: only the scheme is taken from the base;
/// its path is empty: the path is that of the base, and so is the query
/// unless the reference has one;
/// its path starts with a slash: scheme and authority are taken from the base;
/// otherwise the path is the merge of the two paths.
/// Every path taken from the reference, merged or not, has its dot segments
/// removed. The fragment is always that of the reference.
pub open spec fn resolve_spec(base: Seq<u8>, r: Seq<u8>) -> Seq<u8> {
    if scheme_of(r) is Some {
        assemble(
            scheme_of(r),
            authority_of(r),
            remove_dots(path_of(r)),
            query_of(r),
            fragment_of(r),
        )
    } else if authority_of(r) is Some {
        assemble(
            scheme_of(base),
            authority_of(r),
            remove_dots(path_of(r)),
            query_of(r),
            fragment_of(r),
        )
    } else if path_of(r).len() == 0 {
        assemble(
            scheme_of(base),
            authority_of(base),
            path_of(base),
            if query_of(r) is Some {
                query_of(r)
            } else {
                query_of(base)
            },
            fragment_of(r),
        )
    } else if path_of(r)[0] == '/' as u8 {
        assemble(
            scheme_of(base),
            authority_of(base),
            remove_dots(path_of(r)),
            query_of(r),
            fragment_of(r),
        )
    } else {
        assemble(
            scheme_of(base),
            authority_of(base),
            remove_dots(merge_paths(authority_of(base) is Some, path_of(base), path_of(r))),
            query_of(r),
            fragment_of(r),
        )
    }
}

/// A text put together with a scheme has that scheme.
pub proof fn lemma_assemble_scheme(
    scheme: Seq<u8>,
    authority: Option<Seq<u8>>,
    path: Seq<u8>,
    query: Option<Seq<u8>>,
    fragment: Option<Seq<u8>>,
)
    requires
        is_scheme(scheme),
    ensures
        scheme_of(assemble(Some(scheme), authority, path, query, fragment)) == Some(scheme),
{
    let t = assemble(Some(scheme), authority, path, query, fragment);
    let n = scheme.len() as int;
    assert(t.subrange(0, n) =~= scheme);
    assert(t[n] == ':' as u8);
    let stops = scheme_stops();
    assert(stops[0] == ':' as u8 && stops[1] == '/' as u8 && stops[2] == '?' as u8 && stops[3]
        == '#' as u8);
    assert forall|j: int| 0 <= j < n implies !stops.contains(#[trigger] t[j]) by {
        assert(t[j] == scheme[j]);
        if j > 0 {
            assert(is_scheme_char(scheme[j]));
        }
    }
    lemma_first_of_unique(t, 0, stops, n);
}

/// The target of a resolution has a scheme: that of the reference if it has
/// one, else that of the base.
pub proof fn lemma_resolved_scheme(base: Seq<u8>, r: Seq<u8>)
    requires
        is_uri_reference(base),
        is_uri_reference(r),
        scheme_of(base) is Some,
    ensures
        scheme_of(resolve_spec(base, r)) == if scheme_of(r) is Some {
            scheme_of(r)
        } else {
            scheme_of(base)
        },
{
    if scheme_of(r) is Some {
        lemma_assemble_scheme(
            scheme_of(r).unwrap(),
            authority_of(r),
            remove_dots(path_of(r)),
            query_of(r),
            fragment_of(r),
        );
    } else {
        let s = scheme_of(base).unwrap();
        let q = if query_of(r) is Some {
            query_of(r)
        } else {
            query_of(base)
        };
        lemma_assemble_scheme(
            s,
            authority_of(r),
            remove_dots(path_of(r)),
            query_of(r),
            fragment_of(r),
        );
        lemma_assemble_scheme(s, authority_of(base), path_of(base), q, fragment_of(r));
        lemma_assemble_scheme(
            s,
            authority_of(base),
            remove_dots(path_of(r)),
            query_of(r),
            fragment_of(r),
        );
        lemma_assemble_scheme(
            s,
            authority_of(base),
            remove_dots(merge_paths(authority_of(base) is Some, path_of(base), path_of(r))),
            query_of(r),
            fragment_of(r),
        );
    }
}

/// What is left after the last segment is taken back is a prefix that ends
/// where a slash stood, or nothing.
pub proof fn lemma_truncate_segment(out: Seq<u8>)
    ensures
        truncate_segment(out).len() <= out.len(),
        out.len() > 0 ==> truncate_segment(out).len() < out.len(),
        truncate_segment(out) == out.subrange(0, truncate_segment(out).len() as int),
        truncate_segment(out).len() < out.len() ==> truncate_segment(out).len() == 0 || out[truncate_segment(
            out,
        ).len() as int] == '/' as u8,
    decreases out.len(),
{
    if out.len() == 0 {
        assert(out.subrange(0, 0) =~= out);
    } else if out.last() == '/' as u8 {
        assert(out.drop_last() =~= out.subrange(0, out.len() - 1));
    } else {
        lemma_truncate_segment(out.drop_last());
        let t = truncate_segment(out);
        assert(t =~= out.subrange(0, t.len() as int));
        if 0 < t.len() {
            assert(out.drop_last()[t.len() as int] == out[t.len() as int]);
        }
    }
}

/// A prefix that ends where a slash stood holds no dot segment that the
/// whole did not hold.
pub proof fn lemma_prefix_has_no_dot_segments(out: Seq<u8>, k: int)
    requires
        has_no_dot_segments(out),
        0 <= k <= out.len(),
        k == 0 || k == out.len() || out[k] == '/' as u8,
    ensures
        has_no_dot_segments(out.subrange(0, k)),
{
    let t = out.subrange(0, k);
    assert forall|p: int| !is_dot_segment_at(t, p) by {
        if is_dot_segment_at(t, p) {
            assert(t[p] == out[p]);
            if p > 0 {
                assert(t[p - 1] == out[p - 1]);
            }
            if p + 1 < k {
                assert(t[p + 1] == out[p + 1]);
            }
            if p + 2 < k {
                assert(t[p + 2] == out[p + 2]);
            }
            assert(is_dot_segment_at(out, p));
        }
    }
}

/// A slash at the end makes no dot segment.
pub proof fn lemma_push_slash_has_no_dot_segments(out: Seq<u8>)
    requires
        has_no_dot_segments(out),
    ensures
        has_no_dot_segments(out.push('/' as u8)),
{
    let t = out.push('/' as u8);
    assert forall|p: int| !is_dot_segment_at(t, p) by {
        if is_dot_segment_at(t, p) {
            assert(p < out.len());
            assert(t[p] == out[p]);
            if p > 0 {
                assert(t[p - 1] == out[p - 1]);
            }
            if p + 1 < out.len() {
                assert(t[p + 1] == out[p + 1]);
            }
            if p + 2 < out.len() {
                assert(t[p + 2] == out[p + 2]);
            }
            assert(is_dot_segment_at(out, p));
        }
    }
}

/// A segment that is neither `.` nor `..`, put after what holds no dot
/// segment, makes none. The segment starts with a slash unless nothing was
/// written before it, and holds no other slash.
pub proof fn lemma_append_has_no_dot_segments(out: Seq<u8>, seg: Seq<u8>)
    requires
        has_no_dot_segments(out),
        seg.len() >= 1,
        forall|k: int| 1 <= k < seg.len() ==> seg[k] != '/' as u8,
        seg[0] == '/' as u8 || out.len() == 0,
        seg[0] == '/' as u8 ==> !(seg.len() == 2 && seg[1] == '.' as u8) && !(seg.len() == 3
            && seg[1] == '.' as u8 && seg[2] == '.' as u8),
        seg[0] != '/' as u8 ==> !(seg.len() == 1 && seg[0] == '.' as u8) && !(seg.len() == 2
            && seg[0] == '.' as u8 && seg[1] == '.' as u8),
    ensures
        has_no_dot_segments(out + seg),
{
    let t = out + seg;
    let m = out.len() as int;
    assert forall|p: int| !is_dot_segment_at(t, p) by {
        if is_dot_segment_at(t, p) {
            if p < m {
                assert(t[p] == out[p]);
                if p > 0 {
                    assert(t[p - 1] == out[p - 1]);
                }
                if p + 1 < m {
                    assert(t[p + 1] == out[p + 1]);
                } else {
                    assert(t[p + 1] == seg[p + 1 - m]);
                }
                if p + 2 < m {
                    assert(t[p + 2] == out[p + 2]);
                } else if p + 2 == m {
                    assert(t[p + 2] == seg[0]);
                }
                assert(is_dot_segment_at(out, p));
            } else {
                let q = p - m;
                assert(t[p] == seg[q]);
                if p > 0 {
                    if q > 0 {
                        assert(t[p - 1] == seg[q - 1]);
                    }
                }
                if q + 1 < seg.len() {
                    assert(t[p + 1] == seg[q + 1]);
                }
                if q + 2 < seg.len() {
                    assert(t[p + 2] == seg[q + 2]);
                }
                assert(false);
            }
        }
    }
}

/// The removal of dot segments leaves none, from any state in which none is
/// written yet and the input goes on with a slash once something is written.
pub proof fn lemma_remove_dots_from_has_no_dot_segments(inp: Seq<u8>, i: int, out: Seq<u8>)
    requires
        0 <= i <= inp.len(),
        has_no_dot_segments(out),
        out.len() == 0 || i == inp.len() || inp[i] == '/' as u8,
    ensures
        has_no_dot_segments(remove_dots_from(inp, i, out)),
    decreases inp.len() - i,
{
    let n = inp.len() as int;
    let dot = '.' as u8 as int;
    let sl = '/' as u8 as int;
    let a = byte_at(inp, i);
    let b = byte_at(inp, i + 1);
    let c = byte_at(inp, i + 2);
    let d = byte_at(inp, i + 3);
    if i >= n {
    } else if a == dot && b == dot && c == sl {
        lemma_remove_dots_from_has_no_dot_segments(inp, i + 3, out);
    } else if a == dot && b == sl {
        lemma_remove_dots_from_has_no_dot_segments(inp, i + 2, out);
    } else if a == sl && b == dot && c == sl {
        lemma_remove_dots_from_has_no_dot_segments(inp, i + 2, out);
    } else if a == sl && b == dot && i + 2 == n {
        lemma_push_slash_has_no_dot_segments(out);
    } else if a == sl && b == dot && c == dot && d == sl {
        lemma_truncate_segment(out);
        lemma_prefix_has_no_dot_segments(out, truncate_segment(out).len() as int);
        lemma_remove_dots_from_has_no_dot_segments(inp, i + 3, truncate_segment(out));
    } else if a == sl && b == dot && c == dot && i + 3 == n {
        lemma_truncate_segment(out);
        lemma_prefix_has_no_dot_segments(out, truncate_segment(out).len() as int);
        lemma_push_slash_has_no_dot_segments(truncate_segment(out));
    } else if a == dot && (i + 1 == n || (b == dot && i + 2 == n)) {
    } else {
        lemma_first_of(inp, i + 1, slash());
        let j = first_of(inp, i + 1, slash());
        let seg = inp.subrange(i, j);
        assert forall|k: int| 1 <= k < seg.len() implies seg[k] != '/' as u8 by {
            assert(seg[k] == inp[i + k]);
            assert(!slash().contains(inp[i + k]));
            assert(slash()[0] == '/' as u8);
        }
        if j < n {
            assert(slash().contains(inp[j]));
            assert(slash()[0] == '/' as u8);
        }
        assert(seg[0] == inp[i]);
        if seg.len() >= 2 {
            assert(seg[1] == inp[i + 1]);
        }
        if seg.len() >= 3 {
            assert(seg[2] == inp[i + 2]);
        }
        lemma_append_has_no_dot_segments(out, seg);
        lemma_remove_dots_from_has_no_dot_segments(inp, j, out + seg);
    }
}

/// The removal of dot segments leaves none.
pub proof fn lemma_remove_dots_has_no_dot_segments(path: Seq<u8>)
    ensures
        has_no_dot_segments(remove_dots(path)),
{
    lemma_remove_dots_from_has_no_dot_segments(path, 0, Seq::empty());
}

/// A path without dot segments, read up to a segment's end and written as
/// read, comes out as it is.
pub proof fn lemma_remove_dots_from_keeps(path: Seq<u8>, i: int)
    requires
        has_no_dot_segments(path),
        0 <= i <= path.len(),
        i == 0 || i == path.len() || path[i] == '/' as u8,
    ensures
        remove_dots_from(path, i, path.subrange(0, i)) == path,
    decreases path.len() - i,
{
    let n = path.len() as int;
    if i >= n {
        assert(path.subrange(0, i) =~= path);
    } else {
        if path[i] == '/' as u8 {
            assert(!is_dot_segment_at(path, i + 1));
        } else {
            assert(!is_dot_segment_at(path, 0));
        }
        lemma_first_of(path, i + 1, slash());
        let j = first_of(path, i + 1, slash());
        if j < n {
            assert(slash().contains(path[j]));
            assert(slash()[0] == '/' as u8);
        }
        assert(path.subrange(0, i) + path.subrange(i, j) =~= path.subrange(0, j));
        lemma_remove_dots_from_keeps(path, j);
    }
}

/// The removal of dot segments leaves a path without dot segments as it is;
/// so removing them twice is the same as removing them once.
pub proof fn lemma_remove_dots_idempotent(path: Seq<u8>)
    ensures
        has_no_dot_segments(path) ==> remove_dots(path) == path,
        remove_dots(remove_dots(path)) == remove_dots(path),
{
    if has_no_dot_segments(path) {
        assert(path.subrange(0, 0) =~= Seq::<u8>::empty());
        lemma_remove_dots_from_keeps(path, 0);
    }
    let once = remove_dots(path);
    lemma_remove_dots_has_no_dot_segments(path);
    assert(once.subrange(0, 0) =~= Seq::<u8>::empty());
    lemma_remove_dots_from_keeps(once, 0);
}

/// The byte `k` places after index `i`, or -1 past the end.
fn peek(s: &[u8], i: usize, k: usize) -> (r: i32)
    requires
        i < s@.len(),
        k <= 3,
    ensures
        r == byte_at(s@, i + k),
{
    if s.len() - i > k {
        s[i + k] as i32
    } else {
        -1
    }
}

/// Takes the last segment back from `out`, with the slash before it.
pub fn pop_segment(out: &mut Vec<u8>)
    ensures
        final(out)@ == truncate_segment(old(out)@),
{
    loop
        invariant
            truncate_segment(old(out)@) == truncate_segment(out@),
        decreases out@.len(),
    {
        let ghost before = out@;
        match out.pop() {
            Some(x) => {
                assert(out@ =~= before.drop_last());
                if x == '/' as u8 {
                    return ;
                }
            },
            None => {
                return ;
            },
        }
    }
}

/// Removes the dot segments from a path.
///
/// The output never holds a segment `.` or `..`: such segments are dropped,
/// each `..` together with the segment before it, and a `..` that has
/// no segment before it is dropped alone.
pub fn remove_dot_segments(path: &[u8]) -> (out: Vec<u8>)
    ensures
        out@ == remove_dots(path@),
        has_no_dot_segments(out@),
{
    let n = path.len();
    let stop: [u8; 1] = ['/' as u8];
    assert(stop@ =~= slash());
    let dot: i32 = '.' as u8 as i32;
    let sl: i32 = '/' as u8 as i32;
    let mut out: Vec<u8> = Vec::new();
    let mut i: usize = 0;
    while i < n
        invariant
            i <= n == path@.len(),
            stop@ == slash(),
            dot == '.' as u8 as int,
            sl == '/' as u8 as int,
            remove_dots(path@) == remove_dots_from(path@, i as int, out@),
        decreases n - i,
    {
        let a = peek(path, i, 0);
        let b = peek(path, i, 1);
        let c = peek(path, i, 2);
        let d = peek(path, i, 3);
        if a == dot && b == dot && c == sl {
            i += 3;
        } else if a == dot && b == sl {
            i += 2;
        } else if a == sl && b == dot && c == sl {
            i += 2;
        } else if a == sl && b == dot && n - i == 2 {
            out.push('/' as u8);
            i = n;
        } else if a == sl && b == dot && c == dot && d == sl {
            pop_segment(&mut out);
            i += 3;
        } else if a == sl && b == dot && c == dot && n - i == 3 {
            pop_segment(&mut out);
            out.push('/' as u8);
            i = n;
        } else if a == dot && (n - i == 1 || (b == dot && n - i == 2)) {
            i = n;
        } else {
            let ghost moved = out@ + path@.subrange(i as int, first_of(path@, i + 1, slash()));
            let j = find_first_of(path, i + 1, &stop);
            out.extend_from_slice(slice_subrange(path, i, j));
            i = j;
            assert(out@ == moved);
        }
    }
    proof {
        lemma_remove_dots_has_no_dot_segments(path@);
    }
    out
}

/// The length of the part of a path up to and including its last slash.
pub fn dir_len(path: &[u8]) -> (r: usize)
    ensures
        r <= path@.len(),
        path@.subrange(0, r as int) == dir_part(path@),
{
    let mut k: usize = path.len();
    assert(path@.subrange(0, k as int) =~= path@);
    while k > 0 && path[k - 1] != '/' as u8
        invariant
            k <= path@.len(),
            dir_part(path@) == dir_part(path@.subrange(0, k as int)),
        decreases k,
    {
        assert(path@.subrange(0, k as int).drop_last() =~= path@.subrange(0, k - 1));
        k -= 1;
    }
    k
}

/// Merges the path of a reference with the path of the base.
pub fn merge(base_has_authority: bool, base_path: &[u8], ref_path: &[u8]) -> (r: Vec<u8>)
    ensures
        r@ == merge_paths(base_has_authority, base_path@, ref_path@),
{
    let mut out: Vec<u8> = Vec::new();
    if base_has_authority {
        let k = dir_len(base_path);
        out.extend_from_slice(slice_subrange(base_path, 0, k));
    } else {
        out.push('/' as u8);
    }
    let ghost head = out@;
    out.extend_from_slice(ref_path);
    proof {
        if !base_has_authority {
            assert(head =~= seq!['/' as u8]);
        } else {
            assert(head =~= dir_part(base_path@));
        }
    }
    out
}

} // verus!
