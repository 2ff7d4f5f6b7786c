//! Scanning of byte strings, and the passage between ASCII text and bytes.

use vstd::prelude::*;
use vstd::string::*;
use vstd::utf8::{encode_scalar, encode_utf8, has_width_1_encoding, is_ascii_chars};

verus! {

/// The index of the first byte at or after `from` that is one of `stops`, or
/// the length of `s` if there is none.
pub open spec fn first_of(s: Seq<u8>, from: int, stops: Seq<u8>) -> int
    decreases s.len() - from,
{
    if from < 0 || from >= s.len() {
        s.len() as int
    } else if stops.contains(s[from]) {
        from
    } else {
        first_of(s, from + 1, stops)
    }
}

/// What `first_of` finds: nothing before it is a stop, and it is one unless
/// the string ended.
pub proof fn lemma_first_of(s: Seq<u8>, from: int, stops: Seq<u8>)
    requires
        0 <= from <= s.len(),
    ensures
        from <= first_of(s, from, stops) <= s.len(),
        forall|j: int| from <= j < first_of(s, from, stops) ==> !stops.contains(#[trigger] s[j]),
        first_of(s, from, stops) < s.len() ==> stops.contains(s[first_of(s, from, stops)]),
    decreases s.len() - from,
{
    if from < s.len() && !stops.contains(s[from]) {
        lemma_first_of(s, from + 1, stops);
    }
}

/// The first stop is found again from any place before it.
pub proof fn lemma_first_of_unique(s: Seq<u8>, from: int, stops: Seq<u8>, at: int)
    requires
        0 <= from <= at <= s.len(),
        forall|j: int| from <= j < at ==> !stops.contains(#[trigger] s[j]),
        at < s.len() ==> stops.contains(s[at]),
    ensures
        first_of(s, from, stops) == at,
    decreases at - from,
{
    if from < at {
        lemma_first_of_unique(s, from + 1, stops, at);
    }
}

/// Finds the first byte at or after `from` that is one of `stops`.
pub fn find_first_of(s: &[u8], from: usize, stops: &[u8]) -> (r: usize)
    ensures
        r == first_of(s@, from as int, stops@),
        r <= s@.len(),
        from <= s@.len() ==> from <= r,
{
    if from >= s.len() {
        return s.len();
    }
    let mut i: usize = from;
    while i < s.len()
        invariant
            from <= i <= s@.len(),
            first_of(s@, from as int, stops@) == first_of(s@, i as int, stops@),
        decreases s@.len() - i,
    {
        let x = s[i];
        let mut k: usize = 0;
        let mut found = false;
        while k < stops.len()
            invariant
                k <= stops@.len(),
                found <==> exists|j: int| 0 <= j < k && stops@[j] == x,
            decreases stops@.len() - k,
        {
            if stops[k] == x {
                found = true;
            }
            k += 1;
        }
        if found {
            assert(stops@.contains(x));
            return i;
        }
        assert(!stops@.contains(x));
        i += 1;
    }
    i
}

/// The bytes of an ASCII string are its characters, one for one.
pub proof fn lemma_ascii_bytes(s: &str)
    requires
        is_ascii(s),
    ensures
        s.spec_bytes().len() == s@.len(),
        forall|i: int| 0 <= i < s@.len() ==> #[trigger] s.spec_bytes()[i] == s@[i] as u8,
        forall|i: int| 0 <= i < s@.len() ==> (#[trigger] s.spec_bytes()[i]) < 128,
{
    is_ascii_spec_bytes(s);
}

/// The part of an ASCII string between two byte offsets.
pub(crate) fn ascii_slice<'a>(s: &'a str, from: usize, to: usize) -> (r: &'a str)
    requires
        is_ascii(s),
        from <= to <= s.spec_bytes().len(),
    ensures
        is_ascii(r),
        r.spec_bytes() == s.spec_bytes().subrange(from as int, to as int),
{
    proof {
        lemma_ascii_bytes(s);
    }
    let r = s.substring_ascii(from, to);
    proof {
        lemma_ascii_bytes(r);
        assert(r.spec_bytes() =~= s.spec_bytes().subrange(from as int, to as int));
    }
    r
}

/// Whether every byte of `s` is an ASCII byte.
pub open spec fn all_ascii(s: Seq<u8>) -> bool {
    forall|i: int| 0 <= i < s.len() ==> (#[trigger] s[i]) < 128
}

/// Characters whose UTF-8 encoding holds only ASCII bytes are ASCII characters.
pub proof fn lemma_ascii_chars_of_bytes(chars: Seq<char>)
    requires
        all_ascii(encode_utf8(chars)),
    ensures
        is_ascii_chars(chars),
    decreases chars.len(),
{
    if chars.len() > 0 {
        let c = chars[0] as u32;
        let head = encode_scalar(c);
        let tail = encode_utf8(chars.drop_first());
        let bytes = encode_utf8(chars);
        assert(bytes == head + tail);
        assert(head.len() >= 1);
        assert(bytes[0] == head[0]);
        if !has_width_1_encoding(c) {
            let x = head[0];
            assert(x >= 0xC0) by {
                assert(forall|y: u8| 0xC0u8 | y >= 0xC0u8) by (bit_vector);
                assert(forall|y: u8| 0xE0u8 | y >= 0xC0u8) by (bit_vector);
                assert(forall|y: u8| 0xF0u8 | y >= 0xC0u8) by (bit_vector);
            }
            assert(false);
        }
        assert(head.len() == 1);
        assert forall|i: int| 0 <= i < tail.len() implies (#[trigger] tail[i]) < 128 by {
            assert(tail[i] == bytes[i + 1]);
        }
        lemma_ascii_chars_of_bytes(chars.drop_first());
        assert forall|i: int| 0 <= i < chars.len() implies '\0' <= #[trigger] chars[i]
            <= '\u{7f}' by {
            if i > 0 {
                assert(chars[i] == chars.drop_first()[i - 1]);
            } else {
                vstd::utf8::char_u32_cast(chars[0], c);
            }
        }
    }
}

/// A string whose bytes are all ASCII bytes is an ASCII string.
pub proof fn lemma_ascii_of_bytes(s: &str)
    requires
        all_ascii(s.spec_bytes()),
    ensures
        is_ascii(s),
{
    lemma_ascii_chars_of_bytes(s@);
}

} // verus!
