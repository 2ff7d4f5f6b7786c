//! The order of validated strings: that of their encoded representations,
//! byte by byte.

use super::{EStr, Encoder};
use core::cmp::Ordering;
use vstd::prelude::*;
use vstd::std_specs::cmp::PartialOrdSpecImpl;

verus! {

/// The sign of the lexicographic comparison of two byte strings from index
/// `i` on: -1 if `a` comes first, 1 if `b` does, 0 if they are equal.
pub open spec fn lex_sign_from(a: Seq<u8>, b: Seq<u8>, i: int) -> int
    decreases a.len() - i,
{
    if i < 0 || i >= a.len() {
        if i < 0 || i >= b.len() {
            0
        } else {
            -1
        }
    } else if i >= b.len() {
        1
    } else if a[i] < b[i] {
        -1
    } else if a[i] > b[i] {
        1
    } else {
        lex_sign_from(a, b, i + 1)
    }
}

/// Compares two byte strings lexicographically.
pub fn compare_bytes(a: &[u8], b: &[u8]) -> (r: i8)
    ensures
        r == lex_sign_from(a@, b@, 0),
{
    let mut i: usize = 0;
    while i < a.len() && i < b.len()
        invariant
            i <= a@.len(),
            i <= b@.len(),
            lex_sign_from(a@, b@, 0) == lex_sign_from(a@, b@, i as int),
        decreases a@.len() - i,
    {
        if a[i] < b[i] {
            return -1;
        }
        if a[i] > b[i] {
            return 1;
        }
        i += 1;
    }
    if i < b.len() {
        -1
    } else if i < a.len() {
        1
    } else {
        0
    }
}

/// The order that a sign stands for.
pub open spec fn order_of_sign(sign: int) -> Ordering {
    if sign < 0 {
        Ordering::Less
    } else if sign == 0 {
        Ordering::Equal
    } else {
        Ordering::Greater
    }
}

impl<'a, E: Encoder> PartialOrd for EStr<'a, E> {
    /// Compares the encoded representations.
    fn partial_cmp(&self, other: &Self) -> (r: Option<Ordering>) {
        let sign = compare_bytes(self.as_str().as_bytes(), other.as_str().as_bytes());
        if sign < 0 {
            Some(Ordering::Less)
        } else if sign == 0 {
            Some(Ordering::Equal)
        } else {
            Some(Ordering::Greater)
        }
    }
}

impl<'a, E: Encoder> PartialOrdSpecImpl for EStr<'a, E> {
    open spec fn obeys_partial_cmp_spec() -> bool {
        true
    }

    open spec fn partial_cmp_spec(&self, other: &EStr<'a, E>) -> Option<Ordering> {
        Some(order_of_sign(lex_sign_from(self@, other@, 0)))
    }
}

} // verus!
