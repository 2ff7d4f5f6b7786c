//! Percent-encoding: byte pattern tables, encoders bound to them, and
//! string views that are known to follow a table.

pub mod encoder;
pub mod order;
pub mod table;

use crate::error::Utf8Error;
use crate::parser::lemma_validated_is_ascii;
use crate::text::{lemma_ascii_bytes, lemma_ascii_of_bytes};
use core::marker::PhantomData;
use table::{
    chars_of, gen_hex_table, hex_digit_value, hex_upper, hex_value, is_hexdig, Table, TableSpec,
};
use std::string::FromUtf8Error;
use vstd::prelude::*;
use vstd::std_specs::cmp::PartialEqSpecImpl;
use vstd::string::*;
use vstd::utf8::{decode_utf8, valid_utf8};

verus! {

/// A percent-encoder: the binding of one kind of component to the table
/// that says which bytes it holds unencoded.
pub trait Encoder {
    /// The content of the encoder's table.
    spec fn table_spec() -> TableSpec;

    /// The encoder's table.
    fn table() -> (t: Table)
        ensures
            t@ == Self::table_spec(),
    ;

    /// The table allows no byte unencoded but ASCII bytes other than `%`.
    proof fn lemma_table_wf()
        ensures
            Self::table_spec().wf(),
    ;
}

/// The bytes that an encoded string stands for, read from index `i` on: each
/// `%` with two hexadecimal digits after it gives the byte that the digits
/// denote, every other byte gives itself.
pub open spec fn decode_from(s: Seq<u8>, i: int) -> Seq<u8>
    decreases s.len() - i,
{
    if i < 0 || i >= s.len() {
        Seq::empty()
    } else if s[i] == '%' as u8 && i + 2 < s.len() {
        seq![(hex_value(s[i + 1]) * 16 + hex_value(s[i + 2])) as u8] + decode_from(s, i + 3)
    } else {
        seq![s[i]] + decode_from(s, i + 1)
    }
}

/// The bytes that an encoded string stands for.
pub open spec fn decode_spec(s: Seq<u8>) -> Seq<u8> {
    decode_from(s, 0)
}

/// The encoding of a byte string under a table: the encodings of its bytes,
/// one after the other.
pub open spec fn encode_spec(t: TableSpec, s: Seq<u8>) -> Seq<u8>
    decreases s.len(),
{
    if s.len() == 0 {
        Seq::empty()
    } else {
        encode_spec(t, s.drop_last()) + t.encode_byte(s.last())
    }
}

/// Whether in `s`, read from index `i` on, every `%` has two more bytes after it.
pub open spec fn is_well_escaped_from(s: Seq<u8>, i: int) -> bool
    decreases s.len() - i,
{
    if i < 0 || i >= s.len() {
        true
    } else if s[i] == '%' as u8 {
        i + 2 < s.len() && is_well_escaped_from(s, i + 3)
    } else {
        is_well_escaped_from(s, i + 1)
    }
}

/// Behind a first string, a second one is decoded as it is alone.
pub proof fn lemma_decode_behind(a: Seq<u8>, b: Seq<u8>, k: int)
    requires
        0 <= k,
    ensures
        decode_from(a + b, a.len() + k) == decode_from(b, k),
    decreases b.len() - k,
{
    let ab = a + b;
    if k < b.len() {
        assert(ab[a.len() + k] == b[k]);
        if b[k] == '%' as u8 && k + 2 < b.len() {
            assert(ab[a.len() + k + 1] == b[k + 1]);
            assert(ab[a.len() + k + 2] == b[k + 2]);
            lemma_decode_behind(a, b, k + 3);
        } else {
            lemma_decode_behind(a, b, k + 1);
        }
    }
}

/// Decoding two strings one after the other decodes each, if in the first
/// every `%` has its two bytes.
pub proof fn lemma_decode_concat(a: Seq<u8>, b: Seq<u8>, i: int)
    requires
        0 <= i <= a.len(),
        is_well_escaped_from(a, i),
    ensures
        decode_from(a + b, i) == decode_from(a, i) + decode_from(b, 0),
    decreases a.len() - i,
{
    let ab = a + b;
    if i >= a.len() {
        lemma_decode_behind(a, b, 0);
        assert(decode_from(a, i) + decode_from(b, 0) =~= decode_from(b, 0));
    } else {
        assert(ab[i] == a[i]);
        if a[i] == '%' as u8 {
            assert(ab[i + 1] == a[i + 1]);
            assert(ab[i + 2] == a[i + 2]);
            lemma_decode_concat(a, b, i + 3);
            let x = seq![(hex_value(a[i + 1]) * 16 + hex_value(a[i + 2])) as u8];
            assert(x + (decode_from(a, i + 3) + decode_from(b, 0)) =~= (x + decode_from(a, i + 3))
                + decode_from(b, 0));
        } else {
            lemma_decode_concat(a, b, i + 1);
            assert(seq![a[i]] + (decode_from(a, i + 1) + decode_from(b, 0)) =~= (seq![a[i]]
                + decode_from(a, i + 1)) + decode_from(b, 0));
        }
    }
}

/// Putting a second string behind keeps every `%` of the first with its two
/// bytes, if the second has them too.
pub proof fn lemma_well_escaped_concat(a: Seq<u8>, b: Seq<u8>, i: int)
    requires
        0 <= i <= a.len(),
        is_well_escaped_from(a, i),
        is_well_escaped_from(b, 0),
    ensures
        is_well_escaped_from(a + b, i),
    decreases a.len() - i,
{
    let ab = a + b;
    if i < a.len() {
        assert(ab[i] == a[i]);
        if a[i] == '%' as u8 {
            lemma_well_escaped_concat(a, b, i + 3);
        } else {
            lemma_well_escaped_concat(a, b, i + 1);
        }
    } else {
        lemma_well_escaped_behind(a, b, 0);
    }
}

/// Behind a first string, a second one keeps every `%` with its two bytes.
pub proof fn lemma_well_escaped_behind(a: Seq<u8>, b: Seq<u8>, k: int)
    requires
        0 <= k,
    ensures
        is_well_escaped_from(a + b, a.len() + k) == is_well_escaped_from(b, k),
    decreases b.len() + 3 - k,
{
    let ab = a + b;
    if k < b.len() {
        assert(ab[a.len() + k] == b[k]);
        if b[k] == '%' as u8 {
            lemma_well_escaped_behind(a, b, k + 3);
        } else {
            lemma_well_escaped_behind(a, b, k + 1);
        }
    }
}

/// The encoding of one byte decodes to that byte.
pub proof fn lemma_decode_encode_byte(t: TableSpec, x: u8)
    requires
        t.wf(),
    ensures
        decode_from(t.encode_byte(x), 0) == seq![x],
        is_well_escaped_from(t.encode_byte(x), 0),
{
    let e = t.encode_byte(x);
    if t.bytes.contains(x) {
        assert(decode_from(e, 1) =~= Seq::<u8>::empty());
        assert(decode_from(e, 0) =~= seq![x]);
        assert(is_well_escaped_from(e, 1));
    } else {
        let hi = x as int / 16;
        let lo = x as int % 16;
        assert(hex_value(hex_upper(hi)) == hi);
        assert(hex_value(hex_upper(lo)) == lo);
        assert(decode_from(e, 3) =~= Seq::<u8>::empty());
        assert(decode_from(e, 0) =~= seq![x]);
        assert(is_well_escaped_from(e, 3));
    }
}

/// Decoding undoes encoding, under every table.
pub proof fn lemma_decode_encode(t: TableSpec, s: Seq<u8>)
    requires
        t.wf(),
    ensures
        decode_spec(encode_spec(t, s)) == s,
        is_well_escaped_from(encode_spec(t, s), 0),
    decreases s.len(),
{
    if s.len() > 0 {
        let head = encode_spec(t, s.drop_last());
        let tail = t.encode_byte(s.last());
        lemma_decode_encode(t, s.drop_last());
        lemma_decode_encode_byte(t, s.last());
        lemma_decode_concat(head, tail, 0);
        lemma_well_escaped_concat(head, tail, 0);
        assert(s.drop_last() + seq![s.last()] =~= s);
    }
}

/// Behind a first string, a second one is validated as it is alone.
pub proof fn lemma_validates_behind(t: TableSpec, a: Seq<u8>, b: Seq<u8>, k: int)
    requires
        0 <= k,
    ensures
        t.validates_from(a + b, a.len() + k) == t.validates_from(b, k),
    decreases b.len() + 3 - k,
{
    let ab = a + b;
    if k < b.len() {
        assert(ab[a.len() + k] == b[k]);
        if t.enc && b[k] == '%' as u8 {
            if k + 2 < b.len() {
                assert(ab[a.len() + k + 1] == b[k + 1]);
                assert(ab[a.len() + k + 2] == b[k + 2]);
            }
            lemma_validates_behind(t, a, b, k + 3);
        } else {
            lemma_validates_behind(t, a, b, k + 1);
        }
    }
}

/// Two strings that follow a table follow it when put one after the other.
pub proof fn lemma_validates_concat(t: TableSpec, a: Seq<u8>, b: Seq<u8>, i: int)
    requires
        0 <= i <= a.len(),
        t.validates_from(a, i),
        t.validates(b),
    ensures
        t.validates_from(a + b, i),
    decreases a.len() - i,
{
    let ab = a + b;
    if i >= a.len() {
        lemma_validates_behind(t, a, b, 0);
    } else {
        assert(ab[i] == a[i]);
        if t.enc && a[i] == '%' as u8 {
            assert(ab[i + 1] == a[i + 1]);
            assert(ab[i + 2] == a[i + 2]);
            lemma_validates_concat(t, a, b, i + 3);
        } else {
            lemma_validates_concat(t, a, b, i + 1);
        }
    }
}

/// What a table that allows encoded octets encodes follows that table.
pub proof fn lemma_encode_validates(t: TableSpec, s: Seq<u8>)
    requires
        t.wf(),
        t.enc,
    ensures
        t.validates(encode_spec(t, s)),
    decreases s.len(),
{
    if s.len() > 0 {
        let head = encode_spec(t, s.drop_last());
        let tail = t.encode_byte(s.last());
        lemma_encode_validates(t, s.drop_last());
        let x = s.last();
        if t.bytes.contains(x) {
            assert(t.validates_from(tail, 1));
        } else {
            assert(is_hexdig(hex_upper(x as int / 16)));
            assert(is_hexdig(hex_upper(x as int % 16)));
            assert(t.validates_from(tail, 3));
        }
        assert(t.validates(tail));
        lemma_validates_concat(t, head, tail, 0);
    }
}

/// A text that follows the table of an encoder is an ASCII text.
pub proof fn lemma_validated_text_is_ascii<E: Encoder>(s: &str)
    requires
        E::table_spec().validates(s.spec_bytes()),
    ensures
        is_ascii(s),
{
    E::lemma_table_wf();
    lemma_validated_is_ascii(E::table_spec(), s.spec_bytes(), 0);
    lemma_ascii_of_bytes(s);
}

/// A string slice that is known to follow the table of the encoder `E`.
#[derive(Debug)]
pub struct EStr<'a, E: Encoder> {
    inner: &'a str,
    encoder: PhantomData<E>,
}

impl<'a, E: Encoder> Clone for EStr<'a, E> {
    fn clone(&self) -> (r: Self)
        ensures
            r@ == self@,
    {
        proof {
            use_type_invariant(self);
        }
        EStr { inner: self.inner, encoder: PhantomData }
    }
}

impl<'a, E: Encoder> Copy for EStr<'a, E> {

}

impl<'a, E: Encoder> PartialEq for EStr<'a, E> {
    /// Compares the encoded representations.
    fn eq(&self, other: &Self) -> (r: bool) {
        bytes_eq(self.inner.as_bytes(), other.inner.as_bytes())
    }
}

impl<'a, E: Encoder> PartialEqSpecImpl for EStr<'a, E> {
    open spec fn obeys_eq_spec() -> bool {
        true
    }

    open spec fn eq_spec(&self, other: &EStr<'a, E>) -> bool {
        self@ == other@
    }
}

impl<'a, E: Encoder> Eq for EStr<'a, E> {

}

impl<'a, E: Encoder> View for EStr<'a, E> {
    type V = Seq<u8>;

    closed spec fn view(&self) -> Seq<u8> {
        self.inner.spec_bytes()
    }
}

impl<'a, E: Encoder> EStr<'a, E> {
    #[verifier::type_invariant]
    closed spec fn inv(&self) -> bool {
        is_ascii(self.inner) && E::table_spec().validates(self.inner.spec_bytes())
    }

    /// Wraps a string slice that is already known to follow the table.
    pub(crate) fn new_validated(s: &'a str) -> (r: Self)
        requires
            E::table_spec().validates(s.spec_bytes()),
        ensures
            r@ == s.spec_bytes(),
    {
        proof {
            lemma_validated_text_is_ascii::<E>(s);
        }
        EStr { inner: s, encoder: PhantomData }
    }

    /// Converts a string slice to an `EStr`, or gives `None` if the string
    /// does not follow the table.
    pub fn new(s: &'a str) -> (r: Option<Self>)
        ensures
            r is Some <==> E::table_spec().validates(s.spec_bytes()),
            r matches Some(e) ==> e@ == s.spec_bytes(),
    {
        if E::table().validate(s.as_bytes()) {
            Some(Self::new_validated(s))
        } else {
            None
        }
    }

    /// Converts a string slice that follows the table to an `EStr`.
    pub fn new_or_panic(s: &'a str) -> (r: Self)
        requires
            E::table_spec().validates(s.spec_bytes()),
        ensures
            r@ == s.spec_bytes(),
    {
        match Self::new(s) {
            Some(e) => e,
            None => unreached(),
        }
    }

    /// The empty string, which follows every table.
    pub fn empty() -> (r: Self)
        ensures
            r@ == Seq::<u8>::empty(),
    {
        let s = "";
        proof {
            reveal_strlit("");
            lemma_ascii_bytes(s);
            assert(s.spec_bytes() =~= Seq::<u8>::empty());
        }
        Self::new_validated(s)
    }

    /// Yields the underlying string slice.
    pub fn as_str(&self) -> (r: &'a str)
        ensures
            r.spec_bytes() == self@,
            is_ascii(r),
            E::table_spec().validates(self@),
    {
        proof {
            use_type_invariant(self);
        }
        self.inner
    }

    /// The length of the string in bytes.
    pub fn len(&self) -> (r: usize)
        ensures
            r == self@.len(),
    {
        self.inner.as_bytes().len()
    }

    /// Whether the string is empty.
    pub fn is_empty(&self) -> (r: bool)
        ensures
            r == (self@.len() == 0),
    {
        self.inner.as_bytes().len() == 0
    }

    /// Decodes the string: every `%XX` gives the byte that `XX` denotes, and
    /// every other byte gives itself. The result need not be text.
    pub fn decode(&self) -> (r: Vec<u8>)
        ensures
            r@ == decode_spec(self@),
    {
        proof {
            use_type_invariant(self);
        }
        decode_bytes(self.inner.as_bytes())
    }

    /// Decodes the string and converts the bytes to text, which fails if
    /// they are not valid UTF-8.
    pub fn decode_to_string(&self) -> (r: Result<String, Utf8Error>)
        ensures
            r is Ok <==> valid_utf8(decode_spec(self@)),
            r matches Ok(s) ==> s@ == decode_utf8(decode_spec(self@)),
    {
        match string_from_utf8(self.decode()) {
            Ok(s) => Ok(s),
            Err(_) => Err(Utf8Error {  }),
        }
    }
}

/// Whether two byte strings are the same.
pub fn bytes_eq(a: &[u8], b: &[u8]) -> (r: bool)
    ensures
        r == (a@ == b@),
{
    if a.len() != b.len() {
        return false;
    }
    let mut i: usize = 0;
    while i < a.len()
        invariant
            i <= a@.len() == b@.len(),
            forall|j: int| 0 <= j < i ==> a@[j] == b@[j],
        decreases a@.len() - i,
    {
        if a[i] != b[i] {
            return false;
        }
        i += 1;
    }
    assert(a@ =~= b@);
    true
}

/// The error of bytes that are not the UTF-8 encoding of a text.
#[verifier::external_type_specification]
#[verifier::external_body]
pub struct ExFromUtf8Error(std::string::FromUtf8Error);

/// `String::from_utf8`: the string that the bytes are the UTF-8 encoding of,
/// or an error if they are not valid UTF-8.
#[verifier::external_body]
fn string_from_utf8(bytes: Vec<u8>) -> (r: Result<String, FromUtf8Error>)
    ensures
        r is Ok <==> valid_utf8(bytes@),
        r matches Ok(s) ==> s@ == decode_utf8(bytes@),
{
    String::from_utf8(bytes)
}

/// Decodes a percent-encoded byte string.
pub fn decode_bytes(s: &[u8]) -> (r: Vec<u8>)
    ensures
        r@ == decode_spec(s@),
{
    let n = s.len();
    let mut out: Vec<u8> = Vec::new();
    let mut i: usize = 0;
    while i < n
        invariant
            i <= n == s@.len(),
            decode_spec(s@) == out@ + decode_from(s@, i as int),
        decreases n - i,
    {
        let ghost before = out@;
        if s[i] == '%' as u8 && n - i > 2 {
            let hi = match hex_digit_value(s[i + 1]) {
                Some(v) => v,
                None => 0,
            };
            let lo = match hex_digit_value(s[i + 2]) {
                Some(v) => v,
                None => 0,
            };
            let b = hi * 16 + lo;
            out.push(b);
            i += 3;
            assert(before + (seq![b] + decode_from(s@, i as int)) =~= out@ + decode_from(
                s@,
                i as int,
            ));
        } else {
            let b = s[i];
            out.push(b);
            i += 1;
            assert(before + (seq![b] + decode_from(s@, i as int)) =~= out@ + decode_from(
                s@,
                i as int,
            ));
        }
    }
    assert(out@ + Seq::<u8>::empty() =~= out@);
    out
}

/// Percent-encodes a byte string with the table of the encoder `E`.
pub fn encode<E: Encoder>(s: &[u8]) -> (r: String)
    ensures
        r@ == chars_of(encode_spec(E::table_spec(), s@)),
{
    let table = E::table();
    let hex = gen_hex_table();
    let mut out = String::new();
    let n = s.len();
    let mut i: usize = 0;
    assert(chars_of(encode_spec(E::table_spec(), s@.subrange(0, 0))) =~= Seq::<char>::empty());
    while i < n
        invariant
            i <= n == s@.len(),
            table@ == E::table_spec(),
            forall|k: int| 0 <= k < 512 ==> #[trigger] hex@[k] == table::hex_table_entry(k),
            out@ == chars_of(encode_spec(E::table_spec(), s@.subrange(0, i as int))),
        decreases n - i,
    {
        table.encode_with(&hex, s[i], &mut out);
        proof {
            let t = E::table_spec();
            let before = s@.subrange(0, i as int);
            let after = s@.subrange(0, i + 1);
            assert(after.drop_last() =~= before);
            assert(chars_of(encode_spec(t, before)) + chars_of(t.encode_byte(s@[i as int]))
                =~= chars_of(encode_spec(t, after)));
        }
        i += 1;
    }
    assert(s@.subrange(0, n as int) =~= s@);
    out
}

} // verus!
