//! Byte pattern tables: sets of bytes a component may hold unencoded, with a
//! flag that says whether percent-encoded octets are allowed besides them.
//!
//! The predefined tables are documented with the ABNF notation of RFC 5234.

use vstd::prelude::*;

verus! {

/// `DIGIT = %x30-39`
pub open spec fn is_digit(x: u8) -> bool {
    0x30 <= x <= 0x39
}

/// `ALPHA = %x41-5A / %x61-7A`
pub open spec fn is_alpha(x: u8) -> bool {
    (0x41 <= x <= 0x5a) || (0x61 <= x <= 0x7a)
}

/// `HEXDIG`, in either letter case.
pub open spec fn is_hexdig(x: u8) -> bool {
    is_digit(x) || (0x41 <= x <= 0x46) || (0x61 <= x <= 0x66)
}

/// `unreserved = ALPHA / DIGIT / "-" / "." / "_" / "~"`
pub open spec fn is_unreserved(x: u8) -> bool {
    is_alpha(x) || is_digit(x) || x == '-' as u8 || x == '.' as u8 || x == '_' as u8 || x
        == '~' as u8
}

/// `sub-delims = "!" / "$" / "&" / "'" / "(" / ")" / "*" / "+" / "," / ";" / "="`
pub open spec fn is_sub_delim(x: u8) -> bool {
    x == '!' as u8 || x == '$' as u8 || x == '&' as u8 || x == '\'' as u8 || x == '(' as u8 || x
        == ')' as u8 || x == '*' as u8 || x == '+' as u8 || x == ',' as u8 || x == ';' as u8 || x
        == '=' as u8
}

/// `gen-delims = ":" / "/" / "?" / "#" / "[" / "]" / "@"`
pub open spec fn is_gen_delim(x: u8) -> bool {
    x == ':' as u8 || x == '/' as u8 || x == '?' as u8 || x == '#' as u8 || x == '[' as u8 || x
        == ']' as u8 || x == '@' as u8
}

/// The characters of a scheme name after its first letter.
pub open spec fn is_scheme_char(x: u8) -> bool {
    is_alpha(x) || is_digit(x) || x == '+' as u8 || x == '-' as u8 || x == '.' as u8
}

/// The unencoded characters of a path segment: `unreserved / sub-delims / ":" / "@"`.
pub open spec fn is_pchar(x: u8) -> bool {
    is_unreserved(x) || is_sub_delim(x) || x == ':' as u8 || x == '@' as u8
}

/// The value of a hexadecimal digit; 0 for any other byte.
pub open spec fn hex_value(x: u8) -> int {
    if is_digit(x) {
        x - 0x30
    } else if 0x41 <= x <= 0x46 {
        x - 0x41 + 10
    } else if 0x61 <= x <= 0x66 {
        x - 0x61 + 10
    } else {
        0
    }
}

/// The upper-case hexadecimal digit for a value below 16.
pub open spec fn hex_upper(n: int) -> u8 {
    if n < 10 {
        (0x30 + n) as u8
    } else {
        (0x37 + n) as u8
    }
}

/// The value of a hexadecimal digit, if `x` is one.
pub fn hex_digit_value(x: u8) -> (r: Option<u8>)
    ensures
        r is Some == is_hexdig(x),
        r matches Some(v) ==> v == hex_value(x) && v < 16,
{
    if x >= '0' as u8 && x <= '9' as u8 {
        Some(x - '0' as u8)
    } else if x >= 'A' as u8 && x <= 'F' as u8 {
        Some(x - 'A' as u8 + 10)
    } else if x >= 'a' as u8 && x <= 'f' as u8 {
        Some(x - 'a' as u8 + 10)
    } else {
        None
    }
}

/// The mathematical content of a [`Table`].
pub struct TableSpec {
    /// The bytes that may appear unencoded.
    pub bytes: Set<u8>,
    /// Whether `%XX` octets may appear.
    pub enc: bool,
}

impl TableSpec {
    /// Only ASCII bytes other than `%` are ever allowed unencoded.
    pub open spec fn wf(self) -> bool {
        forall|x: u8| #[trigger] self.bytes.contains(x) ==> x < 128 && x != '%' as u8
    }

    /// The table of exactly the bytes that satisfy `p`, without encoded octets.
    pub open spec fn of(p: spec_fn(u8) -> bool) -> TableSpec {
        TableSpec { bytes: Set::new(p), enc: false }
    }

    /// The same bytes, with percent-encoded octets allowed.
    pub open spec fn with_enc(self) -> TableSpec {
        TableSpec { bytes: self.bytes, enc: true }
    }

    /// Everything that either table allows.
    pub open spec fn union(self, other: TableSpec) -> TableSpec {
        TableSpec { bytes: self.bytes.union(other.bytes), enc: self.enc || other.enc }
    }

    /// What `self` allows and `other` does not. Encoded octets stay allowed
    /// only if `self` allows them and `other` does not.
    pub open spec fn difference(self, other: TableSpec) -> TableSpec {
        TableSpec { bytes: self.bytes.difference(other.bytes), enc: self.enc && !other.enc }
    }

    /// `other` allows at least all the byte patterns that `self` allows.
    pub open spec fn is_subset_of(self, other: TableSpec) -> bool {
        self.bytes.subset_of(other.bytes) && (self.enc ==> other.enc)
    }

    /// Whether `s`, read from index `i` on, is a run of allowed bytes and, if
    /// encoded octets are allowed, of `%` followed by two hexadecimal digits.
    pub open spec fn validates_from(self, s: Seq<u8>, i: int) -> bool
        decreases s.len() - i,
    {
        if i < 0 || i >= s.len() {
            true
        } else if self.enc && s[i] == '%' as u8 {
            i + 2 < s.len() && is_hexdig(s[i + 1]) && is_hexdig(s[i + 2]) && self.validates_from(
                s,
                i + 3,
            )
        } else {
            self.bytes.contains(s[i]) && self.validates_from(s, i + 1)
        }
    }

    /// Whether the whole of `s` follows the table.
    pub open spec fn validates(self, s: Seq<u8>) -> bool {
        self.validates_from(s, 0)
    }

    /// The encoding of one byte: itself if allowed, else `%` and two
    /// upper-case hexadecimal digits.
    pub open spec fn encode_byte(self, x: u8) -> Seq<u8> {
        if self.bytes.contains(x) {
            seq![x]
        } else {
            seq!['%' as u8, hex_upper(x as int / 16), hex_upper(x as int % 16)]
        }
    }
}

/// The characters that stand for the given bytes, one for one.
pub open spec fn chars_of(s: Seq<u8>) -> Seq<char> {
    Seq::new(s.len(), |i: int| s[i] as char)
}

/// `String::push` appends the given character to the end of the string.
pub assume_specification[ String::push ](s: &mut String, c: char)
    ensures
        final(s)@ == old(s)@.push(c),
;

/// The union of two tables contains both of them.
pub proof fn lemma_union_is_superset(a: TableSpec, b: TableSpec)
    ensures
        a.is_subset_of(a.union(b)),
        b.is_subset_of(a.union(b)),
{
}

/// A table minus itself allows no byte and no encoded octet.
pub proof fn lemma_difference_with_self_is_empty(a: TableSpec)
    ensures
        a.difference(a).bytes =~= Set::<u8>::empty(),
        !a.difference(a).enc,
        forall|s: Seq<u8>| s.len() > 0 ==> !#[trigger] a.difference(a).validates(s),
{
}

/// Subtracting a table that allows encoded octets yields one that does not,
/// whatever the first table allowed.
pub proof fn lemma_difference_disables_enc(a: TableSpec, b: TableSpec)
    requires
        b.enc,
    ensures
        !a.difference(b).enc,
{
}

/// A table that is a subset of another validates no string that the other rejects.
pub proof fn lemma_subset_validates(a: TableSpec, b: TableSpec, s: Seq<u8>, i: int)
    requires
        a.is_subset_of(b),
        b.wf(),
        a.validates_from(s, i),
    ensures
        b.validates_from(s, i),
    decreases s.len() - i,
{
    if 0 <= i < s.len() {
        if a.enc && s[i] == '%' as u8 {
            lemma_subset_validates(a, b, s, i + 3);
        } else {
            assert(b.bytes.contains(s[i]));
            lemma_subset_validates(a, b, s, i + 1);
        }
    }
}

/// Entry `k` of the lookup of upper-case hexadecimal digits: entries `2 * x`
/// and `2 * x + 1` hold the high and the low digit of the byte `x`.
pub open spec fn hex_table_entry(k: int) -> u8 {
    if k % 2 == 0 {
        hex_upper(k / 2 / 16)
    } else {
        hex_upper(k / 2 % 16)
    }
}

/// Generates the lookup of upper-case hexadecimal digits, two for each byte.
pub fn gen_hex_table() -> (out: [u8; 512])
    ensures
        forall|k: int| 0 <= k < 512 ==> #[trigger] out@[k] == hex_table_entry(k),
{
    let digits: [u8; 16] = [
        '0' as u8,
        '1' as u8,
        '2' as u8,
        '3' as u8,
        '4' as u8,
        '5' as u8,
        '6' as u8,
        '7' as u8,
        '8' as u8,
        '9' as u8,
        'A' as u8,
        'B' as u8,
        'C' as u8,
        'D' as u8,
        'E' as u8,
        'F' as u8,
    ];
    assert(forall|k: int| 0 <= k < 16 ==> digits@[k] == hex_upper(k));
    let mut out: [u8; 512] = [0; 512];
    let mut i: usize = 0;
    while i < 256
        invariant
            i <= 256,
            forall|k: int| 0 <= k < 16 ==> digits@[k] == hex_upper(k),
            forall|k: int| 0 <= k < 2 * i ==> #[trigger] out@[k] == hex_table_entry(k),
        decreases 256 - i,
    {
        assert(i >> 4 == i / 16 && i & 0b1111 == i % 16) by (bit_vector)
            requires
                i < 256,
        ;
        out[i * 2] = digits[i >> 4];
        out[i * 2 + 1] = digits[i & 0b1111];
        i += 1;
    }
    out
}

/// A table determining the byte patterns allowed in a string.
#[derive(Clone, Copy, Debug)]
pub struct Table {
    arr: [u8; 256],
    allows_enc: bool,
}

impl View for Table {
    type V = TableSpec;

    closed spec fn view(&self) -> TableSpec {
        TableSpec { bytes: Set::new(|x: u8| self.arr@[x as int] != 0), enc: self.allows_enc }
    }
}

impl Table {
    #[verifier::type_invariant]
    closed spec fn inv(&self) -> bool {
        forall|i: int|
            0 <= i < 256 ==> (#[trigger] self.arr@[i]) <= 1 && (self.arr@[i] != 0 ==> i < 128 && i
                != 0x25)
    }

    /// Generates a table that only allows the given unencoded bytes.
    ///
    /// The bytes must be ASCII and none of them `%`.
    pub fn gen(bytes: &[u8]) -> (t: Table)
        requires
            forall|i: int|
                0 <= i < bytes@.len() ==> (#[trigger] bytes@[i]) < 128 && bytes@[i] != '%' as u8,
        ensures
            t@.bytes =~= bytes@.to_set(),
            !t@.enc,
            t@.wf(),
    {
        let mut arr: [u8; 256] = [0; 256];
        let mut z: usize = 0;
        while z < 256
            invariant
                z <= 256,
                forall|j: int| 0 <= j < z ==> (#[trigger] arr@[j]) == 0,
            decreases 256 - z,
        {
            arr[z] = 0;
            z += 1;
        }
        let mut i: usize = 0;
        while i < bytes.len()
            invariant
                i <= bytes@.len(),
                forall|k: int|
                    0 <= k < bytes@.len() ==> (#[trigger] bytes@[k]) < 128 && bytes@[k]
                        != '%' as u8,
                forall|j: int| 0 <= j < 256 ==> (#[trigger] arr@[j]) <= 1,
                forall|j: int|
                    0 <= j < 256 ==> ((#[trigger] arr@[j]) != 0 <==> exists|k: int|
                        0 <= k < i && bytes@[k] == j),
            decreases bytes@.len() - i,
        {
            let cur = bytes[i];
            arr[cur as usize] = 1;
            i += 1;
        }
        let t = Table { arr, allows_enc: false };
        assert(t@.bytes =~= bytes@.to_set()) by {
            assert forall|x: u8| t@.bytes.contains(x) <==> bytes@.to_set().contains(x) by {
                if t@.bytes.contains(x) {
                    let k = choose|k: int| 0 <= k < bytes@.len() && bytes@[k] == x as int;
                    assert(bytes@.contains(x));
                }
                if bytes@.contains(x) {
                    let k = choose|k: int| 0 <= k < bytes@.len() && bytes@[k] == x;
                    assert(bytes@[k] == x as int);
                }
            }
        }
        t
    }

    /// Marks this table as allowing percent-encoded octets.
    pub fn enc(self) -> (t: Table)
        ensures
            t@ == self@.with_enc(),
            self@.wf() ==> t@.wf(),
    {
        proof {
            use_type_invariant(&self);
        }
        let t = Table { arr: self.arr, allows_enc: true };
        assert(t@.bytes =~= self@.bytes);
        t
    }

    /// Combines two tables into one that allows all the byte patterns allowed
    /// by `self` or by `other`.
    pub fn or(self, other: &Table) -> (t: Table)
        ensures
            t@ == self@.union(other@),
            self@.is_subset_of(t@),
            other@.is_subset_of(t@),
            t@.wf(),
    {
        proof {
            use_type_invariant(&self);
            use_type_invariant(other);
        }
        let mut arr: [u8; 256] = self.arr;
        let mut i: usize = 0;
        while i < 256
            invariant
                i <= 256,
                self.inv(),
                other.inv(),
                forall|j: int| 0 <= j < i ==> (#[trigger] arr@[j]) <= 1,
                forall|j: int|
                    0 <= j < i ==> ((#[trigger] arr@[j]) != 0 <==> self.arr@[j] != 0
                        || other.arr@[j] != 0),
                forall|j: int| i <= j < 256 ==> (#[trigger] arr@[j]) == self.arr@[j],
            decreases 256 - i,
        {
            let a = arr[i];
            let b = other.arr[i];
            assert(a | b <= 1 && (a | b != 0 <==> a != 0 || b != 0)) by (bit_vector)
                requires
                    a <= 1,
                    b <= 1,
            ;
            arr[i] = a | b;
            i += 1;
        }
        let t = Table { arr, allows_enc: self.allows_enc || other.allows_enc };
        assert(t@.bytes =~= self@.union(other@).bytes);
        t
    }

    /// Subtracts from this table: the result allows the bytes allowed by
    /// `self` and not by `other`. If `other` allows percent-encoded octets,
    /// the result does not, whether or not `self` did.
    pub fn sub(self, other: &Table) -> (t: Table)
        ensures
            t@ == self@.difference(other@),
            other@.enc ==> !t@.enc,
            t@.is_subset_of(self@),
            t@.wf(),
    {
        proof {
            use_type_invariant(&self);
            use_type_invariant(other);
        }
        let mut arr: [u8; 256] = self.arr;
        let mut i: usize = 0;
        while i < 256
            invariant
                i <= 256,
                self.inv(),
                forall|j: int| 0 <= j < i ==> (#[trigger] arr@[j]) <= 1,
                forall|j: int|
                    0 <= j < i ==> ((#[trigger] arr@[j]) != 0 <==> self.arr@[j] != 0
                        && other.arr@[j] == 0),
                forall|j: int| i <= j < 256 ==> (#[trigger] arr@[j]) == self.arr@[j],
            decreases 256 - i,
        {
            if other.arr[i] != 0 {
                arr[i] = 0;
            }
            i += 1;
        }
        let mut allows_enc = self.allows_enc;
        if other.allows_enc {
            allows_enc = false;
        }
        let t = Table { arr, allows_enc };
        assert(t@.bytes =~= self@.difference(other@).bytes);
        t
    }

    /// Checks whether the table is a subset of another, i.e., `other`
    /// allows at least all the byte patterns allowed by `self`.
    pub fn is_subset(&self, other: &Table) -> (r: bool)
        ensures
            r == self@.is_subset_of(other@),
    {
        let mut i: usize = 0;
        while i < 256
            invariant
                i <= 256,
                forall|j: int| 0 <= j < i ==> (self.arr@[j] != 0 ==> other.arr@[j] != 0),
            decreases 256 - i,
        {
            if self.arr[i] != 0 && other.arr[i] == 0 {
                proof {
                    let x = i as u8;
                    assert(self@.bytes.contains(x) && !other@.bytes.contains(x));
                }
                return false;
            }
            i += 1;
        }
        assert(self@.bytes.subset_of(other@.bytes));
        !self.allows_enc || other.allows_enc
    }

    /// Returns the table's entry for a byte: 1 if it is allowed, else 0.
    pub fn get(&self, x: u8) -> (r: u8)
        ensures
            r <= 1,
            r != 0 <==> self@.bytes.contains(x),
    {
        proof {
            use_type_invariant(self);
        }
        self.arr[x as usize]
    }

    /// Checks whether the given unencoded byte is allowed by the table.
    pub fn allows(&self, x: u8) -> (r: bool)
        ensures
            r == self@.bytes.contains(x),
            r ==> x < 128 && x != '%' as u8,
    {
        proof {
            use_type_invariant(self);
        }
        self.get(x) != 0
    }

    /// Checks whether percent-encoded octets are allowed by the table.
    pub fn allows_enc(&self) -> (r: bool)
        ensures
            r == self@.enc,
            self@.wf(),
    {
        proof {
            use_type_invariant(self);
        }
        self.allows_enc
    }

    /// Appends the encoding of the byte `x` to `buf`, reading the digits of an
    /// encoded octet from `hex`.
    pub(crate) fn encode_with(&self, hex: &[u8; 512], x: u8, buf: &mut String)
        requires
            forall|k: int| 0 <= k < 512 ==> #[trigger] hex@[k] == hex_table_entry(k),
        ensures
            final(buf)@ == old(buf)@ + chars_of(self@.encode_byte(x)),
    {
        if self.allows(x) {
            buf.push(x as char);
            assert(buf@ =~= old(buf)@ + chars_of(self@.encode_byte(x)));
        } else {
            buf.push('%');
            buf.push(hex[x as usize * 2] as char);
            buf.push(hex[x as usize * 2 + 1] as char);
            assert(buf@ =~= old(buf)@ + chars_of(self@.encode_byte(x)));
        }
    }

    /// Appends the byte `x` to `buf` if the table allows it, else `%` and its
    /// two upper-case hexadecimal digits.
    pub fn encode(&self, x: u8, buf: &mut String)
        ensures
            final(buf)@ == old(buf)@ + chars_of(self@.encode_byte(x)),
    {
        let hex = gen_hex_table();
        self.encode_with(&hex, x, buf)
    }

    /// Validates the given byte sequence with the table.
    pub fn validate(&self, s: &[u8]) -> (r: bool)
        ensures
            r == self@.validates(s@),
    {
        let mut i: usize = 0;
        if self.allows_enc() {
            let hexdig = hexdig();
            while i < s.len()
                invariant
                    i <= s@.len(),
                    self@.enc,
                    hexdig@ == hexdig_spec(),
                    self@.validates(s@) == self@.validates_from(s@, i as int),
                decreases s@.len() - i,
            {
                let x = s[i];
                if x == '%' as u8 {
                    if s.len() - i <= 2 {
                        return false;
                    }
                    let (hi, lo) = (s[i + 1], s[i + 2]);
                    let (a, b) = (hexdig.get(hi), hexdig.get(lo));
                    assert((a & b == 0) <==> (a == 0 || b == 0)) by (bit_vector)
                        requires
                            a <= 1,
                            b <= 1,
                    ;
                    if a & b == 0 {
                        return false;
                    }
                    i += 3;
                } else {
                    if !self.allows(x) {
                        return false;
                    }
                    i += 1;
                }
            }
        } else {
            while i < s.len()
                invariant
                    i <= s@.len(),
                    !self@.enc,
                    self@.validates(s@) == self@.validates_from(s@, i as int),
                decreases s@.len() - i,
            {
                if !self.allows(s[i]) {
                    return false;
                }
                i += 1;
            }
        }
        true
    }
}

/// Generates a table that only allows the given unencoded bytes.
pub fn gen(bytes: &[u8]) -> (t: Table)
    requires
        forall|i: int|
            0 <= i < bytes@.len() ==> (#[trigger] bytes@[i]) < 128 && bytes@[i] != '%' as u8,
    ensures
        t@.bytes =~= bytes@.to_set(),
        !t@.enc,
        t@.wf(),
{
    Table::gen(bytes)
}

/// The content of [`alpha`].
pub open spec fn alpha_spec() -> TableSpec {
    TableSpec::of(|x: u8| is_alpha(x))
}

/// The content of [`digit`].
pub open spec fn digit_spec() -> TableSpec {
    TableSpec::of(|x: u8| is_digit(x))
}

/// The content of [`hexdig`].
pub open spec fn hexdig_spec() -> TableSpec {
    TableSpec::of(|x: u8| is_hexdig(x))
}

/// The content of [`scheme`].
pub open spec fn scheme_spec() -> TableSpec {
    TableSpec::of(|x: u8| is_scheme_char(x))
}

/// The content of [`unreserved`].
pub open spec fn unreserved_spec() -> TableSpec {
    TableSpec::of(|x: u8| is_unreserved(x))
}

/// The content of [`sub_delims`].
pub open spec fn sub_delims_spec() -> TableSpec {
    TableSpec::of(|x: u8| is_sub_delim(x))
}

/// The content of [`gen_delims`].
pub open spec fn gen_delims_spec() -> TableSpec {
    TableSpec::of(|x: u8| is_gen_delim(x))
}

/// The content of [`reserved`].
pub open spec fn reserved_spec() -> TableSpec {
    TableSpec::of(|x: u8| is_gen_delim(x) || is_sub_delim(x))
}

/// The content of [`ipv_future`].
pub open spec fn ipv_future_spec() -> TableSpec {
    TableSpec::of(|x: u8| is_unreserved(x) || is_sub_delim(x) || x == ':' as u8)
}

/// The content of [`userinfo`].
pub open spec fn userinfo_spec() -> TableSpec {
    ipv_future_spec().with_enc()
}

/// The content of [`reg_name`].
pub open spec fn reg_name_spec() -> TableSpec {
    TableSpec::of(|x: u8| is_unreserved(x) || is_sub_delim(x)).with_enc()
}

/// The content of [`segment_nz_nc`].
pub open spec fn segment_nz_nc_spec() -> TableSpec {
    TableSpec::of(|x: u8| is_unreserved(x) || is_sub_delim(x) || x == '@' as u8).with_enc()
}

/// The content of [`pchar`].
pub open spec fn pchar_spec() -> TableSpec {
    TableSpec::of(|x: u8| is_pchar(x)).with_enc()
}

/// The content of [`path`].
pub open spec fn path_spec() -> TableSpec {
    TableSpec::of(|x: u8| is_pchar(x) || x == '/' as u8).with_enc()
}

/// The content of [`query`].
pub open spec fn query_spec() -> TableSpec {
    TableSpec::of(|x: u8| is_pchar(x) || x == '/' as u8 || x == '?' as u8).with_enc()
}

/// The content of [`fragment`]: the grammar of a query.
pub open spec fn fragment_spec() -> TableSpec {
    query_spec()
}

/// The content of [`data`].
pub open spec fn data_spec() -> TableSpec {
    unreserved_spec().with_enc()
}

/// `ALPHA = %x41-5A / %x61-7A`
pub fn alpha() -> (t: Table)
    ensures
        t@ == alpha_spec(),
        t@.wf(),
{
    let upper: [u8; 26] = [
        'A' as u8,
        'B' as u8,
        'C' as u8,
        'D' as u8,
        'E' as u8,
        'F' as u8,
        'G' as u8,
        'H' as u8,
        'I' as u8,
        'J' as u8,
        'K' as u8,
        'L' as u8,
        'M' as u8,
        'N' as u8,
        'O' as u8,
        'P' as u8,
        'Q' as u8,
        'R' as u8,
        'S' as u8,
        'T' as u8,
        'U' as u8,
        'V' as u8,
        'W' as u8,
        'X' as u8,
        'Y' as u8,
        'Z' as u8,
    ];
    let lower: [u8; 26] = [
        'a' as u8,
        'b' as u8,
        'c' as u8,
        'd' as u8,
        'e' as u8,
        'f' as u8,
        'g' as u8,
        'h' as u8,
        'i' as u8,
        'j' as u8,
        'k' as u8,
        'l' as u8,
        'm' as u8,
        'n' as u8,
        'o' as u8,
        'p' as u8,
        'q' as u8,
        'r' as u8,
        's' as u8,
        't' as u8,
        'u' as u8,
        'v' as u8,
        'w' as u8,
        'x' as u8,
        'y' as u8,
        'z' as u8,
    ];
    let ghost u = upper@;
    let ghost l = lower@;
    let t = gen(&upper).or(&gen(&lower));
    proof {
        assert forall|x: u8| t@.bytes.contains(x) <==> is_alpha(x) by {
            if is_alpha(x) {
                if x <= 0x5a {
                    assert(u[x - 0x41] == x);
                } else {
                    assert(l[x - 0x61] == x);
                }
            }
        }
        assert(t@.bytes =~= alpha_spec().bytes);
    }
    t
}

/// `DIGIT = %x30-39`
pub fn digit() -> (t: Table)
    ensures
        t@ == digit_spec(),
        t@.wf(),
{
    let digits: [u8; 10] = [
        '0' as u8,
        '1' as u8,
        '2' as u8,
        '3' as u8,
        '4' as u8,
        '5' as u8,
        '6' as u8,
        '7' as u8,
        '8' as u8,
        '9' as u8,
    ];
    let ghost d = digits@;
    let t = gen(&digits);
    proof {
        assert forall|x: u8| t@.bytes.contains(x) <==> is_digit(x) by {
            if is_digit(x) {
                assert(d[x - 0x30] == x);
            }
        }
        assert(t@.bytes =~= digit_spec().bytes);
    }
    t
}

/// `HEXDIG = DIGIT / "A" / "B" / "C" / "D" / "E" / "F"`, in either case.
pub fn hexdig() -> (t: Table)
    ensures
        t@ == hexdig_spec(),
        t@.wf(),
{
    let letters: [u8; 12] = [
        'A' as u8,
        'B' as u8,
        'C' as u8,
        'D' as u8,
        'E' as u8,
        'F' as u8,
        'a' as u8,
        'b' as u8,
        'c' as u8,
        'd' as u8,
        'e' as u8,
        'f' as u8,
    ];
    let ghost l = letters@;
    let t = digit().or(&gen(&letters));
    proof {
        assert forall|x: u8| t@.bytes.contains(x) <==> is_hexdig(x) by {
            if is_hexdig(x) && !is_digit(x) {
                if x <= 0x46 {
                    assert(l[x - 0x41] == x);
                } else {
                    assert(l[x - 0x61 + 6] == x);
                }
            }
        }
        assert(t@.bytes =~= hexdig_spec().bytes);
    }
    t
}

/// `scheme = ALPHA *( ALPHA / DIGIT / "+" / "-" / "." )`: the characters after the first.
pub fn scheme() -> (t: Table)
    ensures
        t@ == scheme_spec(),
        t@.wf(),
{
    let extra: [u8; 3] = [
        '+' as u8,
        '-' as u8,
        '.' as u8,
    ];
    let ghost e = extra@;
    let t = alpha().or(&digit()).or(&gen(&extra));
    proof {
        assert forall|x: u8| t@.bytes.contains(x) <==> (is_scheme_char(x)) by {
            assert(e[0] == '+' as u8);
            assert(e[1] == '-' as u8);
            assert(e[2] == '.' as u8);
        }
        assert(t@.bytes =~= scheme_spec().bytes);
    }
    t
}

/// `unreserved = ALPHA / DIGIT / "-" / "." / "_" / "~"`
pub fn unreserved() -> (t: Table)
    ensures
        t@ == unreserved_spec(),
        t@.wf(),
{
    let extra: [u8; 4] = [
        '-' as u8,
        '.' as u8,
        '_' as u8,
        '~' as u8,
    ];
    let ghost e = extra@;
    let t = alpha().or(&digit()).or(&gen(&extra));
    proof {
        assert forall|x: u8| t@.bytes.contains(x) <==> (is_unreserved(x)) by {
            assert(e[0] == '-' as u8);
            assert(e[1] == '.' as u8);
            assert(e[2] == '_' as u8);
            assert(e[3] == '~' as u8);
        }
        assert(t@.bytes =~= unreserved_spec().bytes);
    }
    t
}

/// `sub-delims = "!" / "$" / "&" / "'" / "(" / ")" / "*" / "+" / "," / ";" / "="`
pub fn sub_delims() -> (t: Table)
    ensures
        t@ == sub_delims_spec(),
        t@.wf(),
{
    let extra: [u8; 11] = [
        '!' as u8,
        '$' as u8,
        '&' as u8,
        '\'' as u8,
        '(' as u8,
        ')' as u8,
        '*' as u8,
        '+' as u8,
        ',' as u8,
        ';' as u8,
        '=' as u8,
    ];
    let ghost e = extra@;
    let t = gen(&extra);
    proof {
        assert forall|x: u8| t@.bytes.contains(x) <==> (is_sub_delim(x)) by {
            assert(e[0] == '!' as u8);
            assert(e[1] == '$' as u8);
            assert(e[2] == '&' as u8);
            assert(e[3] == '\'' as u8);
            assert(e[4] == '(' as u8);
            assert(e[5] == ')' as u8);
            assert(e[6] == '*' as u8);
            assert(e[7] == '+' as u8);
            assert(e[8] == ',' as u8);
            assert(e[9] == ';' as u8);
            assert(e[10] == '=' as u8);
        }
        assert(t@.bytes =~= sub_delims_spec().bytes);
    }
    t
}

/// `gen-delims = ":" / "/" / "?" / "#" / "[" / "]" / "@"`
pub fn gen_delims() -> (t: Table)
    ensures
        t@ == gen_delims_spec(),
        t@.wf(),
{
    let extra: [u8; 7] = [
        ':' as u8,
        '/' as u8,
        '?' as u8,
        '#' as u8,
        '[' as u8,
        ']' as u8,
        '@' as u8,
    ];
    let ghost e = extra@;
    let t = gen(&extra);
    proof {
        assert forall|x: u8| t@.bytes.contains(x) <==> (is_gen_delim(x)) by {
            assert(e[0] == ':' as u8);
            assert(e[1] == '/' as u8);
            assert(e[2] == '?' as u8);
            assert(e[3] == '#' as u8);
            assert(e[4] == '[' as u8);
            assert(e[5] == ']' as u8);
            assert(e[6] == '@' as u8);
        }
        assert(t@.bytes =~= gen_delims_spec().bytes);
    }
    t
}

/// `reserved = gen-delims / sub-delims`
pub fn reserved() -> (t: Table)
    ensures
        t@ == reserved_spec(),
        t@.wf(),
{
    let t = gen_delims().or(&sub_delims());
    assert(t@.bytes =~= reserved_spec().bytes);
    t
}

/// `IPvFuture = "v" 1*HEXDIG "." 1*( unreserved / sub-delims / ":" )`: the characters of the last part.
pub fn ipv_future() -> (t: Table)
    ensures
        t@ == ipv_future_spec(),
        t@.wf(),
{
    let extra: [u8; 1] = [
        ':' as u8,
    ];
    let ghost e = extra@;
    let t = unreserved().or(&sub_delims()).or(&gen(&extra));
    proof {
        assert forall|x: u8| t@.bytes.contains(x) <==> (is_unreserved(x) || is_sub_delim(x) || x == ':' as u8) by {
            assert(e[0] == ':' as u8);
        }
        assert(t@.bytes =~= ipv_future_spec().bytes);
    }
    t
}

/// `userinfo = *( unreserved / pct-encoded / sub-delims / ":" )`
pub fn userinfo() -> (t: Table)
    ensures
        t@ == userinfo_spec(),
        t@.wf(),
{
    ipv_future().enc()
}

/// `reg-name = *( unreserved / pct-encoded / sub-delims )`
pub fn reg_name() -> (t: Table)
    ensures
        t@ == reg_name_spec(),
        t@.wf(),
{
    let t = unreserved().or(&sub_delims()).enc();
    assert(t@.bytes =~= reg_name_spec().bytes);
    t
}

/// `segment-nz-nc = 1*( unreserved / pct-encoded / sub-delims / "@" )`
pub fn segment_nz_nc() -> (t: Table)
    ensures
        t@ == segment_nz_nc_spec(),
        t@.wf(),
{
    let extra: [u8; 1] = [
        '@' as u8,
    ];
    let ghost e = extra@;
    let t = unreserved().or(&sub_delims()).or(&gen(&extra)).enc();
    proof {
        assert forall|x: u8| t@.bytes.contains(x) <==> (is_unreserved(x) || is_sub_delim(x) || x == '@' as u8) by {
            assert(e[0] == '@' as u8);
        }
        assert(t@.bytes =~= segment_nz_nc_spec().bytes);
    }
    t
}

/// `pchar = unreserved / pct-encoded / sub-delims / ":" / "@"`
pub fn pchar() -> (t: Table)
    ensures
        t@ == pchar_spec(),
        t@.wf(),
{
    let extra: [u8; 2] = [
        ':' as u8,
        '@' as u8,
    ];
    let ghost e = extra@;
    let t = unreserved().or(&sub_delims()).or(&gen(&extra)).enc();
    proof {
        assert forall|x: u8| t@.bytes.contains(x) <==> (is_pchar(x)) by {
            assert(e[0] == ':' as u8);
            assert(e[1] == '@' as u8);
        }
        assert(t@.bytes =~= pchar_spec().bytes);
    }
    t
}

/// `path = *( pchar / "/" )`
pub fn path() -> (t: Table)
    ensures
        t@ == path_spec(),
        t@.wf(),
{
    let extra: [u8; 1] = [
        '/' as u8,
    ];
    let ghost e = extra@;
    let t = pchar().or(&gen(&extra));
    proof {
        assert forall|x: u8| t@.bytes.contains(x) <==> (is_pchar(x) || x == '/' as u8) by {
            assert(e[0] == '/' as u8);
        }
        assert(t@.bytes =~= path_spec().bytes);
    }
    t
}

/// `query = *( pchar / "/" / "?" )`
pub fn query() -> (t: Table)
    ensures
        t@ == query_spec(),
        t@.wf(),
{
    let extra: [u8; 2] = [
        '/' as u8,
        '?' as u8,
    ];
    let ghost e = extra@;
    let t = pchar().or(&gen(&extra));
    proof {
        assert forall|x: u8| t@.bytes.contains(x) <==> (is_pchar(x) || x == '/' as u8 || x == '?' as u8) by {
            assert(e[0] == '/' as u8);
            assert(e[1] == '?' as u8);
        }
        assert(t@.bytes =~= query_spec().bytes);
    }
    t
}

/// `fragment = *( pchar / "/" / "?" )`
pub fn fragment() -> (t: Table)
    ensures
        t@ == fragment_spec(),
        t@.wf(),
{
    query()
}

/// The table for opaque data: only unreserved characters stay unencoded.
pub fn data() -> (t: Table)
    ensures
        t@ == data_spec(),
        t@.wf(),
{
    unreserved().enc()
}

} // verus!
