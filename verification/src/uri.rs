//! URI references: parsing, access to the components, and resolution
//! against a base.

use crate::component::{Authority, Scheme};
use crate::encoding::encoder::{Fragment, Path, Query};
use crate::encoding::table::chars_of;
use crate::encoding::EStr;
use crate::error::ParseError;
use crate::internal::Meta;
use crate::parser::{
    assemble, authority_of, first_invalid, fragment_of, is_uri_reference, lemma_parts_in_order,
    lemma_uri_reference_is_ascii, meta_matches, parse_bytes, path_of, query_of, scheme_of,
    Tables,
};
use crate::resolver::{merge, remove_dot_segments, resolve_spec};
use crate::text::{ascii_slice, lemma_ascii_of_bytes};
use vstd::prelude::*;
use vstd::slice::slice_subrange;
use vstd::string::*;

verus! {

/// A URI reference, i.e., either a URI or a relative reference.
///
/// It borrows the text it was parsed from; the components are views into
/// that text.
#[derive(Clone, Copy, Debug)]
pub struct UriRef<'a> {
    val: &'a str,
    meta: Meta,
}

impl<'a> View for UriRef<'a> {
    type V = Seq<u8>;

    closed spec fn view(&self) -> Seq<u8> {
        self.val.spec_bytes()
    }
}

/// What an optional byte slice holds.
pub open spec fn opt_bytes(o: Option<&[u8]>) -> Option<Seq<u8>> {
    match o {
        Some(s) => Some(s@),
        None => None,
    }
}

/// The part of `bytes` in an optional range.
fn part<'b>(bytes: &'b [u8], r: Option<(usize, usize)>) -> (p: Option<&'b [u8]>)
    requires
        r matches Some((a, b)) ==> a <= b <= bytes@.len(),
    ensures
        opt_bytes(p) == crate::parser::slice_opt(bytes@, crate::internal::range_of(r)),
{
    match r {
        Some((a, b)) => Some(slice_subrange(bytes, a, b)),
        None => None,
    }
}

/// Puts the text of a URI reference together from its components.
pub fn assemble_bytes(
    scheme: Option<&[u8]>,
    authority: Option<&[u8]>,
    path: &[u8],
    query: Option<&[u8]>,
    fragment: Option<&[u8]>,
) -> (r: Vec<u8>)
    ensures
        r@ == assemble(
            opt_bytes(scheme),
            opt_bytes(authority),
            path@,
            opt_bytes(query),
            opt_bytes(fragment),
        ),
{
    let mut out: Vec<u8> = Vec::new();
    match scheme {
        Some(s) => {
            out.extend_from_slice(s);
            out.push(':' as u8);
        },
        None => {},
    }
    match authority {
        Some(a) => {
            out.push('/' as u8);
            out.push('/' as u8);
            out.extend_from_slice(a);
        },
        None => {},
    }
    out.extend_from_slice(path);
    match query {
        Some(q) => {
            out.push('?' as u8);
            out.extend_from_slice(q);
        },
        None => {},
    }
    match fragment {
        Some(f) => {
            out.push('#' as u8);
            out.extend_from_slice(f);
        },
        None => {},
    }
    assert(out@ =~= assemble(
        opt_bytes(scheme),
        opt_bytes(authority),
        path@,
        opt_bytes(query),
        opt_bytes(fragment),
    ));
    out
}

/// The string whose characters stand for the given bytes, one for one.
pub fn string_of_bytes(bytes: &[u8]) -> (r: String)
    ensures
        r@ == chars_of(bytes@),
{
    let mut out = String::new();
    let mut i: usize = 0;
    while i < bytes.len()
        invariant
            i <= bytes@.len(),
            out@ == chars_of(bytes@.subrange(0, i as int)),
        decreases bytes@.len() - i,
    {
        out.push(bytes[i] as char);
        i += 1;
        assert(out@ =~= chars_of(bytes@.subrange(0, i as int)));
    }
    assert(bytes@.subrange(0, i as int) =~= bytes@);
    out
}

impl<'a> UriRef<'a> {
    #[verifier::type_invariant]
    closed spec fn inv(&self) -> bool {
        &&& is_ascii(self.val)
        &&& is_uri_reference(self.val.spec_bytes())
        &&& meta_matches(self.meta, self.val.spec_bytes())
    }

    /// Parses a URI reference from a string slice.
    ///
    /// Either the whole text is a URI reference, or the result is an error
    /// that names the first component at fault: nothing is ever half parsed.
    pub fn parse(s: &'a str) -> (r: Result<UriRef<'a>, ParseError>)
        ensures
            r is Ok <==> is_uri_reference(s.spec_bytes()),
            r matches Ok(u) ==> u@ == s.spec_bytes(),
            r matches Err(e) ==> first_invalid(s.spec_bytes()) == Some(
                (e.component, e.index as int),
            ),
    {
        Self::parse_with(s, &Tables::new())
    }

    /// Parses a URI reference from a string slice with tables that are
    /// already built, as when many texts are parsed.
    pub fn parse_with(s: &'a str, tables: &Tables) -> (r: Result<UriRef<'a>, ParseError>)
        ensures
            r is Ok <==> is_uri_reference(s.spec_bytes()),
            r matches Ok(u) ==> u@ == s.spec_bytes(),
            r matches Err(e) ==> first_invalid(s.spec_bytes()) == Some(
                (e.component, e.index as int),
            ),
    {
        match parse_bytes(s.as_bytes(), tables) {
            Ok(meta) => {
                proof {
                    lemma_uri_reference_is_ascii(s.spec_bytes());
                    lemma_ascii_of_bytes(s);
                }
                Ok(UriRef { val: s, meta })
            },
            Err(e) => Err(e),
        }
    }

    /// Returns the URI reference as a string slice.
    pub fn as_str(&self) -> (r: &'a str)
        ensures
            r.spec_bytes() == self@,
            is_ascii(r),
            is_uri_reference(self@),
    {
        proof {
            use_type_invariant(self);
        }
        self.val
    }

    /// Returns the optional scheme component.
    pub fn scheme(&self) -> (r: Option<Scheme<'a>>)
        ensures
            r is Some == scheme_of(self@) is Some,
            r matches Some(x) ==> Some(x@) == scheme_of(self@),
    {
        proof {
            use_type_invariant(self);
            lemma_parts_in_order(self@);
        }
        match self.meta.scheme {
            Some((a, b)) => Some(Scheme::new_validated(ascii_slice(self.val, a, b))),
            None => None,
        }
    }

    /// Returns the optional authority component.
    pub fn authority(&self) -> (r: Option<Authority<'a>>)
        ensures
            r is Some == authority_of(self@) is Some,
            r matches Some(x) ==> Some(x@) == authority_of(self@),
    {
        proof {
            use_type_invariant(self);
            lemma_parts_in_order(self@);
        }
        match (self.meta.authority, self.meta.auth_meta) {
            (Some((a, b)), Some(m)) => Some(Authority::new(ascii_slice(self.val, a, b), m)),
            _ => None,
        }
    }

    /// Returns the path component, which is always there and may be empty.
    pub fn path(&self) -> (r: EStr<'a, Path>)
        ensures
            r@ == path_of(self@),
    {
        proof {
            use_type_invariant(self);
            lemma_parts_in_order(self@);
        }
        EStr::new_validated(ascii_slice(self.val, self.meta.path.0, self.meta.path.1))
    }

    /// Returns the optional query component.
    pub fn query(&self) -> (r: Option<EStr<'a, Query>>)
        ensures
            r is Some == query_of(self@) is Some,
            r matches Some(x) ==> Some(x@) == query_of(self@),
    {
        proof {
            use_type_invariant(self);
            lemma_parts_in_order(self@);
        }
        match self.meta.query {
            Some((a, b)) => Some(EStr::new_validated(ascii_slice(self.val, a, b))),
            None => None,
        }
    }

    /// Returns the optional fragment component.
    pub fn fragment(&self) -> (r: Option<EStr<'a, Fragment>>)
        ensures
            r is Some == fragment_of(self@) is Some,
            r matches Some(x) ==> Some(x@) == fragment_of(self@),
    {
        proof {
            use_type_invariant(self);
            lemma_parts_in_order(self@);
        }
        match self.meta.fragment {
            Some((a, b)) => Some(EStr::new_validated(ascii_slice(self.val, a, b))),
            None => None,
        }
    }

    /// Checks whether the URI reference is relative, i.e., without a scheme.
    pub fn is_relative(&self) -> (r: bool)
        ensures
            r == scheme_of(self@) is None,
    {
        proof {
            use_type_invariant(self);
        }
        self.meta.scheme.is_none()
    }

    /// Resolves the URI reference against the given base, which must have a
    /// scheme, and returns the text of the target.
    ///
    /// Returns `None` if the base has no scheme.
    pub fn resolve(&self, base: &UriRef<'_>) -> (r: Option<String>)
        ensures
            r is Some <==> scheme_of(base@) is Some,
            r matches Some(t) ==> t@ == chars_of(resolve_spec(base@, self@)),
    {
        proof {
            use_type_invariant(self);
            use_type_invariant(base);
            lemma_parts_in_order(self@);
            lemma_parts_in_order(base@);
        }
        if base.meta.scheme.is_none() {
            return None;
        }
        let b = base.val.as_bytes();
        let r = self.val.as_bytes();
        let b_scheme = part(b, base.meta.scheme);
        let b_authority = part(b, base.meta.authority);
        let b_path = slice_subrange(b, base.meta.path.0, base.meta.path.1);
        let b_query = part(b, base.meta.query);
        let r_scheme = part(r, self.meta.scheme);
        let r_authority = part(r, self.meta.authority);
        let r_path = slice_subrange(r, self.meta.path.0, self.meta.path.1);
        let r_query = part(r, self.meta.query);
        let r_fragment = part(r, self.meta.fragment);
        let target = if r_scheme.is_some() {
            let path = remove_dot_segments(r_path);
            assemble_bytes(r_scheme, r_authority, path.as_slice(), r_query, r_fragment)
        } else if r_authority.is_some() {
            let path = remove_dot_segments(r_path);
            assemble_bytes(b_scheme, r_authority, path.as_slice(), r_query, r_fragment)
        } else if r_path.len() == 0 {
            let query = if r_query.is_some() {
                r_query
            } else {
                b_query
            };
            assemble_bytes(b_scheme, b_authority, b_path, query, r_fragment)
        } else if r_path[0] == '/' as u8 {
            let path = remove_dot_segments(r_path);
            assemble_bytes(b_scheme, b_authority, path.as_slice(), r_query, r_fragment)
        } else {
            let merged = merge(b_authority.is_some(), b_path, r_path);
            let path = remove_dot_segments(merged.as_slice());
            assemble_bytes(b_scheme, b_authority, path.as_slice(), r_query, r_fragment)
        };
        Some(string_of_bytes(target.as_slice()))
    }
}

} // verus!
