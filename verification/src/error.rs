//! Error types.

use vstd::prelude::*;

verus! {

/// The kinds of component that a URI reference is made of.
#[derive(Clone, Copy, Debug, PartialEq, Eq)]
pub enum Component {
    /// The scheme.
    Scheme,
    /// The authority.
    Authority,
    /// The path.
    Path,
    /// The query.
    Query,
    /// The fragment.
    Fragment,
}

/// The error of a text that is not a URI reference: the first of its
/// components that does not follow its grammar.
#[derive(Clone, Copy, Debug, PartialEq, Eq)]
pub struct ParseError {
    /// The kind of the component at fault.
    pub component: Component,
    /// The byte offset at which that component starts.
    pub index: usize,
}

/// The error of a port that denotes a number above `u16::MAX`.
#[derive(Clone, Copy, Debug, PartialEq, Eq)]
pub struct PortError {}

/// The error of decoded bytes that are not the UTF-8 encoding of a text.
#[derive(Clone, Copy, Debug, PartialEq, Eq)]
pub struct Utf8Error {}

} // verus!
