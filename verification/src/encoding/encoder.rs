//! Percent-encoders for URI components.

use super::table::{
    data, data_spec, digit, digit_spec, fragment, fragment_spec, path, path_spec, query,
    query_spec, reg_name, reg_name_spec, userinfo, userinfo_spec, Table, TableSpec,
};
use super::Encoder;
use vstd::prelude::*;

verus! {

/// An encoder for userinfo.
#[derive(Clone, Copy, Debug)]
pub struct Userinfo(());

impl Encoder for Userinfo {
    open spec fn table_spec() -> TableSpec {
        userinfo_spec()
    }

    fn table() -> Table {
        userinfo()
    }

    proof fn lemma_table_wf() {
    }
}

/// An encoder for registered name.
#[derive(Clone, Copy, Debug)]
pub struct RegName(());

impl Encoder for RegName {
    open spec fn table_spec() -> TableSpec {
        reg_name_spec()
    }

    fn table() -> Table {
        reg_name()
    }

    proof fn lemma_table_wf() {
    }
}

/// An encoder for port.
#[derive(Clone, Copy, Debug)]
pub struct Port(());

impl Encoder for Port {
    open spec fn table_spec() -> TableSpec {
        digit_spec()
    }

    fn table() -> Table {
        digit()
    }

    proof fn lemma_table_wf() {
    }
}

/// An encoder for path.
#[derive(Clone, Copy, Debug)]
pub struct Path(());

impl Encoder for Path {
    open spec fn table_spec() -> TableSpec {
        path_spec()
    }

    fn table() -> Table {
        path()
    }

    proof fn lemma_table_wf() {
    }
}

/// An encoder for query.
#[derive(Clone, Copy, Debug)]
pub struct Query(());

impl Encoder for Query {
    open spec fn table_spec() -> TableSpec {
        query_spec()
    }

    fn table() -> Table {
        query()
    }

    proof fn lemma_table_wf() {
    }
}

/// An encoder for fragment.
#[derive(Clone, Copy, Debug)]
pub struct Fragment(());

impl Encoder for Fragment {
    open spec fn table_spec() -> TableSpec {
        fragment_spec()
    }

    fn table() -> Table {
        fragment()
    }

    proof fn lemma_table_wf() {
    }
}

/// An encoder for data which preserves only unreserved characters and
/// encodes the others.
#[derive(Clone, Copy, Debug)]
pub struct Data(());

impl Encoder for Data {
    open spec fn table_spec() -> TableSpec {
        data_spec()
    }

    fn table() -> Table {
        data()
    }

    proof fn lemma_table_wf() {
    }
}

} // verus!
