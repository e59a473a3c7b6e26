//! The payload of a CNAME record: the canonical name that an alias stands for.
use crate::types::domain::Domain;
use crate::types::DNSItem;
use crate::util::{ParseError, Parsed};
use vstd::prelude::*;

verus! {

/// The payload of a CNAME record.
#[derive(Debug, PartialEq, Eq)]
pub struct RData {
    pub cname: Domain,
}

impl View for RData {
    type V = Seq<Seq<u8>>;

    open spec fn view(&self) -> Seq<Seq<u8>> {
        self.cname@
    }
}

impl DNSItem for RData {
    open spec fn spec_wf(v: Seq<Seq<u8>>) -> bool {
        Domain::spec_wf(v)
    }

    open spec fn spec_as_bytes(v: Seq<Seq<u8>>) -> Seq<u8> {
        Domain::spec_as_bytes(v)
    }

    open spec fn spec_parse(bytes: Seq<u8>) -> Parsed<Seq<Seq<u8>>> {
        Domain::spec_parse(bytes)
    }

    proof fn lemma_parse_as_bytes(v: Seq<Seq<u8>>, rest: Seq<u8>) {
        Domain::lemma_parse_as_bytes(v, rest);
    }

    proof fn lemma_as_bytes_parse(bytes: Seq<u8>) {
        Domain::lemma_as_bytes_parse(bytes);
    }

    fn parse<'a>(bytes: &'a [u8]) -> (r: Result<(&'a [u8], Self), ParseError>) {
        let (rest, cname) = Domain::parse(bytes)?;
        Ok((rest, RData { cname }))
    }

    fn as_bytes(&self) -> (out: Vec<u8>) {
        self.cname.as_bytes()
    }

    fn len_bytes(&self) -> (n: usize) {
        self.cname.len_bytes()
    }
}

} // verus!
