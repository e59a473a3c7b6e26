//! The wire entities of a DNS message and the capability they share.
pub mod domain;
pub mod message;
pub mod rr;

use crate::util::{
    complete, decoded, parsed, spec_complete, spec_concat, spec_prepend, spec_repeat, spec_views,
    ParseError, Parsed,
};
use crate::util::{lemma_concat_push, lemma_prepend_empty, lemma_repeat_len, lemma_repeat_step};
use std::marker::PhantomData;
use vstd::prelude::*;

verus! {

/// A wire entity: something that can be parsed from the front of a byte
/// buffer, encoded to its exact wire bytes, and sized without encoding.
///
/// The executable methods are specified against a model of the entity
/// (its view) by three specification functions, and every implementation
/// proves the two laws that tie parsing and encoding together.
pub trait DNSItem: View + Sized {
    /// Whether a model value satisfies the entity's invariants.
    spec fn spec_wf(v: Self::V) -> bool;

    /// The wire encoding of a model value.
    spec fn spec_as_bytes(v: Self::V) -> Seq<u8>;

    /// The result of parsing one item from the front of `bytes`: the unread
    /// input and the item's model, or the error.
    spec fn spec_parse(bytes: Seq<u8>) -> Parsed<Self::V>;

    /// Parsing inverts encoding: the encoding of a well-formed value, followed
    /// by anything, parses to that value and leaves exactly what followed.
    proof fn lemma_parse_as_bytes(v: Self::V, rest: Seq<u8>)
        requires
            Self::spec_wf(v),
        ensures
            Self::spec_parse(Self::spec_as_bytes(v) + rest) == Ok::<_, ParseError>((rest, v)),
    ;

    /// Encoding inverts parsing: a parsed value is well-formed, and its
    /// encoding followed by the unread input is the input.
    proof fn lemma_as_bytes_parse(bytes: Seq<u8>)
        ensures
            Self::spec_parse(bytes) matches Ok((rest, v)) ==> Self::spec_wf(v)
                && Self::spec_as_bytes(v) + rest == bytes,
    ;

    /// Parses one item from the front of `bytes` and returns the unread input with it.
    fn parse<'a>(bytes: &'a [u8]) -> (r: Result<(&'a [u8], Self), ParseError>)
        ensures
            parsed(r) == Self::spec_parse(bytes@),
    ;

    /// The wire encoding of this item.
    fn as_bytes(&self) -> (out: Vec<u8>)
        ensures
            out@ == Self::spec_as_bytes(self@),
    ;

    /// Decodes a buffer that holds exactly one item: input left over is an error.
    fn from_bytes(bytes: &[u8]) -> (r: Result<Self, ParseError>)
        ensures
            decoded(r) == spec_complete(Self::spec_parse(bytes@)),
    {
        complete(Self::parse(bytes))
    }

    /// The number of bytes that `as_bytes` produces.
    fn len_bytes(&self) -> (n: usize)
        ensures
            n == Self::spec_as_bytes(self@).len(),
    {
        self.as_bytes().len()
    }
}

/// A whole-buffer decode of the encoding of a well-formed value gives that value.
pub proof fn lemma_from_bytes_as_bytes<T: DNSItem>(v: T::V)
    requires
        T::spec_wf(v),
    ensures
        spec_complete(T::spec_parse(T::spec_as_bytes(v))) == Ok::<_, ParseError>(v),
{
    T::lemma_parse_as_bytes(v, Seq::empty());
    assert(T::spec_as_bytes(v) + Seq::<u8>::empty() =~= T::spec_as_bytes(v));
}

/// The parser of an entity, as a function.
pub open spec fn spec_parser<T: DNSItem>() -> spec_fn(Seq<u8>) -> Parsed<T::V> {
    |bytes: Seq<u8>| T::spec_parse(bytes)
}

/// The encoder of an entity, as a function.
pub open spec fn spec_encoder<T: DNSItem>() -> spec_fn(T::V) -> Seq<u8> {
    |v: T::V| T::spec_as_bytes(v)
}

/// A parser of items of one kind, held as a value: what [`parse_many`]
/// applies again and again.
pub trait ItemParser {
    /// What the parser gives.
    type Item: View;

    /// The parser, as a function of the input.
    spec fn spec_item(&self) -> spec_fn(Seq<u8>) -> Parsed<<Self::Item as View>::V>;

    /// Parses one item from the front of `bytes` and returns the unread input with it.
    fn parse_item<'a>(&self, bytes: &'a [u8]) -> (r: Result<(&'a [u8], Self::Item), ParseError>)
        ensures
            parsed(r) == (self.spec_item())(bytes@),
    ;
}

/// The parser of a wire entity that needs nothing but the input.
pub struct Plain<T>(PhantomData<T>);

impl<T: DNSItem> Plain<T> {
    /// The parser of `T`.
    pub fn new() -> (r: Plain<T>)
        ensures
            r.spec_item() == spec_parser::<T>(),
    {
        Plain(PhantomData)
    }
}

impl<T: DNSItem> ItemParser for Plain<T> {
    type Item = T;

    open spec fn spec_item(&self) -> spec_fn(Seq<u8>) -> Parsed<T::V> {
        spec_parser::<T>()
    }

    fn parse_item<'a>(&self, bytes: &'a [u8]) -> (r: Result<(&'a [u8], T), ParseError>) {
        T::parse(bytes)
    }
}

/// Parses `n` items one after the other from the front of `bytes`, each
/// with `parser`: the first failure is the failure of the whole.
pub fn parse_many<'a, P: ItemParser>(parser: &P, n: u16, bytes: &'a [u8]) -> (r: Result<
    (&'a [u8], Vec<P::Item>),
    ParseError,
>)
    ensures
        match r {
            Ok((rest, items)) => items@.len() == n && spec_repeat(
                parser.spec_item(),
                n as nat,
                bytes@,
            ) == Ok::<_, ParseError>((rest@, spec_views(items@))),
            Err(e) => spec_repeat(parser.spec_item(), n as nat, bytes@) == Err::<
                (Seq<u8>, Seq<<P::Item as View>::V>),
                _,
            >(e),
        },
{
    let mut items: Vec<P::Item> = Vec::new();
    let mut cur: &'a [u8] = bytes;
    let mut i: u16 = 0;
    let ghost item = parser.spec_item();
    proof {
        assert(spec_views(items@) =~= Seq::empty());
        lemma_prepend_empty(spec_repeat(item, n as nat, bytes@));
    }
    while i < n
        invariant
            i <= n,
            item == parser.spec_item(),
            spec_repeat(item, n as nat, bytes@) == spec_prepend(
                spec_views(items@),
                spec_repeat(item, (n - i) as nat, cur@),
            ),
        decreases n - i,
    {
        match parser.parse_item(cur) {
            Ok((rest, parsed_item)) => {
                proof {
                    lemma_repeat_step(item, spec_views(items@), (n - i) as nat, cur@);
                    assert(spec_views(items@.push(parsed_item)) =~= spec_views(items@).push(
                        parsed_item@,
                    ));
                }
                items.push(parsed_item);
                cur = rest;
                i = i + 1;
            },
            Err(e) => {
                return Err(e);
            },
        }
    }
    proof {
        assert(spec_views(items@) + Seq::<<P::Item as View>::V>::empty() =~= spec_views(items@));
        lemma_repeat_len(item, n as nat, bytes@);
    }
    Ok((cur, items))
}

/// Appends the encodings of the items, one after the other.
pub fn append_items<T: DNSItem>(out: &mut Vec<u8>, items: &Vec<T>)
    ensures
        final(out)@ == old(out)@ + spec_concat(spec_encoder::<T>(), spec_views(items@)),
{
    let mut i: usize = 0;
    proof {
        assert(spec_views(items@).take(0) =~= Seq::empty());
        assert(out@ + Seq::<u8>::empty() =~= out@);
    }
    while i < items.len()
        invariant
            i <= items@.len(),
            out@ == old(out)@ + spec_concat(
                spec_encoder::<T>(),
                spec_views(items@).take(i as int),
            ),
        decreases items@.len() - i,
    {
        let mut bytes = items[i].as_bytes();
        proof {
            let front = spec_views(items@).take(i as int);
            assert(spec_views(items@).take(i + 1) =~= front.push(items@[i as int]@));
            lemma_concat_push(spec_encoder::<T>(), front, items@[i as int]@);
            assert(old(out)@ + (spec_concat(spec_encoder::<T>(), front) + bytes@) =~= (old(out)@
                + spec_concat(spec_encoder::<T>(), front)) + bytes@);
        }
        out.append(&mut bytes);
        i = i + 1;
    }
    proof {
        assert(spec_views(items@).take(i as int) =~= spec_views(items@));
    }
}

} // verus!
