//! Resource records: type and class codes, payloads, and the registry that
//! says which payload codec decodes which record type.
pub mod cname;

use super::domain::Domain;
use super::{DNSItem, ItemParser};
use crate::util::{
    be_i32, be_u16, complete, decoded, fail, parsed, push_i32, push_u16, spec_be_i32, spec_be_u16,
    spec_complete, spec_fail, spec_i32_bytes, spec_u16_bytes, ErrorKind, ParseError, Parsed,
};
use crate::util::{
    lemma_add_assoc, lemma_be_i32_bytes, lemma_be_u16_bytes, lemma_i32_bytes_be,
    lemma_u16_bytes_be,
};
use vstd::prelude::*;

verus! {

/// The type of a resource record.
#[derive(Clone, Copy, Debug, PartialEq, Eq, Structural)]
pub enum Type {
    CNAME,
}

impl View for Type {
    type V = Type;

    open spec fn view(&self) -> Type {
        *self
    }
}

impl Type {
    /// The code that stands for this type on the wire.
    pub open spec fn spec_code(self) -> u16 {
        match self {
            Type::CNAME => 4,
        }
    }

    /// The type that `n` stands for, if any.
    pub open spec fn spec_from_code(n: int) -> Option<Type> {
        if n == 4 {
            Some(Type::CNAME)
        } else {
            None
        }
    }

    /// Every type is the one that its own code stands for.
    pub proof fn lemma_code(self)
        ensures
            Self::spec_from_code(self.spec_code() as int) == Some(self),
    {
    }

    /// A code stands for at most the type whose code it is.
    pub proof fn lemma_from_code(n: int)
        ensures
            Self::spec_from_code(n) matches Some(t) ==> t.spec_code() == n,
    {
    }

    /// The type that `n` stands for, if any.
    pub fn from_u64(n: u64) -> (r: Option<Type>)
        ensures
            r == Self::spec_from_code(n as int),
    {
        if n == 4 {
            Some(Type::CNAME)
        } else {
            None
        }
    }

    /// The type that `n` stands for, if any.
    pub fn from_u16(n: u16) -> (r: Option<Type>)
        ensures
            r == Self::spec_from_code(n as int),
    {
        Self::from_u64(n as u64)
    }

    /// The code that stands for this type on the wire.
    pub fn code(&self) -> (n: u16)
        ensures
            n == self.spec_code(),
    {
        match self {
            Type::CNAME => 4,
        }
    }

    /// The code that stands for this type on the wire; never `None`.
    pub fn to_i64(&self) -> (r: Option<i64>)
        ensures
            r == Some(self.spec_code() as i64),
    {
        Some(self.code() as i64)
    }
}

impl DNSItem for Type {
    /// Every type is well-formed.
    open spec fn spec_wf(v: Type) -> bool {
        true
    }

    /// The code of the type in two bytes.
    open spec fn spec_as_bytes(v: Type) -> Seq<u8> {
        spec_u16_bytes(v.spec_code())
    }

    /// Two bytes that hold the code of a defined type.
    open spec fn spec_parse(bytes: Seq<u8>) -> Parsed<Type> {
        match spec_be_u16(bytes) {
            Ok((rest, n)) => match Type::spec_from_code(n as int) {
                Some(t) => Ok((rest, t)),
                None => Err(spec_fail(ErrorKind::UndefinedType, bytes)),
            },
            Err(e) => Err(e),
        }
    }

    proof fn lemma_parse_as_bytes(v: Type, rest: Seq<u8>) {
        lemma_be_u16_bytes(v.spec_code(), rest);
    }

    proof fn lemma_as_bytes_parse(bytes: Seq<u8>) {
        lemma_u16_bytes_be(bytes);
    }

    fn parse<'a>(bytes: &'a [u8]) -> (r: Result<(&'a [u8], Self), ParseError>) {
        let (rest, n) = be_u16(bytes)?;
        match Type::from_u16(n) {
            Some(t) => Ok((rest, t)),
            None => Err(fail(ErrorKind::UndefinedType, bytes)),
        }
    }

    fn as_bytes(&self) -> (out: Vec<u8>) {
        let mut out: Vec<u8> = Vec::with_capacity(2);
        push_u16(&mut out, self.code());
        out
    }

    fn len_bytes(&self) -> (n: usize) {
        2
    }
}

/// The class of a resource record.
#[derive(Clone, Copy, Debug, PartialEq, Eq, Structural)]
pub enum Class {
    IN,
    CH,
    HS,
}

impl View for Class {
    type V = Class;

    open spec fn view(&self) -> Class {
        *self
    }
}

impl Class {
    /// The code that stands for this class on the wire.
    pub open spec fn spec_code(self) -> u16 {
        match self {
            Class::IN => 1,
            Class::CH => 3,
            Class::HS => 4,
        }
    }

    /// The class that `n` stands for, if any.
    pub open spec fn spec_from_code(n: int) -> Option<Class> {
        if n == 1 {
            Some(Class::IN)
        } else if n == 3 {
            Some(Class::CH)
        } else if n == 4 {
            Some(Class::HS)
        } else {
            None
        }
    }

    /// Every class is the one that its own code stands for.
    pub proof fn lemma_code(self)
        ensures
            Self::spec_from_code(self.spec_code() as int) == Some(self),
    {
    }

    /// A code stands for at most the class whose code it is.
    pub proof fn lemma_from_code(n: int)
        ensures
            Self::spec_from_code(n) matches Some(c) ==> c.spec_code() == n,
    {
    }

    /// The class that `n` stands for, if any.
    pub fn from_u64(n: u64) -> (r: Option<Class>)
        ensures
            r == Self::spec_from_code(n as int),
    {
        if n == 1 {
            Some(Class::IN)
        } else if n == 3 {
            Some(Class::CH)
        } else if n == 4 {
            Some(Class::HS)
        } else {
            None
        }
    }

    /// The class that `n` stands for, if any.
    pub fn from_u16(n: u16) -> (r: Option<Class>)
        ensures
            r == Self::spec_from_code(n as int),
    {
        Self::from_u64(n as u64)
    }

    /// The code that stands for this class on the wire.
    pub fn code(&self) -> (n: u16)
        ensures
            n == self.spec_code(),
    {
        match self {
            Class::IN => 1,
            Class::CH => 3,
            Class::HS => 4,
        }
    }

    /// The code that stands for this class on the wire; never `None`.
    pub fn to_i64(&self) -> (r: Option<i64>)
        ensures
            r == Some(self.spec_code() as i64),
    {
        Some(self.code() as i64)
    }
}

impl DNSItem for Class {
    /// Every class is well-formed.
    open spec fn spec_wf(v: Class) -> bool {
        true
    }

    /// The code of the class in two bytes.
    open spec fn spec_as_bytes(v: Class) -> Seq<u8> {
        spec_u16_bytes(v.spec_code())
    }

    /// Two bytes that hold the code of a defined class.
    open spec fn spec_parse(bytes: Seq<u8>) -> Parsed<Class> {
        match spec_be_u16(bytes) {
            Ok((rest, n)) => match Class::spec_from_code(n as int) {
                Some(c) => Ok((rest, c)),
                None => Err(spec_fail(ErrorKind::UndefinedClass, bytes)),
            },
            Err(e) => Err(e),
        }
    }

    proof fn lemma_parse_as_bytes(v: Class, rest: Seq<u8>) {
        lemma_be_u16_bytes(v.spec_code(), rest);
    }

    proof fn lemma_as_bytes_parse(bytes: Seq<u8>) {
        lemma_u16_bytes_be(bytes);
    }

    fn parse<'a>(bytes: &'a [u8]) -> (r: Result<(&'a [u8], Self), ParseError>) {
        let (rest, n) = be_u16(bytes)?;
        match Class::from_u16(n) {
            Some(c) => Ok((rest, c)),
            None => Err(fail(ErrorKind::UndefinedClass, bytes)),
        }
    }

    fn as_bytes(&self) -> (out: Vec<u8>) {
        let mut out: Vec<u8> = Vec::with_capacity(2);
        push_u16(&mut out, self.code());
        out
    }

    fn len_bytes(&self) -> (n: usize) {
        2
    }
}

/// A payload codec that can be registered for a record type.
#[derive(Clone, Copy, Debug, PartialEq, Eq, Structural)]
pub enum Codec {
    /// The payload is a single domain name.
    CNAME,
}

/// A record's payload, in the shape that its codec gave it.
#[derive(Debug, PartialEq, Eq)]
pub enum Payload {
    CNAME(cname::RData),
}

/// The model of a payload.
pub enum PayloadView {
    CNAME(Seq<Seq<u8>>),
}

impl View for Payload {
    type V = PayloadView;

    open spec fn view(&self) -> PayloadView {
        match self {
            Payload::CNAME(p) => PayloadView::CNAME(p@),
        }
    }
}

impl PayloadView {
    /// The codec that gives a payload this shape.
    pub open spec fn spec_codec(self) -> Codec {
        match self {
            PayloadView::CNAME(_) => Codec::CNAME,
        }
    }

    /// Whether the payload satisfies the invariants of its shape.
    pub open spec fn spec_wf(self) -> bool {
        match self {
            PayloadView::CNAME(v) => cname::RData::spec_wf(v),
        }
    }

    /// The wire encoding of the payload.
    pub open spec fn spec_as_bytes(self) -> Seq<u8> {
        match self {
            PayloadView::CNAME(v) => cname::RData::spec_as_bytes(v),
        }
    }
}

impl Codec {
    /// The result of parsing one payload with this codec from the front of `bytes`.
    pub open spec fn spec_parse(self, bytes: Seq<u8>) -> Parsed<PayloadView> {
        match self {
            Codec::CNAME => match cname::RData::spec_parse(bytes) {
                Ok((rest, v)) => Ok((rest, PayloadView::CNAME(v))),
                Err(e) => Err(e),
            },
        }
    }

    /// Parsing inverts encoding: the encoding of a well-formed payload,
    /// followed by anything, parses with the payload's own codec to that payload
    /// and leaves exactly what followed.
    pub proof fn lemma_parse_as_bytes(v: PayloadView, rest: Seq<u8>)
        requires
            v.spec_wf(),
        ensures
            v.spec_codec().spec_parse(v.spec_as_bytes() + rest) == Ok::<_, ParseError>((rest, v)),
    {
        match v {
            PayloadView::CNAME(d) => cname::RData::lemma_parse_as_bytes(d, rest),
        }
    }

    /// Encoding inverts parsing: a parsed payload is well-formed and of this
    /// codec's shape, and its encoding followed by the unread input is the input.
    pub proof fn lemma_as_bytes_parse(self, bytes: Seq<u8>)
        ensures
            self.spec_parse(bytes) matches Ok((rest, v)) ==> v.spec_wf() && v.spec_codec() == self
                && v.spec_as_bytes() + rest == bytes,
    {
        match self {
            Codec::CNAME => cname::RData::lemma_as_bytes_parse(bytes),
        }
    }

    /// Parses one payload with this codec from the front of `bytes`.
    pub fn parse<'a>(&self, bytes: &'a [u8]) -> (r: Result<(&'a [u8], Payload), ParseError>)
        ensures
            parsed(r) == self.spec_parse(bytes@),
    {
        match self {
            Codec::CNAME => {
                let (rest, p) = cname::RData::parse(bytes)?;
                Ok((rest, Payload::CNAME(p)))
            },
        }
    }
}

/// The payload codecs that a decoder may use, by record type.
///
/// A registry is built once, before any decoding, and only read afterwards.
#[derive(Debug)]
pub struct Registry {
    entries: Vec<(Type, Codec)>,
}

/// The mapping that a sequence of registrations amounts to: a later
/// registration for a type replaces an earlier one.
pub open spec fn spec_registered(entries: Seq<(Type, Codec)>) -> Map<Type, Codec>
    decreases entries.len(),
{
    if entries.len() == 0 {
        Map::empty()
    } else {
        spec_registered(entries.drop_last()).insert(entries.last().0, entries.last().1)
    }
}

/// The registry that holds every codec that this library ships, each for
/// the record type it was made for.
pub open spec fn spec_standard() -> Map<Type, Codec> {
    Map::empty().insert(Type::CNAME, Codec::CNAME)
}

impl View for Registry {
    type V = Map<Type, Codec>;

    closed spec fn view(&self) -> Map<Type, Codec> {
        spec_registered(self.entries@)
    }
}

impl Registry {
    /// A registry with no codec in it.
    pub fn new() -> (r: Registry)
        ensures
            r@ == Map::<Type, Codec>::empty(),
    {
        Registry { entries: Vec::new() }
    }

    /// The registry that holds every codec that this library ships.
    pub fn standard() -> (r: Registry)
        ensures
            r@ == spec_standard(),
    {
        let mut r = Registry::new();
        r.register(Type::CNAME, Codec::CNAME);
        r
    }

    /// Registers `codec` for records of type `t`, in place of any codec
    /// registered for that type before.
    pub fn register(&mut self, t: Type, codec: Codec)
        ensures
            final(self)@ == old(self)@.insert(t, codec),
    {
        self.entries.push((t, codec));
        proof {
            assert(self.entries@.drop_last() =~= old(self).entries@);
        }
    }

    /// The codec registered for records of type `t`, if any.
    pub fn lookup(&self, t: Type) -> (r: Option<Codec>)
        ensures
            r == if self@.contains_key(t) {
                Some(self@[t])
            } else {
                None
            },
    {
        let mut i: usize = self.entries.len();
        proof {
            assert(self.entries@.take(i as int) =~= self.entries@);
        }
        while i > 0
            invariant
                i <= self.entries@.len(),
                self@.contains_key(t) == spec_registered(self.entries@.take(i as int)).contains_key(
                    t,
                ),
                self@.contains_key(t) ==> self@[t] == spec_registered(
                    self.entries@.take(i as int),
                )[t],
            decreases i,
        {
            i = i - 1;
            proof {
                assert(self.entries@.take(i + 1).drop_last() =~= self.entries@.take(i as int));
            }
            if self.entries[i].0 == t {
                return Some(self.entries[i].1);
            }
        }
        None
    }
}

impl ItemParser for Registry {
    type Item = RR;

    /// The parser of records with the payload codecs of this registry.
    open spec fn spec_item(&self) -> spec_fn(Seq<u8>) -> Parsed<RRView> {
        RR::spec_parser_with(self@)
    }

    fn parse_item<'a>(&self, bytes: &'a [u8]) -> (r: Result<(&'a [u8], RR), ParseError>) {
        RR::parse_with(self, bytes)
    }
}

/// The payload of a resource record.
///
/// Which shape the payload has is decided once, by the codec that the
/// registry holds for the record's type when the record is parsed; afterwards
/// the payload is only encoded and sized.
#[derive(Debug, PartialEq, Eq)]
pub struct RData(Box<Payload>);

impl View for RData {
    type V = PayloadView;

    closed spec fn view(&self) -> PayloadView {
        self.0@
    }
}

impl RData {
    /// The result of parsing the payload of a record of type `t` from the
    /// front of `bytes`, with the codec that `registry` holds for `t`.
    pub open spec fn spec_parse_with(registry: Map<Type, Codec>, t: Type, bytes: Seq<u8>) -> Parsed<
        PayloadView,
    > {
        if registry.contains_key(t) {
            registry[t].spec_parse(bytes)
        } else {
            Err(spec_fail(ErrorKind::UnsupportedRecordType, bytes))
        }
    }

    /// Wraps a payload.
    pub fn new(payload: Payload) -> (r: RData)
        ensures
            r@ == payload@,
    {
        RData(Box::new(payload))
    }

    /// Parses the payload of a record of type `t` from the front of `bytes`,
    /// with the codec that `registry` holds for `t`.
    pub fn parse_with<'a>(registry: &Registry, t: &Type, bytes: &'a [u8]) -> (r: Result<
        (&'a [u8], RData),
        ParseError,
    >)
        ensures
            parsed(r) == Self::spec_parse_with(registry@, *t, bytes@),
    {
        match registry.lookup(*t) {
            Some(codec) => {
                let (rest, payload) = codec.parse(bytes)?;
                Ok((rest, RData::new(payload)))
            },
            None => Err(fail(ErrorKind::UnsupportedRecordType, bytes)),
        }
    }

    /// Parses the payload of a record of type `t` from the front of `bytes`,
    /// with the standard registry.
    pub fn parse<'a>(t: &Type, bytes: &'a [u8]) -> (r: Result<(&'a [u8], RData), ParseError>)
        ensures
            parsed(r) == Self::spec_parse_with(spec_standard(), *t, bytes@),
    {
        let registry = Registry::standard();
        Self::parse_with(&registry, t, bytes)
    }

    /// The wire encoding of the payload.
    pub fn as_bytes(&self) -> (out: Vec<u8>)
        ensures
            out@ == self@.spec_as_bytes(),
    {
        match &*self.0 {
            Payload::CNAME(p) => p.as_bytes(),
        }
    }

    /// The number of bytes that `as_bytes` produces.
    pub fn len_bytes(&self) -> (n: usize)
        ensures
            n == self@.spec_as_bytes().len(),
    {
        match &*self.0 {
            Payload::CNAME(p) => p.len_bytes(),
        }
    }
}

/// One entry of the answer, authority or additional section.
///
/// The payload follows the time to live directly: no length of the payload
/// is written or read, each payload codec finds the end of its payload
/// itself. A record is only decoded if the registry holds a codec for its
/// type code; any other code, defined as a type or not, makes the record
/// unsupported.
#[derive(Debug, PartialEq, Eq)]
pub struct RR {
    pub name: Domain,
    pub rrtype: Type,
    pub class: Class,
    pub ttl: i32,
    pub rdata: RData,
}

/// The model of a resource record.
pub struct RRView {
    pub name: Seq<Seq<u8>>,
    pub rrtype: Type,
    pub class: Class,
    pub ttl: i32,
    pub rdata: PayloadView,
}

impl View for RR {
    type V = RRView;

    open spec fn view(&self) -> RRView {
        RRView {
            name: self.name@,
            rrtype: self.rrtype,
            class: self.class,
            ttl: self.ttl,
            rdata: self.rdata@,
        }
    }
}

impl RR {
    /// Whether a record is one that a decoder with `registry` can give: its
    /// name and payload are well-formed, and the payload has the shape of the
    /// codec that `registry` holds for the record's type.
    pub open spec fn spec_wf_with(registry: Map<Type, Codec>, v: RRView) -> bool {
        &&& Domain::spec_wf(v.name)
        &&& v.rdata.spec_wf()
        &&& registry.contains_key(v.rrtype)
        &&& registry[v.rrtype] == v.rdata.spec_codec()
    }

    /// The record type that `code` stands for, if `registry` holds a payload
    /// codec for it. There is none for a code that stands for no type, since
    /// a codec is registered for a type.
    pub open spec fn spec_supported(registry: Map<Type, Codec>, code: int) -> Option<Type> {
        match Type::spec_from_code(code) {
            Some(t) => if registry.contains_key(t) {
                Some(t)
            } else {
                None
            },
            None => None,
        }
    }

    /// The result of parsing what stands before a record's payload: the
    /// name, the code of the type, the class and the time to live.
    ///
    /// The code of the type is only read here. What it stands for is
    /// decided with the registry, when the payload is due.
    pub open spec fn spec_parse_head(bytes: Seq<u8>) -> Parsed<(Seq<Seq<u8>>, u16, Class, i32)> {
        match Domain::spec_parse(bytes) {
            Err(e) => Err(e),
            Ok((b1, name)) => match spec_be_u16(b1) {
                Err(e) => Err(e),
                Ok((b2, code)) => match Class::spec_parse(b2) {
                    Err(e) => Err(e),
                    Ok((b3, class)) => match spec_be_i32(b3) {
                        Err(e) => Err(e),
                        Ok((b4, ttl)) => Ok((b4, (name, code, class, ttl))),
                    },
                },
            },
        }
    }

    /// The result of parsing one record from the front of `bytes`, with the
    /// payload codecs of `registry`.
    ///
    /// A record whose type code has no codec in `registry` is rejected as
    /// unsupported where its payload begins, whether or not the code stands for
    /// a type that this library defines.
    pub open spec fn spec_parse_with(registry: Map<Type, Codec>, bytes: Seq<u8>) -> Parsed<RRView> {
        match Self::spec_parse_head(bytes) {
            Err(e) => Err(e),
            Ok((b4, (name, code, class, ttl))) => match Self::spec_supported(registry, code as int) {
                None => Err(spec_fail(ErrorKind::UnsupportedRecordType, b4)),
                Some(rrtype) => match RData::spec_parse_with(registry, rrtype, b4) {
                    Err(e) => Err(e),
                    Ok((b5, rdata)) => Ok((b5, RRView { name, rrtype, class, ttl, rdata })),
                },
            },
        }
    }

    /// A record takes the bytes of its name, two for the type, two for the
    /// class, four for the time to live, and the bytes of its payload.
    pub proof fn lemma_len(v: RRView)
        ensures
            Self::spec_as_bytes(v).len() == Domain::spec_as_bytes(v.name).len() + 2 + 2 + 4
                + v.rdata.spec_as_bytes().len(),
    {
    }

    /// The encoding of a record, followed by `rest`, field by field.
    proof fn lemma_assoc(v: RRView, rest: Seq<u8>)
        ensures
            Self::spec_as_bytes(v) + rest == Domain::spec_as_bytes(v.name) + (Type::spec_as_bytes(
                v.rrtype,
            ) + (Class::spec_as_bytes(v.class) + (spec_i32_bytes(v.ttl) + (v.rdata.spec_as_bytes()
                + rest)))),
    {
        let name = Domain::spec_as_bytes(v.name);
        let rrtype = Type::spec_as_bytes(v.rrtype);
        let class = Class::spec_as_bytes(v.class);
        let ttl = spec_i32_bytes(v.ttl);
        let rdata = v.rdata.spec_as_bytes();
        lemma_add_assoc(name + rrtype + class + ttl, rdata, rest);
        lemma_add_assoc(name + rrtype + class, ttl, rdata + rest);
        lemma_add_assoc(name + rrtype, class, ttl + (rdata + rest));
        lemma_add_assoc(name, rrtype, class + (ttl + (rdata + rest)));
    }

    /// Parsing inverts encoding, whatever the registry: the encoding of a
    /// record that a decoder with `registry` can give, followed by anything,
    /// parses with `registry` to that record and leaves exactly what followed.
    pub proof fn lemma_parse_with_as_bytes(registry: Map<Type, Codec>, v: RRView, rest: Seq<u8>)
        requires
            Self::spec_wf_with(registry, v),
        ensures
            Self::spec_parse_with(registry, Self::spec_as_bytes(v) + rest) == Ok::<_, ParseError>(
                (rest, v),
            ),
    {
        let t4 = v.rdata.spec_as_bytes() + rest;
        let t3 = spec_i32_bytes(v.ttl) + t4;
        let t2 = Class::spec_as_bytes(v.class) + t3;
        let t1 = Type::spec_as_bytes(v.rrtype) + t2;
        Self::lemma_assoc(v, rest);
        Domain::lemma_parse_as_bytes(v.name, t1);
        lemma_be_u16_bytes(v.rrtype.spec_code(), t2);
        v.rrtype.lemma_code();
        Class::lemma_parse_as_bytes(v.class, t3);
        lemma_be_i32_bytes(v.ttl, t4);
        Codec::lemma_parse_as_bytes(v.rdata, rest);
    }

    /// Encoding inverts parsing, whatever the registry: a record parsed with
    /// `registry` is one that a decoder with `registry` can give, and its
    /// encoding followed by the unread input is the input.
    pub proof fn lemma_as_bytes_parse_with(registry: Map<Type, Codec>, bytes: Seq<u8>)
        ensures
            Self::spec_parse_with(registry, bytes) matches Ok((rest, v)) ==> Self::spec_wf_with(
                registry,
                v,
            ) && Self::spec_as_bytes(v) + rest == bytes,
    {
        if let Ok((rest, v)) = Self::spec_parse_with(registry, bytes) {
            let (b1, _) = Domain::spec_parse(bytes).unwrap();
            let (b2, code) = spec_be_u16(b1).unwrap();
            let (b3, _) = Class::spec_parse(b2).unwrap();
            let (b4, _) = spec_be_i32(b3).unwrap();
            Domain::lemma_as_bytes_parse(bytes);
            lemma_u16_bytes_be(b1);
            Type::lemma_from_code(code as int);
            Class::lemma_as_bytes_parse(b2);
            lemma_i32_bytes_be(b3);
            registry[v.rrtype].lemma_as_bytes_parse(b4);
            Self::lemma_assoc(v, rest);
        }
    }

    /// No record is decoded whose type code has no codec in the registry,
    /// be the code one that stands for a type or not: where the name, the
    /// class and the time to live parse, the result is the error for an
    /// unsupported record type, raised where the payload begins.
    pub proof fn lemma_unsupported(registry: Map<Type, Codec>, bytes: Seq<u8>)
        requires
            Self::spec_parse_head(bytes) is Ok,
            Self::spec_supported(registry, Self::spec_parse_head(bytes).unwrap().1.1 as int)
                is None,
        ensures
            Self::spec_parse_with(registry, bytes) == Err::<(Seq<u8>, RRView), _>(
                spec_fail(ErrorKind::UnsupportedRecordType, Self::spec_parse_head(bytes).unwrap().0),
            ),
    {
    }

    /// With the standard registry, a record is unsupported exactly if its
    /// type code stands for no type that this library defines.
    pub proof fn lemma_standard_supported(code: int)
        ensures
            Self::spec_supported(spec_standard(), code) == Type::spec_from_code(code),
    {
    }

    /// Parses one record from the front of `bytes`, with the payload codecs of `registry`.
    pub fn parse_with<'a>(registry: &Registry, bytes: &'a [u8]) -> (r: Result<
        (&'a [u8], RR),
        ParseError,
    >)
        ensures
            parsed(r) == Self::spec_parse_with(registry@, bytes@),
    {
        let (b1, name) = Domain::parse(bytes)?;
        let (b2, code) = be_u16(b1)?;
        let (b3, class) = Class::parse(b2)?;
        let (b4, ttl) = be_i32(b3)?;
        let rrtype = match Type::from_u16(code) {
            Some(rrtype) => rrtype,
            None => {
                return Err(fail(ErrorKind::UnsupportedRecordType, b4));
            },
        };
        let (b5, rdata) = RData::parse_with(registry, &rrtype, b4)?;
        Ok((b5, RR { name, rrtype, class, ttl, rdata }))
    }

    /// The parser of records with the payload codecs of `registry`, as a function.
    pub open spec fn spec_parser_with(registry: Map<Type, Codec>) -> spec_fn(Seq<u8>) -> Parsed<
        RRView,
    > {
        |bytes: Seq<u8>| Self::spec_parse_with(registry, bytes)
    }

    /// Decodes a buffer that holds exactly one record, with the payload
    /// codecs of `registry`: input left over is an error.
    pub fn from_bytes_with(registry: &Registry, bytes: &[u8]) -> (r: Result<RR, ParseError>)
        ensures
            decoded(r) == spec_complete(Self::spec_parse_with(registry@, bytes@)),
    {
        complete(Self::parse_with(registry, bytes))
    }
}

impl DNSItem for RR {
    /// A record that a decoder with the standard registry can give.
    open spec fn spec_wf(v: RRView) -> bool {
        Self::spec_wf_with(spec_standard(), v)
    }

    /// The name, the type, the class, the time to live, then the payload.
    open spec fn spec_as_bytes(v: RRView) -> Seq<u8> {
        Domain::spec_as_bytes(v.name) + Type::spec_as_bytes(v.rrtype) + Class::spec_as_bytes(
            v.class,
        ) + spec_i32_bytes(v.ttl) + v.rdata.spec_as_bytes()
    }

    /// The result of parsing with the standard registry.
    open spec fn spec_parse(bytes: Seq<u8>) -> Parsed<RRView> {
        Self::spec_parse_with(spec_standard(), bytes)
    }

    proof fn lemma_parse_as_bytes(v: RRView, rest: Seq<u8>) {
        Self::lemma_parse_with_as_bytes(spec_standard(), v, rest);
    }

    proof fn lemma_as_bytes_parse(bytes: Seq<u8>) {
        Self::lemma_as_bytes_parse_with(spec_standard(), bytes);
    }

    fn parse<'a>(bytes: &'a [u8]) -> (r: Result<(&'a [u8], Self), ParseError>) {
        let registry = Registry::standard();
        Self::parse_with(&registry, bytes)
    }

    fn as_bytes(&self) -> (out: Vec<u8>) {
        let mut out: Vec<u8> = Vec::new();
        let mut name = self.name.as_bytes();
        let mut rrtype = self.rrtype.as_bytes();
        let mut class = self.class.as_bytes();
        let mut rdata = self.rdata.as_bytes();
        out.append(&mut name);
        out.append(&mut rrtype);
        out.append(&mut class);
        push_i32(&mut out, self.ttl);
        out.append(&mut rdata);
        out
    }
}

} // verus!
