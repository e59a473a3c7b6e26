//! The message header, questions, and the message as a whole.
use super::domain::Domain;
use super::rr::{spec_standard, Class, Codec, RRView, Registry, Type, RR};
use super::{append_items, parse_many, spec_encoder, spec_parser, DNSItem, Plain};
use crate::util::{
    be_u16, complete, decoded, fail, parsed, push_u16, skip, spec_be_u16, spec_complete,
    spec_concat, spec_fail, spec_repeat, spec_u16_bytes, spec_views, ErrorKind, ParseError, Parsed,
};
use crate::util::{
    lemma_add_assoc, lemma_be_u16_bytes, lemma_concat_repeat, lemma_repeat_concat,
    lemma_u16_bytes_be,
};
use vstd::prelude::*;

verus! {

/// The kind of query that a message carries.
#[derive(Clone, Copy, Debug, PartialEq, Eq, Structural)]
pub enum Opcode {
    QUERY,
    STATUS,
    NOTIFY,
    UPDATE,
}

impl Opcode {
    /// The four-bit code that stands for this opcode in the header.
    pub open spec fn spec_code(self) -> u8 {
        match self {
            Opcode::QUERY => 0,
            Opcode::STATUS => 2,
            Opcode::NOTIFY => 4,
            Opcode::UPDATE => 5,
        }
    }

    /// The opcode that `n` stands for, if any.
    pub open spec fn spec_from_code(n: int) -> Option<Opcode> {
        if n == 0 {
            Some(Opcode::QUERY)
        } else if n == 2 {
            Some(Opcode::STATUS)
        } else if n == 4 {
            Some(Opcode::NOTIFY)
        } else if n == 5 {
            Some(Opcode::UPDATE)
        } else {
            None
        }
    }

    /// Every opcode is the one that its own code stands for.
    pub proof fn lemma_code(self)
        ensures
            Self::spec_from_code(self.spec_code() as int) == Some(self),
    {
    }

    /// A code stands for at most the opcode whose code it is.
    pub proof fn lemma_from_code(n: int)
        ensures
            Self::spec_from_code(n) matches Some(o) ==> o.spec_code() == n,
    {
    }

    /// The opcode that `n` stands for, if any.
    pub fn from_u8(n: u8) -> (r: Option<Opcode>)
        ensures
            r == Self::spec_from_code(n as int),
    {
        if n == 0 {
            Some(Opcode::QUERY)
        } else if n == 2 {
            Some(Opcode::STATUS)
        } else if n == 4 {
            Some(Opcode::NOTIFY)
        } else if n == 5 {
            Some(Opcode::UPDATE)
        } else {
            None
        }
    }

    /// The four-bit code that stands for this opcode in the header.
    pub fn code(&self) -> (n: u8)
        ensures
            n == self.spec_code(),
    {
        match self {
            Opcode::QUERY => 0,
            Opcode::STATUS => 2,
            Opcode::NOTIFY => 4,
            Opcode::UPDATE => 5,
        }
    }
}

/// The status that a response reports.
#[derive(Clone, Copy, Debug, PartialEq, Eq, Structural)]
pub enum RCode {
    NoError,
    FormatError,
    ServerFailure,
    NameError,
    NotImplemented,
    Refused,
}

impl RCode {
    /// The four-bit code that stands for this status in the header.
    pub open spec fn spec_code(self) -> u8 {
        match self {
            RCode::NoError => 0,
            RCode::FormatError => 1,
            RCode::ServerFailure => 2,
            RCode::NameError => 3,
            RCode::NotImplemented => 4,
            RCode::Refused => 5,
        }
    }

    /// The status that `n` stands for, if any.
    pub open spec fn spec_from_code(n: int) -> Option<RCode> {
        if n == 0 {
            Some(RCode::NoError)
        } else if n == 1 {
            Some(RCode::FormatError)
        } else if n == 2 {
            Some(RCode::ServerFailure)
        } else if n == 3 {
            Some(RCode::NameError)
        } else if n == 4 {
            Some(RCode::NotImplemented)
        } else if n == 5 {
            Some(RCode::Refused)
        } else {
            None
        }
    }

    /// Every status is the one that its own code stands for.
    pub proof fn lemma_code(self)
        ensures
            Self::spec_from_code(self.spec_code() as int) == Some(self),
    {
    }

    /// A code stands for at most the status whose code it is.
    pub proof fn lemma_from_code(n: int)
        ensures
            Self::spec_from_code(n) matches Some(c) ==> c.spec_code() == n,
    {
    }

    /// The status that `n` stands for, if any.
    pub fn from_u8(n: u8) -> (r: Option<RCode>)
        ensures
            r == Self::spec_from_code(n as int),
    {
        if n == 0 {
            Some(RCode::NoError)
        } else if n == 1 {
            Some(RCode::FormatError)
        } else if n == 2 {
            Some(RCode::ServerFailure)
        } else if n == 3 {
            Some(RCode::NameError)
        } else if n == 4 {
            Some(RCode::NotImplemented)
        } else if n == 5 {
            Some(RCode::Refused)
        } else {
            None
        }
    }

    /// The four-bit code that stands for this status in the header.
    pub fn code(&self) -> (n: u8)
        ensures
            n == self.spec_code(),
    {
        match self {
            RCode::NoError => 0,
            RCode::FormatError => 1,
            RCode::ServerFailure => 2,
            RCode::NameError => 3,
            RCode::NotImplemented => 4,
            RCode::Refused => 5,
        }
    }
}

/// The fixed twelve-byte header of a message.
#[derive(Clone, Copy, Debug, PartialEq, Eq, Structural)]
pub struct Header {
    pub id: u16,
    pub qr: bool,
    pub opcode: Opcode,
    pub aa: bool,
    pub tc: bool,
    pub rd: bool,
    pub ra: bool,
    pub rcode: RCode,
    pub qdcount: u16,
    pub ancount: u16,
    pub nscount: u16,
    pub arcount: u16,
}

impl View for Header {
    type V = Header;

    open spec fn view(&self) -> Header {
        *self
    }
}

/// The value of a flag as a bit.
pub open spec fn spec_bit(b: bool) -> int {
    if b {
        1
    } else {
        0
    }
}

/// The first flag byte: `qr` in bit 7, the opcode in bits 6 to 3, then `aa`, `tc` and `rd`.
pub open spec fn spec_flags_hi(h: Header) -> u8 {
    (128 * spec_bit(h.qr) + 8 * h.opcode.spec_code() + 4 * spec_bit(h.aa) + 2 * spec_bit(h.tc)
        + spec_bit(h.rd)) as u8
}

/// The second flag byte: `ra` in bit 7, three zero bits, the rcode in bits 3 to 0.
pub open spec fn spec_flags_lo(h: Header) -> u8 {
    (128 * spec_bit(h.ra) + h.rcode.spec_code()) as u8
}

/// The header with its flag fields read from the two flag bytes at the
/// front of `bytes`; the other fields are those of `h`.
///
/// The opcode is checked first, then the reserved bits, then the rcode.
pub open spec fn spec_parse_flags(h: Header, bytes: Seq<u8>) -> Parsed<Header> {
    if bytes.len() < 2 {
        Err(spec_fail(ErrorKind::Eof, bytes))
    } else {
        let hi = bytes[0];
        let lo = bytes[1];
        match Opcode::spec_from_code(hi as int / 8 % 16) {
            None => Err(spec_fail(ErrorKind::UndefinedOpcode, bytes)),
            Some(opcode) => if lo as int / 16 % 8 != 0 {
                Err(spec_fail(ErrorKind::ReservedBits, bytes))
            } else {
                match RCode::spec_from_code(lo as int % 16) {
                    None => Err(spec_fail(ErrorKind::UndefinedRCode, bytes)),
                    Some(rcode) => Ok(
                        (
                            bytes.skip(2),
                            Header {
                                qr: hi as int / 128 == 1,
                                opcode,
                                aa: hi as int / 4 % 2 == 1,
                                tc: hi as int / 2 % 2 == 1,
                                rd: hi as int % 2 == 1,
                                ra: lo as int / 128 == 1,
                                rcode,
                                ..h
                            },
                        ),
                    ),
                }
            },
        }
    }
}

/// A header whose fields are all zero, false, or the first of their kind.
pub open spec fn spec_blank() -> Header {
    Header {
        id: 0,
        qr: false,
        opcode: Opcode::QUERY,
        aa: false,
        tc: false,
        rd: false,
        ra: false,
        rcode: RCode::NoError,
        qdcount: 0,
        ancount: 0,
        nscount: 0,
        arcount: 0,
    }
}

/// The header `h` with its four counts read from the front of `bytes`.
pub open spec fn spec_parse_counts(h: Header, bytes: Seq<u8>) -> Parsed<Header> {
    match spec_be_u16(bytes) {
        Err(e) => Err(e),
        Ok((b1, qdcount)) => match spec_be_u16(b1) {
            Err(e) => Err(e),
            Ok((b2, ancount)) => match spec_be_u16(b2) {
                Err(e) => Err(e),
                Ok((b3, nscount)) => match spec_be_u16(b3) {
                    Err(e) => Err(e),
                    Ok((b4, arcount)) => Ok(
                        (b4, Header { qdcount, ancount, nscount, arcount, ..h }),
                    ),
                },
            },
        },
    }
}

/// The four counts of a header, each as two bytes.
pub open spec fn spec_counts_bytes(h: Header) -> Seq<u8> {
    spec_u16_bytes(h.qdcount) + spec_u16_bytes(h.ancount) + spec_u16_bytes(h.nscount)
        + spec_u16_bytes(h.arcount)
}

impl DNSItem for Header {
    /// Every header is well-formed.
    open spec fn spec_wf(v: Header) -> bool {
        true
    }

    /// The id, the two flag bytes, and the four counts: twelve bytes.
    open spec fn spec_as_bytes(v: Header) -> Seq<u8> {
        spec_u16_bytes(v.id) + seq![spec_flags_hi(v), spec_flags_lo(v)] + spec_counts_bytes(v)
    }

    /// The id, then the flag bytes, then the counts; the first field that
    /// fails decides the error, which is raised where that field begins.
    open spec fn spec_parse(bytes: Seq<u8>) -> Parsed<Header> {
        match spec_be_u16(bytes) {
            Err(e) => Err(e),
            Ok((b1, id)) => match spec_parse_flags(Header { id, ..spec_blank() }, b1) {
                Err(e) => Err(e),
                Ok((b2, h)) => spec_parse_counts(h, b2),
            },
        }
    }

    proof fn lemma_parse_as_bytes(v: Header, rest: Seq<u8>) {
        let flags = seq![spec_flags_hi(v), spec_flags_lo(v)];
        let t2 = spec_counts_bytes(v) + rest;
        let t1 = flags + t2;
        lemma_add_assoc(spec_u16_bytes(v.id) + flags, spec_counts_bytes(v), rest);
        lemma_add_assoc(spec_u16_bytes(v.id), flags, t2);
        lemma_be_u16_bytes(v.id, t1);
        let h0 = Header { id: v.id, ..spec_blank() };
        lemma_parse_flags_bytes(v, h0, t2);
        let h1 = Header {
            qr: v.qr,
            opcode: v.opcode,
            aa: v.aa,
            tc: v.tc,
            rd: v.rd,
            ra: v.ra,
            rcode: v.rcode,
            ..h0
        };
        lemma_parse_counts_bytes(v, h1, rest);
    }

    proof fn lemma_as_bytes_parse(bytes: Seq<u8>) {
        if let Ok((rest, v)) = Self::spec_parse(bytes) {
            let (b1, id) = spec_be_u16(bytes).unwrap();
            let h0 = Header { id, ..spec_blank() };
            let (b2, h) = spec_parse_flags(h0, b1).unwrap();
            lemma_u16_bytes_be(bytes);
            lemma_flags_bytes_parse(h0, b1);
            lemma_counts_bytes_parse(h, b2);
            let flags = seq![spec_flags_hi(h), spec_flags_lo(h)];
            assert(spec_u16_bytes(id) + b1 == bytes);
            assert(flags + b2 == b1);
            assert(spec_counts_bytes(v) + rest == b2);
            assert(spec_flags_hi(v) == spec_flags_hi(h) && spec_flags_lo(v) == spec_flags_lo(h));
            lemma_add_assoc(spec_u16_bytes(id) + flags, spec_counts_bytes(v), rest);
            lemma_add_assoc(spec_u16_bytes(id), flags, spec_counts_bytes(v) + rest);
        }
    }

    fn parse<'a>(bytes: &'a [u8]) -> (r: Result<(&'a [u8], Self), ParseError>) {
        let (b1, id) = be_u16(bytes)?;
        if b1.len() < 2 {
            return Err(fail(ErrorKind::Eof, b1));
        }
        let hi: u8 = b1[0];
        let lo: u8 = b1[1];
        let b2 = skip(b1, 2);
        proof {
            lemma_bits(hi);
            lemma_bits(lo);
        }
        let opcode = match Opcode::from_u8((hi >> 3) & 0x0f) {
            Some(opcode) => opcode,
            None => {
                return Err(fail(ErrorKind::UndefinedOpcode, b1));
            },
        };
        if (lo >> 4) & 0x07 != 0 {
            return Err(fail(ErrorKind::ReservedBits, b1));
        }
        let rcode = match RCode::from_u8(lo & 0x0f) {
            Some(rcode) => rcode,
            None => {
                return Err(fail(ErrorKind::UndefinedRCode, b1));
            },
        };
        let (b3, qdcount) = be_u16(b2)?;
        let (b4, ancount) = be_u16(b3)?;
        let (b5, nscount) = be_u16(b4)?;
        let (b6, arcount) = be_u16(b5)?;
        Ok(
            (
                b6,
                Header {
                    id,
                    qr: hi & 0x80 != 0,
                    opcode,
                    aa: hi & 0x04 != 0,
                    tc: hi & 0x02 != 0,
                    rd: hi & 0x01 != 0,
                    ra: lo & 0x80 != 0,
                    rcode,
                    qdcount,
                    ancount,
                    nscount,
                    arcount,
                },
            ),
        )
    }

    fn as_bytes(&self) -> (out: Vec<u8>) {
        let mut out: Vec<u8> = Vec::with_capacity(12);
        let qr: u8 = if self.qr { 0x80 } else { 0 };
        let aa: u8 = if self.aa { 0x04 } else { 0 };
        let tc: u8 = if self.tc { 0x02 } else { 0 };
        let rd: u8 = if self.rd { 0x01 } else { 0 };
        let ra: u8 = if self.ra { 0x80 } else { 0 };
        let opcode: u8 = self.opcode.code();
        let rcode: u8 = self.rcode.code();
        // The fields lie at disjoint bits, so joining them adds them up.
        let hi: u8 = qr | (opcode << 3) | aa | tc | rd;
        let lo: u8 = ra | rcode;
        proof {
            assert(qr | (opcode << 3) | aa | tc | rd == qr + 8 * opcode + aa + tc + rd)
                by (bit_vector)
                requires
                    qr == 0 || qr == 0x80,
                    opcode < 16,
                    aa == 0 || aa == 0x04,
                    tc == 0 || tc == 0x02,
                    rd == 0 || rd == 0x01,
            ;
            assert(ra | rcode == ra + rcode) by (bit_vector)
                requires
                    ra == 0 || ra == 0x80,
                    rcode < 16,
            ;
        }
        push_u16(&mut out, self.id);
        out.push(hi);
        out.push(lo);
        push_u16(&mut out, self.qdcount);
        push_u16(&mut out, self.ancount);
        push_u16(&mut out, self.nscount);
        push_u16(&mut out, self.arcount);
        proof {
            assert(out@ =~= Self::spec_as_bytes(*self));
        }
        out
    }

    fn len_bytes(&self) -> (n: usize)
        ensures
            n == 12,
    {
        12
    }
}

/// Every header takes twelve bytes on the wire.
pub proof fn lemma_header_len(v: Header)
    ensures
        Header::spec_as_bytes(v).len() == 12,
{
}

/// A header is rejected if any of bits 6 to 4 of its fourth byte is set:
/// for that alone where the opcode is a defined one.
pub proof fn lemma_reserved_bits(bytes: Seq<u8>)
    requires
        bytes.len() >= 4,
        bytes[3] as int / 16 % 8 != 0,
    ensures
        Header::spec_parse(bytes) is Err,
        Opcode::spec_from_code(bytes[2] as int / 8 % 16) is Some ==> Header::spec_parse(bytes)
            == Err::<(Seq<u8>, Header), _>(spec_fail(ErrorKind::ReservedBits, bytes.skip(2))),
{
}

/// Twelve bytes are accepted as a header if bits 6 to 4 of the fourth byte
/// are clear and the opcode and the rcode are defined ones; the header
/// then encodes to those twelve bytes.
pub proof fn lemma_header_accepted(bytes: Seq<u8>)
    requires
        bytes.len() >= 12,
        bytes[3] as int / 16 % 8 == 0,
        Opcode::spec_from_code(bytes[2] as int / 8 % 16) is Some,
        RCode::spec_from_code(bytes[3] as int % 16) is Some,
    ensures
        Header::spec_parse(bytes) is Ok,
        Header::spec_parse(bytes).unwrap().0 == bytes.skip(12),
        Header::spec_as_bytes(Header::spec_parse(bytes).unwrap().1) == bytes.take(12),
{
    Header::lemma_as_bytes_parse(bytes);
    let (rest, h) = Header::spec_parse(bytes).unwrap();
    assert(rest =~= bytes.skip(12));
    assert(Header::spec_as_bytes(h).len() == 12);
    assert(Header::spec_as_bytes(h) =~= (Header::spec_as_bytes(h) + rest).take(12));
}

/// The counts of a header, followed by `rest`, count by count.
proof fn lemma_counts_assoc(v: Header, rest: Seq<u8>)
    ensures
        spec_counts_bytes(v) + rest == spec_u16_bytes(v.qdcount) + (spec_u16_bytes(v.ancount) + (
        spec_u16_bytes(v.nscount) + (spec_u16_bytes(v.arcount) + rest))),
{
    let qd = spec_u16_bytes(v.qdcount);
    let an = spec_u16_bytes(v.ancount);
    let ns = spec_u16_bytes(v.nscount);
    let ar = spec_u16_bytes(v.arcount);
    lemma_add_assoc(qd + an + ns, ar, rest);
    lemma_add_assoc(qd + an, ns, ar + rest);
    lemma_add_assoc(qd, an, ns + (ar + rest));
}

/// The counts of a header, followed by anything, parse to those counts.
proof fn lemma_parse_counts_bytes(v: Header, h: Header, rest: Seq<u8>)
    ensures
        spec_parse_counts(h, spec_counts_bytes(v) + rest) == Ok::<_, ParseError>(
            (
                rest,
                Header {
                    qdcount: v.qdcount,
                    ancount: v.ancount,
                    nscount: v.nscount,
                    arcount: v.arcount,
                    ..h
                },
            ),
        ),
{
    let t3 = spec_u16_bytes(v.arcount) + rest;
    let t2 = spec_u16_bytes(v.nscount) + t3;
    let t1 = spec_u16_bytes(v.ancount) + t2;
    lemma_counts_assoc(v, rest);
    lemma_be_u16_bytes(v.qdcount, t1);
    lemma_be_u16_bytes(v.ancount, t2);
    lemma_be_u16_bytes(v.nscount, t3);
    lemma_be_u16_bytes(v.arcount, rest);
}

/// Counts that were parsed encode to the eight bytes that were read, and
/// the other fields are those they were put beside.
proof fn lemma_counts_bytes_parse(h: Header, bytes: Seq<u8>)
    ensures
        spec_parse_counts(h, bytes) matches Ok((rest, v)) ==> spec_counts_bytes(v) + rest == bytes
            && v == (Header {
            qdcount: v.qdcount,
            ancount: v.ancount,
            nscount: v.nscount,
            arcount: v.arcount,
            ..h
        }),
{
    if let Ok((rest, v)) = spec_parse_counts(h, bytes) {
        let (b1, _) = spec_be_u16(bytes).unwrap();
        let (b2, _) = spec_be_u16(b1).unwrap();
        let (b3, _) = spec_be_u16(b2).unwrap();
        lemma_u16_bytes_be(bytes);
        lemma_u16_bytes_be(b1);
        lemma_u16_bytes_be(b2);
        lemma_u16_bytes_be(b3);
        lemma_counts_assoc(v, rest);
    }
}

/// The fields of a flag byte, read with shifts and masks, are its digits.
proof fn lemma_bits(b: u8)
    ensures
        (b >> 3) & 0x0f == b as int / 8 % 16,
        (b >> 4) & 0x07 == b as int / 16 % 8,
        b & 0x0f == b as int % 16,
        (b & 0x80 != 0) == (b as int / 128 == 1),
        (b & 0x04 != 0) == (b as int / 4 % 2 == 1),
        (b & 0x02 != 0) == (b as int / 2 % 2 == 1),
        (b & 0x01 != 0) == (b as int % 2 == 1),
{
    assert((b >> 3) & 0x0f == b / 8 % 16) by (bit_vector);
    assert((b >> 4) & 0x07 == b / 16 % 8) by (bit_vector);
    assert(b & 0x0f == b % 16) by (bit_vector);
    assert((b & 0x80 != 0) == (b / 128 == 1)) by (bit_vector);
    assert((b & 0x04 != 0) == (b / 4 % 2 == 1)) by (bit_vector);
    assert((b & 0x02 != 0) == (b / 2 % 2 == 1)) by (bit_vector);
    assert((b & 0x01 != 0) == (b % 2 == 1)) by (bit_vector);
}

/// The flag bytes of a header, followed by anything, parse to its flag fields.
proof fn lemma_parse_flags_bytes(v: Header, h: Header, rest: Seq<u8>)
    ensures
        spec_parse_flags(h, seq![spec_flags_hi(v), spec_flags_lo(v)] + rest) == Ok::<
            _,
            ParseError,
        >(
            (
                rest,
                Header {
                    qr: v.qr,
                    opcode: v.opcode,
                    aa: v.aa,
                    tc: v.tc,
                    rd: v.rd,
                    ra: v.ra,
                    rcode: v.rcode,
                    ..h
                },
            ),
        ),
{
    let bytes = seq![spec_flags_hi(v), spec_flags_lo(v)] + rest;
    assert(bytes.skip(2) =~= rest);
    assert(bytes[0] == spec_flags_hi(v));
    assert(bytes[1] == spec_flags_lo(v));
    lemma_fields_hi(
        spec_bit(v.qr) as u8,
        v.opcode.spec_code(),
        spec_bit(v.aa) as u8,
        spec_bit(v.tc) as u8,
        spec_bit(v.rd) as u8,
    );
    lemma_fields_lo(spec_bit(v.ra) as u8, v.rcode.spec_code());
    v.opcode.lemma_code();
    v.rcode.lemma_code();
}

/// Flag fields that were parsed encode to the two bytes that were read.
proof fn lemma_flags_bytes_parse(h: Header, bytes: Seq<u8>)
    ensures
        spec_parse_flags(h, bytes) matches Ok((rest, v)) ==> seq![
            spec_flags_hi(v),
            spec_flags_lo(v),
        ] + rest == bytes && v.id == h.id,
{
    if let Ok((rest, v)) = spec_parse_flags(h, bytes) {
        lemma_digits(bytes[0]);
        lemma_digits(bytes[1]);
        assert(spec_flags_hi(v) == bytes[0]);
        assert(spec_flags_lo(v) == bytes[1]);
        assert(seq![spec_flags_hi(v), spec_flags_lo(v)] + rest =~= bytes);
    }
}

/// A flag byte is the sum of its fields, each at its place.
proof fn lemma_digits(b: u8)
    ensures
        b == 128 * (b as int / 128) + 8 * (b as int / 8 % 16) + 4 * (b as int / 4 % 2) + 2 * (b as int
            / 2 % 2) + b as int % 2,
        b == 128 * (b as int / 128) + 16 * (b as int / 16 % 8) + b as int % 16,
        b as int / 128 == 0 || b as int / 128 == 1,
{
    assert(b == 128 * (b / 128) + 8 * (b / 8 % 16) + 4 * (b / 4 % 2) + 2 * (b / 2 % 2) + b % 2)
        by (bit_vector);
    assert(b == 128 * (b / 128) + 16 * (b / 16 % 8) + b % 16) by (bit_vector);
    assert(b / 128 == 0 || b / 128 == 1) by (bit_vector);
}

/// The fields of the first flag byte are read back from their sum.
proof fn lemma_fields_hi(qr: u8, opcode: u8, aa: u8, tc: u8, rd: u8)
    by (bit_vector)
    requires
        qr <= 1,
        opcode <= 15,
        aa <= 1,
        tc <= 1,
        rd <= 1,
    ensures
        128 * qr + 8 * opcode + 4 * aa + 2 * tc + rd <= 255,
        (128 * qr + 8 * opcode + 4 * aa + 2 * tc + rd) / 128 == qr,
        (128 * qr + 8 * opcode + 4 * aa + 2 * tc + rd) / 8 % 16 == opcode,
        (128 * qr + 8 * opcode + 4 * aa + 2 * tc + rd) / 4 % 2 == aa,
        (128 * qr + 8 * opcode + 4 * aa + 2 * tc + rd) / 2 % 2 == tc,
        (128 * qr + 8 * opcode + 4 * aa + 2 * tc + rd) % 2 == rd,
{
}

/// The fields of the second flag byte are read back from their sum.
proof fn lemma_fields_lo(ra: u8, rcode: u8)
    by (bit_vector)
    requires
        ra <= 1,
        rcode <= 15,
    ensures
        128 * ra + rcode <= 255,
        (128 * ra + rcode) / 128 == ra,
        (128 * ra + rcode) / 16 % 8 == 0,
        (128 * ra + rcode) % 16 == rcode,
{
}

/// The query types that are no record types: requests for a transfer, for
/// mail-related records, or for all records.
#[derive(Clone, Copy, Debug, PartialEq, Eq, Structural)]
pub enum QTypeVal {
    AXFR,
    MAILB,
    MAILA,
    ALL,
}

impl QTypeVal {
    /// The code that stands for this query type on the wire.
    pub open spec fn spec_code(self) -> u16 {
        match self {
            QTypeVal::AXFR => 252,
            QTypeVal::MAILB => 253,
            QTypeVal::MAILA => 254,
            QTypeVal::ALL => 255,
        }
    }

    /// The query type that `n` stands for, if any.
    pub open spec fn spec_from_code(n: int) -> Option<QTypeVal> {
        if n == 252 {
            Some(QTypeVal::AXFR)
        } else if n == 253 {
            Some(QTypeVal::MAILB)
        } else if n == 254 {
            Some(QTypeVal::MAILA)
        } else if n == 255 {
            Some(QTypeVal::ALL)
        } else {
            None
        }
    }

    /// The query type that `n` stands for, if any.
    pub fn from_u64(n: u64) -> (r: Option<QTypeVal>)
        ensures
            r == Self::spec_from_code(n as int),
    {
        if n == 252 {
            Some(QTypeVal::AXFR)
        } else if n == 253 {
            Some(QTypeVal::MAILB)
        } else if n == 254 {
            Some(QTypeVal::MAILA)
        } else if n == 255 {
            Some(QTypeVal::ALL)
        } else {
            None
        }
    }

    /// The code that stands for this query type on the wire.
    pub fn code(&self) -> (n: u16)
        ensures
            n == self.spec_code(),
    {
        match self {
            QTypeVal::AXFR => 252,
            QTypeVal::MAILB => 253,
            QTypeVal::MAILA => 254,
            QTypeVal::ALL => 255,
        }
    }

    /// The code that stands for this query type on the wire; never `None`.
    pub fn to_i64(&self) -> (r: Option<i64>)
        ensures
            r == Some(self.spec_code() as i64),
    {
        Some(self.code() as i64)
    }
}

/// The type that a question asks for: a record type, or one of the query-only types.
#[derive(Clone, Copy, Debug, PartialEq, Eq, Structural)]
pub enum QType {
    Type(Type),
    QType(QTypeVal),
}

impl QType {
    /// The code that stands for this query type on the wire.
    pub open spec fn spec_code(self) -> u16 {
        match self {
            QType::Type(t) => t.spec_code(),
            QType::QType(q) => q.spec_code(),
        }
    }

    /// The query type that `n` stands for, if any: a code from 252 to 255 can
    /// only stand for a query-only type, any other only for a record type.
    pub open spec fn spec_from_code(n: int) -> Option<QType> {
        if 252 <= n <= 255 {
            match QTypeVal::spec_from_code(n) {
                Some(q) => Some(QType::QType(q)),
                None => None,
            }
        } else {
            match Type::spec_from_code(n) {
                Some(t) => Some(QType::Type(t)),
                None => None,
            }
        }
    }

    /// A code from 252 to 255 stands for a query-only type; any other code
    /// stands for what it stands for as a record type, if for anything.
    pub proof fn lemma_range(n: int)
        ensures
            252 <= n <= 255 ==> Self::spec_from_code(n) is Some && Self::spec_from_code(
                n,
            ).unwrap() is QType,
            !(252 <= n <= 255) ==> match Type::spec_from_code(n) {
                Some(t) => Self::spec_from_code(n) == Some(QType::Type(t)),
                None => Self::spec_from_code(n) is None,
            },
    {
    }

    /// Every query type is the one that its own code stands for.
    pub proof fn lemma_code(self)
        ensures
            Self::spec_from_code(self.spec_code() as int) == Some(self),
    {
    }

    /// A code stands for at most the query type whose code it is.
    pub proof fn lemma_from_code(n: int)
        ensures
            Self::spec_from_code(n) matches Some(q) ==> q.spec_code() == n,
    {
    }

    /// The query type that `n` stands for, if any.
    pub fn from_u64(n: u64) -> (r: Option<QType>)
        ensures
            r == Self::spec_from_code(n as int),
    {
        if n <= 0xffff {
            if n <= 255 && n >= 252 {
                match QTypeVal::from_u64(n) {
                    Some(q) => Some(QType::QType(q)),
                    None => None,
                }
            } else {
                match Type::from_u64(n) {
                    Some(t) => Some(QType::Type(t)),
                    None => None,
                }
            }
        } else {
            None
        }
    }

    /// The query type that `n` stands for, if any.
    pub fn from_i64(n: i64) -> (r: Option<QType>)
        ensures
            r == Self::spec_from_code(n as int),
    {
        if n > 0 {
            Self::from_u64(n as u64)
        } else {
            None
        }
    }

    /// The query type that `n` stands for, if any.
    pub fn from_u16(n: u16) -> (r: Option<QType>)
        ensures
            r == Self::spec_from_code(n as int),
    {
        Self::from_u64(n as u64)
    }

    /// The code that stands for this query type on the wire.
    pub fn code(&self) -> (n: u16)
        ensures
            n == self.spec_code(),
    {
        match self {
            QType::QType(q) => q.code(),
            QType::Type(t) => t.code(),
        }
    }

    /// The code that stands for this query type on the wire; never `None`.
    pub fn to_i64(&self) -> (r: Option<i64>)
        ensures
            r == Some(self.spec_code() as i64),
    {
        match self {
            QType::QType(q) => q.to_i64(),
            QType::Type(t) => t.to_i64(),
        }
    }

    /// The code that stands for this query type on the wire; never `None`.
    pub fn to_u64(&self) -> (r: Option<u64>)
        ensures
            r == Some(self.spec_code() as u64),
    {
        match self.to_i64() {
            Some(n) => Some(n as u64),
            None => None,
        }
    }
}

/// The query class that is no record class: a request for any class.
#[derive(Clone, Copy, Debug, PartialEq, Eq, Structural)]
pub enum QClassVal {
    ALL,
}

impl QClassVal {
    /// The code that stands for this query class on the wire.
    pub open spec fn spec_code(self) -> u16 {
        match self {
            QClassVal::ALL => 255,
        }
    }

    /// The query class that `n` stands for, if any.
    pub open spec fn spec_from_code(n: int) -> Option<QClassVal> {
        if n == 255 {
            Some(QClassVal::ALL)
        } else {
            None
        }
    }

    /// The query class that `n` stands for, if any.
    pub fn from_u64(n: u64) -> (r: Option<QClassVal>)
        ensures
            r == Self::spec_from_code(n as int),
    {
        if n == 255 {
            Some(QClassVal::ALL)
        } else {
            None
        }
    }

    /// The code that stands for this query class on the wire.
    pub fn code(&self) -> (n: u16)
        ensures
            n == self.spec_code(),
    {
        match self {
            QClassVal::ALL => 255,
        }
    }

    /// The code that stands for this query class on the wire; never `None`.
    pub fn to_i64(&self) -> (r: Option<i64>)
        ensures
            r == Some(self.spec_code() as i64),
    {
        Some(self.code() as i64)
    }
}

/// The class that a question asks for: a record class, or the query-only class.
#[derive(Clone, Copy, Debug, PartialEq, Eq, Structural)]
pub enum QClass {
    Class(Class),
    QClass(QClassVal),
}

impl QClass {
    /// The code that stands for this query class on the wire.
    pub open spec fn spec_code(self) -> u16 {
        match self {
            QClass::Class(c) => c.spec_code(),
            QClass::QClass(q) => q.spec_code(),
        }
    }

    /// The query class that `n` stands for, if any: the code 255 can only
    /// stand for the query-only class, any other only for a record class.
    pub open spec fn spec_from_code(n: int) -> Option<QClass> {
        if n == 255 {
            match QClassVal::spec_from_code(n) {
                Some(q) => Some(QClass::QClass(q)),
                None => None,
            }
        } else {
            match Class::spec_from_code(n) {
                Some(c) => Some(QClass::Class(c)),
                None => None,
            }
        }
    }

    /// The code 255 stands for the query-only class; any other code stands
    /// for what it stands for as a record class, if for anything.
    pub proof fn lemma_range(n: int)
        ensures
            n == 255 ==> Self::spec_from_code(n) == Some(QClass::QClass(QClassVal::ALL)),
            n != 255 ==> match Class::spec_from_code(n) {
                Some(c) => Self::spec_from_code(n) == Some(QClass::Class(c)),
                None => Self::spec_from_code(n) is None,
            },
    {
    }

    /// Every query class is the one that its own code stands for.
    pub proof fn lemma_code(self)
        ensures
            Self::spec_from_code(self.spec_code() as int) == Some(self),
    {
    }

    /// A code stands for at most the query class whose code it is.
    pub proof fn lemma_from_code(n: int)
        ensures
            Self::spec_from_code(n) matches Some(q) ==> q.spec_code() == n,
    {
    }

    /// The query class that `n` stands for, if any.
    pub fn from_u64(n: u64) -> (r: Option<QClass>)
        ensures
            r == Self::spec_from_code(n as int),
    {
        if n <= 0xffff {
            if n == 255 {
                match QClassVal::from_u64(n) {
                    Some(q) => Some(QClass::QClass(q)),
                    None => None,
                }
            } else {
                match Class::from_u64(n) {
                    Some(c) => Some(QClass::Class(c)),
                    None => None,
                }
            }
        } else {
            None
        }
    }

    /// The query class that `n` stands for, if any.
    pub fn from_i64(n: i64) -> (r: Option<QClass>)
        ensures
            r == Self::spec_from_code(n as int),
    {
        if n >= 0 {
            Self::from_u64(n as u64)
        } else {
            None
        }
    }

    /// The query class that `n` stands for, if any.
    pub fn from_u16(n: u16) -> (r: Option<QClass>)
        ensures
            r == Self::spec_from_code(n as int),
    {
        Self::from_u64(n as u64)
    }

    /// The code that stands for this query class on the wire.
    pub fn code(&self) -> (n: u16)
        ensures
            n == self.spec_code(),
    {
        match self {
            QClass::QClass(q) => q.code(),
            QClass::Class(c) => c.code(),
        }
    }

    /// The code that stands for this query class on the wire; never `None`.
    pub fn to_i64(&self) -> (r: Option<i64>)
        ensures
            r == Some(self.spec_code() as i64),
    {
        match self {
            QClass::QClass(q) => q.to_i64(),
            QClass::Class(c) => c.to_i64(),
        }
    }

    /// The code that stands for this query class on the wire; never `None`.
    pub fn to_u64(&self) -> (r: Option<u64>)
        ensures
            r == Some(self.spec_code() as u64),
    {
        match self.to_i64() {
            Some(n) => Some(n as u64),
            None => None,
        }
    }
}

/// One entry of the question section.
#[derive(Debug, PartialEq, Eq)]
pub struct Question {
    pub qname: Domain,
    pub qtype: QType,
    pub qclass: QClass,
}

/// The model of a question.
pub struct QuestionView {
    pub qname: Seq<Seq<u8>>,
    pub qtype: QType,
    pub qclass: QClass,
}

impl View for Question {
    type V = QuestionView;

    open spec fn view(&self) -> QuestionView {
        QuestionView { qname: self.qname@, qtype: self.qtype, qclass: self.qclass }
    }
}

/// A query type code.
pub open spec fn spec_parse_qtype(bytes: Seq<u8>) -> Parsed<QType> {
    match spec_be_u16(bytes) {
        Ok((rest, n)) => match QType::spec_from_code(n as int) {
            Some(q) => Ok((rest, q)),
            None => Err(spec_fail(ErrorKind::UndefinedType, bytes)),
        },
        Err(e) => Err(e),
    }
}

/// A query class code.
pub open spec fn spec_parse_qclass(bytes: Seq<u8>) -> Parsed<QClass> {
    match spec_be_u16(bytes) {
        Ok((rest, n)) => match QClass::spec_from_code(n as int) {
            Some(q) => Ok((rest, q)),
            None => Err(spec_fail(ErrorKind::UndefinedClass, bytes)),
        },
        Err(e) => Err(e),
    }
}

impl Question {
    /// A question takes four bytes more than its name.
    pub proof fn lemma_len(v: QuestionView)
        ensures
            Self::spec_as_bytes(v).len() == Domain::spec_as_bytes(v.qname).len() + 4,
    {
    }

    /// The encoding of a question, followed by `rest`, field by field.
    proof fn lemma_assoc(v: QuestionView, rest: Seq<u8>)
        ensures
            Self::spec_as_bytes(v) + rest == Domain::spec_as_bytes(v.qname) + (spec_u16_bytes(
                v.qtype.spec_code(),
            ) + (spec_u16_bytes(v.qclass.spec_code()) + rest)),
    {
        let name = Domain::spec_as_bytes(v.qname);
        let qtype = spec_u16_bytes(v.qtype.spec_code());
        let qclass = spec_u16_bytes(v.qclass.spec_code());
        lemma_add_assoc(name + qtype, qclass, rest);
        lemma_add_assoc(name, qtype, qclass + rest);
    }
}

impl DNSItem for Question {
    /// A question is well-formed if its name is.
    open spec fn spec_wf(v: QuestionView) -> bool {
        Domain::spec_wf(v.qname)
    }

    /// The name, then the codes of the query type and the query class.
    open spec fn spec_as_bytes(v: QuestionView) -> Seq<u8> {
        Domain::spec_as_bytes(v.qname) + spec_u16_bytes(v.qtype.spec_code()) + spec_u16_bytes(
            v.qclass.spec_code(),
        )
    }

    /// The name, then the query type, then the query class.
    open spec fn spec_parse(bytes: Seq<u8>) -> Parsed<QuestionView> {
        match Domain::spec_parse(bytes) {
            Err(e) => Err(e),
            Ok((b1, qname)) => match spec_parse_qtype(b1) {
                Err(e) => Err(e),
                Ok((b2, qtype)) => match spec_parse_qclass(b2) {
                    Err(e) => Err(e),
                    Ok((b3, qclass)) => Ok((b3, QuestionView { qname, qtype, qclass })),
                },
            },
        }
    }

    proof fn lemma_parse_as_bytes(v: QuestionView, rest: Seq<u8>) {
        let t2 = spec_u16_bytes(v.qclass.spec_code()) + rest;
        let t1 = spec_u16_bytes(v.qtype.spec_code()) + t2;
        Self::lemma_assoc(v, rest);
        Domain::lemma_parse_as_bytes(v.qname, t1);
        lemma_be_u16_bytes(v.qtype.spec_code(), t2);
        lemma_be_u16_bytes(v.qclass.spec_code(), rest);
    }

    proof fn lemma_as_bytes_parse(bytes: Seq<u8>) {
        if let Ok((rest, v)) = Self::spec_parse(bytes) {
            let (b1, _) = Domain::spec_parse(bytes).unwrap();
            let (b2, _) = spec_parse_qtype(b1).unwrap();
            Domain::lemma_as_bytes_parse(bytes);
            lemma_u16_bytes_be(b1);
            lemma_u16_bytes_be(b2);
            Self::lemma_assoc(v, rest);
        }
    }

    fn parse<'a>(bytes: &'a [u8]) -> (r: Result<(&'a [u8], Self), ParseError>) {
        let (b1, qname) = Domain::parse(bytes)?;
        let (b2, qtype_code) = be_u16(b1)?;
        let qtype = match QType::from_u16(qtype_code) {
            Some(qtype) => qtype,
            None => {
                return Err(fail(ErrorKind::UndefinedType, b1));
            },
        };
        let (b3, qclass_code) = be_u16(b2)?;
        let qclass = match QClass::from_u16(qclass_code) {
            Some(qclass) => qclass,
            None => {
                return Err(fail(ErrorKind::UndefinedClass, b2));
            },
        };
        Ok((b3, Question { qname, qtype, qclass }))
    }

    fn as_bytes(&self) -> (out: Vec<u8>) {
        let mut out: Vec<u8> = Vec::with_capacity(self.len_bytes());
        let mut name = self.qname.as_bytes();
        out.append(&mut name);
        push_u16(&mut out, self.qtype.code());
        push_u16(&mut out, self.qclass.code());
        out
    }

    fn len_bytes(&self) -> (n: usize) {
        self.qname.len_bytes() + 4
    }
}

/// A whole message: the header and the four sections that it counts.
///
/// The header's four counts always are the lengths of the four sections:
/// [`Message::new`] takes them from the sections it is given, and nothing
/// changes a message afterwards. So the encoder never writes a count that
/// disagrees with what follows it.
#[derive(Debug, PartialEq, Eq)]
pub struct Message {
    header: Header,
    questions: Vec<Question>,
    answers: Vec<RR>,
    authorities: Vec<RR>,
    additionals: Vec<RR>,
}

/// The model of a message.
pub struct MessageView {
    pub header: Header,
    pub questions: Seq<QuestionView>,
    pub answers: Seq<RRView>,
    pub authorities: Seq<RRView>,
    pub additionals: Seq<RRView>,
}

impl View for Message {
    type V = MessageView;

    closed spec fn view(&self) -> MessageView {
        MessageView {
            header: self.header,
            questions: spec_views(self.questions@),
            answers: spec_views(self.answers@),
            authorities: spec_views(self.authorities@),
            additionals: spec_views(self.additionals@),
        }
    }
}

impl MessageView {
    /// Whether the header's counts are the lengths of the sections.
    pub open spec fn spec_counted(self) -> bool {
        &&& self.header.qdcount == self.questions.len()
        &&& self.header.ancount == self.answers.len()
        &&& self.header.nscount == self.authorities.len()
        &&& self.header.arcount == self.additionals.len()
    }
}

impl Message {
    #[verifier::type_invariant]
    spec fn inv(self) -> bool {
        self@.spec_counted()
    }

    /// Whether a message is one that a decoder with `registry` can give: the
    /// header's counts are the lengths of the sections, every question is
    /// well-formed, and every record is one that such a decoder can give.
    pub open spec fn spec_wf_with(registry: Map<Type, Codec>, v: MessageView) -> bool {
        &&& v.spec_counted()
        &&& forall|i: int| 0 <= i < v.questions.len() ==> Question::spec_wf(#[trigger] v.questions[i])
        &&& forall|i: int|
            0 <= i < v.answers.len() ==> RR::spec_wf_with(registry, #[trigger] v.answers[i])
        &&& forall|i: int|
            0 <= i < v.authorities.len() ==> RR::spec_wf_with(registry, #[trigger] v.authorities[i])
        &&& forall|i: int|
            0 <= i < v.additionals.len() ==> RR::spec_wf_with(registry, #[trigger] v.additionals[i])
    }

    /// The encodings of the entries of the four sections, in order.
    pub open spec fn spec_sections_bytes(v: MessageView) -> Seq<u8> {
        spec_concat(spec_encoder::<Question>(), v.questions) + spec_concat(
            spec_encoder::<RR>(),
            v.answers,
        ) + spec_concat(spec_encoder::<RR>(), v.authorities) + spec_concat(
            spec_encoder::<RR>(),
            v.additionals,
        )
    }

    /// The result of parsing the four sections from the front of `bytes`:
    /// as many questions, answers, authorities and additionals as `header` counts.
    pub open spec fn spec_parse_sections(
        registry: Map<Type, Codec>,
        header: Header,
        bytes: Seq<u8>,
    ) -> Parsed<MessageView> {
        match spec_repeat(spec_parser::<Question>(), header.qdcount as nat, bytes) {
            Err(e) => Err(e),
            Ok((b2, questions)) => match spec_repeat(
                RR::spec_parser_with(registry),
                header.ancount as nat,
                b2,
            ) {
                Err(e) => Err(e),
                Ok((b3, answers)) => match spec_repeat(
                    RR::spec_parser_with(registry),
                    header.nscount as nat,
                    b3,
                ) {
                    Err(e) => Err(e),
                    Ok((b4, authorities)) => match spec_repeat(
                        RR::spec_parser_with(registry),
                        header.arcount as nat,
                        b4,
                    ) {
                        Err(e) => Err(e),
                        Ok((b5, additionals)) => Ok(
                            (
                                b5,
                                MessageView { header, questions, answers, authorities, additionals },
                            ),
                        ),
                    },
                },
            },
        }
    }

    /// The result of parsing one message from the front of `bytes`, with the
    /// payload codecs of `registry`: the header, then the sections that it counts.
    pub open spec fn spec_parse_with(registry: Map<Type, Codec>, bytes: Seq<u8>) -> Parsed<
        MessageView,
    > {
        match Header::spec_parse(bytes) {
            Err(e) => Err(e),
            Ok((b1, header)) => Self::spec_parse_sections(registry, header, b1),
        }
    }

    /// Puts a message together. The header's four counts are set to the
    /// lengths of the sections; there is no message if a section has more
    /// entries than a count can hold.
    pub fn new(
        header: Header,
        questions: Vec<Question>,
        answers: Vec<RR>,
        authorities: Vec<RR>,
        additionals: Vec<RR>,
    ) -> (r: Option<Message>)
        ensures
            match r {
                Some(m) => m@ == (MessageView {
                    header: Header {
                        qdcount: questions@.len() as u16,
                        ancount: answers@.len() as u16,
                        nscount: authorities@.len() as u16,
                        arcount: additionals@.len() as u16,
                        ..header
                    },
                    questions: spec_views(questions@),
                    answers: spec_views(answers@),
                    authorities: spec_views(authorities@),
                    additionals: spec_views(additionals@),
                }) && m@.spec_counted(),
                None => questions@.len() > u16::MAX || answers@.len() > u16::MAX
                    || authorities@.len() > u16::MAX || additionals@.len() > u16::MAX,
            },
    {
        if questions.len() > 0xffff || answers.len() > 0xffff || authorities.len() > 0xffff
            || additionals.len() > 0xffff {
            return None;
        }
        let header = Header {
            qdcount: questions.len() as u16,
            ancount: answers.len() as u16,
            nscount: authorities.len() as u16,
            arcount: additionals.len() as u16,
            ..header
        };
        Some(Message { header, questions, answers, authorities, additionals })
    }

    /// The header, whose counts are the lengths of the sections.
    pub fn header(&self) -> (r: &Header)
        ensures
            *r == self@.header,
            self@.spec_counted(),
    {
        proof {
            use_type_invariant(self);
        }
        &self.header
    }

    /// The question section.
    pub fn questions(&self) -> (r: &Vec<Question>)
        ensures
            spec_views(r@) == self@.questions,
    {
        &self.questions
    }

    /// The answer section.
    pub fn answers(&self) -> (r: &Vec<RR>)
        ensures
            spec_views(r@) == self@.answers,
    {
        &self.answers
    }

    /// The authority section.
    pub fn authorities(&self) -> (r: &Vec<RR>)
        ensures
            spec_views(r@) == self@.authorities,
    {
        &self.authorities
    }

    /// The additional section.
    pub fn additionals(&self) -> (r: &Vec<RR>)
        ensures
            spec_views(r@) == self@.additionals,
    {
        &self.additionals
    }

    /// Parses one message from the front of `bytes`, with the payload codecs of `registry`.
    pub fn parse_with<'a>(registry: &Registry, bytes: &'a [u8]) -> (r: Result<
        (&'a [u8], Message),
        ParseError,
    >)
        ensures
            parsed(r) == Self::spec_parse_with(registry@, bytes@),
    {
        let (b1, header) = Header::parse(bytes)?;
        let (b2, questions) = parse_many(&Plain::<Question>::new(), header.qdcount, b1)?;
        let (b3, answers) = parse_many(registry, header.ancount, b2)?;
        let (b4, authorities) = parse_many(registry, header.nscount, b3)?;
        let (b5, additionals) = parse_many(registry, header.arcount, b4)?;
        Ok((b5, Message { header, questions, answers, authorities, additionals }))
    }

    /// Decodes a buffer that holds exactly one message, with the payload
    /// codecs of `registry`: input left over is an error.
    pub fn from_bytes_with(registry: &Registry, bytes: &[u8]) -> (r: Result<Message, ParseError>)
        ensures
            decoded(r) == spec_complete(Self::spec_parse_with(registry@, bytes@)),
    {
        complete(Self::parse_with(registry, bytes))
    }
}

impl Message {
    /// Parsing inverts encoding for the questions of a section.
    proof fn lemma_questions(items: Seq<QuestionView>, rest: Seq<u8>)
        requires
            forall|i: int| 0 <= i < items.len() ==> Question::spec_wf(#[trigger] items[i]),
        ensures
            spec_repeat(
                spec_parser::<Question>(),
                items.len(),
                spec_concat(spec_encoder::<Question>(), items) + rest,
            ) == Ok::<_, ParseError>((rest, items)),
    {
        let questions = spec_parser::<Question>();
        assert forall|i: int, tail: Seq<u8>| 0 <= i < items.len() implies #[trigger] questions(
            spec_encoder::<Question>()(items[i]) + tail,
        ) == Ok::<_, ParseError>((tail, items[i])) by {
            Question::lemma_parse_as_bytes(items[i], tail);
        }
        lemma_repeat_concat(questions, spec_encoder::<Question>(), items, rest);
    }

    /// Encoding inverts parsing for the questions of a section.
    proof fn lemma_parsed_questions(n: nat, bytes: Seq<u8>)
        ensures
            spec_repeat(spec_parser::<Question>(), n, bytes) matches Ok((rest, items)) ==> {
                &&& items.len() == n
                &&& forall|i: int| 0 <= i < items.len() ==> Question::spec_wf(#[trigger] items[i])
                &&& spec_concat(spec_encoder::<Question>(), items) + rest == bytes
            },
    {
        let questions = spec_parser::<Question>();
        let good = |q: QuestionView| Question::spec_wf(q);
        assert forall|b: Seq<u8>| #[trigger]
            questions(b) matches Ok((tail, q)) ==> good(q) && spec_encoder::<Question>()(q) + tail
                == b by {
            Question::lemma_as_bytes_parse(b);
        }
        lemma_concat_repeat(questions, spec_encoder::<Question>(), good, n, bytes);
        if let Ok((rest, items)) = spec_repeat(questions, n, bytes) {
            assert forall|i: int| 0 <= i < items.len() implies Question::spec_wf(
                #[trigger] items[i],
            ) by {
                assert(good(items[i]));
            }
        }
    }

    /// Parsing inverts encoding for the records of a section.
    proof fn lemma_records(registry: Map<Type, Codec>, items: Seq<RRView>, rest: Seq<u8>)
        requires
            forall|i: int| 0 <= i < items.len() ==> RR::spec_wf_with(registry, #[trigger] items[i]),
        ensures
            spec_repeat(
                RR::spec_parser_with(registry),
                items.len(),
                spec_concat(spec_encoder::<RR>(), items) + rest,
            ) == Ok::<_, ParseError>((rest, items)),
    {
        let records = RR::spec_parser_with(registry);
        assert forall|i: int, tail: Seq<u8>| 0 <= i < items.len() implies #[trigger] records(
            spec_encoder::<RR>()(items[i]) + tail,
        ) == Ok::<_, ParseError>((tail, items[i])) by {
            RR::lemma_parse_with_as_bytes(registry, items[i], tail);
        }
        lemma_repeat_concat(records, spec_encoder::<RR>(), items, rest);
    }

    /// Encoding inverts parsing for the records of a section.
    proof fn lemma_parsed_records(registry: Map<Type, Codec>, n: nat, bytes: Seq<u8>)
        ensures
            spec_repeat(RR::spec_parser_with(registry), n, bytes) matches Ok((rest, items)) ==> {
                &&& items.len() == n
                &&& forall|i: int|
                    0 <= i < items.len() ==> RR::spec_wf_with(registry, #[trigger] items[i])
                &&& spec_concat(spec_encoder::<RR>(), items) + rest == bytes
            },
    {
        let records = RR::spec_parser_with(registry);
        let good = |v: RRView| RR::spec_wf_with(registry, v);
        assert forall|b: Seq<u8>| #[trigger]
            records(b) matches Ok((tail, v)) ==> good(v) && spec_encoder::<RR>()(v) + tail == b by {
            RR::lemma_as_bytes_parse_with(registry, b);
        }
        lemma_concat_repeat(records, spec_encoder::<RR>(), good, n, bytes);
        if let Ok((rest, items)) = spec_repeat(records, n, bytes) {
            assert forall|i: int| 0 <= i < items.len() implies RR::spec_wf_with(
                registry,
                #[trigger] items[i],
            ) by {
                assert(good(items[i]));
            }
        }
    }

    /// The encodings of the sections, followed by `rest`, section by section.
    proof fn lemma_sections_assoc(v: MessageView, rest: Seq<u8>)
        ensures
            Self::spec_sections_bytes(v) + rest == spec_concat(
                spec_encoder::<Question>(),
                v.questions,
            ) + (spec_concat(spec_encoder::<RR>(), v.answers) + (spec_concat(
                spec_encoder::<RR>(),
                v.authorities,
            ) + (spec_concat(spec_encoder::<RR>(), v.additionals) + rest))),
    {
        let q = spec_concat(spec_encoder::<Question>(), v.questions);
        let an = spec_concat(spec_encoder::<RR>(), v.answers);
        let ns = spec_concat(spec_encoder::<RR>(), v.authorities);
        let ar = spec_concat(spec_encoder::<RR>(), v.additionals);
        lemma_add_assoc(q + an + ns, ar, rest);
        lemma_add_assoc(q + an, ns, ar + rest);
        lemma_add_assoc(q, an, ns + (ar + rest));
    }

    /// Parsing inverts encoding for the four sections.
    proof fn lemma_parse_sections_bytes(registry: Map<Type, Codec>, v: MessageView, rest: Seq<u8>)
        requires
            Self::spec_wf_with(registry, v),
        ensures
            Self::spec_parse_sections(registry, v.header, Self::spec_sections_bytes(v) + rest)
                == Ok::<_, ParseError>((rest, v)),
    {
        let t4 = spec_concat(spec_encoder::<RR>(), v.additionals) + rest;
        let t3 = spec_concat(spec_encoder::<RR>(), v.authorities) + t4;
        let t2 = spec_concat(spec_encoder::<RR>(), v.answers) + t3;
        let t1 = spec_concat(spec_encoder::<Question>(), v.questions) + t2;
        assert(Self::spec_sections_bytes(v) + rest == t1) by {
            Self::lemma_sections_assoc(v, rest);
        }
        let records = RR::spec_parser_with(registry);
        assert(spec_repeat(spec_parser::<Question>(), v.header.qdcount as nat, t1) == Ok::<
            _,
            ParseError,
        >((t2, v.questions))) by {
            Self::lemma_questions(v.questions, t2);
        }
        assert(spec_repeat(records, v.header.ancount as nat, t2) == Ok::<_, ParseError>(
            (t3, v.answers),
        )) by {
            Self::lemma_records(registry, v.answers, t3);
        }
        assert(spec_repeat(records, v.header.nscount as nat, t3) == Ok::<_, ParseError>(
            (t4, v.authorities),
        )) by {
            Self::lemma_records(registry, v.authorities, t4);
        }
        assert(spec_repeat(records, v.header.arcount as nat, t4) == Ok::<_, ParseError>(
            (rest, v.additionals),
        )) by {
            Self::lemma_records(registry, v.additionals, rest);
        }
    }

    /// Encoding inverts parsing for the four sections.
    proof fn lemma_sections_bytes_parse(registry: Map<Type, Codec>, header: Header, bytes: Seq<u8>)
        ensures
            Self::spec_parse_sections(registry, header, bytes) matches Ok((rest, v)) ==> {
                &&& v.header == header
                &&& Self::spec_wf_with(registry, v)
                &&& Self::spec_sections_bytes(v) + rest == bytes
            },
    {
        if let Ok((rest, v)) = Self::spec_parse_sections(registry, header, bytes) {
            let questions = spec_parser::<Question>();
            let records = RR::spec_parser_with(registry);
            let (b2, _) = spec_repeat(questions, header.qdcount as nat, bytes).unwrap();
            let (b3, _) = spec_repeat(records, header.ancount as nat, b2).unwrap();
            let (b4, _) = spec_repeat(records, header.nscount as nat, b3).unwrap();
            Self::lemma_parsed_questions(header.qdcount as nat, bytes);
            Self::lemma_parsed_records(registry, header.ancount as nat, b2);
            Self::lemma_parsed_records(registry, header.nscount as nat, b3);
            Self::lemma_parsed_records(registry, header.arcount as nat, b4);
            Self::lemma_sections_assoc(v, rest);
        }
    }

    /// Parsing inverts encoding, whatever the registry: the encoding of a
    /// message that a decoder with `registry` can give, followed by anything,
    /// parses with `registry` to that message and leaves exactly what followed.
    pub proof fn lemma_parse_with_as_bytes(
        registry: Map<Type, Codec>,
        v: MessageView,
        rest: Seq<u8>,
    )
        requires
            Self::spec_wf_with(registry, v),
        ensures
            Self::spec_parse_with(registry, Self::spec_as_bytes(v) + rest) == Ok::<_, ParseError>(
                (rest, v),
            ),
    {
        let t1 = Self::spec_sections_bytes(v) + rest;
        lemma_add_assoc(Header::spec_as_bytes(v.header), Self::spec_sections_bytes(v), rest);
        Header::lemma_parse_as_bytes(v.header, t1);
        Self::lemma_parse_sections_bytes(registry, v, rest);
    }

    /// Encoding inverts parsing, whatever the registry: a message parsed with
    /// `registry` is one that a decoder with `registry` can give, and its
    /// encoding followed by the unread input is the input.
    pub proof fn lemma_as_bytes_parse_with(registry: Map<Type, Codec>, bytes: Seq<u8>)
        ensures
            Self::spec_parse_with(registry, bytes) matches Ok((rest, v)) ==> Self::spec_wf_with(
                registry,
                v,
            ) && Self::spec_as_bytes(v) + rest == bytes,
    {
        if let Ok((rest, v)) = Self::spec_parse_with(registry, bytes) {
            let (b1, header) = Header::spec_parse(bytes).unwrap();
            Header::lemma_as_bytes_parse(bytes);
            Self::lemma_sections_bytes_parse(registry, header, b1);
            lemma_add_assoc(Header::spec_as_bytes(header), Self::spec_sections_bytes(v), rest);
        }
    }
}

impl DNSItem for Message {
    /// A message that a decoder with the standard registry can give.
    open spec fn spec_wf(v: MessageView) -> bool {
        Self::spec_wf_with(spec_standard(), v)
    }

    /// The header, then the entries of the four sections in order.
    open spec fn spec_as_bytes(v: MessageView) -> Seq<u8> {
        Header::spec_as_bytes(v.header) + Self::spec_sections_bytes(v)
    }

    /// The result of parsing with the standard registry.
    open spec fn spec_parse(bytes: Seq<u8>) -> Parsed<MessageView> {
        Self::spec_parse_with(spec_standard(), bytes)
    }

    proof fn lemma_parse_as_bytes(v: MessageView, rest: Seq<u8>) {
        Self::lemma_parse_with_as_bytes(spec_standard(), v, rest);
    }

    proof fn lemma_as_bytes_parse(bytes: Seq<u8>) {
        Self::lemma_as_bytes_parse_with(spec_standard(), bytes);
    }

    fn parse<'a>(bytes: &'a [u8]) -> (r: Result<(&'a [u8], Self), ParseError>) {
        let registry = Registry::standard();
        Self::parse_with(&registry, bytes)
    }

    fn as_bytes(&self) -> (out: Vec<u8>) {
        let mut out = self.header.as_bytes();
        append_items(&mut out, &self.questions);
        append_items(&mut out, &self.answers);
        append_items(&mut out, &self.authorities);
        append_items(&mut out, &self.additionals);
        out
    }
}

} // verus!
