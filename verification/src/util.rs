//! Parse errors, the big-endian integer primitives shared by all codecs, and
//! the model of items that stand one after the other on the wire.
use vstd::prelude::*;
use vstd::slice::slice_subrange;

verus! {

/// Why a parse failed.
#[derive(Clone, Copy, Debug, PartialEq, Eq, Structural)]
pub enum ErrorKind {
    /// The input ended before the element was complete.
    Eof,
    /// A label announced 63 or more content bytes.
    LabelTooLong,
    /// A label held a byte that is not an ASCII letter.
    LabelNotAlphabetic,
    /// A complete domain name took more than 255 bytes on the wire.
    DomainTooLong,
    /// The header's opcode field held a value with no defined meaning.
    UndefinedOpcode,
    /// The header's rcode field held a value with no defined meaning.
    UndefinedRCode,
    /// The header's reserved bits were not all zero.
    ReservedBits,
    /// A type code read on its own, or a query type code, with no defined meaning.
    UndefinedType,
    /// A class code (or query class code) with no defined meaning.
    UndefinedClass,
    /// No payload codec is registered for the type code of a record, be it
    /// the code of a defined type or not.
    UnsupportedRecordType,
    /// A complete item was parsed but input was left over.
    TrailingData,
}

/// A parse failure: what went wrong, and where.
///
/// `remaining` is the number of input bytes that were still unread when the
/// failing element began, so the failing position is that many bytes before
/// the end of the buffer. For [`ErrorKind::TrailingData`] it is the number of
/// bytes left over.
#[derive(Clone, Copy, Debug, PartialEq, Eq, Structural)]
pub struct ParseError {
    pub kind: ErrorKind,
    pub remaining: usize,
}

/// The model of a parse result: the unread input and the model of the value.
pub type Parsed<V> = Result<(Seq<u8>, V), ParseError>;

/// The error of the given kind raised at the start of `bytes`.
pub open spec fn spec_fail(kind: ErrorKind, bytes: Seq<u8>) -> ParseError {
    ParseError { kind, remaining: bytes.len() as usize }
}

/// The model of an executable parse result.
pub open spec fn parsed<T: View>(r: Result<(&[u8], T), ParseError>) -> Parsed<T::V> {
    match r {
        Ok((rest, item)) => Ok((rest@, item@)),
        Err(e) => Err(e),
    }
}

/// What a whole-buffer decode makes of a parse result: input left over is an error.
pub open spec fn spec_complete<V>(r: Parsed<V>) -> Result<V, ParseError> {
    match r {
        Ok((rest, v)) => if rest.len() == 0 {
            Ok(v)
        } else {
            Err(spec_fail(ErrorKind::TrailingData, rest))
        },
        Err(e) => Err(e),
    }
}

/// The model of the result of a whole-buffer decode.
pub open spec fn decoded<T: View>(r: Result<T, ParseError>) -> Result<T::V, ParseError> {
    match r {
        Ok(item) => Ok(item@),
        Err(e) => Err(e),
    }
}

/// Makes a whole-buffer decode of a parse result: input left over is an error.
pub fn complete<T: View>(r: Result<(&[u8], T), ParseError>) -> (out: Result<T, ParseError>)
    ensures
        decoded(out) == spec_complete(parsed(r)),
{
    let (rest, item) = r?;
    if rest.len() == 0 {
        Ok(item)
    } else {
        Err(fail(ErrorKind::TrailingData, rest))
    }
}

/// The error of the given kind raised at the start of `bytes`.
pub fn fail(kind: ErrorKind, bytes: &[u8]) -> (e: ParseError)
    ensures
        e == spec_fail(kind, bytes@),
{
    ParseError { kind, remaining: bytes.len() }
}

/// The input without its first `n` bytes.
pub(crate) fn skip<'a>(bytes: &'a [u8], n: usize) -> (rest: &'a [u8])
    requires
        n <= bytes@.len(),
    ensures
        rest@ == bytes@.skip(n as int),
{
    slice_subrange(bytes, n, bytes.len())
}

/// Two bytes, most significant first.
pub open spec fn spec_be_u16(bytes: Seq<u8>) -> Parsed<u16> {
    if bytes.len() < 2 {
        Err(spec_fail(ErrorKind::Eof, bytes))
    } else {
        Ok((bytes.skip(2), (bytes[0] * 256 + bytes[1]) as u16))
    }
}

/// The value of four bytes, most significant first, as an unsigned number.
pub open spec fn spec_u32_of(b0: u8, b1: u8, b2: u8, b3: u8) -> int {
    b0 * 0x100_0000 + b1 * 0x1_0000 + b2 * 0x100 + b3
}

/// The signed number whose two's complement representation is `u`.
pub open spec fn spec_signed(u: int) -> int {
    if u >= 0x8000_0000 {
        u - 0x1_0000_0000
    } else {
        u
    }
}

/// The two's complement representation of `x`.
pub open spec fn spec_unsigned(x: i32) -> int {
    if x < 0 {
        x + 0x1_0000_0000
    } else {
        x as int
    }
}

/// Four bytes, most significant first, in two's complement.
pub open spec fn spec_be_i32(bytes: Seq<u8>) -> Parsed<i32> {
    if bytes.len() < 4 {
        Err(spec_fail(ErrorKind::Eof, bytes))
    } else {
        Ok((bytes.skip(4), spec_signed(spec_u32_of(bytes[0], bytes[1], bytes[2], bytes[3])) as i32))
    }
}

/// The two bytes of `x`, most significant first.
pub open spec fn spec_u16_bytes(x: u16) -> Seq<u8> {
    seq![(x / 256) as u8, (x % 256) as u8]
}

/// The four bytes of `x` in two's complement, most significant first.
pub open spec fn spec_i32_bytes(x: i32) -> Seq<u8> {
    let u = spec_unsigned(x);
    seq![
        (u / 0x100_0000) as u8,
        (u / 0x1_0000 % 256) as u8,
        (u / 0x100 % 256) as u8,
        (u % 256) as u8,
    ]
}

/// Reads a big-endian `u16`.
pub fn be_u16<'a>(bytes: &'a [u8]) -> (r: Result<(&'a [u8], u16), ParseError>)
    ensures
        parsed(r) == spec_be_u16(bytes@),
{
    if bytes.len() < 2 {
        return Err(fail(ErrorKind::Eof, bytes));
    }
    let hi: u16 = bytes[0] as u16;
    let lo: u16 = bytes[1] as u16;
    Ok((skip(bytes, 2), hi * 256 + lo))
}

/// Reads a big-endian two's complement `i32`.
pub fn be_i32<'a>(bytes: &'a [u8]) -> (r: Result<(&'a [u8], i32), ParseError>)
    ensures
        parsed(r) == spec_be_i32(bytes@),
{
    if bytes.len() < 4 {
        return Err(fail(ErrorKind::Eof, bytes));
    }
    let u: u32 = (bytes[0] as u32) * 0x100_0000 + (bytes[1] as u32) * 0x1_0000 + (bytes[2] as u32)
        * 0x100 + (bytes[3] as u32);
    let x: i32 = if u >= 0x8000_0000 {
        ((u - 0x8000_0000) as i32) + i32::MIN
    } else {
        u as i32
    };
    Ok((skip(bytes, 4), x))
}

/// Appends the big-endian bytes of `x`.
pub fn push_u16(out: &mut Vec<u8>, x: u16)
    ensures
        final(out)@ == old(out)@ + spec_u16_bytes(x),
{
    out.push((x / 256) as u8);
    out.push((x % 256) as u8);
}

/// Appends the big-endian two's complement bytes of `x`.
pub fn push_i32(out: &mut Vec<u8>, x: i32)
    ensures
        final(out)@ == old(out)@ + spec_i32_bytes(x),
{
    let u: u32 = if x < 0 {
        ((x - i32::MIN) as u32) + 0x8000_0000
    } else {
        x as u32
    };
    out.push((u / 0x100_0000) as u8);
    out.push((u / 0x1_0000 % 256) as u8);
    out.push((u / 0x100 % 256) as u8);
    out.push((u % 256) as u8);
}

/// Reading back the bytes of a `u16` gives that `u16` and consumes exactly them.
pub proof fn lemma_be_u16_bytes(x: u16, rest: Seq<u8>)
    ensures
        spec_be_u16(spec_u16_bytes(x) + rest) == Ok::<_, ParseError>((rest, x)),
{
    let b = spec_u16_bytes(x) + rest;
    assert(b.skip(2) =~= rest);
    assert(x / 256 <= 255 && x % 256 <= 255 && (x / 256) * 256 + x % 256 == x) by (bit_vector);
}

/// The two bytes that a successful `u16` read consumed are the bytes of its result.
pub proof fn lemma_u16_bytes_be(bytes: Seq<u8>)
    ensures
        spec_be_u16(bytes) matches Ok((rest, x)) ==> spec_u16_bytes(x) + rest == bytes,
{
    if bytes.len() >= 2 {
        let hi = bytes[0];
        let lo = bytes[1];
        let x = (hi * 256 + lo) as u16;
        assert((hi * 256 + lo) / 256 == hi && (hi * 256 + lo) % 256 == lo) by (bit_vector);
        assert(spec_u16_bytes(x) + bytes.skip(2) =~= bytes);
    }
}

/// Reading back the bytes of an `i32` gives that `i32` and consumes exactly them.
pub proof fn lemma_be_i32_bytes(x: i32, rest: Seq<u8>)
    ensures
        spec_be_i32(spec_i32_bytes(x) + rest) == Ok::<_, ParseError>((rest, x)),
{
    let b = spec_i32_bytes(x) + rest;
    assert(b.skip(4) =~= rest);
    let u = spec_unsigned(x) as u32;
    assert(u / 0x100_0000 <= 255 && (u / 0x100_0000) * 0x100_0000 + (u / 0x1_0000 % 256) * 0x1_0000
        + (u / 0x100 % 256) * 0x100 + u % 256 == u) by (bit_vector);
    assert(spec_u32_of(b[0], b[1], b[2], b[3]) == u);
}

/// The digits of a four-byte number in base 256 are its bytes.
proof fn lemma_u32_digits(b0: u8, b1: u8, b2: u8, b3: u8)
    ensures
        spec_u32_of(b0, b1, b2, b3) / 0x100_0000 == b0,
        spec_u32_of(b0, b1, b2, b3) / 0x1_0000 % 256 == b1,
        spec_u32_of(b0, b1, b2, b3) / 0x100 % 256 == b2,
        spec_u32_of(b0, b1, b2, b3) % 256 == b3,
        0 <= spec_u32_of(b0, b1, b2, b3) < 0x1_0000_0000,
{
    assert((b0 * 0x100_0000 + b1 * 0x1_0000 + b2 * 0x100 + b3) / 0x100_0000 == b0)
        by (bit_vector);
    assert((b0 * 0x100_0000 + b1 * 0x1_0000 + b2 * 0x100 + b3) / 0x1_0000 % 256 == b1)
        by (bit_vector);
    assert((b0 * 0x100_0000 + b1 * 0x1_0000 + b2 * 0x100 + b3) / 0x100 % 256 == b2)
        by (bit_vector);
    assert((b0 * 0x100_0000 + b1 * 0x1_0000 + b2 * 0x100 + b3) % 256 == b3) by (bit_vector);
    assert(b0 * 0x100_0000 + b1 * 0x1_0000 + b2 * 0x100 + b3 < 0x1_0000_0000) by (bit_vector);
}

/// The four bytes that a successful `i32` read consumed are the bytes of its result.
pub proof fn lemma_i32_bytes_be(bytes: Seq<u8>)
    ensures
        spec_be_i32(bytes) matches Ok((rest, x)) ==> spec_i32_bytes(x) + rest == bytes,
{
    if bytes.len() >= 4 {
        let u = spec_u32_of(bytes[0], bytes[1], bytes[2], bytes[3]);
        let x = spec_signed(u) as i32;
        lemma_u32_digits(bytes[0], bytes[1], bytes[2], bytes[3]);
        assert(spec_unsigned(x) == u);
        assert(spec_i32_bytes(x) + bytes.skip(4) =~= bytes);
    }
}

/// Concatenation is associative.
pub proof fn lemma_add_assoc<A>(a: Seq<A>, b: Seq<A>, c: Seq<A>)
    ensures
        (a + b) + c == a + (b + c),
{
    assert((a + b) + c =~= a + (b + c));
}

/// The models of a sequence of items.
pub open spec fn spec_views<T: View>(items: Seq<T>) -> Seq<T::V> {
    Seq::new(items.len(), |i: int| items[i]@)
}

/// A parse result with `front` put before the items it holds.
pub open spec fn spec_prepend<V>(front: Seq<V>, r: Parsed<Seq<V>>) -> Parsed<Seq<V>> {
    match r {
        Ok((rest, items)) => Ok((rest, front + items)),
        Err(e) => Err(e),
    }
}

/// The result of parsing `n` items one after the other from the front of
/// `bytes`, each with `item`: the first failure is the failure of the whole.
pub open spec fn spec_repeat<V>(item: spec_fn(Seq<u8>) -> Parsed<V>, n: nat, bytes: Seq<u8>) -> Parsed<
    Seq<V>,
>
    decreases n,
{
    if n == 0 {
        Ok((bytes, Seq::empty()))
    } else {
        match item(bytes) {
            Ok((rest, v)) => spec_prepend(seq![v], spec_repeat(item, (n - 1) as nat, rest)),
            Err(e) => Err(e),
        }
    }
}

/// The encodings of the items, one after the other.
pub open spec fn spec_concat<V>(encode: spec_fn(V) -> Seq<u8>, items: Seq<V>) -> Seq<u8>
    decreases items.len(),
{
    if items.len() == 0 {
        Seq::empty()
    } else {
        encode(items[0]) + spec_concat(encode, items.skip(1))
    }
}

/// Prepending no items changes nothing.
pub proof fn lemma_prepend_empty<V>(r: Parsed<Seq<V>>)
    ensures
        spec_prepend(Seq::empty(), r) == r,
{
    if let Ok((rest, items)) = r {
        assert(Seq::<V>::empty() + items =~= items);
    }
}

/// Prepending in two steps is prepending the concatenation.
pub proof fn lemma_prepend_prepend<V>(a: Seq<V>, b: Seq<V>, r: Parsed<Seq<V>>)
    ensures
        spec_prepend(a, spec_prepend(b, r)) == spec_prepend(a + b, r),
{
    if let Ok((rest, items)) = r {
        assert(a + (b + items) =~= (a + b) + items);
    }
}

/// Parsing `n` items after `front` is parsing one item, putting it at the end
/// of `front`, and parsing the other `n - 1`.
pub proof fn lemma_repeat_step<V>(
    item: spec_fn(Seq<u8>) -> Parsed<V>,
    front: Seq<V>,
    n: nat,
    bytes: Seq<u8>,
)
    requires
        n > 0,
        item(bytes) is Ok,
    ensures
        spec_prepend(front, spec_repeat(item, n, bytes)) == spec_prepend(
            front.push(item(bytes).unwrap().1),
            spec_repeat(item, (n - 1) as nat, item(bytes).unwrap().0),
        ),
{
    let (rest, v) = item(bytes).unwrap();
    lemma_prepend_prepend(front, seq![v], spec_repeat(item, (n - 1) as nat, rest));
    assert(front + seq![v] =~= front.push(v));
}

/// Parsing `n` items gives `n` items.
pub proof fn lemma_repeat_len<V>(item: spec_fn(Seq<u8>) -> Parsed<V>, n: nat, bytes: Seq<u8>)
    ensures
        spec_repeat(item, n, bytes) matches Ok((_, items)) ==> items.len() == n,
    decreases n,
{
    if n > 0 {
        if let Ok((rest, v)) = item(bytes) {
            lemma_repeat_len(item, (n - 1) as nat, rest);
        }
    }
}

/// The encoding of items distributes over concatenation.
pub proof fn lemma_concat_add<V>(encode: spec_fn(V) -> Seq<u8>, a: Seq<V>, b: Seq<V>)
    ensures
        spec_concat(encode, a + b) == spec_concat(encode, a) + spec_concat(encode, b),
    decreases a.len(),
{
    if a.len() == 0 {
        assert(a + b =~= b);
        assert(spec_concat(encode, a) + spec_concat(encode, b) =~= spec_concat(encode, b));
    } else {
        assert((a + b).skip(1) =~= a.skip(1) + b);
        lemma_concat_add(encode, a.skip(1), b);
        assert(encode(a[0]) + (spec_concat(encode, a.skip(1)) + spec_concat(encode, b)) =~= (encode(
            a[0],
        ) + spec_concat(encode, a.skip(1))) + spec_concat(encode, b));
    }
}

/// The encoding of items with one more at the end.
pub proof fn lemma_concat_push<V>(encode: spec_fn(V) -> Seq<u8>, items: Seq<V>, v: V)
    ensures
        spec_concat(encode, items.push(v)) == spec_concat(encode, items) + encode(v),
{
    assert(items.push(v) =~= items + seq![v]);
    lemma_concat_add(encode, items, seq![v]);
    assert(seq![v].skip(1) =~= Seq::<V>::empty());
    reveal_with_fuel(spec_concat, 2);
    assert(spec_concat(encode, seq![v]) =~= encode(v));
}

/// Where parsing inverts encoding for each item, it does so for the items
/// one after the other.
pub proof fn lemma_repeat_concat<V>(
    item: spec_fn(Seq<u8>) -> Parsed<V>,
    encode: spec_fn(V) -> Seq<u8>,
    items: Seq<V>,
    rest: Seq<u8>,
)
    requires
        forall|i: int, tail: Seq<u8>|
            0 <= i < items.len() ==> #[trigger] item(encode(items[i]) + tail) == Ok::<
                _,
                ParseError,
            >((tail, items[i])),
    ensures
        spec_repeat(item, items.len(), spec_concat(encode, items) + rest) == Ok::<_, ParseError>(
            (rest, items),
        ),
    decreases items.len(),
{
    let bytes = spec_concat(encode, items) + rest;
    if items.len() == 0 {
        assert(bytes =~= rest);
        assert(items =~= Seq::empty());
    } else {
        let tail = spec_concat(encode, items.skip(1)) + rest;
        assert(bytes =~= encode(items[0]) + tail);
        assert(item(encode(items[0]) + tail) == Ok::<_, ParseError>((tail, items[0])));
        assert forall|i: int, t: Seq<u8>| 0 <= i < items.skip(1).len() implies #[trigger] item(
            encode(items.skip(1)[i]) + t,
        ) == Ok::<_, ParseError>((t, items.skip(1)[i])) by {
            assert(items.skip(1)[i] == items[i + 1]);
            assert(item(encode(items[i + 1]) + t) == Ok::<_, ParseError>((t, items[i + 1])));
        }
        lemma_repeat_concat(item, encode, items.skip(1), rest);
        assert(seq![items[0]] + items.skip(1) =~= items);
    }
}

/// Where encoding inverts parsing for each item, it does so for the items
/// one after the other; and what holds of every parsed item holds of each of them.
pub proof fn lemma_concat_repeat<V>(
    item: spec_fn(Seq<u8>) -> Parsed<V>,
    encode: spec_fn(V) -> Seq<u8>,
    good: spec_fn(V) -> bool,
    n: nat,
    bytes: Seq<u8>,
)
    requires
        forall|b: Seq<u8>| #[trigger]
            item(b) matches Ok((tail, v)) ==> good(v) && encode(v) + tail == b,
    ensures
        spec_repeat(item, n, bytes) matches Ok((rest, items)) ==> {
            &&& items.len() == n
            &&& forall|i: int| 0 <= i < items.len() ==> good(#[trigger] items[i])
            &&& spec_concat(encode, items) + rest == bytes
        },
    decreases n,
{
    if let Ok((rest, items)) = spec_repeat(item, n, bytes) {
        if n == 0 {
            assert(spec_concat(encode, items) + rest =~= bytes);
        } else {
            let (mid, v) = item(bytes).unwrap();
            lemma_concat_repeat(item, encode, good, (n - 1) as nat, mid);
            let (_, others) = spec_repeat(item, (n - 1) as nat, mid).unwrap();
            assert(items =~= seq![v] + others);
            assert(items.skip(1) =~= others);
            assert(spec_concat(encode, items) + rest =~= encode(v) + (spec_concat(encode, others)
                + rest));
        }
    }
}

} // verus!
