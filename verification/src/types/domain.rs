//! Labels and domain names.
use super::DNSItem;
use crate::util::{
    fail, skip, spec_fail, spec_prepend, spec_views, ErrorKind, ParseError, Parsed,
};
use crate::util::{lemma_prepend_empty, lemma_prepend_prepend};
use vstd::prelude::*;
use vstd::slice::slice_subrange;

verus! {

/// Whether `b` is an ASCII letter.
pub open spec fn spec_is_alphabetic(b: u8) -> bool {
    (0x41 <= b <= 0x5a) || (0x61 <= b <= 0x7a)
}

/// Whether every byte of `s` is an ASCII letter.
pub open spec fn spec_all_alphabetic(s: Seq<u8>) -> bool {
    forall|i: int| 0 <= i < s.len() ==> spec_is_alphabetic(#[trigger] s[i])
}

/// Whether `b` is an ASCII letter.
pub fn is_alphabetic(b: u8) -> (r: bool)
    ensures
        r == spec_is_alphabetic(b),
{
    (0x41 <= b && b <= 0x5a) || (0x61 <= b && b <= 0x7a)
}

/// One label of a domain name: fewer than 63 ASCII letters.
#[derive(Debug, PartialEq, Eq)]
pub struct Subdomain(Vec<u8>);

impl View for Subdomain {
    type V = Seq<u8>;

    closed spec fn view(&self) -> Seq<u8> {
        self.0@
    }
}

impl Subdomain {
    #[verifier::type_invariant]
    spec fn inv(self) -> bool {
        Self::spec_wf(self@)
    }

    /// The label with the given content, if that is fewer than 63 ASCII letters.
    pub fn new(content: &[u8]) -> (r: Option<Subdomain>)
        ensures
            match r {
                Some(label) => label@ == content@ && Self::spec_wf(content@),
                None => !Self::spec_wf(content@),
            },
    {
        let n = content.len();
        if n >= 63 {
            return None;
        }
        let mut label: Vec<u8> = Vec::with_capacity(n);
        let mut i: usize = 0;
        while i < n
            invariant
                i <= n < 63,
                n == content@.len(),
                label@ == content@.take(i as int),
                spec_all_alphabetic(label@),
            decreases n - i,
        {
            let b: u8 = content[i];
            if !is_alphabetic(b) {
                return None;
            }
            label.push(b);
            assert(label@ =~= content@.take(i + 1));
            i = i + 1;
        }
        assert(label@ =~= content@);
        Some(Subdomain(label))
    }

    /// The content of the label, which is fewer than 63 ASCII letters.
    pub fn as_slice(&self) -> (r: &[u8])
        ensures
            r@ == self@,
            Self::spec_wf(self@),
    {
        proof {
            use_type_invariant(self);
        }
        self.0.as_slice()
    }

    /// Whether the label has no content.
    pub fn is_empty(&self) -> (b: bool)
        ensures
            b == (self@.len() == 0),
    {
        self.0.is_empty()
    }

    /// The number of content bytes.
    pub fn len(&self) -> (n: usize)
        ensures
            n == self@.len(),
            n < 63,
    {
        proof {
            use_type_invariant(self);
        }
        self.0.len()
    }
}

impl DNSItem for Subdomain {
    /// A label is fewer than 63 bytes, each an ASCII letter.
    open spec fn spec_wf(v: Seq<u8>) -> bool {
        v.len() < 63 && spec_all_alphabetic(v)
    }

    /// The length of the content in one byte, then the content.
    open spec fn spec_as_bytes(v: Seq<u8>) -> Seq<u8> {
        seq![v.len() as u8] + v
    }

    /// One length byte, then as many content bytes. The length is judged
    /// first, then whether the input holds the content, then the content.
    /// Every error is raised at the length byte.
    open spec fn spec_parse(bytes: Seq<u8>) -> Parsed<Seq<u8>> {
        if bytes.len() < 1 {
            Err(spec_fail(ErrorKind::Eof, bytes))
        } else if bytes[0] >= 63 {
            Err(spec_fail(ErrorKind::LabelTooLong, bytes))
        } else if bytes.len() < 1 + bytes[0] {
            Err(spec_fail(ErrorKind::Eof, bytes))
        } else if !spec_all_alphabetic(bytes.subrange(1, 1 + bytes[0])) {
            Err(spec_fail(ErrorKind::LabelNotAlphabetic, bytes))
        } else {
            Ok((bytes.skip(1 + bytes[0]), bytes.subrange(1, 1 + bytes[0])))
        }
    }

    proof fn lemma_parse_as_bytes(v: Seq<u8>, rest: Seq<u8>) {
        let b = Self::spec_as_bytes(v) + rest;
        assert(b.subrange(1, 1 + b[0]) =~= v);
        assert(b.skip(1 + b[0]) =~= rest);
    }

    proof fn lemma_as_bytes_parse(bytes: Seq<u8>) {
        if let Ok((rest, v)) = Self::spec_parse(bytes) {
            assert(Self::spec_as_bytes(v) + rest =~= bytes);
        }
    }

    fn parse<'a>(bytes: &'a [u8]) -> (r: Result<(&'a [u8], Self), ParseError>) {
        if bytes.len() < 1 {
            return Err(fail(ErrorKind::Eof, bytes));
        }
        let n: usize = bytes[0] as usize;
        if n >= 63 {
            return Err(fail(ErrorKind::LabelTooLong, bytes));
        }
        if bytes.len() - 1 < n {
            return Err(fail(ErrorKind::Eof, bytes));
        }
        match Subdomain::new(slice_subrange(bytes, 1, 1 + n)) {
            Some(label) => Ok((skip(bytes, 1 + n), label)),
            None => Err(fail(ErrorKind::LabelNotAlphabetic, bytes)),
        }
    }

    fn as_bytes(&self) -> (out: Vec<u8>) {
        proof {
            use_type_invariant(self);
        }
        let mut out: Vec<u8> = Vec::with_capacity(self.0.len() + 1);
        out.push(self.0.len() as u8);
        let mut i: usize = 0;
        while i < self.0.len()
            invariant
                i <= self.0@.len(),
                out@ == seq![self.0@.len() as u8] + self.0@.take(i as int),
            decreases self.0@.len() - i,
        {
            out.push(self.0[i]);
            assert(out@ =~= seq![self.0@.len() as u8] + self.0@.take(i + 1));
            i = i + 1;
        }
        assert(self.0@.take(i as int) =~= self.0@);
        out
    }

    fn len_bytes(&self) -> (n: usize) {
        proof {
            use_type_invariant(self);
        }
        self.0.len() + 1
    }
}

/// The bytes that a sequence of labels takes on the wire, without the terminator.
pub open spec fn spec_labels_size(v: Seq<Seq<u8>>) -> nat
    decreases v.len(),
{
    if v.len() == 0 {
        0
    } else {
        1 + v[0].len() + spec_labels_size(v.skip(1))
    }
}

/// The encodings of the labels, one after the other, without the terminator.
pub open spec fn spec_labels_bytes(v: Seq<Seq<u8>>) -> Seq<u8>
    decreases v.len(),
{
    if v.len() == 0 {
        Seq::empty()
    } else {
        Subdomain::spec_as_bytes(v[0]) + spec_labels_bytes(v.skip(1))
    }
}

/// Labels up to and including the zero byte that terminates a name.
///
/// A zero byte is always the terminator, never an empty label.
pub open spec fn spec_parse_labels(bytes: Seq<u8>) -> Parsed<Seq<Seq<u8>>>
    decreases bytes.len(),
{
    if bytes.len() == 0 {
        Err(spec_fail(ErrorKind::Eof, bytes))
    } else if bytes[0] == 0 {
        Ok((bytes.skip(1), Seq::empty()))
    } else {
        match Subdomain::spec_parse(bytes) {
            Ok((rest, label)) => spec_prepend(seq![label], spec_parse_labels(rest)),
            Err(e) => Err(e),
        }
    }
}

/// The size of labels is additive over concatenation.
pub proof fn lemma_labels_size_add(a: Seq<Seq<u8>>, b: Seq<Seq<u8>>)
    ensures
        spec_labels_size(a + b) == spec_labels_size(a) + spec_labels_size(b),
    decreases a.len(),
{
    if a.len() == 0 {
        assert(a + b =~= b);
    } else {
        assert((a + b).skip(1) =~= a.skip(1) + b);
        lemma_labels_size_add(a.skip(1), b);
    }
}

/// The encoding of labels distributes over concatenation.
pub proof fn lemma_labels_bytes_add(a: Seq<Seq<u8>>, b: Seq<Seq<u8>>)
    ensures
        spec_labels_bytes(a + b) == spec_labels_bytes(a) + spec_labels_bytes(b),
    decreases a.len(),
{
    if a.len() == 0 {
        assert(a + b =~= b);
        assert(spec_labels_bytes(a) + spec_labels_bytes(b) =~= spec_labels_bytes(b));
    } else {
        assert((a + b).skip(1) =~= a.skip(1) + b);
        lemma_labels_bytes_add(a.skip(1), b);
        assert(Subdomain::spec_as_bytes(a[0]) + (spec_labels_bytes(a.skip(1)) + spec_labels_bytes(
            b,
        )) =~= (Subdomain::spec_as_bytes(a[0]) + spec_labels_bytes(a.skip(1))) + spec_labels_bytes(
            b,
        ));
    }
}

/// The encoding of labels is as long as their size.
pub proof fn lemma_labels_bytes_len(v: Seq<Seq<u8>>)
    ensures
        spec_labels_bytes(v).len() == spec_labels_size(v),
    decreases v.len(),
{
    if v.len() > 0 {
        lemma_labels_bytes_len(v.skip(1));
    }
}

/// The size of labels with one more at the end.
pub proof fn lemma_labels_size_push(v: Seq<Seq<u8>>, label: Seq<u8>)
    ensures
        spec_labels_size(v.push(label)) == spec_labels_size(v) + 1 + label.len(),
{
    let one = seq![label];
    assert(v.push(label) =~= v + one);
    lemma_labels_size_add(v, one);
    assert(one.skip(1) =~= Seq::<Seq<u8>>::empty());
    reveal_with_fuel(spec_labels_size, 2);
}

/// The encoding of labels with one more at the end.
pub proof fn lemma_labels_bytes_push(v: Seq<Seq<u8>>, label: Seq<u8>)
    ensures
        spec_labels_bytes(v.push(label)) == spec_labels_bytes(v) + Subdomain::spec_as_bytes(label),
{
    let one = seq![label];
    assert(v.push(label) =~= v + one);
    lemma_labels_bytes_add(v, one);
    assert(one.skip(1) =~= Seq::<Seq<u8>>::empty());
    reveal_with_fuel(spec_labels_bytes, 2);
    assert(spec_labels_bytes(one) =~= Subdomain::spec_as_bytes(label));
}

/// The first `i + 1` labels take what the first `i` take and the label
/// after them, and no more than all the labels.
pub proof fn lemma_labels_size_take(v: Seq<Seq<u8>>, i: int)
    requires
        0 <= i < v.len(),
    ensures
        spec_labels_size(v.take(i + 1)) == spec_labels_size(v.take(i)) + 1 + v[i].len(),
        spec_labels_size(v.take(i + 1)) <= spec_labels_size(v),
{
    assert(v.take(i + 1) =~= v.take(i).push(v[i]));
    lemma_labels_size_push(v.take(i), v[i]);
    assert(v =~= v.take(i + 1) + v.skip(i + 1));
    lemma_labels_size_add(v.take(i + 1), v.skip(i + 1));
}

/// A domain name: a sequence of non-empty labels that takes at most 255
/// bytes on the wire, the terminating zero byte included.
#[derive(Debug, PartialEq, Eq)]
pub struct Domain(Vec<Subdomain>);

impl View for Domain {
    type V = Seq<Seq<u8>>;

    closed spec fn view(&self) -> Seq<Seq<u8>> {
        spec_views(self.0@)
    }
}

impl Domain {
    #[verifier::type_invariant]
    spec fn inv(self) -> bool {
        Self::spec_wf(self@)
    }

    /// The name made of the given labels, if none of them is empty and the
    /// name takes at most 255 bytes on the wire.
    pub fn new(labels: Vec<Subdomain>) -> (r: Option<Domain>)
        ensures
            match r {
                Some(name) => name@ == spec_views(labels@) && Self::spec_wf(name@),
                None => !Self::spec_wf(spec_views(labels@)),
            },
    {
        let ghost v = spec_views(labels@);
        let mut size: usize = 0;
        let mut i: usize = 0;
        proof {
            assert(v.take(0) =~= Seq::empty());
        }
        while i < labels.len()
            invariant
                i <= labels@.len(),
                v == spec_views(labels@),
                size == spec_labels_size(v.take(i as int)),
                size <= 254,
                forall|j: int| 0 <= j < i ==> Subdomain::spec_wf(#[trigger] v[j]) && v[j].len() > 0,
            decreases labels@.len() - i,
        {
            let label = &labels[i];
            let n = label.len();
            proof {
                use_type_invariant(label);
                lemma_labels_size_take(v, i as int);
            }
            if n == 0 || size + 1 + n > 254 {
                return None;
            }
            size = size + 1 + n;
            i = i + 1;
        }
        proof {
            assert(v.take(i as int) =~= v);
        }
        Some(Domain(labels))
    }

    /// The labels, first to last: none is empty, and together with the
    /// terminator they take at most 255 bytes on the wire.
    pub fn labels(&self) -> (r: &Vec<Subdomain>)
        ensures
            spec_views(r@) == self@,
            Self::spec_wf(self@),
    {
        proof {
            use_type_invariant(self);
        }
        &self.0
    }

    /// The number of labels.
    pub fn len(&self) -> (n: usize)
        ensures
            n == self@.len(),
    {
        self.0.len()
    }
}

impl DNSItem for Domain {
    /// Every label is well-formed and not empty (an empty label would read
    /// as the terminator), and labels and terminator take at most 255 bytes.
    open spec fn spec_wf(v: Seq<Seq<u8>>) -> bool {
        &&& forall|i: int| 0 <= i < v.len() ==> Subdomain::spec_wf(#[trigger] v[i]) && v[i].len() > 0
        &&& spec_labels_size(v) + 1 <= 255
    }

    /// The encodings of the labels in order, then a zero byte.
    open spec fn spec_as_bytes(v: Seq<Seq<u8>>) -> Seq<u8> {
        spec_labels_bytes(v) + seq![0u8]
    }

    /// Labels up to the terminator. The size is judged on the complete name,
    /// after its last label was parsed: a name that is too long is
    /// rejected where it begins, but an error in one of its labels comes first.
    open spec fn spec_parse(bytes: Seq<u8>) -> Parsed<Seq<Seq<u8>>> {
        match spec_parse_labels(bytes) {
            Ok((rest, labels)) => if spec_labels_size(labels) + 1 <= 255 {
                Ok((rest, labels))
            } else {
                Err(spec_fail(ErrorKind::DomainTooLong, bytes))
            },
            Err(e) => Err(e),
        }
    }

    proof fn lemma_parse_as_bytes(v: Seq<Seq<u8>>, rest: Seq<u8>) {
        lemma_parse_labels_bytes(v, rest);
        assert(spec_labels_bytes(v) + (seq![0u8] + rest) =~= Self::spec_as_bytes(v) + rest);
    }

    proof fn lemma_as_bytes_parse(bytes: Seq<u8>) {
        lemma_labels_bytes_parse(bytes);
        if let Ok((rest, v)) = spec_parse_labels(bytes) {
            assert(spec_labels_bytes(v) + (seq![0u8] + rest) =~= Self::spec_as_bytes(v) + rest);
        }
    }

    fn parse<'a>(bytes: &'a [u8]) -> (r: Result<(&'a [u8], Self), ParseError>) {
        let mut labels: Vec<Subdomain> = Vec::new();
        let mut cur: &'a [u8] = bytes;
        let mut size: usize = 0;
        let total: usize = bytes.len();
        proof {
            assert(spec_views(labels@) =~= Seq::empty());
            lemma_prepend_empty(spec_parse_labels(cur@));
        }
        loop
            invariant
                spec_parse_labels(bytes@) == spec_prepend(
                    spec_views(labels@),
                    spec_parse_labels(cur@),
                ),
                size == spec_labels_size(spec_views(labels@)),
                size + cur@.len() == bytes@.len(),
                bytes@.len() == total,
                forall|i: int|
                    0 <= i < labels@.len() ==> Subdomain::spec_wf(#[trigger] spec_views(labels@)[i])
                        && spec_views(labels@)[i].len() > 0,
            decreases cur@.len(),
        {
            if cur.len() == 0 {
                return Err(fail(ErrorKind::Eof, cur));
            }
            if cur[0] == 0 {
                let rest = skip(cur, 1);
                proof {
                    assert(spec_views(labels@) + Seq::<Seq<u8>>::empty() =~= spec_views(labels@));
                }
                if size + 1 > 255 {
                    return Err(fail(ErrorKind::DomainTooLong, bytes));
                }
                return Ok((rest, Domain(labels)));
            }
            match Subdomain::parse(cur) {
                Ok((rest, label)) => {
                    let n = label.len();
                    proof {
                        assert(rest@.len() + 1 + n == cur@.len());
                        let front = spec_views(labels@);
                        assert(spec_views(labels@.push(label)) =~= front.push(label@));
                        assert(front + seq![label@] =~= front.push(label@));
                        lemma_labels_size_push(front, label@);
                        lemma_prepend_prepend(front, seq![label@], spec_parse_labels(rest@));
                    }
                    labels.push(label);
                    size = size + 1 + n;
                    cur = rest;
                },
                Err(e) => {
                    return Err(e);
                },
            }
        }
    }

    fn as_bytes(&self) -> (out: Vec<u8>) {
        proof {
            use_type_invariant(self);
        }
        let mut out: Vec<u8> = Vec::new();
        let mut i: usize = 0;
        proof {
            assert(self@.take(0) =~= Seq::empty());
        }
        while i < self.0.len()
            invariant
                i <= self.0@.len(),
                out@ == spec_labels_bytes(self@.take(i as int)),
            decreases self.0@.len() - i,
        {
            let mut label = self.0[i].as_bytes();
            proof {
                assert(self@.take(i + 1) =~= self@.take(i as int).push(self@[i as int]));
                lemma_labels_bytes_push(self@.take(i as int), self@[i as int]);
            }
            out.append(&mut label);
            i = i + 1;
        }
        proof {
            assert(self@.take(i as int) =~= self@);
        }
        out.push(0);
        out
    }

    fn len_bytes(&self) -> (n: usize)
        ensures
            1 <= n <= 255,
    {
        proof {
            use_type_invariant(self);
            lemma_labels_bytes_len(self@);
            assert(self@.take(0) =~= Seq::empty());
        }
        let mut size: usize = 0;
        let mut i: usize = 0;
        while i < self.0.len()
            invariant
                i <= self.0@.len(),
                size == spec_labels_size(self@.take(i as int)),
                spec_labels_size(self@) <= 254,
            decreases self.0@.len() - i,
        {
            let n = self.0[i].len();
            proof {
                lemma_labels_size_take(self@, i as int);
            }
            size = size + 1 + n;
            i = i + 1;
        }
        proof {
            assert(self@.take(i as int) =~= self@);
        }
        size + 1
    }
}

impl Domain {
    /// A well-formed name takes at most 255 bytes on the wire.
    pub proof fn lemma_wf_len(v: Seq<Seq<u8>>)
        requires
            Self::spec_wf(v),
        ensures
            1 <= Self::spec_as_bytes(v).len() <= 255,
    {
        lemma_labels_bytes_len(v);
    }
}

/// The encodings of non-empty well-formed labels, followed by a zero byte and
/// anything else, parse to those labels and leave what followed the zero byte.
pub proof fn lemma_parse_labels_bytes(v: Seq<Seq<u8>>, rest: Seq<u8>)
    requires
        forall|i: int| 0 <= i < v.len() ==> Subdomain::spec_wf(#[trigger] v[i]) && v[i].len() > 0,
    ensures
        spec_parse_labels(spec_labels_bytes(v) + (seq![0u8] + rest)) == Ok::<_, ParseError>(
            (rest, v),
        ),
    decreases v.len(),
{
    let bytes = spec_labels_bytes(v) + (seq![0u8] + rest);
    if v.len() == 0 {
        assert(v =~= Seq::empty());
        assert(bytes[0] == 0);
        assert(bytes.skip(1) =~= rest);
    } else {
        let tail = spec_labels_bytes(v.skip(1)) + (seq![0u8] + rest);
        assert(bytes =~= Subdomain::spec_as_bytes(v[0]) + tail);
        assert(Subdomain::spec_wf(v[0]) && v[0].len() > 0);
        assert(bytes[0] == v[0].len());
        Subdomain::lemma_parse_as_bytes(v[0], tail);
        assert(Subdomain::spec_parse(bytes) == Ok::<_, ParseError>((tail, v[0])));
        assert(tail.len() < bytes.len());
        assert forall|i: int| 0 <= i < v.skip(1).len() implies Subdomain::spec_wf(
            #[trigger] v.skip(1)[i],
        ) && v.skip(1)[i].len() > 0 by {
            assert(v.skip(1)[i] == v[i + 1]);
        }
        lemma_parse_labels_bytes(v.skip(1), rest);
        assert(seq![v[0]] + v.skip(1) =~= v);
    }
}

/// Labels that were parsed are non-empty and well-formed, and their encodings,
/// a zero byte and the unread input make up the input.
pub proof fn lemma_labels_bytes_parse(bytes: Seq<u8>)
    ensures
        spec_parse_labels(bytes) matches Ok((rest, v)) ==> {
            &&& forall|i: int|
                0 <= i < v.len() ==> Subdomain::spec_wf(#[trigger] v[i]) && v[i].len() > 0
            &&& spec_labels_bytes(v) + (seq![0u8] + rest) == bytes
            &&& spec_labels_size(v) + 1 + rest.len() == bytes.len()
        },
    decreases bytes.len(),
{
    if let Ok((rest, v)) = spec_parse_labels(bytes) {
        if bytes[0] == 0 {
            assert(spec_labels_bytes(v) + (seq![0u8] + rest) =~= bytes);
        } else {
            let (mid, label) = Subdomain::spec_parse(bytes).unwrap();
            Subdomain::lemma_as_bytes_parse(bytes);
            lemma_labels_bytes_parse(mid);
            let (_, tail) = spec_parse_labels(mid).unwrap();
            assert(v =~= seq![label] + tail);
            assert(v.skip(1) =~= tail);
            assert(spec_labels_bytes(v) + (seq![0u8] + rest) =~= Subdomain::spec_as_bytes(label)
                + (spec_labels_bytes(tail) + (seq![0u8] + rest)));
        }
    }
}

/// A label that announces 63 or more content bytes is rejected as too long.
pub proof fn lemma_label_too_long(bytes: Seq<u8>)
    requires
        bytes.len() >= 1,
        bytes[0] >= 63,
    ensures
        Subdomain::spec_parse(bytes) == Err::<(Seq<u8>, Seq<u8>), _>(
            spec_fail(ErrorKind::LabelTooLong, bytes),
        ),
{
}

/// A label of fewer than 63 content bytes, all of them in the input, is
/// rejected if one of them is not an ASCII letter.
pub proof fn lemma_label_not_alphabetic(bytes: Seq<u8>, i: int)
    requires
        bytes.len() >= 1,
        bytes[0] < 63,
        bytes.len() >= 1 + bytes[0],
        1 <= i <= bytes[0],
        !spec_is_alphabetic(bytes[i]),
    ensures
        Subdomain::spec_parse(bytes) == Err::<(Seq<u8>, Seq<u8>), _>(
            spec_fail(ErrorKind::LabelNotAlphabetic, bytes),
        ),
{
    let content = bytes.subrange(1, 1 + bytes[0]);
    assert(content[i - 1] == bytes[i]);
}

/// A name of more than 255 bytes is rejected as too long, though each of its
/// labels is well-formed.
pub proof fn lemma_domain_too_long(v: Seq<Seq<u8>>, rest: Seq<u8>)
    requires
        forall|i: int| 0 <= i < v.len() ==> Subdomain::spec_wf(#[trigger] v[i]) && v[i].len() > 0,
        spec_labels_size(v) + 1 > 255,
    ensures
        Domain::spec_parse(Domain::spec_as_bytes(v) + rest) == Err::<(Seq<u8>, Seq<Seq<u8>>), _>(
            spec_fail(ErrorKind::DomainTooLong, Domain::spec_as_bytes(v) + rest),
        ),
{
    lemma_parse_labels_bytes(v, rest);
    assert(spec_labels_bytes(v) + (seq![0u8] + rest) =~= Domain::spec_as_bytes(v) + rest);
}

} // verus!
