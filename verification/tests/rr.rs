use dns_codec::types::domain::{Domain, Subdomain};
use dns_codec::types::rr::cname;
use dns_codec::types::rr::{Class, Codec, Payload, RData, Registry, Type, RR};
use dns_codec::types::{parse_many, DNSItem};
use dns_codec::util::{
    be_i32, be_u16, complete, fail, push_i32, push_u16, ErrorKind, ParseError,
};

fn name(labels: &[&[u8]]) -> Domain {
    Domain::new(labels.iter().map(|l| Subdomain::new(l).unwrap()).collect()).unwrap()
}

fn payload(target: &[&[u8]]) -> RData {
    RData::new(Payload::CNAME(cname::RData { cname: name(target) }))
}

const RECORD: [u8; 17] = [1, b'a', 0, 0, 4, 0, 1, 0, 0, 0x0e, 0x10, 2, b'b', b'c', 1, b'd', 0];

#[test]
fn type_codes() {
    assert_eq!(Type::from_u16(4), Some(Type::CNAME));
    assert_eq!(Type::from_u64(4), Some(Type::CNAME));
    assert_eq!(Type::CNAME.code(), 4);
    assert_eq!(Type::CNAME.to_i64(), Some(4));
    for n in [0u16, 1, 3, 5, 252, 255, 260, 65535] {
        assert_eq!(Type::from_u16(n), None);
    }
    assert_eq!(Type::from_u64(65536 + 4), None);
}

#[test]
fn type_parses_and_encodes() {
    assert_eq!(Type::parse(&[0, 4, 9]), Ok((&[9u8][..], Type::CNAME)));
    assert_eq!(Type::CNAME.as_bytes(), vec![0, 4]);
    assert_eq!(Type::CNAME.len_bytes(), 2);
    assert_eq!(Type::from_bytes(&[0, 4]), Ok(Type::CNAME));
    assert_eq!(
        Type::parse(&[4, 0]),
        Err(ParseError { kind: ErrorKind::UndefinedType, remaining: 2 })
    );
    assert_eq!(Type::parse(&[0]), Err(ParseError { kind: ErrorKind::Eof, remaining: 1 }));
}

#[test]
fn class_codes() {
    assert_eq!(Class::from_u16(1), Some(Class::IN));
    assert_eq!(Class::from_u16(3), Some(Class::CH));
    assert_eq!(Class::from_u16(4), Some(Class::HS));
    assert_eq!(Class::from_u64(3), Some(Class::CH));
    assert_eq!(Class::IN.code(), 1);
    assert_eq!(Class::CH.code(), 3);
    assert_eq!(Class::HS.code(), 4);
    assert_eq!(Class::HS.to_i64(), Some(4));
    for n in [0u16, 2, 5, 255, 257] {
        assert_eq!(Class::from_u16(n), None);
    }
}

#[test]
fn class_parses_and_encodes() {
    for class in [Class::IN, Class::CH, Class::HS] {
        let bytes = class.as_bytes();
        assert_eq!(bytes, vec![0, class.code() as u8]);
        assert_eq!(class.len_bytes(), 2);
        assert_eq!(Class::from_bytes(&bytes), Ok(class));
    }
    assert_eq!(
        Class::parse(&[0, 2, 0]),
        Err(ParseError { kind: ErrorKind::UndefinedClass, remaining: 3 })
    );
    assert_eq!(Class::parse(&[]), Err(ParseError { kind: ErrorKind::Eof, remaining: 0 }));
}

#[test]
fn cname_payload_is_a_domain() {
    let bytes = [2, b'b', b'c', 0, 5];
    let (rest, parsed) = cname::RData::parse(&bytes).unwrap();
    assert_eq!(rest, &[5]);
    assert_eq!(parsed, cname::RData { cname: name(&[b"bc"]) });
    assert_eq!(parsed.as_bytes(), vec![2, b'b', b'c', 0]);
    assert_eq!(parsed.len_bytes(), 4);
    assert_eq!(
        cname::RData::parse(&[2, b'b', b'3', 0]),
        Err(ParseError { kind: ErrorKind::LabelNotAlphabetic, remaining: 4 })
    );
}

#[test]
fn registry_starts_empty() {
    let registry = Registry::new();
    assert_eq!(registry.lookup(Type::CNAME), None);
}

#[test]
fn registry_holds_what_was_registered() {
    let mut registry = Registry::new();
    registry.register(Type::CNAME, Codec::CNAME);
    assert_eq!(registry.lookup(Type::CNAME), Some(Codec::CNAME));
    registry.register(Type::CNAME, Codec::CNAME);
    assert_eq!(registry.lookup(Type::CNAME), Some(Codec::CNAME));
}

#[test]
fn standard_registry_decodes_cname() {
    assert_eq!(Registry::standard().lookup(Type::CNAME), Some(Codec::CNAME));
}

#[test]
fn codec_parses_its_payload() {
    let (rest, parsed) = Codec::CNAME.parse(&[1, b'x', 0, 7]).unwrap();
    assert_eq!(rest, &[7]);
    assert_eq!(parsed, Payload::CNAME(cname::RData { cname: name(&[b"x"]) }));
}

#[test]
fn rdata_is_parsed_by_the_codec_of_the_type() {
    let (rest, parsed) = RData::parse(&Type::CNAME, &[1, b'x', 0, 7]).unwrap();
    assert_eq!(rest, &[7]);
    assert_eq!(parsed, payload(&[b"x"]));
    assert_eq!(parsed.as_bytes(), vec![1, b'x', 0]);
    assert_eq!(parsed.len_bytes(), 3);
    assert_eq!(
        RData::parse_with(&Registry::standard(), &Type::CNAME, &[1, b'x', 0, 7]),
        Ok((&[7u8][..], payload(&[b"x"])))
    );
}

#[test]
fn rdata_without_a_codec_is_unsupported() {
    assert_eq!(
        RData::parse_with(&Registry::new(), &Type::CNAME, &[1, b'x', 0, 7]),
        Err(ParseError { kind: ErrorKind::UnsupportedRecordType, remaining: 4 })
    );
}

#[test]
fn record_parses() {
    let (rest, record) = RR::parse(&RECORD).unwrap();
    assert!(rest.is_empty());
    assert_eq!(record.name, name(&[b"a"]));
    assert_eq!(record.rrtype, Type::CNAME);
    assert_eq!(record.class, Class::IN);
    assert_eq!(record.ttl, 3600);
    assert_eq!(record.rdata, payload(&[b"bc", b"d"]));
}

#[test]
fn record_encodes() {
    let record = RR {
        name: name(&[b"a"]),
        rrtype: Type::CNAME,
        class: Class::IN,
        ttl: 3600,
        rdata: payload(&[b"bc", b"d"]),
    };
    assert_eq!(record.as_bytes(), RECORD.to_vec());
    assert_eq!(record.len_bytes(), 17);
    assert_eq!(RR::from_bytes(&RECORD), Ok(record));
}

#[test]
fn record_round_trips_for_the_ends_of_the_ttl_range() {
    for (ttl, bytes) in [
        (0, [0u8, 0, 0, 0]),
        (1, [0, 0, 0, 1]),
        (-1, [0xff, 0xff, 0xff, 0xff]),
        (i32::MAX, [0x7f, 0xff, 0xff, 0xff]),
        (i32::MIN, [0x80, 0, 0, 0]),
        (0x0102_0304, [1, 2, 3, 4]),
        (-0x0102_0304, [0xfe, 0xfd, 0xfc, 0xfc]),
    ] {
        let record = RR {
            name: name(&[]),
            rrtype: Type::CNAME,
            class: Class::HS,
            ttl,
            rdata: payload(&[]),
        };
        let encoded = record.as_bytes();
        assert_eq!(&encoded[5..9], &bytes);
        assert_eq!(encoded.len(), 10);
        assert_eq!(record.len_bytes(), 10);
        assert_eq!(RR::from_bytes(&encoded), Ok(record));
    }
}

#[test]
fn record_without_a_codec_for_its_type_is_unsupported() {
    assert_eq!(
        RR::parse_with(&Registry::new(), &RECORD),
        Err(ParseError { kind: ErrorKind::UnsupportedRecordType, remaining: 6 })
    );
    assert_eq!(
        RR::from_bytes_with(&Registry::new(), &RECORD),
        Err(ParseError { kind: ErrorKind::UnsupportedRecordType, remaining: 6 })
    );
    assert!(RR::from_bytes_with(&Registry::standard(), &RECORD).is_ok());
}

#[test]
fn record_with_a_type_code_that_has_no_codec_is_unsupported() {
    let bytes = [1, b'a', 0, 0x00, 0x01, 0x00, 0x01, 0, 0, 0, 0, 1, b'b', 0];
    assert_eq!(
        RR::parse(&bytes),
        Err(ParseError { kind: ErrorKind::UnsupportedRecordType, remaining: 3 })
    );
    assert_eq!(
        RR::from_bytes(&bytes),
        Err(ParseError { kind: ErrorKind::UnsupportedRecordType, remaining: 3 })
    );
    assert_eq!(
        RR::parse_with(&Registry::new(), &bytes),
        Err(ParseError { kind: ErrorKind::UnsupportedRecordType, remaining: 3 })
    );
}

#[test]
fn record_with_any_type_code_but_that_of_cname_is_unsupported() {
    for code in [0u16, 1, 2, 3, 5, 15, 28, 252, 255, 256, 0x0400, 65535] {
        let mut bytes = RECORD.to_vec();
        bytes[3] = (code >> 8) as u8;
        bytes[4] = code as u8;
        assert_eq!(
            RR::parse(&bytes),
            Err(ParseError { kind: ErrorKind::UnsupportedRecordType, remaining: 6 })
        );
    }
    assert!(RR::parse(&RECORD).is_ok());
}

#[test]
fn record_is_judged_field_by_field_before_its_type_is_looked_up() {
    let mut bytes = RECORD.to_vec();
    bytes[4] = 1;
    bytes[6] = 2;
    assert_eq!(
        RR::parse(&bytes),
        Err(ParseError { kind: ErrorKind::UndefinedClass, remaining: 12 })
    );
    bytes[6] = 1;
    assert_eq!(RR::parse(&bytes[..9]), Err(ParseError { kind: ErrorKind::Eof, remaining: 2 }));
    assert_eq!(
        RR::parse(&bytes[..11]),
        Err(ParseError { kind: ErrorKind::UnsupportedRecordType, remaining: 0 })
    );
}

#[test]
fn record_with_an_undefined_class_is_rejected() {
    let mut bytes = RECORD.to_vec();
    bytes[6] = 255;
    assert_eq!(
        RR::parse(&bytes),
        Err(ParseError { kind: ErrorKind::UndefinedClass, remaining: 12 })
    );
}

#[test]
fn record_cut_short_is_eof() {
    assert_eq!(RR::parse(&RECORD[..9]), Err(ParseError { kind: ErrorKind::Eof, remaining: 2 }));
    assert_eq!(RR::parse(&RECORD[..11]), Err(ParseError { kind: ErrorKind::Eof, remaining: 0 }));
    assert_eq!(RR::parse(&RECORD[..13]), Err(ParseError { kind: ErrorKind::Eof, remaining: 2 }));
    assert_eq!(RR::parse(&RECORD[..16]), Err(ParseError { kind: ErrorKind::Eof, remaining: 0 }));
}

#[test]
fn record_with_trailing_data_is_rejected_as_a_whole_buffer() {
    let mut bytes = RECORD.to_vec();
    bytes.push(0);
    assert_eq!(
        RR::from_bytes(&bytes),
        Err(ParseError { kind: ErrorKind::TrailingData, remaining: 1 })
    );
}

#[test]
fn records_are_parsed_one_after_the_other() {
    let bytes = [RECORD.to_vec(), RECORD.to_vec(), vec![1]].concat();
    let (rest, two) = parse_many(&Registry::standard(), 2, &bytes).unwrap();
    assert_eq!(rest, &[1]);
    assert_eq!(two.len(), 2);
    assert_eq!(two[0], two[1]);
    assert_eq!(
        parse_many(&Registry::standard(), 3, &bytes),
        Err(ParseError { kind: ErrorKind::Eof, remaining: 1 })
    );
    assert_eq!(
        parse_many(&Registry::new(), 2, &bytes),
        Err(ParseError { kind: ErrorKind::UnsupportedRecordType, remaining: 24 })
    );
    assert_eq!(parse_many(&Registry::new(), 0, &bytes).unwrap().1.len(), 0);
}

#[test]
fn integers_are_read_big_endian() {
    assert_eq!(be_u16(&[0x12, 0x34, 5]), Ok((&[5u8][..], 0x1234)));
    assert_eq!(be_u16(&[0xff, 0xff]), Ok((&[][..], 0xffff)));
    assert_eq!(be_i32(&[0, 0, 1, 0, 9]), Ok((&[9u8][..], 256)));
    assert_eq!(be_i32(&[0xff, 0xff, 0xff, 0xfe]), Ok((&[][..], -2)));
    assert_eq!(be_i32(&[0x80, 0, 0, 0]), Ok((&[][..], i32::MIN)));
    assert_eq!(be_i32(&[0x7f, 0xff, 0xff, 0xff]), Ok((&[][..], i32::MAX)));
    assert_eq!(be_u16(&[]), Err(ParseError { kind: ErrorKind::Eof, remaining: 0 }));
    assert_eq!(be_u16(&[1]), Err(ParseError { kind: ErrorKind::Eof, remaining: 1 }));
    assert_eq!(be_i32(&[1, 2, 3]), Err(ParseError { kind: ErrorKind::Eof, remaining: 3 }));
}

#[test]
fn integers_are_written_big_endian() {
    let mut out = vec![1];
    push_u16(&mut out, 0xabcd);
    push_u16(&mut out, 7);
    push_i32(&mut out, -2);
    push_i32(&mut out, 0x0a0b_0c0d);
    assert_eq!(out, vec![1, 0xab, 0xcd, 0, 7, 0xff, 0xff, 0xff, 0xfe, 0x0a, 0x0b, 0x0c, 0x0d]);
}

#[test]
fn integers_round_trip() {
    for x in [0u16, 1, 255, 256, 0x8000, 0xffff] {
        let mut out = Vec::new();
        push_u16(&mut out, x);
        assert_eq!(out, x.to_be_bytes().to_vec());
        assert_eq!(be_u16(&out), Ok((&[][..], x)));
    }
    for x in [0i32, 1, -1, 255, -256, 65536, i32::MAX, i32::MIN, -123_456_789] {
        let mut out = Vec::new();
        push_i32(&mut out, x);
        assert_eq!(out, x.to_be_bytes().to_vec());
        assert_eq!(be_i32(&out), Ok((&[][..], x)));
    }
}

#[test]
fn fail_counts_the_input_it_is_given() {
    assert_eq!(
        fail(ErrorKind::TrailingData, &[1, 2, 3]),
        ParseError { kind: ErrorKind::TrailingData, remaining: 3 }
    );
    assert_eq!(fail(ErrorKind::Eof, &[]), ParseError { kind: ErrorKind::Eof, remaining: 0 });
}

#[test]
fn complete_accepts_only_a_parse_that_left_nothing() {
    assert_eq!(complete(be_u16(&[0, 7])), Ok(7));
    assert_eq!(
        complete(be_u16(&[0, 7, 1, 2])),
        Err(ParseError { kind: ErrorKind::TrailingData, remaining: 2 })
    );
    assert_eq!(complete(be_u16(&[0])), Err(ParseError { kind: ErrorKind::Eof, remaining: 1 }));
}
