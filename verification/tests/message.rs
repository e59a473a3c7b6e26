use dns_codec::types::domain::{Domain, Subdomain};
use dns_codec::types::message::{
    Header, Message, Opcode, QClass, QClassVal, QType, QTypeVal, Question, RCode,
};
use dns_codec::types::rr::cname;
use dns_codec::types::rr::{Class, Payload, RData, Registry, Type, RR};
use dns_codec::types::{append_items, parse_many, DNSItem, Plain};
use dns_codec::util::{ErrorKind, ParseError};

fn name(labels: &[&[u8]]) -> Domain {
    Domain::new(labels.iter().map(|l| Subdomain::new(l).unwrap()).collect()).unwrap()
}

fn query_header() -> Header {
    Header {
        id: 0x1234,
        qr: false,
        opcode: Opcode::QUERY,
        aa: false,
        tc: false,
        rd: false,
        ra: false,
        rcode: RCode::NoError,
        qdcount: 1,
        ancount: 0,
        nscount: 0,
        arcount: 0,
    }
}

fn cname_record(owner: &[&[u8]], target: &[&[u8]], ttl: i32) -> RR {
    RR {
        name: name(owner),
        rrtype: Type::CNAME,
        class: Class::IN,
        ttl,
        rdata: RData::new(Payload::CNAME(cname::RData { cname: name(target) })),
    }
}

const QUERY: [u8; 25] = [
    0x12, 0x34, 0x00, 0x00, 0x00, 0x01, 0x00, 0x00, 0x00, 0x00, 0x00, 0x00, 7, b'e', b'x', b'a',
    b'm', b'p', b'l', b'e', 0, 0x00, 0x04, 0x00, 0x01,
];

#[test]
fn opcode_codes() {
    assert_eq!(Opcode::from_u8(0), Some(Opcode::QUERY));
    assert_eq!(Opcode::from_u8(2), Some(Opcode::STATUS));
    assert_eq!(Opcode::from_u8(4), Some(Opcode::NOTIFY));
    assert_eq!(Opcode::from_u8(5), Some(Opcode::UPDATE));
    assert_eq!(Opcode::QUERY.code(), 0);
    assert_eq!(Opcode::STATUS.code(), 2);
    assert_eq!(Opcode::NOTIFY.code(), 4);
    assert_eq!(Opcode::UPDATE.code(), 5);
}

#[test]
fn opcode_1_and_3_are_undefined() {
    assert_eq!(Opcode::from_u8(1), None);
    assert_eq!(Opcode::from_u8(3), None);
    for n in 6..=255u8 {
        assert_eq!(Opcode::from_u8(n), None);
    }
}

#[test]
fn rcode_codes() {
    let all = [
        RCode::NoError,
        RCode::FormatError,
        RCode::ServerFailure,
        RCode::NameError,
        RCode::NotImplemented,
        RCode::Refused,
    ];
    for (n, rcode) in all.iter().enumerate() {
        assert_eq!(RCode::from_u8(n as u8), Some(*rcode));
        assert_eq!(rcode.code(), n as u8);
    }
    for n in 6..=255u8 {
        assert_eq!(RCode::from_u8(n), None);
    }
}

#[test]
fn header_parses_a_query() {
    let (rest, header) = Header::parse(&QUERY).unwrap();
    assert_eq!(rest, &QUERY[12..]);
    assert_eq!(header, query_header());
}

#[test]
fn header_encodes_a_query() {
    assert_eq!(query_header().as_bytes(), QUERY[..12].to_vec());
    assert_eq!(query_header().len_bytes(), 12);
}

#[test]
fn header_with_qr_set_round_trips() {
    let header = Header { qr: true, ..query_header() };
    let bytes = header.as_bytes();
    assert_eq!(bytes[2], 0x80);
    assert_eq!(Header::from_bytes(&bytes), Ok(header));
}

#[test]
fn header_packs_every_field_at_its_place() {
    let header = Header {
        id: 0xbeef,
        qr: true,
        opcode: Opcode::UPDATE,
        aa: true,
        tc: false,
        rd: true,
        ra: true,
        rcode: RCode::Refused,
        qdcount: 0x0102,
        ancount: 0x0304,
        nscount: 0x0506,
        arcount: 0xffff,
    };
    let bytes = header.as_bytes();
    assert_eq!(
        bytes,
        vec![0xbe, 0xef, 0b1010_1101, 0b1000_0101, 0x01, 0x02, 0x03, 0x04, 0x05, 0x06, 0xff, 0xff]
    );
    assert_eq!(Header::from_bytes(&bytes), Ok(header));
}

#[test]
fn header_flags_are_independent() {
    let base = query_header();
    assert_eq!(Header { aa: true, ..base }.as_bytes()[2], 0x04);
    assert_eq!(Header { tc: true, ..base }.as_bytes()[2], 0x02);
    assert_eq!(Header { rd: true, ..base }.as_bytes()[2], 0x01);
    assert_eq!(Header { ra: true, ..base }.as_bytes()[3], 0x80);
    assert_eq!(Header { opcode: Opcode::STATUS, ..base }.as_bytes()[2], 0x10);
    assert_eq!(Header { opcode: Opcode::NOTIFY, ..base }.as_bytes()[2], 0x20);
    assert_eq!(Header { rcode: RCode::NameError, ..base }.as_bytes()[3], 0x03);
}

#[test]
fn header_round_trips_for_every_flag_byte_it_can_write() {
    for opcode in [Opcode::QUERY, Opcode::STATUS, Opcode::NOTIFY, Opcode::UPDATE] {
        for rcode in [RCode::NoError, RCode::ServerFailure, RCode::Refused] {
            for bits in 0..32u8 {
                let header = Header {
                    id: 7,
                    qr: bits & 1 != 0,
                    opcode,
                    aa: bits & 2 != 0,
                    tc: bits & 4 != 0,
                    rd: bits & 8 != 0,
                    ra: bits & 16 != 0,
                    rcode,
                    qdcount: 1,
                    ancount: 2,
                    nscount: 3,
                    arcount: 4,
                };
                let bytes = header.as_bytes();
                assert_eq!(bytes.len(), 12);
                assert_eq!(Header::from_bytes(&bytes), Ok(header));
            }
        }
    }
}

#[test]
fn header_with_a_reserved_bit_set_is_rejected() {
    for bit in [0x10u8, 0x20, 0x40, 0x70] {
        let mut bytes = QUERY[..12].to_vec();
        bytes[3] |= bit;
        assert_eq!(
            Header::parse(&bytes),
            Err(ParseError { kind: ErrorKind::ReservedBits, remaining: 10 })
        );
    }
}

#[test]
fn header_with_reserved_bits_clear_reencodes_to_its_bytes() {
    for hi in [0x00u8, 0x87, 0x95, 0x20, 0x2f] {
        for lo in [0x00u8, 0x80, 0x05, 0x83] {
            let mut bytes = QUERY[..12].to_vec();
            bytes[2] = hi;
            bytes[3] = lo;
            let (rest, header) = Header::parse(&bytes).unwrap();
            assert!(rest.is_empty());
            assert_eq!(header.as_bytes(), bytes);
        }
    }
}

#[test]
fn header_with_an_undefined_opcode_is_rejected() {
    for opcode in [1u8, 3, 6, 15] {
        let mut bytes = QUERY[..12].to_vec();
        bytes[2] = opcode << 3;
        assert_eq!(
            Header::parse(&bytes),
            Err(ParseError { kind: ErrorKind::UndefinedOpcode, remaining: 10 })
        );
    }
}

#[test]
fn header_with_an_undefined_rcode_is_rejected() {
    for rcode in 6..16u8 {
        let mut bytes = QUERY[..12].to_vec();
        bytes[3] = rcode;
        assert_eq!(
            Header::parse(&bytes),
            Err(ParseError { kind: ErrorKind::UndefinedRCode, remaining: 10 })
        );
    }
}

#[test]
fn header_checks_the_opcode_before_the_reserved_bits_and_those_before_the_rcode() {
    let mut bytes = QUERY[..12].to_vec();
    bytes[2] = 0x08;
    bytes[3] = 0x1f;
    assert_eq!(Header::parse(&bytes).unwrap_err().kind, ErrorKind::UndefinedOpcode);
    bytes[2] = 0x00;
    assert_eq!(Header::parse(&bytes).unwrap_err().kind, ErrorKind::ReservedBits);
    bytes[3] = 0x0f;
    assert_eq!(Header::parse(&bytes).unwrap_err().kind, ErrorKind::UndefinedRCode);
}

#[test]
fn header_cut_short_is_eof_where_the_missing_field_begins() {
    let expected = [0usize, 1, 0, 1, 0, 1, 0, 1, 0, 1, 0, 1];
    for (len, remaining) in expected.iter().enumerate() {
        assert_eq!(
            Header::parse(&QUERY[..len]),
            Err(ParseError { kind: ErrorKind::Eof, remaining: *remaining })
        );
    }
}

#[test]
fn qtype_254_is_a_query_only_type() {
    assert_eq!(QType::from_u64(254), Some(QType::QType(QTypeVal::MAILA)));
    assert_eq!(QType::from_u16(254), Some(QType::QType(QTypeVal::MAILA)));
}

#[test]
fn qtype_251_is_looked_up_as_a_record_type() {
    assert_eq!(QType::from_u64(251), None);
    assert_eq!(Type::from_u64(251), None);
}

#[test]
fn qtype_codes() {
    assert_eq!(QType::from_u64(252), Some(QType::QType(QTypeVal::AXFR)));
    assert_eq!(QType::from_u64(253), Some(QType::QType(QTypeVal::MAILB)));
    assert_eq!(QType::from_u64(255), Some(QType::QType(QTypeVal::ALL)));
    assert_eq!(QType::from_u64(4), Some(QType::Type(Type::CNAME)));
    assert_eq!(QType::from_u64(0), None);
    assert_eq!(QType::from_u64(256), None);
    assert_eq!(QType::from_u64(65535), None);
    assert_eq!(QType::from_u64(65536 + 4), None);
    assert_eq!(QType::from_u64(u64::MAX), None);
    assert_eq!(QType::from_i64(4), Some(QType::Type(Type::CNAME)));
    assert_eq!(QType::from_i64(255), Some(QType::QType(QTypeVal::ALL)));
    assert_eq!(QType::from_i64(0), None);
    assert_eq!(QType::from_i64(-4), None);
    assert_eq!(QType::from_i64(i64::MIN), None);
}

#[test]
fn qtype_codes_are_read_back() {
    let all = [
        (QType::Type(Type::CNAME), 4u16),
        (QType::QType(QTypeVal::AXFR), 252),
        (QType::QType(QTypeVal::MAILB), 253),
        (QType::QType(QTypeVal::MAILA), 254),
        (QType::QType(QTypeVal::ALL), 255),
    ];
    for (qtype, code) in all {
        assert_eq!(qtype.code(), code);
        assert_eq!(qtype.to_i64(), Some(code as i64));
        assert_eq!(qtype.to_u64(), Some(code as u64));
        assert_eq!(QType::from_u16(code), Some(qtype));
    }
    assert_eq!(QTypeVal::from_u64(251), None);
    assert_eq!(QTypeVal::from_u64(256), None);
    assert_eq!(QTypeVal::MAILB.to_i64(), Some(253));
    assert_eq!(QTypeVal::ALL.code(), 255);
}

#[test]
fn qclass_codes() {
    assert_eq!(QClass::from_u64(255), Some(QClass::QClass(QClassVal::ALL)));
    assert_eq!(QClass::from_u64(1), Some(QClass::Class(Class::IN)));
    assert_eq!(QClass::from_u64(3), Some(QClass::Class(Class::CH)));
    assert_eq!(QClass::from_u64(4), Some(QClass::Class(Class::HS)));
    assert_eq!(QClass::from_u64(0), None);
    assert_eq!(QClass::from_u64(2), None);
    assert_eq!(QClass::from_u64(254), None);
    assert_eq!(QClass::from_u64(65536 + 1), None);
    assert_eq!(QClass::from_i64(0), None);
    assert_eq!(QClass::from_i64(-1), None);
    assert_eq!(QClass::from_i64(3), Some(QClass::Class(Class::CH)));
    assert_eq!(QClass::from_u16(255), Some(QClass::QClass(QClassVal::ALL)));
    assert_eq!(QClassVal::from_u64(255), Some(QClassVal::ALL));
    assert_eq!(QClassVal::from_u64(1), None);
    assert_eq!(QClassVal::ALL.to_i64(), Some(255));
    assert_eq!(QClassVal::ALL.code(), 255);
}

#[test]
fn qclass_codes_are_read_back() {
    let all = [
        (QClass::Class(Class::IN), 1u16),
        (QClass::Class(Class::CH), 3),
        (QClass::Class(Class::HS), 4),
        (QClass::QClass(QClassVal::ALL), 255),
    ];
    for (qclass, code) in all {
        assert_eq!(qclass.code(), code);
        assert_eq!(qclass.to_i64(), Some(code as i64));
        assert_eq!(qclass.to_u64(), Some(code as u64));
        assert_eq!(QClass::from_u16(code), Some(qclass));
    }
}

#[test]
fn question_parses_and_encodes() {
    let bytes = &QUERY[12..];
    let (rest, question) = Question::parse(bytes).unwrap();
    assert!(rest.is_empty());
    assert_eq!(
        question,
        Question {
            qname: name(&[b"example"]),
            qtype: QType::Type(Type::CNAME),
            qclass: QClass::Class(Class::IN),
        }
    );
    assert_eq!(question.as_bytes(), bytes.to_vec());
    assert_eq!(question.len_bytes(), 13);
}

#[test]
fn question_with_query_only_codes_round_trips() {
    let question = Question {
        qname: name(&[b"a", b"bc"]),
        qtype: QType::QType(QTypeVal::AXFR),
        qclass: QClass::QClass(QClassVal::ALL),
    };
    let bytes = question.as_bytes();
    assert_eq!(bytes, vec![1, b'a', 2, b'b', b'c', 0, 0, 252, 0, 255]);
    assert_eq!(question.len_bytes(), bytes.len());
    assert_eq!(Question::from_bytes(&bytes), Ok(question));
}

#[test]
fn question_with_an_undefined_type_is_rejected() {
    assert_eq!(
        Question::parse(&[1, b'a', 0, 0, 251, 0, 1]),
        Err(ParseError { kind: ErrorKind::UndefinedType, remaining: 4 })
    );
    assert_eq!(
        Question::parse(&[1, b'a', 0, 1, 4, 0, 1]),
        Err(ParseError { kind: ErrorKind::UndefinedType, remaining: 4 })
    );
}

#[test]
fn question_with_an_undefined_class_is_rejected() {
    assert_eq!(
        Question::parse(&[1, b'a', 0, 0, 4, 0, 2]),
        Err(ParseError { kind: ErrorKind::UndefinedClass, remaining: 2 })
    );
}

#[test]
fn question_cut_short_is_eof() {
    assert_eq!(
        Question::parse(&[1, b'a', 0, 0]),
        Err(ParseError { kind: ErrorKind::Eof, remaining: 1 })
    );
    assert_eq!(
        Question::parse(&[1, b'a', 0, 0, 4, 0]),
        Err(ParseError { kind: ErrorKind::Eof, remaining: 1 })
    );
    assert_eq!(
        Question::parse(&[1, b'a', 0, 0, 4]),
        Err(ParseError { kind: ErrorKind::Eof, remaining: 0 })
    );
}

#[test]
fn question_passes_on_the_error_of_its_name() {
    assert_eq!(
        Question::parse(&[1, b'-', 0, 0, 4, 0, 1]),
        Err(ParseError { kind: ErrorKind::LabelNotAlphabetic, remaining: 7 })
    );
}

#[test]
fn parse_many_reads_exactly_the_count() {
    let mut bytes = Vec::new();
    bytes.extend_from_slice(&QUERY[12..]);
    bytes.extend_from_slice(&QUERY[12..]);
    bytes.extend_from_slice(&QUERY[12..]);
    let (rest, none) = parse_many(&Plain::<Question>::new(), 0, &bytes).unwrap();
    assert_eq!(rest.len(), 39);
    assert!(none.is_empty());
    let (rest, two) = parse_many(&Plain::<Question>::new(), 2, &bytes).unwrap();
    assert_eq!(rest, &QUERY[12..]);
    assert_eq!(two.len(), 2);
    assert_eq!(two[0], two[1]);
    assert_eq!(
        parse_many(&Plain::<Question>::new(), 4, &bytes),
        Err(ParseError { kind: ErrorKind::Eof, remaining: 0 })
    );
}

#[test]
fn append_items_appends_each_encoding() {
    let bytes = [QUERY[12..].to_vec(), QUERY[12..].to_vec()].concat();
    let (_, two) = parse_many(&Plain::<Question>::new(), 2, &bytes).unwrap();
    let mut out = vec![9, 9];
    append_items(&mut out, &two);
    assert_eq!(out, [vec![9, 9], QUERY[12..].to_vec(), QUERY[12..].to_vec()].concat());
}

#[test]
fn message_end_to_end() {
    let message = Message::from_bytes(&QUERY).unwrap();
    assert_eq!(*message.header(), query_header());
    assert_eq!(message.questions().len(), 1);
    assert_eq!(message.questions()[0].qname, name(&[b"example"]));
    assert_eq!(message.questions()[0].qtype, QType::Type(Type::CNAME));
    assert_eq!(message.questions()[0].qclass, QClass::Class(Class::IN));
    assert!(message.answers().is_empty());
    assert!(message.authorities().is_empty());
    assert!(message.additionals().is_empty());
    assert_eq!(message.as_bytes(), QUERY.to_vec());
    assert_eq!(message.len_bytes(), 25);
}

#[test]
fn message_with_every_section_round_trips() {
    let question = Question {
        qname: name(&[b"www", b"example"]),
        qtype: QType::QType(QTypeVal::ALL),
        qclass: QClass::Class(Class::IN),
    };
    let message = Message::new(
        Header { qr: true, aa: true, ..query_header() },
        vec![question],
        vec![
            cname_record(&[b"www", b"example"], &[b"host", b"example"], 300),
            cname_record(&[b"host", b"example"], &[b"real"], -1),
        ],
        vec![cname_record(&[b"ns"], &[], 0)],
        vec![
            cname_record(&[], &[b"x"], i32::MAX),
            cname_record(&[b"y"], &[b"z"], i32::MIN),
            cname_record(&[b"q"], &[b"r"], 5),
        ],
    )
    .unwrap();
    assert_eq!(message.header().qdcount, 1);
    assert_eq!(message.header().ancount, 2);
    assert_eq!(message.header().nscount, 1);
    assert_eq!(message.header().arcount, 3);
    let bytes = message.as_bytes();
    assert_eq!(message.len_bytes(), bytes.len());
    assert_eq!(&bytes[..12], &[0x12, 0x34, 0x84, 0x00, 0, 1, 0, 2, 0, 1, 0, 3]);
    let decoded = Message::from_bytes(&bytes).unwrap();
    assert_eq!(decoded, message);
    assert_eq!(decoded.as_bytes(), bytes);
    assert_eq!(Message::from_bytes_with(&Registry::standard(), &bytes), Ok(decoded));
}

#[test]
fn message_new_takes_the_counts_from_the_sections() {
    let header = Header { qdcount: 9, ancount: 9, nscount: 9, arcount: 9, ..query_header() };
    let message =
        Message::new(header, Vec::new(), vec![cname_record(&[b"a"], &[b"b"], 1)], Vec::new(), Vec::new())
            .unwrap();
    assert_eq!(
        *message.header(),
        Header { qdcount: 0, ancount: 1, nscount: 0, arcount: 0, ..query_header() }
    );
    assert_eq!(&message.as_bytes()[4..12], &[0, 0, 0, 1, 0, 0, 0, 0]);
}

#[test]
fn message_new_refuses_a_section_that_no_count_can_hold() {
    let question = || Question {
        qname: name(&[]),
        qtype: QType::Type(Type::CNAME),
        qclass: QClass::Class(Class::IN),
    };
    let fits: Vec<Question> = (0..65535).map(|_| question()).collect();
    let message = Message::new(query_header(), fits, Vec::new(), Vec::new(), Vec::new()).unwrap();
    assert_eq!(message.header().qdcount, 65535);
    let too_many: Vec<Question> = (0..65536).map(|_| question()).collect();
    assert!(Message::new(query_header(), too_many, Vec::new(), Vec::new(), Vec::new()).is_none());
}

#[test]
fn message_with_trailing_data_is_rejected() {
    let mut bytes = QUERY.to_vec();
    bytes.extend_from_slice(&[1, 2, 3]);
    assert_eq!(
        Message::from_bytes(&bytes),
        Err(ParseError { kind: ErrorKind::TrailingData, remaining: 3 })
    );
    let (rest, message) = Message::parse(&bytes).unwrap();
    assert_eq!(rest, &[1, 2, 3]);
    assert_eq!(message.as_bytes(), QUERY.to_vec());
}

#[test]
fn message_that_counts_more_than_it_holds_is_rejected() {
    let mut bytes = QUERY.to_vec();
    bytes[5] = 2;
    assert_eq!(Message::from_bytes(&bytes), Err(ParseError { kind: ErrorKind::Eof, remaining: 0 }));
    let mut bytes = QUERY.to_vec();
    bytes[7] = 1;
    assert_eq!(Message::from_bytes(&bytes), Err(ParseError { kind: ErrorKind::Eof, remaining: 0 }));
}

#[test]
fn message_that_counts_less_than_it_holds_has_trailing_data() {
    let mut bytes = QUERY.to_vec();
    bytes[5] = 0;
    assert_eq!(
        Message::from_bytes(&bytes),
        Err(ParseError { kind: ErrorKind::TrailingData, remaining: 13 })
    );
}

#[test]
fn message_passes_on_the_error_of_its_header() {
    let mut bytes = QUERY.to_vec();
    bytes[3] = 0x40;
    assert_eq!(
        Message::from_bytes(&bytes),
        Err(ParseError { kind: ErrorKind::ReservedBits, remaining: 23 })
    );
}

#[test]
fn message_with_a_record_is_rejected_without_a_codec_for_its_type() {
    let message = Message::new(
        query_header(),
        Vec::new(),
        vec![cname_record(&[b"a"], &[b"b"], 1)],
        Vec::new(),
        Vec::new(),
    )
    .unwrap();
    let bytes = message.as_bytes();
    assert_eq!(
        Message::from_bytes_with(&Registry::new(), &bytes),
        Err(ParseError { kind: ErrorKind::UnsupportedRecordType, remaining: 3 })
    );
    assert_eq!(Message::parse_with(&Registry::standard(), &bytes).unwrap().1, message);
}

#[test]
fn size_agrees_with_the_encoding_for_every_entity() {
    let label = Subdomain::new(b"size").unwrap();
    assert_eq!(label.len_bytes(), label.as_bytes().len());
    let domain = name(&[b"size", b"of", b"things"]);
    assert_eq!(domain.len_bytes(), domain.as_bytes().len());
    let header = query_header();
    assert_eq!(header.len_bytes(), header.as_bytes().len());
    let question = Question {
        qname: name(&[b"q"]),
        qtype: QType::QType(QTypeVal::MAILB),
        qclass: QClass::Class(Class::CH),
    };
    assert_eq!(question.len_bytes(), question.as_bytes().len());
    assert_eq!(Type::CNAME.len_bytes(), Type::CNAME.as_bytes().len());
    assert_eq!(Class::HS.len_bytes(), Class::HS.as_bytes().len());
    let payload = cname::RData { cname: name(&[b"target"]) };
    assert_eq!(payload.len_bytes(), payload.as_bytes().len());
    let record = cname_record(&[b"owner"], &[b"target", b"zone"], 86400);
    assert_eq!(record.rdata.len_bytes(), record.rdata.as_bytes().len());
    assert_eq!(record.len_bytes(), record.as_bytes().len());
    assert_eq!(record.len_bytes(), 7 + 2 + 2 + 4 + 13);
    let message =
        Message::new(header, vec![question], vec![record], Vec::new(), Vec::new()).unwrap();
    assert_eq!(message.len_bytes(), message.as_bytes().len());
    assert_eq!(message.len_bytes(), 12 + 7 + 28);
}

#[test]
fn message_with_a_record_of_an_undefined_type_code_is_unsupported() {
    let mut bytes = QUERY.to_vec();
    bytes[7] = 1;
    bytes.extend_from_slice(&[1, b'a', 0, 0, 1, 0, 1, 0, 0, 0, 0, 1, b'b', 0]);
    assert_eq!(
        Message::from_bytes(&bytes),
        Err(ParseError { kind: ErrorKind::UnsupportedRecordType, remaining: 3 })
    );
    assert_eq!(
        Message::parse(&bytes),
        Err(ParseError { kind: ErrorKind::UnsupportedRecordType, remaining: 3 })
    );
    bytes[29] = 4;
    assert_eq!(Message::from_bytes(&bytes).unwrap().answers().len(), 1);
}
