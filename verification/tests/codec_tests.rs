use simple_mdns::errors::SimpleDnsError;
use simple_mdns::header::PacketHeader;
use simple_mdns::name::{Name, NameRefs};
use simple_mdns::question::Question;
use simple_mdns::resource_record::{RData, ResourceRecord};
use simple_mdns::types::{CLASS, QCLASS, QTYPE, TYPE};

fn name(s: &str) -> Name {
    Name::new(s).unwrap()
}

#[test]
fn name_round_trip() {
    let n = name("alpha.beta.example");
    let mut bytes = Vec::new();
    n.write_to(&mut bytes);
    assert_eq!(bytes.len(), n.len());
    let (parsed, consumed) = Name::parse(&bytes, 0).unwrap();
    assert_eq!(consumed, n.len());
    assert!(parsed.matches(&n));
}

#[test]
fn name_construction_errors() {
    assert_eq!(Some(SimpleDnsError::InvalidLabel), Name::new("a..b").err());
    assert_eq!(Some(SimpleDnsError::InvalidLabel), Name::new("").err());
    let long_label = "x".repeat(64);
    assert_eq!(Some(SimpleDnsError::InvalidLabel), Name::new(&long_label).err());
    let label63 = "y".repeat(63);
    let too_long = format!(
        "{}.{}.{}.{}",
        label63, label63, label63, label63
    );
    assert_eq!(Some(SimpleDnsError::NameTooLong), Name::new(&too_long).err());
    assert!(Name::new(&label63).is_ok());
}

#[test]
fn name_parse_errors() {
    // truncated label
    assert_eq!(
        Some(SimpleDnsError::InsufficientData),
        Name::parse(b"\x05ab", 0).err()
    );
    // a forward pointer is malformed
    assert_eq!(
        Some(SimpleDnsError::MalformedPointer),
        Name::parse(b"\xC0\x10", 0).err()
    );
    // the reserved top-bit patterns are rejected
    assert_eq!(
        Some(SimpleDnsError::UnrecognizedValue),
        Name::parse(b"\x40ab", 0).err()
    );
}

#[test]
fn compressed_write_decodes_and_is_shorter() {
    let first = name("host.example.com");
    let second = name("mail.example.com");
    let mut out = Vec::new();
    let mut refs = NameRefs::new();

    first.write_compressed_to(&mut out, &mut refs);
    let first_len = out.len();
    assert_eq!(first_len, first.len());

    second.write_compressed_to(&mut out, &mut refs);
    let second_len = out.len() - first_len;
    // suffix sharing: "example.com" is replaced by a pointer
    assert!(second_len < second.len());

    let (parsed_first, _) = Name::parse(&out, 0).unwrap();
    assert!(parsed_first.matches(&first));
    let (parsed_second, consumed) = Name::parse(&out, first_len).unwrap();
    assert!(parsed_second.matches(&second));
    assert_eq!(consumed, second_len);
}

#[test]
fn compressed_question_decodes() {
    let q1 = Question::new(name("a.service.local"), QTYPE::ANY, QCLASS::ANY, false);
    let q2 = Question::new(
        name("b.service.local"),
        QTYPE::TYPE(TYPE::TXT),
        QCLASS::CLASS(CLASS::IN),
        true,
    );
    let mut out = Vec::new();
    let mut refs = NameRefs::new();
    q1.write_compressed_to(&mut out, &mut refs);
    let mid = out.len();
    q2.write_compressed_to(&mut out, &mut refs);

    let (p1, c1) = Question::parse(&out, 0).unwrap();
    assert_eq!(c1, mid);
    assert!(p1.qname.matches(&q1.qname));
    assert_eq!(QTYPE::ANY, p1.qtype);
    assert!(!p1.unicast_response);

    let (p2, _) = Question::parse(&out, mid).unwrap();
    assert!(p2.qname.matches(&q2.qname));
    assert_eq!(QTYPE::TYPE(TYPE::TXT), p2.qtype);
    assert_eq!(QCLASS::CLASS(CLASS::IN), p2.qclass);
    assert!(p2.unicast_response);
}

#[test]
fn question_unrecognized_values() {
    // qtype 999 is not a known type
    let mut bytes = Vec::new();
    name("x.local").write_to(&mut bytes);
    bytes.extend_from_slice(&[0x03, 0xE7, 0x00, 0x01]);
    assert_eq!(
        Some(SimpleDnsError::UnrecognizedValue),
        Question::parse(&bytes, 0).err()
    );
    // class 9 is not a known class
    let mut bytes = Vec::new();
    name("x.local").write_to(&mut bytes);
    bytes.extend_from_slice(&[0x00, 0x01, 0x00, 0x09]);
    assert_eq!(
        Some(SimpleDnsError::UnrecognizedValue),
        Question::parse(&bytes, 0).err()
    );
    // too few bytes after the name
    let mut bytes = Vec::new();
    name("x.local").write_to(&mut bytes);
    bytes.extend_from_slice(&[0x00, 0x01]);
    assert_eq!(
        Some(SimpleDnsError::InsufficientData),
        Question::parse(&bytes, 0).err()
    );
}

#[test]
fn header_round_trip() {
    let h = PacketHeader {
        id: 0xBEEF,
        response: true,
        opcode: 5,
        authoritative_answer: true,
        truncated: false,
        recursion_desired: true,
        recursion_available: false,
        response_code: 3,
        question_count: 1,
        answer_count: 2,
        authority_count: 3,
        additional_count: 4,
    };
    let mut bytes = Vec::new();
    h.write_to(&mut bytes);
    assert_eq!(12, bytes.len());
    assert_eq!(h, PacketHeader::parse(&bytes).unwrap());

    assert_eq!(
        Some(SimpleDnsError::InsufficientData),
        PacketHeader::parse(&bytes[..11]).err()
    );
}

#[test]
fn resource_record_round_trip() {
    let records = vec![
        ResourceRecord {
            name: name("v4.example"),
            rdatatype: TYPE::A,
            class: CLASS::IN,
            ttl: 120,
            rdata: RData::A { address: 0x7F00_0001 },
        },
        ResourceRecord {
            name: name("v6.example"),
            rdatatype: TYPE::AAAA,
            class: CLASS::CH,
            ttl: 0,
            rdata: RData::AAAA { address: 0xDEAD_BEEF },
        },
        ResourceRecord {
            name: name("srv.example"),
            rdatatype: TYPE::SRV,
            class: CLASS::IN,
            ttl: 4_000_000_000,
            rdata: RData::SRV {
                priority: 1,
                weight: 2,
                port: 8080,
                target: name("host.example"),
            },
        },
        ResourceRecord {
            name: name("txt.example"),
            rdatatype: TYPE::TXT,
            class: CLASS::IN,
            ttl: 60,
            rdata: RData::Other { bytes: vec![4, b'a', b'b', b'c'] },
        },
    ];
    for rr in &records {
        let mut bytes = Vec::new();
        rr.write_to(&mut bytes);
        assert_eq!(bytes.len(), rr.len());
        let (parsed, consumed) = ResourceRecord::parse(&bytes, 0).unwrap();
        assert_eq!(consumed, bytes.len());
        assert!(parsed.name.matches(&rr.name));
        assert_eq!(rr.rdatatype, parsed.rdatatype);
        assert_eq!(rr.class, parsed.class);
        assert_eq!(rr.ttl, parsed.ttl);
        match (&rr.rdata, &parsed.rdata) {
            (RData::A { address: x }, RData::A { address: y }) => assert_eq!(x, y),
            (RData::AAAA { address: x }, RData::AAAA { address: y }) => assert_eq!(x, y),
            (
                RData::SRV { priority: p1, weight: w1, port: o1, target: t1 },
                RData::SRV { priority: p2, weight: w2, port: o2, target: t2 },
            ) => {
                assert_eq!(p1, p2);
                assert_eq!(w1, w2);
                assert_eq!(o1, o2);
                assert!(t1.matches(t2));
            },
            (RData::Other { bytes: x }, RData::Other { bytes: y }) => assert_eq!(x, y),
            _ => panic!("payload variant changed in the round trip"),
        }
    }
}

#[test]
fn type_codes_round_trip() {
    for t in [
        TYPE::A,
        TYPE::NS,
        TYPE::CNAME,
        TYPE::PTR,
        TYPE::TXT,
        TYPE::AAAA,
        TYPE::SRV,
    ] {
        assert_eq!(t, TYPE::from_code(t.code()).unwrap());
    }
    assert_eq!(Some(SimpleDnsError::UnrecognizedValue), TYPE::from_code(999).err());
    assert_eq!(QTYPE::ANY, QTYPE::from_code(255).unwrap());
    for c in [CLASS::IN, CLASS::CS, CLASS::CH, CLASS::HS] {
        assert_eq!(c, CLASS::from_code(c.code()).unwrap());
    }
    assert_eq!(QCLASS::ANY, QCLASS::from_code(255).unwrap());
}
