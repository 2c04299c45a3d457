use simple_mdns::name::Name;
use simple_mdns::question::Question;
use simple_mdns::types::{CLASS, QCLASS, QTYPE, TYPE};

#[test]
fn parse_question() {
    let bytes = b"\x00\x00\x04_srv\x04_udp\x05local\x00\x00\x10\x00\x01";
    let question = Question::parse(bytes, 2);

    assert!(question.is_ok());
    let (question, _) = question.unwrap();

    assert_eq!(QCLASS::CLASS(CLASS::IN), question.qclass);
    assert_eq!(QTYPE::TYPE(TYPE::TXT), question.qtype);
    assert!(!question.unicast_response);
}

#[test]
fn append_to_vec() {
    let question = Question::new(
        Name::new("_srv._udp.local").unwrap(),
        TYPE::TXT.into(),
        CLASS::IN.into(),
        false,
    );
    let mut bytes = Vec::new();
    question.write_to(&mut bytes);

    assert_eq!(b"\x04_srv\x04_udp\x05local\x00\x00\x10\x00\x01", &bytes[..]);
    assert_eq!(bytes.len(), question.len());
}

#[test]
fn unicast_response() {
    let mut bytes = Vec::new();
    Question::new(
        Name::new("x.local").unwrap(),
        TYPE::TXT.into(),
        CLASS::IN.into(),
        true,
    )
    .write_to(&mut bytes);
    let (parsed, _) = Question::parse(&bytes, 0).unwrap();

    assert!(parsed.unicast_response);
}
