use simple_mdns::header::PacketHeader;
use simple_mdns::name::Name;
use simple_mdns::packet::PacketBuf;
use simple_mdns::question::Question;
use simple_mdns::resource_record::{RData, ResourceRecord};
use simple_mdns::responder::{build_reply, IpAddress, SimpleMdnsResponder};
use simple_mdns::store::ResourceRecordManager;
use simple_mdns::types::{CLASS, QCLASS, QTYPE, TYPE};

const LOCALHOST_V4: u32 = 0x7F00_0001;
const LOCALHOST_V6: u128 = 1;

fn name(s: &str) -> Name {
    Name::new(s).unwrap()
}

fn get_resources() -> ResourceRecordManager {
    let mut resources = ResourceRecordManager::new();
    resources.add_resource(ResourceRecord {
        class: CLASS::IN,
        name: name("_res1._tcp.com"),
        rdatatype: TYPE::A,
        ttl: 10,
        rdata: RData::A { address: LOCALHOST_V4 },
    });
    resources.add_resource(ResourceRecord {
        class: CLASS::IN,
        name: name("_res1._tcp.com"),
        rdatatype: TYPE::AAAA,
        ttl: 10,
        rdata: RData::AAAA { address: LOCALHOST_V6 },
    });
    resources.add_resource(ResourceRecord {
        class: CLASS::IN,
        name: name("_res1._tcp.com"),
        rdatatype: TYPE::SRV,
        ttl: 10,
        rdata: RData::SRV {
            port: 8080,
            priority: 0,
            weight: 0,
            target: name("_res1._tcp.com"),
        },
    });
    resources.add_resource(ResourceRecord {
        class: CLASS::IN,
        name: name("_res2._tcp.com"),
        rdatatype: TYPE::A,
        ttl: 10,
        rdata: RData::A { address: LOCALHOST_V4 },
    });
    resources
}

#[test]
fn test_add_service_address() {
    let mut responder = SimpleMdnsResponder::default();
    responder
        .add_service_address("_res1._tcp.com", IpAddress::V4(LOCALHOST_V4), 8080)
        .unwrap();
    responder
        .add_service_address("_res1._tcp.com", IpAddress::V6(LOCALHOST_V6), 8080)
        .unwrap();
    responder
        .add_service_address("_res2._tcp.com", IpAddress::V4(LOCALHOST_V4), 8080)
        .unwrap();

    let resources = responder.resources();

    assert_eq!(
        3,
        resources
            .find_matching_resources(&name("_res1._tcp.com"), QTYPE::ANY, QCLASS::CLASS(CLASS::IN))
            .len()
    );
    assert_eq!(
        1,
        resources
            .find_matching_resources(
                &name("_res1._tcp.com"),
                QTYPE::TYPE(TYPE::SRV),
                QCLASS::CLASS(CLASS::IN),
            )
            .len()
    );
    assert_eq!(
        2,
        resources
            .find_matching_resources(&name("_res2._tcp.com"), QTYPE::ANY, QCLASS::ANY)
            .len()
    );
}

#[test]
fn test_build_reply_with_no_questions() {
    let resources = get_resources();

    let packet = PacketBuf::new(PacketHeader::new_query(1, false));
    assert!(build_reply(&packet, &resources).is_none());
}

#[test]
fn test_build_reply_without_valid_answers() {
    let resources = get_resources();

    let mut packet = PacketBuf::new(PacketHeader::new_query(1, false));
    packet
        .add_question(&Question::new(
            name("_res3._tcp.com"),
            QTYPE::ANY,
            QCLASS::ANY,
            false,
        ))
        .unwrap();

    assert!(build_reply(&packet, &resources).is_none());
}

#[test]
fn test_build_reply_with_valid_answer() {
    let resources = get_resources();

    let mut packet = PacketBuf::new(PacketHeader::new_query(1, false));
    packet
        .add_question(&Question::new(
            name("_res1._tcp.com"),
            QTYPE::TYPE(TYPE::A),
            QCLASS::ANY,
            false,
        ))
        .unwrap();

    let (unicast_response, reply) = build_reply(&packet, &resources).unwrap();

    assert!(!unicast_response);
    assert_eq!(2, reply.answers().len());
    assert_eq!(0, reply.additional_records().len());
}

#[test]
fn test_build_reply_for_srv() {
    let resources = get_resources();

    let mut packet = PacketBuf::new(PacketHeader::new_query(1, false));
    packet
        .add_question(&Question::new(
            name("_res1._tcp.com"),
            QTYPE::TYPE(TYPE::SRV),
            QCLASS::ANY,
            false,
        ))
        .unwrap();

    let (unicast_response, reply) = build_reply(&packet, &resources).unwrap();

    assert!(!unicast_response);
    assert_eq!(1, reply.answers().len());
    assert_eq!(2, reply.additional_records().len());
}

#[test]
fn unicast_flag_routes_reply() {
    let resources = get_resources();

    let mut packet = PacketBuf::new(PacketHeader::new_query(7, false));
    packet
        .add_question(&Question::new(
            name("_res1._tcp.com"),
            QTYPE::ANY,
            QCLASS::ANY,
            true,
        ))
        .unwrap();

    let (unicast_response, _) = build_reply(&packet, &resources).unwrap();
    assert!(unicast_response);
}

#[test]
fn handle_query_round_trip() {
    let mut responder = SimpleMdnsResponder::new(10, true);
    responder
        .add_service_address("_res1._tcp.com", IpAddress::V4(LOCALHOST_V4), 8080)
        .unwrap();

    let mut query = PacketBuf::new(PacketHeader::new_query(42, false));
    query
        .add_question(&Question::new(
            name("_res1._tcp.com"),
            QTYPE::TYPE(TYPE::SRV),
            QCLASS::CLASS(CLASS::IN),
            false,
        ))
        .unwrap();
    let query_bytes = query.to_bytes();

    let (unicast, reply_bytes) = responder.handle_query(&query_bytes).unwrap();
    assert!(!unicast);

    let reply_header = PacketHeader::parse(&reply_bytes).unwrap();
    assert_eq!(42, reply_header.id);
    assert!(reply_header.response);
    assert_eq!(1, reply_header.answer_count);
    assert_eq!(1, reply_header.additional_count);
    assert_eq!(0, reply_header.question_count);

    // the serialized sections decode back: first the SRV answer, then
    // the enriching address record, both written with compression
    let (answer, consumed) = ResourceRecord::parse(&reply_bytes, 12).unwrap();
    assert_eq!(TYPE::SRV, answer.rdatatype);
    assert!(answer.name.matches(&name("_res1._tcp.com")));
    match &answer.rdata {
        RData::SRV { port, target, .. } => {
            assert_eq!(8080, *port);
            assert!(target.matches(&name("_res1._tcp.com")));
        },
        _ => panic!("expected an SRV payload"),
    }
    let (additional, _) = ResourceRecord::parse(&reply_bytes, 12 + consumed).unwrap();
    assert_eq!(TYPE::A, additional.rdatatype);
    assert!(additional.name.matches(&name("_res1._tcp.com")));
    match &additional.rdata {
        RData::A { address } => assert_eq!(LOCALHOST_V4, *address),
        _ => panic!("expected an address payload"),
    }
}

#[test]
fn handle_query_silent_on_no_match() {
    let responder = SimpleMdnsResponder::new(10, true);

    let mut query = PacketBuf::new(PacketHeader::new_query(3, false));
    query
        .add_question(&Question::new(
            name("nothing.local"),
            QTYPE::ANY,
            QCLASS::ANY,
            false,
        ))
        .unwrap();
    assert!(responder.handle_query(&query.to_bytes()).is_none());

    // a datagram too short for a header gets no reply either
    assert!(responder.handle_query(&[0u8; 5]).is_none());
}

#[test]
fn removal_and_matching() {
    let mut resources = get_resources();
    resources.remove_resource_record(&name("_res1._tcp.com"), TYPE::AAAA);
    assert_eq!(
        2,
        resources
            .find_matching_resources(&name("_res1._tcp.com"), QTYPE::ANY, QCLASS::ANY)
            .len()
    );
    resources.remove_all_resource_records(&name("_res1._tcp.com"));
    assert_eq!(
        0,
        resources
            .find_matching_resources(&name("_res1._tcp.com"), QTYPE::ANY, QCLASS::ANY)
            .len()
    );
    assert_eq!(
        1,
        resources
            .find_matching_resources(&name("_res2._tcp.com"), QTYPE::ANY, QCLASS::ANY)
            .len()
    );
}

#[test]
fn matching_is_case_insensitive_and_typed() {
    let resources = get_resources();
    // case-insensitive name matching
    assert_eq!(
        3,
        resources
            .find_matching_resources(&name("_RES1._TCP.COM"), QTYPE::ANY, QCLASS::ANY)
            .len()
    );
    // a concrete query type returns only records of that type
    let found = resources.find_matching_resources(
        &name("_res1._tcp.com"),
        QTYPE::TYPE(TYPE::SRV),
        QCLASS::ANY,
    );
    assert_eq!(1, found.len());
    assert_eq!(TYPE::SRV, found[0].rdatatype);
    // an address query matches both address families
    assert_eq!(
        2,
        resources
            .find_matching_resources(&name("_res1._tcp.com"), QTYPE::TYPE(TYPE::A), QCLASS::ANY)
            .len()
    );
}

#[test]
fn duplicate_records_are_stored_once() {
    let mut resources = ResourceRecordManager::new();
    for _ in 0..2 {
        resources.add_resource(ResourceRecord {
            class: CLASS::IN,
            name: name("svc.local"),
            rdatatype: TYPE::A,
            ttl: 10,
            rdata: RData::A { address: LOCALHOST_V4 },
        });
    }
    assert_eq!(
        1,
        resources
            .find_matching_resources(&name("svc.local"), QTYPE::ANY, QCLASS::ANY)
            .len()
    );
}
