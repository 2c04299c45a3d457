//! The mDNS responder: the authoritative record store, the reply
//! synthesis protocol, and the pure per-datagram handler the network
//! loop calls.

use vstd::prelude::*;
use vstd::string::StringSliceAdditionalSpecFns;

use crate::errors::{SimpleDnsError, SimpleMdnsError};
use crate::header::{spec_parse_header, PacketHeader};
use crate::name::{dot_split, wf_labels, Name};
use crate::packet::{parse_questions, questions_view, spec_questions, PacketBuf};
use crate::question::QuestionView;
use crate::resource_record::{
    rr_wf, RData, RDataView, ResourceRecord, ResourceRecordView,
};
use crate::store::{records_view, rr_matches, spec_matching, ResourceRecordManager};
use crate::types::{CLASS, QCLASS, QTYPE, TYPE};

verus! {

/// The default time-to-live for registered records: five minutes.
pub const FIVE_MINUTES: u32 = 300;

/// Whether the responder joins the multicast group with loopback
/// enabled by default.
pub const ENABLE_LOOPBACK: bool = true;

/// An IP address as the responder models it: the raw value of an IPv4
/// or IPv6 address.
#[derive(Clone, Copy, Debug, PartialEq, Eq, Structural)]
pub enum IpAddress {
    /// An IPv4 address, as its 32-bit value.
    V4(u32),
    /// An IPv6 address, as its 128-bit value.
    V6(u128),
}

/// Whether any question of the query requested a unicast response; a
/// single question's flag routes the whole reply.
pub open spec fn any_unicast(qs: Seq<QuestionView>) -> bool {
    exists|i: int| 0 <= i < qs.len() && qs[i].unicast_response
}

/// The answer section of a reply: for each question in order, every
/// matching record in store order.
pub open spec fn reply_answers(
    records: Seq<ResourceRecordView>,
    qs: Seq<QuestionView>,
) -> Seq<ResourceRecordView>
    decreases qs.len(),
{
    if qs.len() == 0 {
        Seq::empty()
    } else {
        spec_matching(records, qs[0].qname, qs[0].qtype, qs[0].qclass) + reply_answers(
            records,
            qs.drop_first(),
        )
    }
}

/// The address records staged for one question's answers: for each
/// SRV answer, the address lookup of its target.
pub open spec fn srv_additionals(
    records: Seq<ResourceRecordView>,
    answers: Seq<ResourceRecordView>,
    qclass: QCLASS,
) -> Seq<ResourceRecordView>
    decreases answers.len(),
{
    if answers.len() == 0 {
        Seq::empty()
    } else {
        (match answers[0].rdata {
            RDataView::SRV { target, .. } => spec_matching(
                records,
                target,
                QTYPE::TYPE(TYPE::A),
                qclass,
            ),
            _ => Seq::empty(),
        }) + srv_additionals(records, answers.drop_first(), qclass)
    }
}

/// The additional section of a reply: the SRV target address records
/// of each question's answers, in question order.
pub open spec fn reply_additionals(
    records: Seq<ResourceRecordView>,
    qs: Seq<QuestionView>,
) -> Seq<ResourceRecordView>
    decreases qs.len(),
{
    if qs.len() == 0 {
        Seq::empty()
    } else {
        srv_additionals(
            records,
            spec_matching(records, qs[0].qname, qs[0].qtype, qs[0].qclass),
            qs[0].qclass,
        ) + reply_additionals(records, qs.drop_first())
    }
}

/// Appending a question appends its matches to the reply's answers.
proof fn lemma_reply_answers_push(
    records: Seq<ResourceRecordView>,
    qs: Seq<QuestionView>,
    q: QuestionView,
)
    ensures
        reply_answers(records, qs.push(q)) == reply_answers(records, qs) + spec_matching(
            records,
            q.qname,
            q.qtype,
            q.qclass,
        ),
    decreases qs.len(),
{
    let m = spec_matching(records, q.qname, q.qtype, q.qclass);
    if qs.len() == 0 {
        assert(qs.push(q)[0] == q);
        assert(qs.push(q).drop_first() =~= Seq::<QuestionView>::empty());
        assert(m + Seq::<ResourceRecordView>::empty() =~= m);
        assert(reply_answers(records, qs) == Seq::<ResourceRecordView>::empty());
        assert(reply_answers(records, Seq::<QuestionView>::empty())
            == Seq::<ResourceRecordView>::empty());
        assert(reply_answers(records, qs) + m =~= m);
        assert(reply_answers(records, qs.push(q)) == m);
    } else {
        assert(qs.push(q)[0] == qs[0]);
        assert(qs.push(q).drop_first() =~= qs.drop_first().push(q));
        lemma_reply_answers_push(records, qs.drop_first(), q);
        let m0 = spec_matching(records, qs[0].qname, qs[0].qtype, qs[0].qclass);
        assert(reply_answers(records, qs.push(q)) == m0 + (reply_answers(
            records,
            qs.drop_first(),
        ) + m));
        assert(m0 + (reply_answers(records, qs.drop_first()) + m) =~= (m0 + reply_answers(
            records,
            qs.drop_first(),
        )) + m);
        assert(reply_answers(records, qs) == m0 + reply_answers(records, qs.drop_first()));
        assert(reply_answers(records, qs.push(q)) == reply_answers(records, qs) + m);
    }
}

/// Appending a question appends its answers' SRV-target lookups to
/// the reply's additionals.
proof fn lemma_reply_additionals_push(
    records: Seq<ResourceRecordView>,
    qs: Seq<QuestionView>,
    q: QuestionView,
)
    ensures
        reply_additionals(records, qs.push(q)) == reply_additionals(records, qs)
            + srv_additionals(
            records,
            spec_matching(records, q.qname, q.qtype, q.qclass),
            q.qclass,
        ),
    decreases qs.len(),
{
    let m = srv_additionals(records, spec_matching(records, q.qname, q.qtype, q.qclass), q.qclass);
    if qs.len() == 0 {
        assert(qs.push(q)[0] == q);
        assert(qs.push(q).drop_first() =~= Seq::<QuestionView>::empty());
        assert(m + Seq::<ResourceRecordView>::empty() =~= m);
        assert(reply_additionals(records, qs) == Seq::<ResourceRecordView>::empty());
        assert(reply_additionals(records, Seq::<QuestionView>::empty())
            == Seq::<ResourceRecordView>::empty());
        assert(reply_additionals(records, qs) + m =~= m);
        assert(reply_additionals(records, qs.push(q)) == m);
    } else {
        assert(qs.push(q)[0] == qs[0]);
        assert(qs.push(q).drop_first() =~= qs.drop_first().push(q));
        lemma_reply_additionals_push(records, qs.drop_first(), q);
        let m0 = srv_additionals(
            records,
            spec_matching(records, qs[0].qname, qs[0].qtype, qs[0].qclass),
            qs[0].qclass,
        );
        assert(reply_additionals(records, qs.push(q)) == m0 + (reply_additionals(
            records,
            qs.drop_first(),
        ) + m));
        assert(m0 + (reply_additionals(records, qs.drop_first()) + m) =~= (m0
            + reply_additionals(records, qs.drop_first())) + m);
        assert(reply_additionals(records, qs) == m0 + reply_additionals(records, qs.drop_first()));
        assert(reply_additionals(records, qs.push(q)) == reply_additionals(records, qs) + m);
    }
}

/// Appending an answer appends its SRV-target lookup (or nothing) to
/// the staged additionals.
proof fn lemma_srv_additionals_push(
    records: Seq<ResourceRecordView>,
    answers: Seq<ResourceRecordView>,
    a: ResourceRecordView,
    qclass: QCLASS,
)
    ensures
        srv_additionals(records, answers.push(a), qclass) == srv_additionals(
            records,
            answers,
            qclass,
        ) + (match a.rdata {
            RDataView::SRV { target, .. } => spec_matching(
                records,
                target,
                QTYPE::TYPE(TYPE::A),
                qclass,
            ),
            _ => Seq::empty(),
        }),
    decreases answers.len(),
{
    let m = match a.rdata {
        RDataView::SRV { target, .. } => spec_matching(records, target, QTYPE::TYPE(TYPE::A), qclass),
        _ => Seq::<ResourceRecordView>::empty(),
    };
    if answers.len() == 0 {
        assert(answers.push(a)[0] == a);
        assert(answers.push(a).drop_first() =~= Seq::<ResourceRecordView>::empty());
        assert(m + Seq::<ResourceRecordView>::empty() =~= m);
        assert(srv_additionals(records, answers, qclass) == Seq::<ResourceRecordView>::empty());
        assert(srv_additionals(records, Seq::<ResourceRecordView>::empty(), qclass)
            == Seq::<ResourceRecordView>::empty());
        assert(srv_additionals(records, answers, qclass) + m =~= m);
        assert(srv_additionals(records, answers.push(a), qclass) == m);
    } else {
        assert(answers.push(a)[0] == answers[0]);
        assert(answers.push(a).drop_first() =~= answers.drop_first().push(a));
        lemma_srv_additionals_push(records, answers.drop_first(), a, qclass);
        let m0 = match answers[0].rdata {
            RDataView::SRV { target, .. } => spec_matching(
                records,
                target,
                QTYPE::TYPE(TYPE::A),
                qclass,
            ),
            _ => Seq::<ResourceRecordView>::empty(),
        };
        assert(srv_additionals(records, answers.push(a), qclass) == m0 + (srv_additionals(
            records,
            answers.drop_first(),
            qclass,
        ) + m));
        assert(m0 + (srv_additionals(records, answers.drop_first(), qclass) + m) =~= (m0
            + srv_additionals(records, answers.drop_first(), qclass)) + m);
        assert(srv_additionals(records, answers, qclass) == m0 + srv_additionals(
            records,
            answers.drop_first(),
            qclass,
        ));
        assert(srv_additionals(records, answers.push(a), qclass) == srv_additionals(
            records,
            answers,
            qclass,
        ) + m);
    }
}

/// Builds the reply to a query packet against the current store: each
/// question's matching records become answers, SRV answers stage
/// their targets' address records as additionals, and a query whose
/// questions match nothing yields no reply at all.  The boolean says
/// whether any question requested a unicast reply.
pub fn build_reply(packet: &PacketBuf, resources: &ResourceRecordManager) -> (r: Option<
    (bool, PacketBuf),
>)
    requires
        packet.wf(),
        resources.wf(),
    ensures
        ({
            let ans = reply_answers(resources@, packet@.questions);
            let adds = reply_additionals(resources@, packet@.questions);
            &&& (r is Some <==> ans.len() > 0 && ans.len() <= 65535 && adds.len() <= 65535)
            &&& match r {
                Some((unicast, reply)) => {
                    &&& unicast == any_unicast(packet@.questions)
                    &&& reply@.header == (PacketHeader {
                        id: packet@.header.id,
                        response: true,
                        opcode: packet@.header.opcode,
                        authoritative_answer: true,
                        truncated: false,
                        recursion_desired: false,
                        recursion_available: false,
                        response_code: 0,
                        question_count: 0,
                        answer_count: 0,
                        authority_count: 0,
                        additional_count: 0,
                    })
                    &&& reply@.questions.len() == 0
                    &&& reply@.answers == ans
                    &&& reply@.authorities.len() == 0
                    &&& reply@.additionals == adds
                    &&& reply.wf()
                },
                None => true,
            }
        }),
{
    let ghost qs = packet@.questions;
    let ghost records = resources@;
    let mut unicast_response = false;
    let mut answers: Vec<ResourceRecord> = Vec::new();
    let mut additional_records: Vec<ResourceRecord> = Vec::new();
    let questions = packet.questions();
    let mut i: usize = 0;
    proof {
        assert(qs.take(0) =~= Seq::<QuestionView>::empty());
        assert(records_view(answers) =~= Seq::<ResourceRecordView>::empty());
        assert(records_view(additional_records) =~= Seq::<ResourceRecordView>::empty());
    }
    while i < questions.len()
        invariant
            packet.wf(),
            resources.wf(),
            qs == packet@.questions,
            records == resources@,
            questions_view(*questions) == qs,
            questions@.len() == qs.len(),
            i <= qs.len(),
            unicast_response == any_unicast(qs.take(i as int)),
            records_view(answers) == reply_answers(records, qs.take(i as int)),
            records_view(additional_records) == reply_additionals(records, qs.take(i as int)),
            forall|k: int|
                0 <= k < records_view(answers).len() ==> rr_wf(#[trigger] records_view(answers)[k]),
            forall|k: int|
                0 <= k < records_view(additional_records).len() ==> rr_wf(
                    #[trigger] records_view(additional_records)[k],
                ),
        decreases qs.len() - i,
    {
        let question = &questions[i];
        assert(question@ == qs[i as int]);
        proof {
            assert(qs.take(i as int + 1) =~= qs.take(i as int).push(qs[i as int]));
            lemma_reply_answers_push(records, qs.take(i as int), qs[i as int]);
            lemma_reply_additionals_push(records, qs.take(i as int), qs[i as int]);
        }
        if question.unicast_response {
            unicast_response = true;
        }
        proof {
            if unicast_response {
                if question@.unicast_response {
                    assert(qs.take(i as int + 1)[i as int].unicast_response);
                } else {
                    let w = choose|w: int|
                        0 <= w < qs.take(i as int).len() && qs.take(
                            i as int,
                        )[w].unicast_response;
                    assert(qs.take(i as int + 1)[w].unicast_response);
                }
            }
        }
        let mut found = resources.find_matching_resources(
            &question.qname,
            question.qtype,
            question.qclass,
        );
        let ghost found_v = records_view(found);
        let ghost prev_adds = records_view(additional_records);
        // stage the SRV targets' address records for the additional
        // section
        let mut j: usize = 0;
        proof {
            assert(found_v.take(0) =~= Seq::<ResourceRecordView>::empty());
            assert(srv_additionals(records, found_v.take(0), question@.qclass)
                == Seq::<ResourceRecordView>::empty());
            assert(prev_adds + Seq::<ResourceRecordView>::empty() =~= prev_adds);
        }
        while j < found.len()
            invariant
                resources.wf(),
                records == resources@,
                found_v == records_view(found),
                found@.len() == found_v.len(),
                j <= found_v.len(),
                forall|k: int| 0 <= k < found_v.len() ==> rr_wf(#[trigger] found_v[k]),
                records_view(additional_records) == prev_adds + srv_additionals(
                    records,
                    found_v.take(j as int),
                    question@.qclass,
                ),
                forall|k: int|
                    0 <= k < records_view(additional_records).len() ==> rr_wf(
                        #[trigger] records_view(additional_records)[k],
                    ),
            decreases found_v.len() - j,
        {
            proof {
                assert(found_v.take(j as int + 1) =~= found_v.take(j as int).push(
                    found_v[j as int],
                ));
                lemma_srv_additionals_push(
                    records,
                    found_v.take(j as int),
                    found_v[j as int],
                    question@.qclass,
                );
            }
            let ghost before = records_view(additional_records);
            match &found[j].rdata {
                RData::SRV { target, .. } => {
                    assert(found[j as int]@ == found_v[j as int]);
                    let mut extra = resources.find_matching_resources(
                        target,
                        QTYPE::TYPE(TYPE::A),
                        question.qclass,
                    );
                    let ghost extra_v = records_view(extra);
                    additional_records.append(&mut extra);
                    proof {
                        assert(records_view(additional_records) =~= before + extra_v);
                        assert(before + extra_v =~= prev_adds + srv_additionals(
                            records,
                            found_v.take(j as int + 1),
                            question@.qclass,
                        ));
                    }
                },
                _ => {
                    proof {
                        assert(found[j as int]@ == found_v[j as int]);
                        assert(before + Seq::<ResourceRecordView>::empty() =~= before);
                        assert(records_view(additional_records) =~= prev_adds + srv_additionals(
                            records,
                            found_v.take(j as int + 1),
                            question@.qclass,
                        ));
                    }
                },
            }
            j += 1;
        }
        proof {
            assert(found_v.take(found_v.len() as int) =~= found_v);
        }
        let ghost prev_answers = records_view(answers);
        answers.append(&mut found);
        proof {
            assert(records_view(answers) =~= prev_answers + found_v);
        }
        i += 1;
    }
    proof {
        assert(qs.take(qs.len() as int) =~= qs);
    }
    if answers.len() == 0 {
        return None;
    }
    if answers.len() > 65535 || additional_records.len() > 65535 {
        return None;
    }
    let header = PacketHeader::new_reply(packet.header().id, packet.header().opcode);
    let empty_questions: Vec<crate::question::Question> = Vec::new();
    let empty_authorities: Vec<ResourceRecord> = Vec::new();
    proof {
        assert(questions_view(empty_questions) =~= Seq::<QuestionView>::empty());
        assert(records_view(empty_authorities) =~= Seq::<ResourceRecordView>::empty());
    }
    let reply = PacketBuf::assemble(
        header,
        empty_questions,
        answers,
        empty_authorities,
        additional_records,
    );
    Some((unicast_response, reply))
}


/// A record sequence with one more record, unless an equal record is
/// already present.
pub open spec fn spec_added(
    s: Seq<ResourceRecordView>,
    r: ResourceRecordView,
) -> Seq<ResourceRecordView> {
    if exists|i: int| 0 <= i < s.len() && s[i] == r {
        s
    } else {
        s.push(r)
    }
}

/// The abstract value of a responder.
pub struct ResponderView {
    /// Whether multicast loopback is enabled on the socket the
    /// network loop binds.
    pub enable_loopback: bool,
    /// The time-to-live given to records registered through
    /// `add_service_address`.
    pub rr_ttl: u32,
    /// The published records.
    pub resources: Seq<ResourceRecordView>,
}

/// The address record `add_service_address` registers.
pub open spec fn service_addr_record(
    labels: Seq<Seq<u8>>,
    addr: IpAddress,
    ttl: u32,
) -> ResourceRecordView {
    match addr {
        IpAddress::V4(a) => ResourceRecordView {
            name: labels,
            rdatatype: TYPE::A,
            class: CLASS::IN,
            ttl,
            rdata: RDataView::A { address: a },
        },
        IpAddress::V6(a) => ResourceRecordView {
            name: labels,
            rdatatype: TYPE::AAAA,
            class: CLASS::IN,
            ttl,
            rdata: RDataView::AAAA { address: a },
        },
    }
}

/// The SRV record `add_service_address` registers: the service name
/// as its own target.
pub open spec fn service_srv_record(
    labels: Seq<Seq<u8>>,
    port: u16,
    ttl: u32,
) -> ResourceRecordView {
    ResourceRecordView {
        name: labels,
        rdatatype: TYPE::SRV,
        class: CLASS::IN,
        ttl,
        rdata: RDataView::SRV { priority: 0, weight: 0, port, target: labels },
    }
}

/// A simple mDNS responder aimed at service discovery: it owns the
/// authoritative record table and answers multicast queries against
/// it.  The network loop around it binds the multicast endpoint,
/// hands each received datagram to [`SimpleMdnsResponder::handle_query`],
/// and sends the returned bytes unicast or multicast as the returned
/// flag says.
pub struct SimpleMdnsResponder {
    enable_loopback: bool,
    resources: ResourceRecordManager,
    rr_ttl: u32,
}

impl View for SimpleMdnsResponder {
    type V = ResponderView;

    closed spec fn view(&self) -> ResponderView {
        ResponderView {
            enable_loopback: self.enable_loopback,
            rr_ttl: self.rr_ttl,
            resources: self.resources@,
        }
    }
}

impl SimpleMdnsResponder {
    /// Every published record is well-formed.
    pub open spec fn wf(&self) -> bool {
        forall|i: int| 0 <= i < self@.resources.len() ==> rr_wf(#[trigger] self@.resources[i])
    }

    /// Creates a responder with the given record time-to-live and
    /// loopback setting, publishing no records.
    pub fn new(rr_ttl: u32, enable_loopback: bool) -> (r: SimpleMdnsResponder)
        ensures
            r@ == (ResponderView {
                enable_loopback,
                rr_ttl,
                resources: Seq::<ResourceRecordView>::empty(),
            }),
            r.wf(),
    {
        SimpleMdnsResponder {
            enable_loopback,
            resources: ResourceRecordManager::new(),
            rr_ttl,
        }
    }

    /// Registers a resource record.
    pub fn add_resource(&mut self, resource: ResourceRecord)
        requires
            resource.wf(),
            old(self).wf(),
        ensures
            final(self)@ == (ResponderView {
                resources: spec_added(old(self)@.resources, resource@),
                ..old(self)@
            }),
            final(self).wf(),
    {
        self.resources.add_resource(resource);
    }

    /// Removes every record of the given type published under the
    /// given name.
    pub fn remove_resource_record(&mut self, service_name: &Name, resource_type: TYPE)
        requires
            old(self).wf(),
        ensures
            final(self)@ == (ResponderView {
                resources: old(self)@.resources.filter(
                    |r: ResourceRecordView|
                        !(crate::name::spec_name_matches(r.name, service_name@) && r.rdatatype
                            == resource_type),
                ),
                ..old(self)@
            }),
            final(self).wf(),
    {
        proof {
            assert forall|i: int| 0 <= i < self.resources@.len() implies rr_wf(
                #[trigger] self.resources@[i],
            ) by {
                assert(rr_wf(self@.resources[i]));
            }
        }
        self.resources.remove_resource_record(service_name, resource_type);
    }

    /// Removes every record published under the given name.
    pub fn remove_all_resource_records(&mut self, service_name: &Name)
        requires
            old(self).wf(),
        ensures
            final(self)@ == (ResponderView {
                resources: old(self)@.resources.filter(
                    |r: ResourceRecordView| !crate::name::spec_name_matches(
                        r.name,
                        service_name@,
                    ),
                ),
                ..old(self)@
            }),
            final(self).wf(),
    {
        proof {
            assert forall|i: int| 0 <= i < self.resources@.len() implies rr_wf(
                #[trigger] self.resources@[i],
            ) by {
                assert(rr_wf(self@.resources[i]));
            }
        }
        self.resources.remove_all_resource_records(service_name);
    }

    /// Registers a service address: an address record for the given
    /// IP, and an SRV record whose target is the service name itself,
    /// both under the configured time-to-live.
    pub fn add_service_address(&mut self, name: &str, addr: IpAddress, port: u16) -> (r: Result<
        (),
        SimpleMdnsError,
    >)
        requires
            old(self).wf(),
        ensures
            final(self).wf(),
            match r {
                Ok(()) => {
                    let labels = dot_split(name.spec_bytes());
                    &&& wf_labels(labels)
                    &&& final(self)@ == (ResponderView {
                        resources: spec_added(
                            spec_added(
                                old(self)@.resources,
                                service_addr_record(labels, addr, old(self)@.rr_ttl),
                            ),
                            service_srv_record(labels, port, old(self)@.rr_ttl),
                        ),
                        ..old(self)@
                    })
                },
                Err(e) => {
                    &&& !wf_labels(dot_split(name.spec_bytes()))
                    &&& final(self)@ == old(self)@
                    &&& (e == SimpleMdnsError::Dns(SimpleDnsError::InvalidLabel) || e
                        == SimpleMdnsError::Dns(SimpleDnsError::NameTooLong))
                },
            },
    {
        let owner = match Name::new(name) {
            Ok(n) => n,
            Err(e) => {
                return Err(SimpleMdnsError::Dns(e));
            },
        };
        let target = owner.duplicate();
        let srv_name = owner.duplicate();
        let addr_resource = match addr {
            IpAddress::V4(ip) => ResourceRecord::new(
                owner,
                TYPE::A,
                CLASS::IN,
                self.rr_ttl,
                RData::A { address: ip },
            ),
            IpAddress::V6(ip) => ResourceRecord::new(
                owner,
                TYPE::AAAA,
                CLASS::IN,
                self.rr_ttl,
                RData::AAAA { address: ip },
            ),
        };
        proof {
            crate::resource_record::lemma_rdata_wire_len(addr_resource@.rdata);
        }
        let ghost ttl0 = self.rr_ttl;
        self.add_resource(addr_resource);
        let srv_resource = ResourceRecord::new(
            srv_name,
            TYPE::SRV,
            CLASS::IN,
            self.rr_ttl,
            RData::SRV { priority: 0, weight: 0, port, target },
        );
        proof {
            crate::resource_record::lemma_rdata_wire_len(srv_resource@.rdata);
        }
        self.add_resource(srv_resource);
        Ok(())
    }

    /// Sets whether the network loop enables multicast loopback.
    pub fn set_enable_loopback(&mut self, enable_loopback: bool)
        ensures
            final(self)@ == (ResponderView { enable_loopback, ..old(self)@ }),
    {
        self.enable_loopback = enable_loopback;
    }

    /// Whether the network loop enables multicast loopback.
    pub fn enable_loopback(&self) -> (r: bool)
        ensures
            r == self@.enable_loopback,
    {
        self.enable_loopback
    }

    /// Sets the default time-to-live, in seconds, of records
    /// registered through `add_service_address`.
    pub fn set_rr_ttl(&mut self, rr_default_ttl: u32)
        ensures
            final(self)@ == (ResponderView { rr_ttl: rr_default_ttl, ..old(self)@ }),
    {
        self.rr_ttl = rr_default_ttl;
    }

    /// The published record table.
    pub fn resources(&self) -> (r: &ResourceRecordManager)
        ensures
            r@ == self@.resources,
    {
        &self.resources
    }

    /// Handles one received datagram: decodes the header and the
    /// questions, synthesizes the reply, and serializes it.  Returns
    /// nothing for an unparsable header or a query matching no
    /// records; otherwise the flag says whether the reply should be
    /// sent unicast to the querier.
    pub fn handle_query(&self, data: &[u8]) -> (r: Option<(bool, Vec<u8>)>)
        requires
            self.wf(),
        ensures
            match spec_parse_header(data@) {
                Err(_) => r is None,
                Ok(hd) => {
                    let qs = spec_questions(data@, 12, hd.question_count as nat);
                    let ans = reply_answers(self@.resources, qs);
                    let adds = reply_additionals(self@.resources, qs);
                    &&& (r is Some <==> ans.len() > 0 && ans.len() <= 65535 && adds.len()
                        <= 65535)
                    &&& match r {
                        Some((unicast, bytes)) => {
                            &&& unicast == any_unicast(qs)
                            &&& crate::packet::spec_records(
                                bytes@,
                                12,
                                (ans.len() + adds.len()) as nat,
                            ) == ans + adds
                            &&& spec_parse_header(bytes@) == Ok::<
                                PacketHeader,
                                SimpleDnsError,
                            >(
                                PacketHeader {
                                    id: hd.id,
                                    response: true,
                                    opcode: hd.opcode,
                                    authoritative_answer: true,
                                    truncated: false,
                                    recursion_desired: false,
                                    recursion_available: false,
                                    response_code: 0,
                                    question_count: 0,
                                    answer_count: ans.len() as u16,
                                    authority_count: 0,
                                    additional_count: adds.len() as u16,
                                },
                            )
                        },
                        None => true,
                    }
                },
            },
    {
        let header = match PacketHeader::parse(data) {
            Ok(h) => h,
            Err(_) => {
                return None;
            },
        };
        assert(data@.len() >= 12);
        let questions = parse_questions(data, 12, header.question_count);
        let empty_answers: Vec<ResourceRecord> = Vec::new();
        let empty_authorities: Vec<ResourceRecord> = Vec::new();
        let empty_additionals: Vec<ResourceRecord> = Vec::new();
        proof {
            assert(records_view(empty_answers) =~= Seq::<ResourceRecordView>::empty());
            assert(records_view(empty_authorities) =~= Seq::<ResourceRecordView>::empty());
            assert(records_view(empty_additionals) =~= Seq::<ResourceRecordView>::empty());
        }
        let packet = PacketBuf::assemble(
            header,
            questions,
            empty_answers,
            empty_authorities,
            empty_additionals,
        );
        match build_reply(&packet, &self.resources) {
            Some((unicast, reply)) => {
                let bytes = reply.to_bytes();
                proof {
                    assert(crate::packet::spec_questions_end(bytes@, 12, 0) == 12);
                    assert(reply@.answers + reply@.authorities + reply@.additionals
                        =~= reply@.answers + reply@.additionals);
                }
                Some((unicast, bytes))
            },
            None => None,
        }
    }
}

impl Default for SimpleMdnsResponder {
    /// A responder with a five-minute record time-to-live and
    /// loopback enabled.
    fn default() -> (r: SimpleMdnsResponder)
        ensures
            r@ == (ResponderView {
                enable_loopback: ENABLE_LOOPBACK,
                rr_ttl: FIVE_MINUTES,
                resources: Seq::<ResourceRecordView>::empty(),
            }),
            r.wf(),
    {
        SimpleMdnsResponder::new(FIVE_MINUTES, ENABLE_LOOPBACK)
    }
}


/// Filtering a two-record sequence keeps exactly the records the
/// predicate accepts, in order.
proof fn lemma_filter_pair(
    a: ResourceRecordView,
    b: ResourceRecordView,
    pred: spec_fn(ResourceRecordView) -> bool,
)
    ensures
        seq![a, b].filter(pred) == (if pred(a) {
            if pred(b) {
                seq![a, b]
            } else {
                seq![a]
            }
        } else {
            if pred(b) {
                seq![b]
            } else {
                Seq::<ResourceRecordView>::empty()
            }
        }),
{
    reveal(Seq::filter);
    let s = seq![a, b];
    let one = seq![a];
    let none = Seq::<ResourceRecordView>::empty();
    assert(s.drop_last() =~= one);
    assert(s.last() == b);
    assert(one.drop_last() =~= none);
    assert(one.last() == a);
    assert(none.filter(pred) == none);
    assert(one.filter(pred) == if pred(a) {
        none.filter(pred).push(a)
    } else {
        none.filter(pred)
    });
    assert(s.filter(pred) == if pred(b) {
        one.filter(pred).push(b)
    } else {
        one.filter(pred)
    });
    if pred(a) {
        assert(one.filter(pred) =~= one);
        if pred(b) {
            assert(one.push(b) =~= s);
        }
    } else {
        assert(one.filter(pred) =~= none);
        if pred(b) {
            assert(none.push(b) =~= seq![b]);
        }
    }
}

/// SRV enrichment: with a store holding one SRV record for a service
/// and one address record for its target, an SRV query for the
/// service yields exactly that SRV record as the answer and exactly
/// the target's address record as the additional record; an address
/// query yields answers only, with no additional records.
pub proof fn lemma_srv_enrichment(
    srv: ResourceRecordView,
    addr: ResourceRecordView,
    q_srv: QuestionView,
    q_addr: QuestionView,
)
    requires
        srv.rdatatype == TYPE::SRV,
        srv.rdata matches RDataView::SRV { target, .. } && crate::name::spec_name_matches(
            addr.name,
            target,
        ),
        addr.rdatatype == TYPE::A,
        addr.rdata matches RDataView::A { .. },
        crate::name::spec_name_matches(srv.name, q_srv.qname),
        q_srv.qtype == QTYPE::TYPE(TYPE::SRV),
        crate::resource_record::spec_class_matches_qclass(srv.class, q_srv.qclass),
        crate::resource_record::spec_class_matches_qclass(addr.class, q_srv.qclass),
        q_addr.qtype == QTYPE::TYPE(TYPE::A),
        q_addr.qclass == q_srv.qclass,
    ensures
        reply_answers(seq![srv, addr], seq![q_srv]) == seq![srv],
        reply_additionals(seq![srv, addr], seq![q_srv]) == seq![addr],
        reply_additionals(seq![srv, addr], seq![q_addr]).len() == 0,
{
    let records = seq![srv, addr];
    let target = srv.rdata->SRV_target;
    let qs1 = seq![q_srv];
    let none_q = Seq::<QuestionView>::empty();
    let none_r = Seq::<ResourceRecordView>::empty();
    assert(qs1.drop_first() =~= none_q);
    assert(reply_answers(records, none_q) == none_r);
    assert(reply_additionals(records, none_q) == none_r);
    // the SRV query's answers
    let pred1 = |r: ResourceRecordView| rr_matches(r, q_srv.qname, q_srv.qtype, q_srv.qclass);
    lemma_filter_pair(srv, addr, pred1);
    assert(pred1(srv));
    assert(!pred1(addr));
    assert(spec_matching(records, q_srv.qname, q_srv.qtype, q_srv.qclass) == seq![srv]);
    assert(reply_answers(records, qs1) == seq![srv] + none_r);
    assert(seq![srv] + none_r =~= seq![srv]);
    // the SRV answer stages its target's address record
    let pred2 = |r: ResourceRecordView| rr_matches(r, target, QTYPE::TYPE(TYPE::A), q_srv.qclass);
    lemma_filter_pair(srv, addr, pred2);
    assert(!pred2(srv));
    assert(pred2(addr));
    assert(spec_matching(records, target, QTYPE::TYPE(TYPE::A), q_srv.qclass) == seq![addr]);
    let ans1 = seq![srv];
    assert(ans1.drop_first() =~= none_r);
    assert(srv_additionals(records, none_r, q_srv.qclass) == none_r);
    assert(srv_additionals(records, ans1, q_srv.qclass) == seq![addr] + srv_additionals(
        records,
        none_r,
        q_srv.qclass,
    ));
    assert(seq![addr] + none_r =~= seq![addr]);
    assert(reply_additionals(records, qs1) == srv_additionals(records, ans1, q_srv.qclass)
        + none_r);
    assert(seq![addr] + none_r =~= seq![addr]);
    // the address query stages nothing: none of its answers is SRV
    let qs2 = seq![q_addr];
    assert(qs2.drop_first() =~= none_q);
    assert(reply_additionals(records, none_q) == none_r);
    let pred3 = |r: ResourceRecordView| rr_matches(r, q_addr.qname, q_addr.qtype, q_addr.qclass);
    lemma_filter_pair(srv, addr, pred3);
    assert(!pred3(srv));
    let ans2 = spec_matching(records, q_addr.qname, q_addr.qtype, q_addr.qclass);
    if pred3(addr) {
        assert(ans2 == seq![addr]);
        assert(ans2.drop_first() =~= none_r);
        assert(srv_additionals(records, none_r, q_addr.qclass) == none_r);
        assert(srv_additionals(records, ans2, q_addr.qclass) == none_r + none_r);
        assert(none_r + none_r =~= none_r);
    } else {
        assert(ans2 == none_r);
        assert(srv_additionals(records, ans2, q_addr.qclass) == none_r);
    }
    assert(reply_additionals(records, qs2) == srv_additionals(records, ans2, q_addr.qclass)
        + none_r);
    assert(none_r + none_r =~= none_r);
}

} // verus!
