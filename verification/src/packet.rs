//! The packet envelope: a header and the four ordered sections, with
//! serialization that shares one name-compression table across the
//! whole message.

use vstd::prelude::*;

use crate::errors::SimpleDnsError;
use crate::header::{
    header_wf, header_wire, lemma_header_round_trip, spec_parse_header, PacketHeader,
};
use crate::name::{refs_wf, NameRefs};
use crate::question::{spec_parse_question, Question, QuestionParse, QuestionView};
use crate::resource_record::{rr_wf, ResourceRecord, ResourceRecordView};
use crate::store::records_view;

verus! {

/// The abstract value of a question vector.
pub open spec fn questions_view(questions: Vec<Question>) -> Seq<QuestionView> {
    Seq::new(questions@.len(), |i: int| questions@[i]@)
}

/// The abstract value of a packet envelope.
pub struct PacketBufView {
    /// The header as constructed; section counts are computed from
    /// the sections when the packet is serialized.
    pub header: PacketHeader,
    /// The question section.
    pub questions: Seq<QuestionView>,
    /// The answer section.
    pub answers: Seq<ResourceRecordView>,
    /// The authority section.
    pub authorities: Seq<ResourceRecordView>,
    /// The additional section.
    pub additionals: Seq<ResourceRecordView>,
}

/// The header a packet serializes with: the constructed header with
/// each section count set to that section's length.
pub open spec fn effective_header(p: PacketBufView) -> PacketHeader {
    PacketHeader {
        question_count: p.questions.len() as u16,
        answer_count: p.answers.len() as u16,
        authority_count: p.authorities.len() as u16,
        additional_count: p.additionals.len() as u16,
        ..p.header
    }
}

/// A DNS packet under construction: header plus the ordered question,
/// answer, authority and additional sections.
pub struct PacketBuf {
    header: PacketHeader,
    questions: Vec<Question>,
    answers: Vec<ResourceRecord>,
    authorities: Vec<ResourceRecord>,
    additionals: Vec<ResourceRecord>,
}

impl View for PacketBuf {
    type V = PacketBufView;

    closed spec fn view(&self) -> PacketBufView {
        PacketBufView {
            header: self.header,
            questions: questions_view(self.questions),
            answers: records_view(self.answers),
            authorities: records_view(self.authorities),
            additionals: records_view(self.additionals),
        }
    }
}

impl PacketBuf {
    /// A well-formed packet: a well-formed header, well-formed section
    /// items, and sections that fit the 16-bit counts.
    pub open spec fn wf(&self) -> bool {
        &&& header_wf(self@.header)
        &&& forall|i: int|
            0 <= i < self@.questions.len() ==> crate::name::wf_labels(
                (#[trigger] self@.questions[i]).qname,
            )
        &&& forall|i: int| 0 <= i < self@.answers.len() ==> rr_wf(#[trigger] self@.answers[i])
        &&& forall|i: int|
            0 <= i < self@.authorities.len() ==> rr_wf(#[trigger] self@.authorities[i])
        &&& forall|i: int|
            0 <= i < self@.additionals.len() ==> rr_wf(#[trigger] self@.additionals[i])
        &&& self@.questions.len() <= 65535
        &&& self@.answers.len() <= 65535
        &&& self@.authorities.len() <= 65535
        &&& self@.additionals.len() <= 65535
    }

    /// Creates an empty packet with the given header.
    pub fn new(header: PacketHeader) -> (r: PacketBuf)
        requires
            header_wf(header),
        ensures
            r@.header == header,
            r@.questions.len() == 0,
            r@.answers.len() == 0,
            r@.authorities.len() == 0,
            r@.additionals.len() == 0,
            r.wf(),
    {
        let r = PacketBuf {
            header,
            questions: Vec::new(),
            answers: Vec::new(),
            authorities: Vec::new(),
            additionals: Vec::new(),
        };
        proof {
            assert(r@.questions =~= Seq::<QuestionView>::empty());
            assert(r@.answers =~= Seq::<ResourceRecordView>::empty());
            assert(r@.authorities =~= Seq::<ResourceRecordView>::empty());
            assert(r@.additionals =~= Seq::<ResourceRecordView>::empty());
        }
        r
    }

    /// Builds a packet from a header and ready sections.
    pub fn assemble(
        header: PacketHeader,
        questions: Vec<Question>,
        answers: Vec<ResourceRecord>,
        authorities: Vec<ResourceRecord>,
        additionals: Vec<ResourceRecord>,
    ) -> (r: PacketBuf)
        requires
            header_wf(header),
            forall|i: int|
                0 <= i < questions_view(questions).len() ==> crate::name::wf_labels(
                    (#[trigger] questions_view(questions)[i]).qname,
                ),
            forall|i: int|
                0 <= i < records_view(answers).len() ==> rr_wf(#[trigger] records_view(answers)[i]),
            forall|i: int|
                0 <= i < records_view(authorities).len() ==> rr_wf(
                    #[trigger] records_view(authorities)[i],
                ),
            forall|i: int|
                0 <= i < records_view(additionals).len() ==> rr_wf(
                    #[trigger] records_view(additionals)[i],
                ),
            questions_view(questions).len() <= 65535,
            records_view(answers).len() <= 65535,
            records_view(authorities).len() <= 65535,
            records_view(additionals).len() <= 65535,
        ensures
            r@.header == header,
            r@.questions == questions_view(questions),
            r@.answers == records_view(answers),
            r@.authorities == records_view(authorities),
            r@.additionals == records_view(additionals),
            r.wf(),
    {
        PacketBuf { header, questions, answers, authorities, additionals }
    }

    /// The header this packet was constructed with.
    pub fn header(&self) -> (r: &PacketHeader)
        ensures
            *r == self@.header,
    {
        &self.header
    }

    /// The question section.
    pub fn questions(&self) -> (r: &Vec<Question>)
        ensures
            questions_view(*r) == self@.questions,
    {
        &self.questions
    }

    /// The answer section.
    pub fn answers(&self) -> (r: &Vec<ResourceRecord>)
        ensures
            records_view(*r) == self@.answers,
    {
        &self.answers
    }

    /// The authority section.
    pub fn authorities(&self) -> (r: &Vec<ResourceRecord>)
        ensures
            records_view(*r) == self@.authorities,
    {
        &self.authorities
    }

    /// The additional section.
    pub fn additional_records(&self) -> (r: &Vec<ResourceRecord>)
        ensures
            records_view(*r) == self@.additionals,
    {
        &self.additionals
    }

    /// Whether the answer section holds at least one record.
    pub fn has_answers(&self) -> (r: bool)
        ensures
            r == (self@.answers.len() > 0),
    {
        self.answers.len() > 0
    }

    /// Appends a question, failing only when the section is full.
    pub fn add_question(&mut self, question: &Question) -> (r: Result<(), SimpleDnsError>)
        requires
            old(self).wf(),
            question.wf(),
        ensures
            final(self).wf(),
            match r {
                Ok(()) => old(self)@.questions.len() < 65535 && final(self)@ == (PacketBufView {
                    questions: old(self)@.questions.push(question@),
                    ..old(self)@
                }),
                Err(e) => old(self)@.questions.len() == 65535 && final(self)@ == old(self)@ && e
                    == SimpleDnsError::InsufficientData,
            },
    {
        if self.questions.len() >= 65535 {
            return Err(SimpleDnsError::InsufficientData);
        }
        let copy = Question {
            qname: question.qname.duplicate(),
            qtype: question.qtype,
            qclass: question.qclass,
            unicast_response: question.unicast_response,
        };
        self.questions.push(copy);
        proof {
            assert(self@.questions =~= old(self)@.questions.push(question@));
            assert(self@ == (PacketBufView { questions: old(self)@.questions.push(question@), ..old(
                self,
            )@ }));
        }
        Ok(())
    }

    /// Appends an answer record, failing only when the section is
    /// full.
    pub fn add_answer(&mut self, answer: &ResourceRecord) -> (r: Result<(), SimpleDnsError>)
        requires
            old(self).wf(),
            answer.wf(),
        ensures
            final(self).wf(),
            match r {
                Ok(()) => old(self)@.answers.len() < 65535 && final(self)@ == (PacketBufView {
                    answers: old(self)@.answers.push(answer@),
                    ..old(self)@
                }),
                Err(e) => old(self)@.answers.len() == 65535 && final(self)@ == old(self)@ && e
                    == SimpleDnsError::InsufficientData,
            },
    {
        if self.answers.len() >= 65535 {
            return Err(SimpleDnsError::InsufficientData);
        }
        self.answers.push(answer.duplicate());
        proof {
            assert(self@.answers =~= old(self)@.answers.push(answer@));
            assert(self@ == (PacketBufView { answers: old(self)@.answers.push(answer@), ..old(
                self,
            )@ }));
        }
        Ok(())
    }

    /// Appends an authority record, failing only when the section is
    /// full.
    pub fn add_authority(&mut self, record: &ResourceRecord) -> (r: Result<(), SimpleDnsError>)
        requires
            old(self).wf(),
            record.wf(),
        ensures
            final(self).wf(),
            match r {
                Ok(()) => old(self)@.authorities.len() < 65535 && final(self)@ == (PacketBufView {
                    authorities: old(self)@.authorities.push(record@),
                    ..old(self)@
                }),
                Err(e) => old(self)@.authorities.len() == 65535 && final(self)@ == old(self)@ && e
                    == SimpleDnsError::InsufficientData,
            },
    {
        if self.authorities.len() >= 65535 {
            return Err(SimpleDnsError::InsufficientData);
        }
        self.authorities.push(record.duplicate());
        proof {
            assert(self@.authorities =~= old(self)@.authorities.push(record@));
            assert(self@ == (PacketBufView {
                authorities: old(self)@.authorities.push(record@),
                ..old(self)@
            }));
        }
        Ok(())
    }

    /// Appends an additional record, failing only when the section is
    /// full.
    pub fn add_additional_record(&mut self, record: &ResourceRecord) -> (r: Result<
        (),
        SimpleDnsError,
    >)
        requires
            old(self).wf(),
            record.wf(),
        ensures
            final(self).wf(),
            match r {
                Ok(()) => old(self)@.additionals.len() < 65535 && final(self)@ == (PacketBufView {
                    additionals: old(self)@.additionals.push(record@),
                    ..old(self)@
                }),
                Err(e) => old(self)@.additionals.len() == 65535 && final(self)@ == old(self)@ && e
                    == SimpleDnsError::InsufficientData,
            },
    {
        if self.additionals.len() >= 65535 {
            return Err(SimpleDnsError::InsufficientData);
        }
        self.additionals.push(record.duplicate());
        proof {
            assert(self@.additionals =~= old(self)@.additionals.push(record@));
            assert(self@ == (PacketBufView {
                additionals: old(self)@.additionals.push(record@),
                ..old(self)@
            }));
        }
        Ok(())
    }

    /// Serializes the packet: the header with the computed section
    /// counts, then every question and record, all sharing one
    /// name-compression table.  The first 12 bytes decode back to the
    /// effective header.
    pub fn to_bytes(&self) -> (r: Vec<u8>)
        requires
            self.wf(),
        ensures
            r@.len() >= 12,
            spec_parse_header(r@) == Ok::<PacketHeader, SimpleDnsError>(effective_header(self@)),
            r@.subrange(0, 12) == header_wire(effective_header(self@)),
            spec_questions(r@, 12, self@.questions.len() as nat) == self@.questions,
            spec_records(
                r@,
                spec_questions_end(r@, 12, self@.questions.len() as nat),
                (self@.answers.len() + self@.authorities.len()
                    + self@.additionals.len()) as nat,
            ) == self@.answers + self@.authorities + self@.additionals,
    {
        let mut h = self.header;
        h.question_count = self.questions.len() as u16;
        h.answer_count = self.answers.len() as u16;
        h.authority_count = self.authorities.len() as u16;
        h.additional_count = self.additionals.len() as u16;
        assert(h == effective_header(self@));
        let mut out: Vec<u8> = Vec::new();
        let mut refs = NameRefs::new();
        h.write_to(&mut out);
        proof {
            crate::header::lemma_header_wire_len(h);
            assert(out@ =~= header_wire(h));
            assert(out@.subrange(0, 12) =~= header_wire(h));
        }
        let mut i: usize = 0;
        proof {
            assert(spec_questions(out@, 12, 0) =~= self@.questions.take(0));
        }
        while i < self.questions.len()
            invariant
                self.wf(),
                self.questions@.len() == self@.questions.len(),
                i <= self@.questions.len(),
                out@.len() >= 12,
                out@.subrange(0, 12) == header_wire(h),
                refs_wf(refs@, out@),
                spec_questions(out@, 12, i as nat) == self@.questions.take(i as int),
                spec_questions_end(out@, 12, i as nat) == out@.len(),
            decreases self@.questions.len() - i,
        {
            let ghost prev = out@;
            assert(self.questions[i as int]@ == self@.questions[i as int]);
            self.questions[i].write_compressed_to(&mut out, &mut refs);
            proof {
                crate::wire::lemma_subrange_transfer(out@, 0, prev, 0, 12);
                let ext = out@.subrange(prev.len() as int, out@.len() as int);
                assert(out@ =~= prev + ext);
                lemma_questions_snoc(
                    prev,
                    ext,
                    12,
                    i as nat,
                    self@.questions.take(i as int),
                    self@.questions[i as int],
                );
                assert(self@.questions.take(i as int).push(self@.questions[i as int])
                    =~= self@.questions.take(i as int + 1));
            }
            i += 1;
        }
        proof {
            assert(self@.questions.take(self@.questions.len() as int) =~= self@.questions);
        }
        let ghost qn = self@.questions.len() as nat;
        let ghost qend = out@.len() as int;
        let ghost all = self@.answers + self@.authorities + self@.additionals;
        proof {
            assert(spec_questions_end(out@, 12, qn) == qend);
            assert(spec_records(out@, qend, 0) =~= all.take(0));
        }
        let mut i: usize = 0;
        while i < self.answers.len()
            invariant
                self.wf(),
                self.answers@.len() == self@.answers.len(),
                i <= self@.answers.len(),
                out@.len() >= 12,
                out@.subrange(0, 12) == header_wire(h),
                refs_wf(refs@, out@),
                qn == self@.questions.len(),
                spec_questions(out@, 12, qn) == self@.questions,
                spec_questions_end(out@, 12, qn) == qend,
                all == self@.answers + self@.authorities + self@.additionals,
                spec_records(out@, qend, (0 + i) as nat) == all.take(0 + i),
                spec_records_end(out@, qend, (0 + i) as nat) == out@.len(),
            decreases self@.answers.len() - i,
        {
            let ghost prev = out@;
            assert(self.answers[i as int]@ == self@.answers[i as int]);
            self.answers[i].write_compressed_to(&mut out, &mut refs);
            proof {
                crate::wire::lemma_subrange_transfer(out@, 0, prev, 0, 12);
                let ext = out@.subrange(prev.len() as int, out@.len() as int);
                assert(out@ =~= prev + ext);
                lemma_questions_extend(prev, ext, 12, qn, self@.questions);
                assert(all[0 + i] == self@.answers[i as int]);
                lemma_records_snoc(
                    prev,
                    ext,
                    qend,
                    (0 + i) as nat,
                    all.take(0 + i),
                    self@.answers[i as int],
                );
                assert(all.take(0 + i).push(all[0 + i]) =~= all.take(0 + i + 1));
            }
            i += 1;
        }
        let mut i: usize = 0;
        while i < self.authorities.len()
            invariant
                self.wf(),
                self.authorities@.len() == self@.authorities.len(),
                i <= self@.authorities.len(),
                out@.len() >= 12,
                out@.subrange(0, 12) == header_wire(h),
                refs_wf(refs@, out@),
                qn == self@.questions.len(),
                spec_questions(out@, 12, qn) == self@.questions,
                spec_questions_end(out@, 12, qn) == qend,
                all == self@.answers + self@.authorities + self@.additionals,
                spec_records(out@, qend, (self@.answers.len() as int + i) as nat) == all.take(self@.answers.len() as int + i),
                spec_records_end(out@, qend, (self@.answers.len() as int + i) as nat) == out@.len(),
            decreases self@.authorities.len() - i,
        {
            let ghost prev = out@;
            assert(self.authorities[i as int]@ == self@.authorities[i as int]);
            self.authorities[i].write_compressed_to(&mut out, &mut refs);
            proof {
                crate::wire::lemma_subrange_transfer(out@, 0, prev, 0, 12);
                let ext = out@.subrange(prev.len() as int, out@.len() as int);
                assert(out@ =~= prev + ext);
                lemma_questions_extend(prev, ext, 12, qn, self@.questions);
                assert(all[self@.answers.len() as int + i] == self@.authorities[i as int]);
                lemma_records_snoc(
                    prev,
                    ext,
                    qend,
                    (self@.answers.len() as int + i) as nat,
                    all.take(self@.answers.len() as int + i),
                    self@.authorities[i as int],
                );
                assert(all.take(self@.answers.len() as int + i).push(all[self@.answers.len() as int + i]) =~= all.take(self@.answers.len() as int + i + 1));
            }
            i += 1;
        }
        let mut i: usize = 0;
        while i < self.additionals.len()
            invariant
                self.wf(),
                self.additionals@.len() == self@.additionals.len(),
                i <= self@.additionals.len(),
                out@.len() >= 12,
                out@.subrange(0, 12) == header_wire(h),
                refs_wf(refs@, out@),
                qn == self@.questions.len(),
                spec_questions(out@, 12, qn) == self@.questions,
                spec_questions_end(out@, 12, qn) == qend,
                all == self@.answers + self@.authorities + self@.additionals,
                spec_records(out@, qend, (self@.answers.len() as int + self@.authorities.len() as int + i) as nat) == all.take(self@.answers.len() as int + self@.authorities.len() as int + i),
                spec_records_end(out@, qend, (self@.answers.len() as int + self@.authorities.len() as int + i) as nat) == out@.len(),
            decreases self@.additionals.len() - i,
        {
            let ghost prev = out@;
            assert(self.additionals[i as int]@ == self@.additionals[i as int]);
            self.additionals[i].write_compressed_to(&mut out, &mut refs);
            proof {
                crate::wire::lemma_subrange_transfer(out@, 0, prev, 0, 12);
                let ext = out@.subrange(prev.len() as int, out@.len() as int);
                assert(out@ =~= prev + ext);
                lemma_questions_extend(prev, ext, 12, qn, self@.questions);
                assert(all[self@.answers.len() as int + self@.authorities.len() as int + i] == self@.additionals[i as int]);
                lemma_records_snoc(
                    prev,
                    ext,
                    qend,
                    (self@.answers.len() as int + self@.authorities.len() as int + i) as nat,
                    all.take(self@.answers.len() as int + self@.authorities.len() as int + i),
                    self@.additionals[i as int],
                );
                assert(all.take(self@.answers.len() as int + self@.authorities.len() as int + i).push(all[self@.answers.len() as int + self@.authorities.len() as int + i]) =~= all.take(self@.answers.len() as int + self@.authorities.len() as int + i + 1));
            }
            i += 1;
        }
        proof {
            lemma_header_round_trip(out@, h);
            assert(all.take(all.len() as int) =~= all);
        }
        out
    }
}

/// The maximal prefix of `count` questions decodable from `data`
/// starting at `pos`: decoding stops at the first failure.
pub open spec fn spec_questions(data: Seq<u8>, pos: int, count: nat) -> Seq<QuestionView>
    decreases count,
{
    if count == 0 {
        Seq::empty()
    } else {
        match spec_parse_question(data, pos) {
            QuestionParse::Parsed(q, c) => seq![q] + spec_questions(
                data,
                pos + c,
                (count - 1) as nat,
            ),
            QuestionParse::Fail(_) => Seq::empty(),
        }
    }
}

/// The position where decoding `count` questions from `pos` stops.
pub open spec fn spec_questions_end(data: Seq<u8>, pos: int, count: nat) -> int
    decreases count,
{
    if count == 0 {
        pos
    } else {
        match spec_parse_question(data, pos) {
            QuestionParse::Parsed(_, c) => spec_questions_end(data, pos + c, (count - 1) as nat),
            QuestionParse::Fail(_) => pos,
        }
    }
}

/// If `count` questions decode from `pos` and fill the buffer up to
/// its end, appending one more question's bytes makes `count + 1`
/// questions decode, again filling the buffer.
pub proof fn lemma_questions_snoc(
    data: Seq<u8>,
    ext: Seq<u8>,
    pos: int,
    count: nat,
    qs: Seq<QuestionView>,
    q: QuestionView,
)
    requires
        spec_questions(data, pos, count) == qs,
        qs.len() == count,
        spec_questions_end(data, pos, count) == data.len(),
        0 <= pos,
        spec_parse_question(data + ext, data.len() as int) == QuestionParse::Parsed(
            q,
            ext.len() as int,
        ),
        ext.len() > 0,
    ensures
        spec_questions(data + ext, pos, (count + 1) as nat) == qs.push(q),
        spec_questions_end(data + ext, pos, (count + 1) as nat) == (data + ext).len(),
    decreases count,
{
    let full = data + ext;
    if count == 0 {
        assert(pos == data.len());
        assert(spec_questions(full, pos, 1) == seq![q] + spec_questions(
            full,
            pos + ext.len() as int,
            0,
        ));
        assert(qs =~= Seq::<QuestionView>::empty());
        assert(seq![q] + Seq::<QuestionView>::empty() =~= qs.push(q));
        assert(spec_questions_end(full, pos, 1) == spec_questions_end(
            full,
            pos + ext.len() as int,
            0,
        ));
    } else {
        match spec_parse_question(data, pos) {
            QuestionParse::Parsed(q0, c0) => {
                crate::question::lemma_question_parse_extend(data, ext, pos);
                let tail = spec_questions(data, pos + c0, (count - 1) as nat);
                assert(qs == seq![q0] + tail);
                assert(qs[0] == q0);
                assert(tail =~= qs.drop_first());
                lemma_questions_snoc(data, ext, pos + c0, (count - 1) as nat, qs.drop_first(), q);
                assert(spec_questions(full, pos, (count + 1) as nat) == seq![q0]
                    + spec_questions(full, pos + c0, count));
                assert(spec_questions(full, pos + c0, count) == qs.drop_first().push(q));
                assert(seq![q0] + qs.drop_first().push(q) =~= qs.push(q));
                assert(spec_questions_end(full, pos, (count + 1) as nat) == spec_questions_end(
                    full,
                    pos + c0,
                    count,
                ));
            },
            QuestionParse::Fail(_) => {
                assert(qs.len() == 0);
                assert(false);
            },
        }
    }
}

/// Appending bytes to the buffer never changes a run of successfully
/// decoded questions.
pub proof fn lemma_questions_extend(
    data: Seq<u8>,
    ext: Seq<u8>,
    pos: int,
    count: nat,
    qs: Seq<QuestionView>,
)
    requires
        spec_questions(data, pos, count) == qs,
        qs.len() == count,
    ensures
        spec_questions(data + ext, pos, count) == qs,
        spec_questions_end(data + ext, pos, count) == spec_questions_end(data, pos, count),
    decreases count,
{
    let full = data + ext;
    if count > 0 {
        match spec_parse_question(data, pos) {
            QuestionParse::Parsed(q0, c0) => {
                crate::question::lemma_question_parse_extend(data, ext, pos);
                let tail = spec_questions(data, pos + c0, (count - 1) as nat);
                assert(qs == seq![q0] + tail);
                assert(tail =~= qs.drop_first());
                lemma_questions_extend(data, ext, pos + c0, (count - 1) as nat, qs.drop_first());
                assert(spec_questions(full, pos, count) == seq![q0] + qs.drop_first());
                assert(seq![q0] + qs.drop_first() =~= qs);
            },
            QuestionParse::Fail(_) => {
                assert(qs.len() == 0);
                assert(false);
            },
        }
    }
}

/// The maximal prefix of `count` records decodable from `data`
/// starting at `pos`: decoding stops at the first failure.
pub open spec fn spec_records(data: Seq<u8>, pos: int, count: nat) -> Seq<ResourceRecordView>
    decreases count,
{
    if count == 0 {
        Seq::empty()
    } else {
        match crate::resource_record::spec_parse_rr(data, pos) {
            crate::resource_record::RecordParse::Parsed(rr, c) => seq![rr] + spec_records(
                data,
                pos + c,
                (count - 1) as nat,
            ),
            crate::resource_record::RecordParse::Fail(_) => Seq::empty(),
        }
    }
}

/// The position where decoding `count` records from `pos` stops.
pub open spec fn spec_records_end(data: Seq<u8>, pos: int, count: nat) -> int
    decreases count,
{
    if count == 0 {
        pos
    } else {
        match crate::resource_record::spec_parse_rr(data, pos) {
            crate::resource_record::RecordParse::Parsed(_, c) => spec_records_end(
                data,
                pos + c,
                (count - 1) as nat,
            ),
            crate::resource_record::RecordParse::Fail(_) => pos,
        }
    }
}

/// If `count` records decode from `pos` and fill the buffer up to its
/// end, appending one more record's bytes makes `count + 1` records
/// decode, again filling the buffer.
pub proof fn lemma_records_snoc(
    data: Seq<u8>,
    ext: Seq<u8>,
    pos: int,
    count: nat,
    rs: Seq<ResourceRecordView>,
    rr: ResourceRecordView,
)
    requires
        spec_records(data, pos, count) == rs,
        rs.len() == count,
        spec_records_end(data, pos, count) == data.len(),
        0 <= pos,
        crate::resource_record::spec_parse_rr(data + ext, data.len() as int)
            == crate::resource_record::RecordParse::Parsed(rr, ext.len() as int),
    ensures
        spec_records(data + ext, pos, (count + 1) as nat) == rs.push(rr),
        spec_records_end(data + ext, pos, (count + 1) as nat) == (data + ext).len(),
    decreases count,
{
    let full = data + ext;
    if count == 0 {
        assert(pos == data.len());
        assert(spec_records(full, pos, 1) == seq![rr] + spec_records(
            full,
            pos + ext.len() as int,
            0,
        ));
        assert(rs =~= Seq::<ResourceRecordView>::empty());
        assert(seq![rr] + Seq::<ResourceRecordView>::empty() =~= rs.push(rr));
        assert(spec_records_end(full, pos, 1) == spec_records_end(
            full,
            pos + ext.len() as int,
            0,
        ));
    } else {
        match crate::resource_record::spec_parse_rr(data, pos) {
            crate::resource_record::RecordParse::Parsed(r0, c0) => {
                crate::resource_record::lemma_rr_parse_extend(data, ext, pos);
                let tail = spec_records(data, pos + c0, (count - 1) as nat);
                assert(rs == seq![r0] + tail);
                assert(rs[0] == r0);
                assert(tail =~= rs.drop_first());
                lemma_records_snoc(data, ext, pos + c0, (count - 1) as nat, rs.drop_first(), rr);
                assert(spec_records(full, pos, (count + 1) as nat) == seq![r0] + spec_records(
                    full,
                    pos + c0,
                    count,
                ));
                assert(spec_records(full, pos + c0, count) == rs.drop_first().push(rr));
                assert(seq![r0] + rs.drop_first().push(rr) =~= rs.push(rr));
                assert(spec_records_end(full, pos, (count + 1) as nat) == spec_records_end(
                    full,
                    pos + c0,
                    count,
                ));
            },
            crate::resource_record::RecordParse::Fail(_) => {
                assert(rs.len() == 0);
                assert(false);
            },
        }
    }
}

/// Appending bytes to the buffer never changes a run of successfully
/// decoded records.
pub proof fn lemma_records_extend(
    data: Seq<u8>,
    ext: Seq<u8>,
    pos: int,
    count: nat,
    rs: Seq<ResourceRecordView>,
)
    requires
        spec_records(data, pos, count) == rs,
        rs.len() == count,
    ensures
        spec_records(data + ext, pos, count) == rs,
        spec_records_end(data + ext, pos, count) == spec_records_end(data, pos, count),
    decreases count,
{
    let full = data + ext;
    if count > 0 {
        match crate::resource_record::spec_parse_rr(data, pos) {
            crate::resource_record::RecordParse::Parsed(r0, c0) => {
                crate::resource_record::lemma_rr_parse_extend(data, ext, pos);
                let tail = spec_records(data, pos + c0, (count - 1) as nat);
                assert(rs == seq![r0] + tail);
                assert(tail =~= rs.drop_first());
                lemma_records_extend(data, ext, pos + c0, (count - 1) as nat, rs.drop_first());
                assert(spec_records(full, pos, count) == seq![r0] + rs.drop_first());
                assert(seq![r0] + rs.drop_first() =~= rs);
            },
            crate::resource_record::RecordParse::Fail(_) => {
                assert(rs.len() == 0);
                assert(false);
            },
        }
    }
}

/// Decodes up to `count` questions from `data` starting at `pos`,
/// stopping silently at the first malformed question.
pub fn parse_questions(data: &[u8], pos: usize, count: u16) -> (r: Vec<Question>)
    requires
        pos <= data@.len(),
    ensures
        questions_view(r) == spec_questions(data@, pos as int, count as nat),
        forall|i: int|
            0 <= i < questions_view(r).len() ==> crate::name::wf_labels(
                (#[trigger] questions_view(r)[i]).qname,
            ),
        questions_view(r).len() <= count,
{
    let n = data.len();
    let mut result: Vec<Question> = Vec::new();
    let mut p = pos;
    let mut k: u16 = 0;
    let mut failed = false;
    proof {
        assert(questions_view(result) =~= Seq::<QuestionView>::empty());
        assert(Seq::<QuestionView>::empty() + spec_questions(data@, pos as int, count as nat)
            =~= spec_questions(data@, pos as int, count as nat));
    }
    while k < count && !failed
        invariant
            n == data@.len(),
            p <= data@.len(),
            k <= count,
            questions_view(result).len() == k,
            forall|i: int|
                0 <= i < questions_view(result).len() ==> crate::name::wf_labels(
                    (#[trigger] questions_view(result)[i]).qname,
                ),
            !failed ==> spec_questions(data@, pos as int, count as nat) == questions_view(result)
                + spec_questions(data@, p as int, (count - k) as nat),
            failed ==> spec_questions(data@, pos as int, count as nat) == questions_view(result),
        decreases count - k, (if failed { 0int } else { 1int }),
    {
        let ghost prevq = questions_view(result);
        match Question::parse(data, p) {
            Ok((q, c)) => {
                let ghost qv = q@;
                let ghost rest = spec_questions(data@, p as int + c as int, (count - k - 1) as nat);
                proof {
                    assert(spec_questions(data@, p as int, (count - k) as nat) == seq![qv] + rest);
                }
                result.push(q);
                proof {
                    assert(questions_view(result) =~= prevq.push(qv));
                    assert(prevq + (seq![qv] + rest) =~= prevq.push(qv) + rest);
                }
                p = p + c;
                k = k + 1;
            },
            Err(_) => {
                failed = true;
            },
        }
    }
    result
}

} // verus!
