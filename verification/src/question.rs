//! The DNS question: a query name, query type, query class and the
//! mDNS unicast-response flag.

use vstd::prelude::*;

use crate::errors::SimpleDnsError;
use crate::name::{
    lemma_parse_encode, spec_encode, spec_encoded_len, spec_parse_name, wf_labels, Name,
    NameParse,
};
use crate::types::{
    spec_qclass_code, spec_qclass_from_code, spec_qtype_code, spec_qtype_from_code, QCLASS, QTYPE,
};
use crate::wire::{
    be_bytes, be_val, lemma_be_bytes_len, lemma_be_round_trip, lemma_be_val_bound, pow256,
    push_be, read_be,
};

verus! {

/// The abstract value of a question.
pub struct QuestionView {
    /// The queried name's labels.
    pub qname: Seq<Seq<u8>>,
    /// The query type.
    pub qtype: QTYPE,
    /// The query class.
    pub qclass: QCLASS,
    /// Whether a unicast reply is preferred.
    pub unicast_response: bool,
}

/// Question represents a query in the DNS packet.
pub struct Question {
    /// The name to query for.
    pub qname: Name,
    /// The type of the query.
    pub qtype: QTYPE,
    /// The class of the query, for example `IN`.
    pub qclass: QCLASS,
    /// Indicates that the query prefers a unicast response.  This is
    /// mDNS specific; on the wire it is the high bit of the 16-bit
    /// class field.
    pub unicast_response: bool,
}

impl View for Question {
    type V = QuestionView;

    open spec fn view(&self) -> QuestionView {
        QuestionView {
            qname: self.qname@,
            qtype: self.qtype,
            qclass: self.qclass,
            unicast_response: self.unicast_response,
        }
    }
}

/// The 16-bit class field: the class value, with the high bit set when
/// a unicast response is requested.
pub open spec fn spec_class_field(qclass: QCLASS, unicast: bool) -> int {
    spec_qclass_code(qclass) + if unicast {
        32768int
    } else {
        0int
    }
}

/// The four bytes that follow the name: query type and class field,
/// both big-endian.
pub open spec fn question_tail(q: QuestionView) -> Seq<u8> {
    be_bytes(spec_qtype_code(q.qtype) as int, 2) + be_bytes(
        spec_class_field(q.qclass, q.unicast_response),
        2,
    )
}

/// The full uncompressed wire form of a question.
pub open spec fn question_wire(q: QuestionView) -> Seq<u8> {
    spec_encode(q.qname) + question_tail(q)
}

/// The outcome of decoding a question.
pub enum QuestionParse {
    /// The decoded question and the bytes consumed.
    Parsed(QuestionView, int),
    /// Decoding failed with the given error.
    Fail(SimpleDnsError),
}

/// Decodes a question from `data` at `pos`: a name, then the query
/// type and the class field, whose high bit is the unicast-response
/// flag and whose low 15 bits must name a known class.
pub open spec fn spec_parse_question(data: Seq<u8>, pos: int) -> QuestionParse {
    match spec_parse_name(data, pos, data.len()) {
        NameParse::Truncated => QuestionParse::Fail(SimpleDnsError::InsufficientData),
        NameParse::BadLabel => QuestionParse::Fail(SimpleDnsError::UnrecognizedValue),
        NameParse::BadPointer => QuestionParse::Fail(SimpleDnsError::MalformedPointer),
        NameParse::Parsed(ls, c) => if spec_encoded_len(ls) > 255 {
            QuestionParse::Fail(SimpleDnsError::NameTooLong)
        } else if pos + c + 4 > data.len() {
            QuestionParse::Fail(SimpleDnsError::InsufficientData)
        } else {
            let t = be_val(data.subrange(pos + c, pos + c + 2));
            let cf = be_val(data.subrange(pos + c + 2, pos + c + 4));
            match spec_qtype_from_code(t as u16) {
                None => QuestionParse::Fail(SimpleDnsError::UnrecognizedValue),
                Some(qt) => match spec_qclass_from_code((cf % 32768) as u16) {
                    None => QuestionParse::Fail(SimpleDnsError::UnrecognizedValue),
                    Some(qc) => QuestionParse::Parsed(
                        QuestionView {
                            qname: ls,
                            qtype: qt,
                            qclass: qc,
                            unicast_response: cf >= 32768,
                        },
                        c + 4,
                    ),
                },
            }
        },
    }
}

impl Question {
    /// Creates a new question.
    pub fn new(qname: Name, qtype: QTYPE, qclass: QCLASS, unicast_response: bool) -> (r: Question)
        ensures
            r@ == (QuestionView { qname: qname@, qtype, qclass, unicast_response }),
    {
        Question { qname, qtype, qclass, unicast_response }
    }

    /// A well-formed question: its name is well-formed.
    pub open spec fn wf(&self) -> bool {
        wf_labels(self@.qname)
    }

    /// Transforms the inner data into its owned form.  Names always
    /// own their label storage here, so this is the identity.
    pub fn into_owned(self) -> (r: Question)
        ensures
            r@ == self@,
    {
        Question {
            qname: self.qname.into_owned(),
            qtype: self.qtype,
            qclass: self.qclass,
            unicast_response: self.unicast_response,
        }
    }

    /// The uncompressed wire length: the name plus four bytes.
    pub fn len(&self) -> (r: usize)
        requires
            self.wf(),
        ensures
            r == spec_encoded_len(self@.qname) + 4,
            r == question_wire(self@).len(),
    {
        proof {
            lemma_be_bytes_len(spec_qtype_code(self@.qtype) as int, 2);
            lemma_be_bytes_len(spec_class_field(self@.qclass, self@.unicast_response), 2);
        }
        self.qname.len() + 4
    }

    /// Writes the query type and the class field, the class value with
    /// the unicast-response flag folded into its high bit.
    fn write_common(&self, out: &mut Vec<u8>)
        ensures
            final(out)@ == old(out)@ + question_tail(self@),
    {
        let t = self.qtype.code();
        push_be(out, t as u128, 2);
        let c0 = self.qclass.code();
        let mut cf = c0;
        if self.unicast_response {
            proof {
                crate::types::lemma_qclass_code_small(self.qclass);
            }
            cf = c0 | 0x8000;
            assert(cf == c0 + 32768) by (bit_vector)
                requires
                    cf == c0 | 0x8000,
                    c0 < 32768,
            ;
        }
        push_be(out, cf as u128, 2);
        proof {
            assert(out@ =~= old(out)@ + question_tail(self@));
        }
    }

    /// Writes the uncompressed wire form: the name, then the type and
    /// class field.
    pub fn write_to(&self, out: &mut Vec<u8>)
        requires
            self.wf(),
        ensures
            final(out)@ == old(out)@ + question_wire(self@),
    {
        self.qname.write_to(out);
        self.write_common(out);
        proof {
            assert(out@ =~= old(out)@ + question_wire(self@));
        }
    }

    /// Writes the wire form using name compression against the shared
    /// table, then the type and class field.  The written bytes decode
    /// back to this question and never exceed the uncompressed form.
    pub fn write_compressed_to(&self, out: &mut Vec<u8>, name_refs: &mut crate::name::NameRefs)
        requires
            self.wf(),
            crate::name::refs_wf(old(name_refs)@, old(out)@),
        ensures
            crate::name::refs_wf(final(name_refs)@, final(out)@),
            final(out)@.len() == old(out)@.len() + crate::name::spec_compressed_len(
                self@.qname,
                old(name_refs)@,
            ) + 4,
            final(out)@.len() <= old(out)@.len() + question_wire(self@).len(),
            final(out)@.subrange(0, old(out)@.len() as int) == old(out)@,
            spec_parse_question(final(out)@, old(out)@.len() as int) == QuestionParse::Parsed(
                self@,
                crate::name::spec_compressed_len(self@.qname, old(name_refs)@) + 4,
            ),
    {
        let ghost oldout = out@;
        let ghost start = out@.len() as int;
        let ghost clen = crate::name::spec_compressed_len(self@.qname, old(name_refs)@);
        self.qname.write_compressed_to(out, name_refs);
        let ghost f1 = out@;
        self.write_common(out);
        let ghost f = out@;
        let ghost tail = question_tail(self@);
        proof {
            lemma_be_bytes_len(spec_qtype_code(self@.qtype) as int, 2);
            lemma_be_bytes_len(spec_class_field(self@.qclass, self@.unicast_response), 2);
            assert(f == f1 + tail);
            // the name still decodes after the tail is appended
            crate::name::lemma_parse_extend(f1, tail, start, f1.len() as nat);
            crate::name::lemma_parse_fuel_mono(f, start, f1.len() as nat, f.len() as nat);
            assert(spec_parse_name(f, start, f.len() as nat) == NameParse::Parsed(
                self@.qname,
                clen,
            ));
            // the four tail bytes
            crate::wire::lemma_concat_sub(f1, tail);
            crate::wire::lemma_subrange_transfer(f, f1.len() as int, tail, 0, 2);
            crate::wire::lemma_subrange_transfer(f, f1.len() as int, tail, 2, 4);
            let tb = be_bytes(spec_qtype_code(self@.qtype) as int, 2);
            let cb = be_bytes(spec_class_field(self@.qclass, self@.unicast_response), 2);
            crate::wire::lemma_concat_sub(tb, cb);
            assert(tail.subrange(0, 2) == tb);
            assert(tail.subrange(2, 4) =~= cb);
            assert(f.subrange(start + clen, start + clen + 2) == tb);
            assert(f.subrange(start + clen + 2, start + clen + 4) == cb);
            assert(pow256(2) == 65536) by {
                reveal_with_fuel(pow256, 3);
            }
            crate::types::lemma_qclass_code_small(self@.qclass);
            lemma_be_round_trip(spec_qtype_code(self@.qtype) as int, 2);
            lemma_be_round_trip(
                spec_class_field(self@.qclass, self@.unicast_response),
                2,
            );
            crate::types::lemma_qtype_code_round_trip(self@.qtype);
            crate::types::lemma_qclass_code_round_trip(self@.qclass);
            let cf = spec_class_field(self@.qclass, self@.unicast_response);
            assert(cf % 32768 == spec_qclass_code(self@.qclass));
            assert((cf >= 32768) == self@.unicast_response);
            assert(f.subrange(0, start) =~= oldout);
            // table entries still decode after the tail is appended
            assert forall|e: int| 0 <= e < name_refs@.len() implies crate::name::entry_ok(
                name_refs@[e].0,
                name_refs@[e].1,
                f,
            ) by {
                assert(crate::name::entry_ok(name_refs@[e].0, name_refs@[e].1, f1));
                crate::name::lemma_parse_extend(f1, tail, name_refs@[e].1, name_refs@[e].1 as nat);
            }
        }
    }

    /// Decodes a question from `data` at `position`.  On success
    /// returns the question and the bytes consumed.
    pub fn parse(data: &[u8], position: usize) -> (r: Result<(Question, usize), SimpleDnsError>)
        ensures
            match r {
                Ok((q, c)) => spec_parse_question(data@, position as int) == QuestionParse::Parsed(
                    q@,
                    c as int,
                ) && q.wf() && position + c <= data@.len(),
                Err(e) => spec_parse_question(data@, position as int) == QuestionParse::Fail(e),
            },
    {
        let (qname, name_len) = match Name::parse(data, position) {
            Ok(p) => p,
            Err(e) => {
                return Err(e);
            },
        };
        let n = data.len();
        let offset = position + name_len;
        if n < 4 || offset > n - 4 {
            return Err(SimpleDnsError::InsufficientData);
        }
        let t_raw = read_be(data, offset, 2);
        let cf_raw = read_be(data, offset + 2, 2);
        proof {
            lemma_be_val_bound(data@.subrange(offset as int, offset as int + 2));
            lemma_be_val_bound(data@.subrange(offset as int + 2, offset as int + 4));
            assert(pow256(2) == 65536) by {
                reveal_with_fuel(pow256, 3);
            }
        }
        let qtype = match QTYPE::from_code(t_raw as u16) {
            Ok(t) => t,
            Err(e) => {
                return Err(e);
            },
        };
        let qclass = match QCLASS::from_code((cf_raw % 32768) as u16) {
            Ok(c) => c,
            Err(e) => {
                return Err(e);
            },
        };
        let unicast_response = cf_raw >= 32768;
        Ok((Question { qname, qtype, qclass, unicast_response }, name_len + 4))
    }
}

/// Appending bytes to the buffer never changes a successfully decoded
/// question at an earlier position.
pub proof fn lemma_question_parse_extend(data: Seq<u8>, ext: Seq<u8>, pos: int)
    requires
        spec_parse_question(data, pos) is Parsed,
    ensures
        spec_parse_question(data + ext, pos) == spec_parse_question(data, pos),
{
    let full = data + ext;
    match spec_parse_name(data, pos, data.len() as nat) {
        NameParse::Parsed(ls, c) => {
            crate::name::lemma_parse_shape(data, pos, data.len() as nat);
            crate::name::lemma_parse_extend(data, ext, pos, data.len() as nat);
            crate::name::lemma_parse_fuel_mono(full, pos, data.len() as nat, full.len() as nat);
            assert(spec_parse_name(full, pos, full.len() as nat) == NameParse::Parsed(ls, c));
            assert(pos + c + 4 <= data.len());
            assert(full.subrange(pos + c, pos + c + 2) =~= data.subrange(pos + c, pos + c + 2));
            assert(full.subrange(pos + c + 2, pos + c + 4) =~= data.subrange(
                pos + c + 2,
                pos + c + 4,
            ));
        },
        _ => {
            assert(false);
        },
    }
}

/// Round trip: the uncompressed wire form of any well-formed question,
/// placed at any position of a buffer, decodes back to the same
/// question (name labels, type, class and unicast-response flag) and
/// consumes exactly its wire length.
pub proof fn lemma_question_round_trip(data: Seq<u8>, pos: int, q: QuestionView)
    requires
        wf_labels(q.qname),
        0 <= pos,
        pos + question_wire(q).len() <= data.len(),
        data.subrange(pos, pos + question_wire(q).len()) == question_wire(q),
    ensures
        spec_parse_question(data, pos) == QuestionParse::Parsed(
            q,
            spec_encoded_len(q.qname) + 4,
        ),
{
    let nl = spec_encoded_len(q.qname);
    let tcode = spec_qtype_code(q.qtype) as int;
    let cf = spec_class_field(q.qclass, q.unicast_response);
    lemma_be_bytes_len(tcode, 2);
    lemma_be_bytes_len(cf, 2);
    let wire = question_wire(q);
    assert(wire.len() == nl + 4);
    assert(forall|j: int| 0 <= j < nl + 4 ==> data[pos + j] == #[trigger] wire[j]) by {
        assert(forall|j: int|
            0 <= j < nl + 4 ==> data[pos + j] == #[trigger] data.subrange(pos, pos + nl + 4)[j]);
    }
    assert(data.subrange(pos, pos + nl) =~= spec_encode(q.qname)) by {
        assert(forall|j: int| 0 <= j < nl ==> #[trigger] wire[j] == spec_encode(q.qname)[j]);
    }
    lemma_parse_encode(data, pos, q.qname, data.len() as nat);
    assert(spec_parse_name(data, pos, data.len() as nat) == NameParse::Parsed(q.qname, nl));
    let tail = question_tail(q);
    assert(tail.len() == 4);
    assert(tail[0] == be_bytes(tcode, 2)[0]);
    assert(tail[1] == be_bytes(tcode, 2)[1]);
    assert(tail[2] == be_bytes(cf, 2)[0]);
    assert(tail[3] == be_bytes(cf, 2)[1]);
    assert(wire[nl] == tail[0]);
    assert(wire[nl + 1] == tail[1]);
    assert(wire[nl + 2] == tail[2]);
    assert(wire[nl + 3] == tail[3]);
    assert(data[pos + nl] == wire[nl]);
    assert(data[pos + nl + 1] == wire[nl + 1]);
    assert(data[pos + nl + 2] == wire[nl + 2]);
    assert(data[pos + nl + 3] == wire[nl + 3]);
    assert(data.subrange(pos + nl, pos + nl + 2) =~= be_bytes(tcode, 2)) by {
        assert(data.subrange(pos + nl, pos + nl + 2)[0] == data[pos + nl]);
        assert(data.subrange(pos + nl, pos + nl + 2)[1] == data[pos + nl + 1]);
    }
    assert(data.subrange(pos + nl + 2, pos + nl + 4) =~= be_bytes(cf, 2)) by {
        assert(data.subrange(pos + nl + 2, pos + nl + 4)[0] == data[pos + nl + 2]);
        assert(data.subrange(pos + nl + 2, pos + nl + 4)[1] == data[pos + nl + 3]);
    }
    assert(pow256(2) == 65536) by {
        reveal_with_fuel(pow256, 3);
    }
    crate::types::lemma_qclass_code_small(q.qclass);
    lemma_be_round_trip(tcode, 2);
    lemma_be_round_trip(cf, 2);
    assert(cf % 32768 == spec_qclass_code(q.qclass));
    assert((cf >= 32768) == q.unicast_response);
    crate::types::lemma_qtype_code_round_trip(q.qtype);
    crate::types::lemma_qclass_code_round_trip(q.qclass);
}

} // verus!
