//! The 12-byte DNS packet header: id, flag bits and section counts.

use vstd::prelude::*;

use crate::errors::SimpleDnsError;
use crate::wire::{
    be_bytes, be_val, lemma_be_bytes_len, lemma_be_round_trip, lemma_be_val_bound,
    lemma_concat_sub, lemma_prefix_sub, lemma_subrange_transfer, pow256, push_be, read_be,
};

verus! {

/// The header of a DNS packet.
#[derive(Clone, Copy, Debug, PartialEq, Eq, Structural)]
pub struct PacketHeader {
    /// The query identifier, echoed in the reply.
    pub id: u16,
    /// False for a query, true for a response.
    pub response: bool,
    /// The operation code (4 bits).
    pub opcode: u8,
    /// Whether the responder is authoritative for the answers.
    pub authoritative_answer: bool,
    /// Whether the message was truncated.
    pub truncated: bool,
    /// Whether recursion is desired.
    pub recursion_desired: bool,
    /// Whether recursion is available.
    pub recursion_available: bool,
    /// The response code (4 bits).
    pub response_code: u8,
    /// Number of questions.
    pub question_count: u16,
    /// Number of answer records.
    pub answer_count: u16,
    /// Number of authority records.
    pub authority_count: u16,
    /// Number of additional records.
    pub additional_count: u16,
}

/// A well-formed header: the two 4-bit fields fit in 4 bits.
pub open spec fn header_wf(h: PacketHeader) -> bool {
    h.opcode < 16 && h.response_code < 16
}

/// The header's third wire byte: QR bit, opcode, AA, TC and RD bits.
pub open spec fn spec_flags1(h: PacketHeader) -> u8 {
    ((if h.response {
        128int
    } else {
        0int
    }) + h.opcode * 8 + (if h.authoritative_answer {
        4int
    } else {
        0int
    }) + (if h.truncated {
        2int
    } else {
        0int
    }) + (if h.recursion_desired {
        1int
    } else {
        0int
    })) as u8
}

/// The header's fourth wire byte: RA bit, zero bits and the response
/// code.
pub open spec fn spec_flags2(h: PacketHeader) -> u8 {
    ((if h.recursion_available {
        128int
    } else {
        0int
    }) + h.response_code) as u8
}

/// The 12 wire bytes of a header.
pub open spec fn header_wire(h: PacketHeader) -> Seq<u8> {
    be_bytes(h.id as int, 2) + seq![spec_flags1(h), spec_flags2(h)] + be_bytes(
        h.question_count as int,
        2,
    ) + be_bytes(h.answer_count as int, 2) + be_bytes(h.authority_count as int, 2) + be_bytes(
        h.additional_count as int,
        2,
    )
}

/// Decodes a header from the first 12 bytes of a packet.
pub open spec fn spec_parse_header(data: Seq<u8>) -> Result<PacketHeader, SimpleDnsError> {
    if data.len() < 12 {
        Err(SimpleDnsError::InsufficientData)
    } else {
        let f1 = data[2] as int;
        let f2 = data[3] as int;
        Ok(
            PacketHeader {
                id: be_val(data.subrange(0, 2)) as u16,
                response: f1 / 128 == 1,
                opcode: ((f1 / 8) % 16) as u8,
                authoritative_answer: (f1 / 4) % 2 == 1,
                truncated: (f1 / 2) % 2 == 1,
                recursion_desired: f1 % 2 == 1,
                recursion_available: f2 / 128 == 1,
                response_code: (f2 % 16) as u8,
                question_count: be_val(data.subrange(4, 6)) as u16,
                answer_count: be_val(data.subrange(6, 8)) as u16,
                authority_count: be_val(data.subrange(8, 10)) as u16,
                additional_count: be_val(data.subrange(10, 12)) as u16,
            },
        )
    }
}

impl PacketHeader {
    /// A fresh query header with the given id; all flags clear but
    /// the truncation flag as given, and all counts zero.
    pub fn new_query(id: u16, truncated: bool) -> (r: PacketHeader)
        ensures
            r == (PacketHeader {
                id,
                response: false,
                opcode: 0,
                authoritative_answer: false,
                truncated,
                recursion_desired: false,
                recursion_available: false,
                response_code: 0,
                question_count: 0,
                answer_count: 0,
                authority_count: 0,
                additional_count: 0,
            }),
            header_wf(r),
    {
        PacketHeader {
            id,
            response: false,
            opcode: 0,
            authoritative_answer: false,
            truncated,
            recursion_desired: false,
            recursion_available: false,
            response_code: 0,
            question_count: 0,
            answer_count: 0,
            authority_count: 0,
            additional_count: 0,
        }
    }

    /// A reply header mirroring the query's id and opcode, with the
    /// response and authoritative-answer bits set and all counts
    /// zero.
    pub fn new_reply(id: u16, opcode: u8) -> (r: PacketHeader)
        requires
            opcode < 16,
        ensures
            r == (PacketHeader {
                id,
                response: true,
                opcode,
                authoritative_answer: true,
                truncated: false,
                recursion_desired: false,
                recursion_available: false,
                response_code: 0,
                question_count: 0,
                answer_count: 0,
                authority_count: 0,
                additional_count: 0,
            }),
            header_wf(r),
    {
        PacketHeader {
            id,
            response: true,
            opcode,
            authoritative_answer: true,
            truncated: false,
            recursion_desired: false,
            recursion_available: false,
            response_code: 0,
            question_count: 0,
            answer_count: 0,
            authority_count: 0,
            additional_count: 0,
        }
    }

    /// Writes the 12 header bytes.
    pub fn write_to(&self, out: &mut Vec<u8>)
        requires
            header_wf(*self),
        ensures
            final(out)@ == old(out)@ + header_wire(*self),
    {
        push_be(out, self.id as u128, 2);
        let mut f1: u8 = self.opcode * 8;
        if self.response {
            f1 = f1 + 128;
        }
        if self.authoritative_answer {
            f1 = f1 + 4;
        }
        if self.truncated {
            f1 = f1 + 2;
        }
        if self.recursion_desired {
            f1 = f1 + 1;
        }
        let mut f2: u8 = self.response_code;
        if self.recursion_available {
            f2 = f2 + 128;
        }
        assert(f1 == spec_flags1(*self));
        assert(f2 == spec_flags2(*self));
        out.push(f1);
        out.push(f2);
        push_be(out, self.question_count as u128, 2);
        push_be(out, self.answer_count as u128, 2);
        push_be(out, self.authority_count as u128, 2);
        push_be(out, self.additional_count as u128, 2);
        proof {
            assert(out@ =~= old(out)@ + header_wire(*self));
        }
    }

    /// Decodes a header from the first 12 bytes of `data`.
    pub fn parse(data: &[u8]) -> (r: Result<PacketHeader, SimpleDnsError>)
        ensures
            match r {
                Ok(h) => spec_parse_header(data@) == Ok::<PacketHeader, SimpleDnsError>(h)
                    && header_wf(h),
                Err(e) => spec_parse_header(data@) == Err::<PacketHeader, SimpleDnsError>(e),
            },
    {
        if data.len() < 12 {
            return Err(SimpleDnsError::InsufficientData);
        }
        let id = read_be(data, 0, 2);
        let f1 = *vstd::slice::slice_index_get(data, 2);
        let f2 = *vstd::slice::slice_index_get(data, 3);
        let qd = read_be(data, 4, 2);
        let an = read_be(data, 6, 2);
        let ns = read_be(data, 8, 2);
        let ar = read_be(data, 10, 2);
        proof {
            lemma_be_val_bound(data@.subrange(0, 2));
            lemma_be_val_bound(data@.subrange(4, 6));
            lemma_be_val_bound(data@.subrange(6, 8));
            lemma_be_val_bound(data@.subrange(8, 10));
            lemma_be_val_bound(data@.subrange(10, 12));
            reveal_with_fuel(pow256, 3);
        }
        Ok(
            PacketHeader {
                id: id as u16,
                response: f1 / 128 == 1,
                opcode: (f1 / 8) % 16,
                authoritative_answer: (f1 / 4) % 2 == 1,
                truncated: (f1 / 2) % 2 == 1,
                recursion_desired: f1 % 2 == 1,
                recursion_available: f2 / 128 == 1,
                response_code: f2 % 16,
                question_count: qd as u16,
                answer_count: an as u16,
                authority_count: ns as u16,
                additional_count: ar as u16,
            },
        )
    }
}

/// A header's wire form is exactly 12 bytes.
pub proof fn lemma_header_wire_len(h: PacketHeader)
    ensures
        header_wire(h).len() == 12,
{
    lemma_be_bytes_len(h.id as int, 2);
    lemma_be_bytes_len(h.question_count as int, 2);
    lemma_be_bytes_len(h.answer_count as int, 2);
    lemma_be_bytes_len(h.authority_count as int, 2);
    lemma_be_bytes_len(h.additional_count as int, 2);
}

/// Round trip: the wire form of a well-formed header, at the start of
/// any buffer, decodes back to the same header.
pub proof fn lemma_header_round_trip(data: Seq<u8>, h: PacketHeader)
    requires
        header_wf(h),
        header_wire(h).len() <= data.len(),
        data.subrange(0, header_wire(h).len() as int) == header_wire(h),
    ensures
        spec_parse_header(data) == Ok::<PacketHeader, SimpleDnsError>(h),
{
    let i2 = be_bytes(h.id as int, 2);
    let fb = seq![spec_flags1(h), spec_flags2(h)];
    let c1 = be_bytes(h.question_count as int, 2);
    let c2 = be_bytes(h.answer_count as int, 2);
    let c3 = be_bytes(h.authority_count as int, 2);
    let c4 = be_bytes(h.additional_count as int, 2);
    lemma_be_bytes_len(h.id as int, 2);
    lemma_be_bytes_len(h.question_count as int, 2);
    lemma_be_bytes_len(h.answer_count as int, 2);
    lemma_be_bytes_len(h.authority_count as int, 2);
    lemma_be_bytes_len(h.additional_count as int, 2);
    let w = header_wire(h);
    let q1 = i2 + fb;
    let q2 = q1 + c1;
    let q3 = q2 + c2;
    let q4 = q3 + c3;
    assert(w == q4 + c4);
    assert(w.len() == 12);
    lemma_subrange_transfer(data, 0, w, 0, 2);
    lemma_subrange_transfer(data, 0, w, 4, 6);
    lemma_subrange_transfer(data, 0, w, 6, 8);
    lemma_subrange_transfer(data, 0, w, 8, 10);
    lemma_subrange_transfer(data, 0, w, 10, 12);
    lemma_concat_sub(q4, c4);
    lemma_prefix_sub(q4, c4, 0, 2);
    lemma_prefix_sub(q4, c4, 4, 6);
    lemma_prefix_sub(q4, c4, 6, 8);
    lemma_prefix_sub(q4, c4, 8, 10);
    lemma_concat_sub(q3, c3);
    lemma_prefix_sub(q3, c3, 0, 2);
    lemma_prefix_sub(q3, c3, 4, 6);
    lemma_prefix_sub(q3, c3, 6, 8);
    lemma_concat_sub(q2, c2);
    lemma_prefix_sub(q2, c2, 0, 2);
    lemma_prefix_sub(q2, c2, 4, 6);
    lemma_concat_sub(q1, c1);
    lemma_prefix_sub(q1, c1, 0, 2);
    lemma_concat_sub(i2, fb);
    assert(data.subrange(0, 2) == i2);
    assert(data.subrange(4, 6) == c1);
    assert(data.subrange(6, 8) == c2);
    assert(data.subrange(8, 10) == c3);
    assert(data.subrange(10, 12) == c4);
    reveal_with_fuel(pow256, 3);
    lemma_be_round_trip(h.id as int, 2);
    lemma_be_round_trip(h.question_count as int, 2);
    lemma_be_round_trip(h.answer_count as int, 2);
    lemma_be_round_trip(h.authority_count as int, 2);
    lemma_be_round_trip(h.additional_count as int, 2);
    // the two flag bytes
    assert(w[2] == q1[2]);
    assert(q1[2] == fb[0]);
    assert(w[3] == q1[3]);
    assert(q1[3] == fb[1]);
    assert(data[2] == data.subrange(0, 12)[2]);
    assert(data[3] == data.subrange(0, 12)[3]);
    assert(data.subrange(0, 12) == w);
    assert(data[2] == spec_flags1(h));
    assert(data[3] == spec_flags2(h));
    let f1 = spec_flags1(h) as int;
    let f2 = spec_flags2(h) as int;
    let r: int = if h.response {
        1
    } else {
        0
    };
    let o: int = h.opcode as int;
    let a: int = if h.authoritative_answer {
        1
    } else {
        0
    };
    let t: int = if h.truncated {
        1
    } else {
        0
    };
    let d: int = if h.recursion_desired {
        1
    } else {
        0
    };
    assert(f1 == 128 * r + 8 * o + 4 * a + 2 * t + d);
    assert(f1 / 128 == r) by (nonlinear_arith)
        requires
            f1 == 128 * r + 8 * o + 4 * a + 2 * t + d,
            0 <= o < 16,
            0 <= a <= 1,
            0 <= t <= 1,
            0 <= d <= 1,
            0 <= r <= 1,
    ;
    assert((f1 / 8) % 16 == o) by (nonlinear_arith)
        requires
            f1 == 128 * r + 8 * o + 4 * a + 2 * t + d,
            0 <= o < 16,
            0 <= a <= 1,
            0 <= t <= 1,
            0 <= d <= 1,
            0 <= r <= 1,
    ;
    assert((f1 / 4) % 2 == a) by (nonlinear_arith)
        requires
            f1 == 128 * r + 8 * o + 4 * a + 2 * t + d,
            0 <= o < 16,
            0 <= a <= 1,
            0 <= t <= 1,
            0 <= d <= 1,
            0 <= r <= 1,
    ;
    assert((f1 / 2) % 2 == t) by (nonlinear_arith)
        requires
            f1 == 128 * r + 8 * o + 4 * a + 2 * t + d,
            0 <= o < 16,
            0 <= a <= 1,
            0 <= t <= 1,
            0 <= d <= 1,
            0 <= r <= 1,
    ;
    assert(f1 % 2 == d) by (nonlinear_arith)
        requires
            f1 == 128 * r + 8 * o + 4 * a + 2 * t + d,
            0 <= o < 16,
            0 <= a <= 1,
            0 <= t <= 1,
            0 <= d <= 1,
            0 <= r <= 1,
    ;
    let v: int = if h.recursion_available {
        1
    } else {
        0
    };
    let rc: int = h.response_code as int;
    assert(f2 == 128 * v + rc);
    assert(f2 / 128 == v) by (nonlinear_arith)
        requires
            f2 == 128 * v + rc,
            0 <= rc < 16,
            0 <= v <= 1,
    ;
    assert(f2 % 16 == rc) by (nonlinear_arith)
        requires
            f2 == 128 * v + rc,
            0 <= rc < 16,
            0 <= v <= 1,
    ;
}

} // verus!
