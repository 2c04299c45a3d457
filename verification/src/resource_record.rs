//! Resource records: owner name, type, class, TTL and the typed RDATA
//! payload, with their wire codec.

use vstd::prelude::*;

use crate::errors::SimpleDnsError;
use crate::name::{
    lemma_parse_encode, spec_encode, spec_encoded_len, spec_parse_name, wf_labels, Name,
    NameParse,
};
use crate::types::{
    spec_class_code, spec_class_from_code, spec_type_code, spec_type_from_code, CLASS, QCLASS,
    QTYPE, TYPE,
};
use crate::wire::{
    be_bytes, be_val, lemma_be_bytes_len, lemma_be_round_trip, lemma_be_val_bound,
    lemma_concat_sub, lemma_prefix_sub, lemma_subrange_transfer, pow256, push_be, read_be,
};

verus! {

/// The abstract value of an RDATA payload.
pub enum RDataView {
    /// An IPv4 address, as its 32-bit value.
    A { address: u32 },
    /// An IPv6 address, as its 128-bit value.
    AAAA { address: u128 },
    /// A service locator.
    SRV { priority: u16, weight: u16, port: u16, target: Seq<Seq<u8>> },
    /// The raw payload of any other record type.
    Other { bytes: Seq<u8> },
}

/// The typed payload of a resource record.  Types that the matching
/// logic does not inspect carry their raw wire bytes.
pub enum RData {
    /// An IPv4 address, as its 32-bit value.
    A { address: u32 },
    /// An IPv6 address, as its 128-bit value.
    AAAA { address: u128 },
    /// A service locator: priority, weight, port and target host name.
    SRV { priority: u16, weight: u16, port: u16, target: Name },
    /// The raw payload of any other record type.
    Other { bytes: Vec<u8> },
}

impl View for RData {
    type V = RDataView;

    open spec fn view(&self) -> RDataView {
        match self {
            RData::A { address } => RDataView::A { address: *address },
            RData::AAAA { address } => RDataView::AAAA { address: *address },
            RData::SRV { priority, weight, port, target } => RDataView::SRV {
                priority: *priority,
                weight: *weight,
                port: *port,
                target: target@,
            },
            RData::Other { bytes } => RDataView::Other { bytes: bytes@ },
        }
    }
}

/// The wire bytes of an RDATA payload (without the length prefix).
pub open spec fn rdata_wire(r: RDataView) -> Seq<u8> {
    match r {
        RDataView::A { address } => be_bytes(address as int, 4),
        RDataView::AAAA { address } => be_bytes(address as int, 16),
        RDataView::SRV { priority, weight, port, target } => be_bytes(priority as int, 2)
            + be_bytes(weight as int, 2) + be_bytes(port as int, 2) + spec_encode(target),
        RDataView::Other { bytes } => bytes,
    }
}

/// Whether a record type tag agrees with the payload's variant.
pub open spec fn rdata_matches_type(t: TYPE, r: RDataView) -> bool {
    match r {
        RDataView::A { .. } => t == TYPE::A,
        RDataView::AAAA { .. } => t == TYPE::AAAA,
        RDataView::SRV { .. } => t == TYPE::SRV,
        RDataView::Other { .. } => t != TYPE::A && t != TYPE::AAAA && t != TYPE::SRV,
    }
}

/// The abstract value of a resource record.
pub struct ResourceRecordView {
    /// The owner name's labels.
    pub name: Seq<Seq<u8>>,
    /// The record type.
    pub rdatatype: TYPE,
    /// The record class.
    pub class: CLASS,
    /// Time to live, in seconds.
    pub ttl: u32,
    /// The payload.
    pub rdata: RDataView,
}

/// A well-formed record: well-formed names, a type tag that agrees
/// with the payload variant, and a payload that fits the 16-bit
/// length prefix.
pub open spec fn rr_wf(r: ResourceRecordView) -> bool {
    &&& wf_labels(r.name)
    &&& rdata_matches_type(r.rdatatype, r.rdata)
    &&& match r.rdata {
        RDataView::SRV { target, .. } => wf_labels(target),
        _ => true,
    }
    &&& rdata_wire(r.rdata).len() <= 65535
}

/// The bytes that follow a record's owner name: type, class, TTL,
/// RDATA length, RDATA.
pub open spec fn rr_tail(r: ResourceRecordView) -> Seq<u8> {
    be_bytes(spec_type_code(r.rdatatype) as int, 2) + be_bytes(spec_class_code(r.class) as int, 2)
        + be_bytes(r.ttl as int, 4) + be_bytes(rdata_wire(r.rdata).len() as int, 2) + rdata_wire(
        r.rdata,
    )
}

/// The full uncompressed wire form of a resource record.
pub open spec fn rr_wire(r: ResourceRecordView) -> Seq<u8> {
    spec_encode(r.name) + rr_tail(r)
}

/// The outcome of decoding a resource record.
pub enum RecordParse {
    /// The decoded record and the bytes consumed.
    Parsed(ResourceRecordView, int),
    /// Decoding failed with the given error.
    Fail(SimpleDnsError),
}

/// Decodes a resource record from `data` at `pos`: owner name, type,
/// class, TTL, RDATA length, then the payload dispatched on the type.
pub open spec fn spec_parse_rr(data: Seq<u8>, pos: int) -> RecordParse {
    match spec_parse_name(data, pos, data.len()) {
        NameParse::Truncated => RecordParse::Fail(SimpleDnsError::InsufficientData),
        NameParse::BadLabel => RecordParse::Fail(SimpleDnsError::UnrecognizedValue),
        NameParse::BadPointer => RecordParse::Fail(SimpleDnsError::MalformedPointer),
        NameParse::Parsed(ls, c) => if spec_encoded_len(ls) > 255 {
            RecordParse::Fail(SimpleDnsError::NameTooLong)
        } else if pos + c + 10 > data.len() {
            RecordParse::Fail(SimpleDnsError::InsufficientData)
        } else {
            let t_raw = be_val(data.subrange(pos + c, pos + c + 2));
            let cl_raw = be_val(data.subrange(pos + c + 2, pos + c + 4));
            let ttl = be_val(data.subrange(pos + c + 4, pos + c + 8));
            let rdlen = be_val(data.subrange(pos + c + 8, pos + c + 10));
            match spec_type_from_code(t_raw as u16) {
                None => RecordParse::Fail(SimpleDnsError::UnrecognizedValue),
                Some(t) => match spec_class_from_code(cl_raw as u16) {
                    None => RecordParse::Fail(SimpleDnsError::UnrecognizedValue),
                    Some(cl) => if pos + c + 10 + rdlen > data.len() {
                        RecordParse::Fail(SimpleDnsError::InsufficientData)
                    } else {
                        let rd_off = pos + c + 10;
                        match spec_parse_rdata(data, rd_off, rdlen, t) {
                            Ok(rd) => RecordParse::Parsed(
                                ResourceRecordView {
                                    name: ls,
                                    rdatatype: t,
                                    class: cl,
                                    ttl: ttl as u32,
                                    rdata: rd,
                                },
                                c + 10 + rdlen,
                            ),
                            Err(e) => RecordParse::Fail(e),
                        }
                    },
                },
            }
        },
    }
}

/// Decodes an RDATA payload of `rdlen` bytes at `pos`, dispatched on
/// the record type.
pub open spec fn spec_parse_rdata(data: Seq<u8>, pos: int, rdlen: int, t: TYPE) -> Result<
    RDataView,
    SimpleDnsError,
> {
    if t == TYPE::A {
        if rdlen != 4 {
            Err(SimpleDnsError::InsufficientData)
        } else {
            Ok(RDataView::A { address: be_val(data.subrange(pos, pos + 4)) as u32 })
        }
    } else if t == TYPE::AAAA {
        if rdlen != 16 {
            Err(SimpleDnsError::InsufficientData)
        } else {
            Ok(RDataView::AAAA { address: be_val(data.subrange(pos, pos + 16)) as u128 })
        }
    } else if t == TYPE::SRV {
        if rdlen < 6 {
            Err(SimpleDnsError::InsufficientData)
        } else {
            match spec_parse_name(data, pos + 6, data.len()) {
                NameParse::Truncated => Err(SimpleDnsError::InsufficientData),
                NameParse::BadLabel => Err(SimpleDnsError::UnrecognizedValue),
                NameParse::BadPointer => Err(SimpleDnsError::MalformedPointer),
                NameParse::Parsed(tls, _) => if spec_encoded_len(tls) > 255 {
                    Err(SimpleDnsError::NameTooLong)
                } else {
                    Ok(
                        RDataView::SRV {
                            priority: be_val(data.subrange(pos, pos + 2)) as u16,
                            weight: be_val(data.subrange(pos + 2, pos + 4)) as u16,
                            port: be_val(data.subrange(pos + 4, pos + 6)) as u16,
                            target: tls,
                        },
                    )
                },
            }
        }
    } else {
        Ok(RDataView::Other { bytes: data.subrange(pos, pos + rdlen) })
    }
}

/// A resource record.
pub struct ResourceRecord {
    /// The owner name.
    pub name: Name,
    /// The record type.
    pub rdatatype: TYPE,
    /// The record class.
    pub class: CLASS,
    /// Time to live, in seconds.
    pub ttl: u32,
    /// The payload.
    pub rdata: RData,
}

impl View for ResourceRecord {
    type V = ResourceRecordView;

    open spec fn view(&self) -> ResourceRecordView {
        ResourceRecordView {
            name: self.name@,
            rdatatype: self.rdatatype,
            class: self.class,
            ttl: self.ttl,
            rdata: self.rdata@,
        }
    }
}

impl RData {
    /// Copies this payload.
    pub fn duplicate(&self) -> (r: RData)
        ensures
            r@ == self@,
    {
        match self {
            RData::A { address } => RData::A { address: *address },
            RData::AAAA { address } => RData::AAAA { address: *address },
            RData::SRV { priority, weight, port, target } => RData::SRV {
                priority: *priority,
                weight: *weight,
                port: *port,
                target: target.duplicate(),
            },
            RData::Other { bytes } => {
                let mut copy: Vec<u8> = Vec::new();
                let mut i: usize = 0;
                while i < bytes.len()
                    invariant
                        i <= bytes@.len(),
                        copy@ == bytes@.take(i as int),
                    decreases bytes@.len() - i,
                {
                    copy.push(bytes[i]);
                    proof {
                        assert(bytes@.take(i as int + 1) =~= bytes@.take(i as int).push(
                            bytes@[i as int],
                        ));
                    }
                    i += 1;
                }
                proof {
                    assert(bytes@.take(bytes@.len() as int) =~= bytes@);
                }
                RData::Other { bytes: copy }
            },
        }
    }
}

impl ResourceRecord {
    /// Creates a new resource record.
    pub fn new(name: Name, rdatatype: TYPE, class: CLASS, ttl: u32, rdata: RData) -> (r:
        ResourceRecord)
        ensures
            r@ == (ResourceRecordView {
                name: name@,
                rdatatype,
                class,
                ttl,
                rdata: rdata@,
            }),
    {
        ResourceRecord { name, rdatatype, class, ttl, rdata }
    }

    /// A well-formed record: see [`rr_wf`].
    pub open spec fn wf(&self) -> bool {
        rr_wf(self@)
    }

    /// Returns a record that owns its data.  Records always own their
    /// storage here, so this is the identity.
    pub fn into_owned(self) -> (r: ResourceRecord)
        ensures
            r@ == self@,
    {
        self
    }

    /// Copies this record.
    pub fn duplicate(&self) -> (r: ResourceRecord)
        ensures
            r@ == self@,
    {
        ResourceRecord {
            name: self.name.duplicate(),
            rdatatype: self.rdatatype,
            class: self.class,
            ttl: self.ttl,
            rdata: self.rdata.duplicate(),
        }
    }

    /// Whether this record answers a query of the given type.  `ANY`
    /// matches every record, and an `A` query also matches `AAAA`
    /// records, so one address query fetches both families.
    pub fn match_qtype(&self, qtype: QTYPE) -> (r: bool)
        ensures
            r == spec_type_matches_qtype(self@.rdatatype, qtype),
    {
        match qtype {
            QTYPE::ANY => true,
            QTYPE::TYPE(t) => {
                if t == TYPE::A {
                    self.rdatatype == TYPE::A || self.rdatatype == TYPE::AAAA
                } else {
                    self.rdatatype == t
                }
            },
        }
    }

    /// Whether this record answers a query of the given class.
    pub fn match_qclass(&self, qclass: QCLASS) -> (r: bool)
        ensures
            r == spec_class_matches_qclass(self@.class, qclass),
    {
        match qclass {
            QCLASS::ANY => true,
            QCLASS::CLASS(c) => self.class == c,
        }
    }

    /// The wire length of the RDATA payload.
    fn rdata_len(&self) -> (r: usize)
        requires
            self.wf(),
        ensures
            r == rdata_wire(self@.rdata).len(),
            r <= 65535,
    {
        proof {
            lemma_rdata_wire_len(self@.rdata);
        }
        match &self.rdata {
            RData::A { .. } => 4,
            RData::AAAA { .. } => 16,
            RData::SRV { target, .. } => 6 + target.len(),
            RData::Other { bytes } => bytes.len(),
        }
    }

    /// The uncompressed wire length of this record.
    pub fn len(&self) -> (r: usize)
        requires
            self.wf(),
        ensures
            r == rr_wire(self@).len(),
    {
        proof {
            lemma_rr_tail_len(self@);
        }
        self.name.len() + 10 + self.rdata_len()
    }

    /// Writes the RDATA payload bytes.
    fn write_rdata(&self, out: &mut Vec<u8>)
        requires
            self.wf(),
        ensures
            final(out)@ == old(out)@ + rdata_wire(self@.rdata),
    {
        match &self.rdata {
            RData::A { address } => {
                push_be(out, *address as u128, 4);
            },
            RData::AAAA { address } => {
                push_be(out, *address, 16);
            },
            RData::SRV { priority, weight, port, target } => {
                push_be(out, *priority as u128, 2);
                push_be(out, *weight as u128, 2);
                push_be(out, *port as u128, 2);
                target.write_to(out);
                proof {
                    assert(out@ =~= old(out)@ + rdata_wire(self@.rdata));
                }
            },
            RData::Other { bytes } => {
                let mut i: usize = 0;
                while i < bytes.len()
                    invariant
                        i <= bytes@.len(),
                        out@ == old(out)@ + bytes@.take(i as int),
                    decreases bytes@.len() - i,
                {
                    out.push(bytes[i]);
                    proof {
                        assert(old(out)@ + bytes@.take(i as int + 1) =~= (old(out)@ + bytes@.take(
                            i as int,
                        )).push(bytes@[i as int]));
                    }
                    i += 1;
                }
                proof {
                    assert(bytes@.take(bytes@.len() as int) =~= bytes@);
                }
            },
        }
    }

    /// Writes the uncompressed wire form: owner name, type, class,
    /// TTL, RDATA length and RDATA.
    pub fn write_to(&self, out: &mut Vec<u8>)
        requires
            self.wf(),
        ensures
            final(out)@ == old(out)@ + rr_wire(self@),
    {
        self.name.write_to(out);
        push_be(out, self.rdatatype.code() as u128, 2);
        push_be(out, self.class.code() as u128, 2);
        push_be(out, self.ttl as u128, 4);
        let rdl = self.rdata_len();
        push_be(out, rdl as u128, 2);
        self.write_rdata(out);
        proof {
            assert(out@ =~= old(out)@ + rr_wire(self@));
        }
    }

    /// Writes the wire form using name compression against the shared
    /// table: the owner name is compressed, and an SRV target
    /// participates in the same table, so a reply can share one
    /// reference between a record's name and an SRV target equal to
    /// it.  The RDATA length prefix accounts for the compressed
    /// payload.  The output never exceeds the uncompressed form.
    #[verifier::rlimit(80)]
    pub fn write_compressed_to(&self, out: &mut Vec<u8>, name_refs: &mut crate::name::NameRefs)
        requires
            self.wf(),
            crate::name::refs_wf(old(name_refs)@, old(out)@),
        ensures
            crate::name::refs_wf(final(name_refs)@, final(out)@),
            final(out)@.subrange(0, old(out)@.len() as int) == old(out)@,
            final(out)@.len() <= old(out)@.len() + rr_wire(self@).len(),
            final(out)@.len() >= old(out)@.len(),
            spec_parse_rr(final(out)@, old(out)@.len() as int) == RecordParse::Parsed(
                self@,
                final(out)@.len() - old(out)@.len(),
            ),
    {
        let ghost oldout = out@;
        self.name.write_compressed_to(out, name_refs);
        let ghost f1 = out@;
        push_be(out, self.rdatatype.code() as u128, 2);
        push_be(out, self.class.code() as u128, 2);
        push_be(out, self.ttl as u128, 4);
        let rdl: usize = match &self.rdata {
            RData::SRV { target, .. } => 6 + target.compressed_len(name_refs),
            _ => self.rdata_len(),
        };
        push_be(out, rdl as u128, 2);
        let ghost f2 = out@;
        proof {
            lemma_be_bytes_len(spec_type_code(self@.rdatatype) as int, 2);
            lemma_be_bytes_len(spec_class_code(self@.class) as int, 2);
            lemma_be_bytes_len(self@.ttl as int, 4);
            lemma_be_bytes_len(rdl as int, 2);
            assert(f2.len() == f1.len() + 10);
            assert(f2 =~= f1 + f2.subrange(f1.len() as int, f2.len() as int));
            let ext = f2.subrange(f1.len() as int, f2.len() as int);
            assert forall|e: int| 0 <= e < name_refs@.len() implies crate::name::entry_ok(
                name_refs@[e].0,
                name_refs@[e].1,
                f2,
            ) by {
                assert(crate::name::entry_ok(name_refs@[e].0, name_refs@[e].1, f1));
                crate::name::lemma_parse_extend(f1, ext, name_refs@[e].1, name_refs@[e].1 as nat);
            }
        }
        match &self.rdata {
            RData::SRV { priority, weight, port, target } => {
                push_be(out, *priority as u128, 2);
                push_be(out, *weight as u128, 2);
                push_be(out, *port as u128, 2);
                let ghost f3 = out@;
                proof {
                    match self@.rdata {
                        RDataView::SRV { priority: sp, weight: sw, port: so, .. } => {
                            lemma_be_bytes_len(sp as int, 2);
                            lemma_be_bytes_len(sw as int, 2);
                            lemma_be_bytes_len(so as int, 2);
                        },
                        _ => {},
                    }
                    assert(f3.len() == f2.len() + 6);
                    assert(f3 =~= f2 + f3.subrange(f2.len() as int, f3.len() as int));
                    let ext = f3.subrange(f2.len() as int, f3.len() as int);
                    assert forall|e: int| 0 <= e < name_refs@.len() implies crate::name::entry_ok(
                        name_refs@[e].0,
                        name_refs@[e].1,
                        f3,
                    ) by {
                        assert(crate::name::entry_ok(name_refs@[e].0, name_refs@[e].1, f2));
                        crate::name::lemma_parse_extend(
                            f2,
                            ext,
                            name_refs@[e].1,
                            name_refs@[e].1 as nat,
                        );
                    }
                }
                target.write_compressed_to(out, name_refs);
                proof {
                    lemma_rr_tail_len(self@);
                    lemma_rdata_wire_len(self@.rdata);
                    assert(out@.subrange(0, oldout.len() as int) =~= oldout);
                    // the written region decodes back to this record
                    let fin = out@;
                    let start = oldout.len() as int;
                    let nclen = f1.len() - start;
                    let tpos = f1.len() as int;
                    let tb = be_bytes(spec_type_code(self@.rdatatype) as int, 2);
                    let cb = be_bytes(spec_class_code(self@.class) as int, 2);
                    let tt = be_bytes(self@.ttl as int, 4);
                    let rlb = be_bytes(rdl as int, 2);
                    let mid = tb + cb + tt + rlb;
                    match self@.rdata {
                        RDataView::SRV { priority: sp, weight: sw, port: so, target: tg } => {
                            let pb = be_bytes(sp as int, 2);
                            let wb = be_bytes(sw as int, 2);
                            let ptb = be_bytes(so as int, 2);
                            lemma_be_bytes_len(sp as int, 2);
                            lemma_be_bytes_len(sw as int, 2);
                            lemma_be_bytes_len(so as int, 2);
                            let six = pb + wb + ptb;
                            let f25 = f2 + six;
                            assert(f25 =~= out@.subrange(0, f2.len() as int + 6));
                            assert(fin.subrange(0, f25.len() as int) == f25);
                            assert(f2 =~= f1 + mid);
                            lemma_concat_sub(f1, mid);
                            lemma_concat_sub(f2, six);
                            lemma_subrange_transfer(fin, 0, f25, tpos, tpos + 10);
                            lemma_prefix_sub(f2, six, tpos, tpos + 10);
                            assert(fin.subrange(tpos, tpos + 10) == mid);
                            lemma_subrange_transfer(fin, 0, f25, tpos + 10, tpos + 16);
                            assert(fin.subrange(tpos + 10, tpos + 16) == six);
                            lemma_subrange_transfer(fin, 0, f25, 0, f1.len() as int);
                            lemma_prefix_sub(f2, six, 0, f1.len() as int);
                            assert(fin.subrange(0, f1.len() as int) == f1);
                            let ext1 = fin.subrange(f1.len() as int, fin.len() as int);
                            assert(fin =~= f1 + ext1);
                            crate::name::lemma_parse_extend(f1, ext1, start, f1.len() as nat);
                            crate::name::lemma_parse_fuel_mono(
                                fin,
                                start,
                                f1.len() as nat,
                                fin.len() as nat,
                            );
                            assert(spec_parse_name(fin, tpos + 16, fin.len() as nat)
                                == NameParse::Parsed(tg, rdl - 6));
                            lemma_rr_compressed_parse(fin, start, nclen, self@, rdl as int);
                        },
                        _ => {
                            assert(false);
                        },
                    }
                }
            },
            _ => {
                self.write_rdata(out);
                let ghost f3 = out@;
                proof {
                    assert(f3 =~= f2 + rdata_wire(self@.rdata));
                    assert forall|e: int| 0 <= e < name_refs@.len() implies crate::name::entry_ok(
                        name_refs@[e].0,
                        name_refs@[e].1,
                        f3,
                    ) by {
                        assert(crate::name::entry_ok(name_refs@[e].0, name_refs@[e].1, f2));
                        crate::name::lemma_parse_extend(
                            f2,
                            rdata_wire(self@.rdata),
                            name_refs@[e].1,
                            name_refs@[e].1 as nat,
                        );
                    }
                    lemma_rr_tail_len(self@);
                    assert(out@.subrange(0, oldout.len() as int) =~= oldout);
                    // the written region decodes back to this record
                    let fin = f3;
                    let start = oldout.len() as int;
                    let nclen = f1.len() - start;
                    let tpos = f1.len() as int;
                    let tb = be_bytes(spec_type_code(self@.rdatatype) as int, 2);
                    let cb = be_bytes(spec_class_code(self@.class) as int, 2);
                    let tt = be_bytes(self@.ttl as int, 4);
                    let rlb = be_bytes(rdl as int, 2);
                    let mid = tb + cb + tt + rlb;
                    let rd = rdata_wire(self@.rdata);
                    assert(f2 =~= f1 + mid);
                    lemma_concat_sub(f1, mid);
                    lemma_concat_sub(f2, rd);
                    lemma_prefix_sub(f2, rd, tpos, tpos + 10);
                    assert(fin.subrange(tpos, tpos + 10) == mid);
                    assert(fin.subrange(tpos + 10, fin.len() as int) == rd);
                    lemma_prefix_sub(f2, rd, 0, f1.len() as int);
                    assert(fin.subrange(0, f1.len() as int) == f1);
                    let ext1 = fin.subrange(f1.len() as int, fin.len() as int);
                    assert(fin =~= f1 + ext1);
                    crate::name::lemma_parse_extend(f1, ext1, start, f1.len() as nat);
                    crate::name::lemma_parse_fuel_mono(
                        fin,
                        start,
                        f1.len() as nat,
                        fin.len() as nat,
                    );
                    lemma_rdata_wire_len(self@.rdata);
                    lemma_rr_compressed_parse(fin, start, nclen, self@, rdl as int);
                }
            },
        }
    }

    /// Decodes a resource record from `data` at `position`.  On
    /// success returns the record and the bytes consumed.
    pub fn parse(data: &[u8], position: usize) -> (r: Result<
        (ResourceRecord, usize),
        SimpleDnsError,
    >)
        ensures
            match r {
                Ok((rr, c)) => spec_parse_rr(data@, position as int) == RecordParse::Parsed(
                    rr@,
                    c as int,
                ) && wf_labels(rr@.name) && position + c <= data@.len(),
                Err(e) => spec_parse_rr(data@, position as int) == RecordParse::Fail(e),
            },
    {
        let (name, name_len) = match Name::parse(data, position) {
            Ok(p) => p,
            Err(e) => {
                return Err(e);
            },
        };
        let n = data.len();
        let offset = position + name_len;
        if n < 10 || offset > n - 10 {
            return Err(SimpleDnsError::InsufficientData);
        }
        let t_raw = read_be(data, offset, 2);
        let cl_raw = read_be(data, offset + 2, 2);
        let ttl_raw = read_be(data, offset + 4, 4);
        let rdlen_raw = read_be(data, offset + 8, 2);
        proof {
            lemma_be_val_bound(data@.subrange(offset as int, offset as int + 2));
            lemma_be_val_bound(data@.subrange(offset as int + 2, offset as int + 4));
            lemma_be_val_bound(data@.subrange(offset as int + 4, offset as int + 8));
            lemma_be_val_bound(data@.subrange(offset as int + 8, offset as int + 10));
            reveal_with_fuel(pow256, 5);
        }
        let rdatatype = match TYPE::from_code(t_raw as u16) {
            Ok(t) => t,
            Err(e) => {
                return Err(e);
            },
        };
        let class = match CLASS::from_code(cl_raw as u16) {
            Ok(c) => c,
            Err(e) => {
                return Err(e);
            },
        };
        let ttl = ttl_raw as u32;
        let rdlen = rdlen_raw as usize;
        if rdlen > n - (offset + 10) {
            return Err(SimpleDnsError::InsufficientData);
        }
        let rd_off = offset + 10;
        let rdata = match Self::parse_rdata(data, rd_off, rdlen, rdatatype) {
            Ok(rd) => rd,
            Err(e) => {
                return Err(e);
            },
        };
        Ok((ResourceRecord { name, rdatatype, class, ttl, rdata }, name_len + 10 + rdlen))
    }

    /// Decodes an RDATA payload, dispatched on the record type.
    fn parse_rdata(data: &[u8], pos: usize, rdlen: usize, t: TYPE) -> (r: Result<
        RData,
        SimpleDnsError,
    >)
        requires
            pos + rdlen <= data@.len(),
        ensures
            match r {
                Ok(rd) => spec_parse_rdata(data@, pos as int, rdlen as int, t) == Ok::<
                    RDataView,
                    SimpleDnsError,
                >(rd@),
                Err(e) => spec_parse_rdata(data@, pos as int, rdlen as int, t) == Err::<
                    RDataView,
                    SimpleDnsError,
                >(e),
            },
    {
        let n = data.len();
        if t == TYPE::A {
            if rdlen != 4 {
                return Err(SimpleDnsError::InsufficientData);
            }
            let v = read_be(data, pos, 4);
            proof {
                lemma_be_val_bound(data@.subrange(pos as int, pos as int + 4));
                reveal_with_fuel(pow256, 5);
            }
            Ok(RData::A { address: v as u32 })
        } else if t == TYPE::AAAA {
            if rdlen != 16 {
                return Err(SimpleDnsError::InsufficientData);
            }
            let v = read_be(data, pos, 16);
            Ok(RData::AAAA { address: v })
        } else if t == TYPE::SRV {
            if rdlen < 6 {
                return Err(SimpleDnsError::InsufficientData);
            }
            let priority = read_be(data, pos, 2);
            let weight = read_be(data, pos + 2, 2);
            let port = read_be(data, pos + 4, 2);
            proof {
                lemma_be_val_bound(data@.subrange(pos as int, pos as int + 2));
                lemma_be_val_bound(data@.subrange(pos as int + 2, pos as int + 4));
                lemma_be_val_bound(data@.subrange(pos as int + 4, pos as int + 6));
                reveal_with_fuel(pow256, 3);
            }
            let (target, _) = match Name::parse(data, pos + 6) {
                Ok(p) => p,
                Err(e) => {
                    return Err(e);
                },
            };
            Ok(
                RData::SRV {
                    priority: priority as u16,
                    weight: weight as u16,
                    port: port as u16,
                    target,
                },
            )
        } else {
            let bytes = vstd::slice::slice_to_vec(
                vstd::slice::slice_subrange(data, pos, pos + rdlen),
            );
            Ok(RData::Other { bytes })
        }
    }
}

/// Whether a record type answers a query type.  `ANY` matches every
/// type, and an `A` query also matches `AAAA` records.
pub open spec fn spec_type_matches_qtype(t: TYPE, qt: QTYPE) -> bool {
    match qt {
        QTYPE::ANY => true,
        QTYPE::TYPE(q) => if q == TYPE::A {
            t == TYPE::A || t == TYPE::AAAA
        } else {
            t == q
        },
    }
}

/// Whether a record class answers a query class.  `ANY` matches every
/// class.
pub open spec fn spec_class_matches_qclass(c: CLASS, qc: QCLASS) -> bool {
    match qc {
        QCLASS::ANY => true,
        QCLASS::CLASS(q) => c == q,
    }
}

/// The wire length of each RDATA variant.
pub proof fn lemma_rdata_wire_len(r: RDataView)
    ensures
        rdata_wire(r).len() == match r {
            RDataView::A { .. } => 4int,
            RDataView::AAAA { .. } => 16int,
            RDataView::SRV { target, .. } => 6 + spec_encoded_len(target),
            RDataView::Other { bytes } => bytes.len() as int,
        },
{
    match r {
        RDataView::A { address } => {
            lemma_be_bytes_len(address as int, 4);
        },
        RDataView::AAAA { address } => {
            lemma_be_bytes_len(address as int, 16);
        },
        RDataView::SRV { priority, weight, port, target } => {
            lemma_be_bytes_len(priority as int, 2);
            lemma_be_bytes_len(weight as int, 2);
            lemma_be_bytes_len(port as int, 2);
        },
        RDataView::Other { .. } => {},
    }
}

/// The wire length of a record's tail is ten bytes plus its payload.
pub proof fn lemma_rr_tail_len(r: ResourceRecordView)
    ensures
        rr_tail(r).len() == 10 + rdata_wire(r.rdata).len(),
        rr_wire(r).len() == spec_encoded_len(r.name) + 10 + rdata_wire(r.rdata).len(),
{
    lemma_be_bytes_len(spec_type_code(r.rdatatype) as int, 2);
    lemma_be_bytes_len(spec_class_code(r.class) as int, 2);
    lemma_be_bytes_len(r.ttl as int, 4);
    lemma_be_bytes_len(rdata_wire(r.rdata).len() as int, 2);
}


/// A buffer region holding a compressed record — a decodable owner
/// name, the four fixed fields, and a payload region — decodes to
/// that record.
proof fn lemma_rr_compressed_parse(fin: Seq<u8>, start: int, nclen: int, r: ResourceRecordView, rdl: int)
    requires
        rr_wf(r),
        0 <= start,
        1 <= nclen,
        0 <= rdl <= 65535,
        fin.len() == start + nclen + 10 + rdl,
        spec_parse_name(fin, start, fin.len() as nat) == NameParse::Parsed(r.name, nclen),
        fin.subrange(start + nclen, start + nclen + 10) == be_bytes(
            spec_type_code(r.rdatatype) as int,
            2,
        ) + be_bytes(spec_class_code(r.class) as int, 2) + be_bytes(r.ttl as int, 4) + be_bytes(
            rdl,
            2,
        ),
        match r.rdata {
            RDataView::SRV { priority, weight, port, target } => {
                &&& rdl >= 6
                &&& fin.subrange(start + nclen + 10, start + nclen + 16) == be_bytes(
                    priority as int,
                    2,
                ) + be_bytes(weight as int, 2) + be_bytes(port as int, 2)
                &&& spec_parse_name(fin, start + nclen + 16, fin.len() as nat)
                    == NameParse::Parsed(target, rdl - 6)
            },
            _ => fin.subrange(start + nclen + 10, fin.len() as int) == rdata_wire(r.rdata) && rdl
                == rdata_wire(r.rdata).len(),
        },
    ensures
        spec_parse_rr(fin, start) == RecordParse::Parsed(r, nclen + 10 + rdl),
{
    let tpos = start + nclen;
    let tb = be_bytes(spec_type_code(r.rdatatype) as int, 2);
    let cb = be_bytes(spec_class_code(r.class) as int, 2);
    let tt = be_bytes(r.ttl as int, 4);
    let rl = be_bytes(rdl, 2);
    lemma_be_bytes_len(spec_type_code(r.rdatatype) as int, 2);
    lemma_be_bytes_len(spec_class_code(r.class) as int, 2);
    lemma_be_bytes_len(r.ttl as int, 4);
    lemma_be_bytes_len(rdl, 2);
    let mid = tb + cb + tt + rl;
    let q1 = tb + cb;
    let q2 = q1 + tt;
    assert(mid == q2 + rl);
    lemma_concat_sub(q2, rl);
    lemma_prefix_sub(q2, rl, 0, 2);
    lemma_prefix_sub(q2, rl, 2, 4);
    lemma_prefix_sub(q2, rl, 4, 8);
    lemma_concat_sub(q1, tt);
    lemma_prefix_sub(q1, tt, 0, 2);
    lemma_prefix_sub(q1, tt, 2, 4);
    lemma_concat_sub(tb, cb);
    lemma_subrange_transfer(fin, tpos, mid, 0, 2);
    lemma_subrange_transfer(fin, tpos, mid, 2, 4);
    lemma_subrange_transfer(fin, tpos, mid, 4, 8);
    lemma_subrange_transfer(fin, tpos, mid, 8, 10);
    assert(fin.subrange(tpos, tpos + 2) == tb);
    assert(fin.subrange(tpos + 2, tpos + 4) == cb);
    assert(fin.subrange(tpos + 4, tpos + 8) == tt);
    assert(fin.subrange(tpos + 8, tpos + 10) == rl);
    reveal_with_fuel(pow256, 5);
    lemma_be_round_trip(spec_type_code(r.rdatatype) as int, 2);
    lemma_be_round_trip(spec_class_code(r.class) as int, 2);
    lemma_be_round_trip(r.ttl as int, 4);
    lemma_be_round_trip(rdl, 2);
    crate::types::lemma_type_code_round_trip(r.rdatatype);
    crate::types::lemma_class_code_round_trip(r.class);
    let rd_off = tpos + 10;
    match r.rdata {
        RDataView::A { address } => {
            lemma_rdata_wire_len(r.rdata);
            assert(fin.subrange(rd_off, rd_off + 4) == be_bytes(address as int, 4));
            lemma_be_round_trip(address as int, 4);
        },
        RDataView::AAAA { address } => {
            lemma_rdata_wire_len(r.rdata);
            assert(fin.subrange(rd_off, rd_off + 16) == be_bytes(address as int, 16));
            reveal_with_fuel(pow256, 17);
            assert(pow256(16) == 0x100000000000000000000000000000000);
            lemma_be_round_trip(address as int, 16);
        },
        RDataView::SRV { priority, weight, port, target } => {
            let pb = be_bytes(priority as int, 2);
            let wb = be_bytes(weight as int, 2);
            let ptb = be_bytes(port as int, 2);
            lemma_be_bytes_len(priority as int, 2);
            lemma_be_bytes_len(weight as int, 2);
            lemma_be_bytes_len(port as int, 2);
            let six = pb + wb + ptb;
            let s1 = pb + wb;
            assert(six == s1 + ptb);
            lemma_concat_sub(s1, ptb);
            lemma_prefix_sub(s1, ptb, 0, 2);
            lemma_prefix_sub(s1, ptb, 2, 4);
            lemma_concat_sub(pb, wb);
            lemma_subrange_transfer(fin, rd_off, six, 0, 2);
            lemma_subrange_transfer(fin, rd_off, six, 2, 4);
            lemma_subrange_transfer(fin, rd_off, six, 4, 6);
            assert(fin.subrange(rd_off, rd_off + 2) == pb);
            assert(fin.subrange(rd_off + 2, rd_off + 4) == wb);
            assert(fin.subrange(rd_off + 4, rd_off + 6) == ptb);
            lemma_be_round_trip(priority as int, 2);
            lemma_be_round_trip(weight as int, 2);
            lemma_be_round_trip(port as int, 2);
        },
        RDataView::Other { bytes } => {
            assert(fin.subrange(rd_off, rd_off + rdl) == bytes);
        },
    }
}


/// Appending bytes to the buffer never changes a successfully decoded
/// record at an earlier position.
pub proof fn lemma_rr_parse_extend(data: Seq<u8>, ext: Seq<u8>, pos: int)
    requires
        spec_parse_rr(data, pos) is Parsed,
    ensures
        spec_parse_rr(data + ext, pos) == spec_parse_rr(data, pos),
{
    let full = data + ext;
    match spec_parse_name(data, pos, data.len() as nat) {
        NameParse::Parsed(ls, c) => {
            crate::name::lemma_parse_shape(data, pos, data.len() as nat);
            crate::name::lemma_parse_extend(data, ext, pos, data.len() as nat);
            crate::name::lemma_parse_fuel_mono(full, pos, data.len() as nat, full.len() as nat);
            assert(1 <= c && pos + c <= data.len());
            assert(pos + c + 10 <= data.len());
            assert(full.subrange(pos + c, pos + c + 2) =~= data.subrange(pos + c, pos + c + 2));
            assert(full.subrange(pos + c + 2, pos + c + 4) =~= data.subrange(
                pos + c + 2,
                pos + c + 4,
            ));
            assert(full.subrange(pos + c + 4, pos + c + 8) =~= data.subrange(
                pos + c + 4,
                pos + c + 8,
            ));
            assert(full.subrange(pos + c + 8, pos + c + 10) =~= data.subrange(
                pos + c + 8,
                pos + c + 10,
            ));
            let rdlen = be_val(data.subrange(pos + c + 8, pos + c + 10));
            let t_raw = be_val(data.subrange(pos + c, pos + c + 2));
            lemma_be_val_bound(data.subrange(pos + c + 8, pos + c + 10));
            assert(rdlen >= 0);
            match spec_type_from_code(t_raw as u16) {
                Some(t) => {
                    assert(pos + c + 10 + rdlen <= data.len());
                    let rd_off = pos + c + 10;
                    if t == TYPE::A {
                        if rdlen == 4 {
                            assert(full.subrange(rd_off, rd_off + 4) =~= data.subrange(
                                rd_off,
                                rd_off + 4,
                            ));
                        }
                    } else if t == TYPE::AAAA {
                        if rdlen == 16 {
                            assert(full.subrange(rd_off, rd_off + 16) =~= data.subrange(
                                rd_off,
                                rd_off + 16,
                            ));
                        }
                    } else if t == TYPE::SRV {
                        if rdlen >= 6 {
                            assert(full.subrange(rd_off, rd_off + 2) =~= data.subrange(
                                rd_off,
                                rd_off + 2,
                            ));
                            assert(full.subrange(rd_off + 2, rd_off + 4) =~= data.subrange(
                                rd_off + 2,
                                rd_off + 4,
                            ));
                            assert(full.subrange(rd_off + 4, rd_off + 6) =~= data.subrange(
                                rd_off + 4,
                                rd_off + 6,
                            ));
                            match spec_parse_name(data, rd_off + 6, data.len() as nat) {
                                NameParse::Parsed(_, _) => {
                                    crate::name::lemma_parse_extend(
                                        data,
                                        ext,
                                        rd_off + 6,
                                        data.len() as nat,
                                    );
                                    crate::name::lemma_parse_fuel_mono(
                                        full,
                                        rd_off + 6,
                                        data.len() as nat,
                                        full.len() as nat,
                                    );
                                },
                                _ => {
                                    assert(false);
                                },
                            }
                        }
                    } else {
                        assert(full.subrange(rd_off, rd_off + rdlen) =~= data.subrange(
                            rd_off,
                            rd_off + rdlen,
                        ));
                    }
                },
                None => {
                    assert(false);
                },
            }
        },
        _ => {
            assert(false);
        },
    }
}

/// Round trip: the uncompressed wire form of any well-formed resource
/// record, placed at any position of a buffer, decodes back to the
/// same record (owner name, type, class, TTL and payload) and
/// consumes exactly its wire length.
pub proof fn lemma_rr_round_trip(data: Seq<u8>, pos: int, r: ResourceRecordView)
    requires
        rr_wf(r),
        0 <= pos,
        pos + rr_wire(r).len() <= data.len(),
        data.subrange(pos, pos + rr_wire(r).len()) == rr_wire(r),
    ensures
        spec_parse_rr(data, pos) == RecordParse::Parsed(r, rr_wire(r).len() as int),
{
    let nenc = spec_encode(r.name);
    let nl = spec_encoded_len(r.name);
    let tb = be_bytes(spec_type_code(r.rdatatype) as int, 2);
    let cb = be_bytes(spec_class_code(r.class) as int, 2);
    let tt = be_bytes(r.ttl as int, 4);
    let rd = rdata_wire(r.rdata);
    let rl = be_bytes(rd.len() as int, 2);
    let tail = rr_tail(r);
    let wire = rr_wire(r);
    lemma_be_bytes_len(spec_type_code(r.rdatatype) as int, 2);
    lemma_be_bytes_len(spec_class_code(r.class) as int, 2);
    lemma_be_bytes_len(r.ttl as int, 4);
    lemma_be_bytes_len(rd.len() as int, 2);
    lemma_rr_tail_len(r);
    let q1 = tb + cb;
    let q2 = q1 + tt;
    let q3 = q2 + rl;
    assert(tail == q3 + rd);
    // the name part decodes to the owner name
    lemma_concat_sub(nenc, tail);
    lemma_subrange_transfer(data, pos, wire, 0, nl);
    assert(data.subrange(pos, pos + nl) == nenc);
    lemma_parse_encode(data, pos, r.name, data.len() as nat);
    // the fixed fields
    lemma_subrange_transfer(data, pos, wire, nl, nl + tail.len());
    assert(wire.subrange(nl, nl + tail.len()) == tail);
    let tpos = pos + nl;
    lemma_subrange_transfer(data, tpos, tail, 0, 2);
    lemma_subrange_transfer(data, tpos, tail, 2, 4);
    lemma_subrange_transfer(data, tpos, tail, 4, 8);
    lemma_subrange_transfer(data, tpos, tail, 8, 10);
    lemma_subrange_transfer(data, tpos, tail, 10, 10 + rd.len() as int);
    lemma_concat_sub(q3, rd);
    lemma_prefix_sub(q3, rd, 0, 2);
    lemma_prefix_sub(q3, rd, 2, 4);
    lemma_prefix_sub(q3, rd, 4, 8);
    lemma_prefix_sub(q3, rd, 8, 10);
    lemma_concat_sub(q2, rl);
    lemma_prefix_sub(q2, rl, 0, 2);
    lemma_prefix_sub(q2, rl, 2, 4);
    lemma_prefix_sub(q2, rl, 4, 8);
    lemma_concat_sub(q1, tt);
    lemma_prefix_sub(q1, tt, 0, 2);
    lemma_prefix_sub(q1, tt, 2, 4);
    lemma_concat_sub(tb, cb);
    assert(data.subrange(tpos, tpos + 2) == tb);
    assert(data.subrange(tpos + 2, tpos + 4) == cb);
    assert(data.subrange(tpos + 4, tpos + 8) == tt);
    assert(data.subrange(tpos + 8, tpos + 10) == rl);
    assert(data.subrange(tpos + 10, tpos + 10 + rd.len() as int) == rd);
    // field values decode back
    reveal_with_fuel(pow256, 5);
    lemma_be_round_trip(spec_type_code(r.rdatatype) as int, 2);
    lemma_be_round_trip(spec_class_code(r.class) as int, 2);
    lemma_be_round_trip(r.ttl as int, 4);
    lemma_be_round_trip(rd.len() as int, 2);
    crate::types::lemma_type_code_round_trip(r.rdatatype);
    crate::types::lemma_class_code_round_trip(r.class);
    // the payload decodes back
    let rd_off = tpos + 10;
    lemma_rdata_round_trip(data, rd_off, r.rdata);
}

/// The payload bytes of a well-formed RDATA value decode back to it.
proof fn lemma_rdata_round_trip(data: Seq<u8>, pos: int, rd: RDataView)
    requires
        0 <= pos,
        pos + rdata_wire(rd).len() <= data.len(),
        data.subrange(pos, pos + rdata_wire(rd).len()) == rdata_wire(rd),
        match rd {
            RDataView::SRV { target, .. } => wf_labels(target),
            _ => true,
        },
    ensures
        forall|t: TYPE|
            rdata_matches_type(t, rd) ==> #[trigger] spec_parse_rdata(
                data,
                pos,
                rdata_wire(rd).len() as int,
                t,
            ) == Ok::<RDataView, SimpleDnsError>(rd),
{
    let w = rdata_wire(rd);
    lemma_rdata_wire_len(rd);
    match rd {
        RDataView::A { address } => {
            reveal_with_fuel(pow256, 5);
            lemma_be_round_trip(address as int, 4);
        },
        RDataView::AAAA { address } => {
            reveal_with_fuel(pow256, 17);
            assert(pow256(16) == 0x100000000000000000000000000000000);
            lemma_be_round_trip(address as int, 16);
        },
        RDataView::SRV { priority, weight, port, target } => {
            let pb = be_bytes(priority as int, 2);
            let wb = be_bytes(weight as int, 2);
            let ptb = be_bytes(port as int, 2);
            let tenc = spec_encode(target);
            lemma_be_bytes_len(priority as int, 2);
            lemma_be_bytes_len(weight as int, 2);
            lemma_be_bytes_len(port as int, 2);
            let s1 = pb + wb;
            let s2 = s1 + ptb;
            assert(w == s2 + tenc);
            lemma_subrange_transfer(data, pos, w, 0, 2);
            lemma_subrange_transfer(data, pos, w, 2, 4);
            lemma_subrange_transfer(data, pos, w, 4, 6);
            lemma_subrange_transfer(data, pos, w, 6, 6 + tenc.len() as int);
            lemma_concat_sub(s2, tenc);
            lemma_prefix_sub(s2, tenc, 0, 2);
            lemma_prefix_sub(s2, tenc, 2, 4);
            lemma_prefix_sub(s2, tenc, 4, 6);
            lemma_concat_sub(s1, ptb);
            lemma_prefix_sub(s1, ptb, 0, 2);
            lemma_prefix_sub(s1, ptb, 2, 4);
            lemma_concat_sub(pb, wb);
            assert(data.subrange(pos, pos + 2) == pb);
            assert(data.subrange(pos + 2, pos + 4) == wb);
            assert(data.subrange(pos + 4, pos + 6) == ptb);
            assert(data.subrange(pos + 6, pos + 6 + tenc.len() as int) == tenc);
            reveal_with_fuel(pow256, 3);
            lemma_be_round_trip(priority as int, 2);
            lemma_be_round_trip(weight as int, 2);
            lemma_be_round_trip(port as int, 2);
            lemma_parse_encode(data, pos + 6, target, data.len() as nat);
        },
        RDataView::Other { bytes } => {
            assert(data.subrange(pos, pos + w.len()) == bytes);
        },
    }
}

} // verus!
