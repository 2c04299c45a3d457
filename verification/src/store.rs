//! The resource record store: the authoritative table a responder
//! publishes, with insertion, removal and query matching.

use vstd::prelude::*;

use crate::name::{spec_name_matches, Name};
use crate::resource_record::{
    rr_wf, spec_class_matches_qclass, spec_type_matches_qtype, RData, RDataView, ResourceRecord,
    ResourceRecordView,
};
use crate::types::{QCLASS, QTYPE, TYPE};

verus! {

/// The abstract value of a record vector.
pub open spec fn records_view(records: Vec<ResourceRecord>) -> Seq<ResourceRecordView> {
    Seq::new(records@.len(), |i: int| records@[i]@)
}

/// Whether a record answers a query: its owner name equals the queried
/// name ignoring ASCII case, its type answers the query type and its
/// class answers the query class.
pub open spec fn rr_matches(
    r: ResourceRecordView,
    name: Seq<Seq<u8>>,
    qtype: QTYPE,
    qclass: QCLASS,
) -> bool {
    &&& spec_name_matches(r.name, name)
    &&& spec_type_matches_qtype(r.rdatatype, qtype)
    &&& spec_class_matches_qclass(r.class, qclass)
}

/// The records of `records` that answer the query, in store order.
pub open spec fn spec_matching(
    records: Seq<ResourceRecordView>,
    name: Seq<Seq<u8>>,
    qtype: QTYPE,
    qclass: QCLASS,
) -> Seq<ResourceRecordView> {
    records.filter(|r: ResourceRecordView| rr_matches(r, name, qtype, qclass))
}

/// Filtering an empty sequence yields an empty sequence.
proof fn lemma_filter_empty_rr(pred: spec_fn(ResourceRecordView) -> bool)
    ensures
        Seq::<ResourceRecordView>::empty().filter(pred) == Seq::<ResourceRecordView>::empty(),
{
    reveal(Seq::filter);
    assert(Seq::<ResourceRecordView>::empty().filter(pred) =~= Seq::<
        ResourceRecordView,
    >::empty());
}

/// Every record of a filtered well-formed sequence is well-formed.
proof fn lemma_filter_wf(records: Seq<ResourceRecordView>, pred: spec_fn(ResourceRecordView) -> bool)
    requires
        forall|i: int| 0 <= i < records.len() ==> rr_wf(#[trigger] records[i]),
    ensures
        forall|j: int|
            0 <= j < records.filter(pred).len() ==> rr_wf(#[trigger] records.filter(pred)[j]),
{
    let result = records.filter(pred);
    assert forall|j: int| 0 <= j < result.len() implies rr_wf(#[trigger] result[j]) by {
        assert(result.contains(result[j]));
        records.lemma_filter_contains_rev(pred, result[j]);
        let k = choose|k: int| 0 <= k < records.len() && records[k] == result[j];
        assert(rr_wf(records[k]));
    }
}

/// Tests two payloads for structural equality.
fn rdata_eq(a: &RData, b: &RData) -> (r: bool)
    ensures
        r == (a@ == b@),
{
    match (a, b) {
        (RData::A { address: x }, RData::A { address: y }) => *x == *y,
        (RData::AAAA { address: x }, RData::AAAA { address: y }) => *x == *y,
        (
            RData::SRV { priority: p1, weight: w1, port: o1, target: t1 },
            RData::SRV { priority: p2, weight: w2, port: o2, target: t2 },
        ) => *p1 == *p2 && *w1 == *w2 && *o1 == *o2 && t1.eq_labels(t2),
        (RData::Other { bytes: x }, RData::Other { bytes: y }) => crate::name::bytes_eq(x, y),
        _ => false,
    }
}

/// Tests two records for structural equality.
fn rr_eq(a: &ResourceRecord, b: &ResourceRecord) -> (r: bool)
    ensures
        r == (a@ == b@),
{
    a.name.eq_labels(&b.name) && a.rdatatype == b.rdatatype && a.class == b.class && a.ttl == b.ttl
        && rdata_eq(&a.rdata, &b.rdata)
}

/// An in-memory table of the resource records published under each
/// name.  Records are kept in insertion order; inserting a record that
/// is structurally equal to one already present leaves the table
/// unchanged.
pub struct ResourceRecordManager {
    records: Vec<ResourceRecord>,
}

impl View for ResourceRecordManager {
    type V = Seq<ResourceRecordView>;

    closed spec fn view(&self) -> Seq<ResourceRecordView> {
        records_view(self.records)
    }
}

impl ResourceRecordManager {
    /// Every stored record is well-formed.
    pub open spec fn wf(&self) -> bool {
        forall|i: int| 0 <= i < self@.len() ==> rr_wf(#[trigger] self@[i])
    }

    /// Creates an empty store.
    pub fn new() -> (r: ResourceRecordManager)
        ensures
            r@ == Seq::<ResourceRecordView>::empty(),
            r.wf(),
    {
        let r = ResourceRecordManager { records: Vec::new() };
        proof {
            assert(r@ =~= Seq::<ResourceRecordView>::empty());
        }
        r
    }

    /// Registers a record.  A record equal to one already stored is
    /// not stored twice.
    pub fn add_resource(&mut self, resource: ResourceRecord)
        requires
            resource.wf(),
            old(self).wf(),
        ensures
            final(self)@ == if exists|i: int|
                0 <= i < old(self)@.len() && old(self)@[i] == resource@ {
                old(self)@
            } else {
                old(self)@.push(resource@)
            },
            final(self).wf(),
    {
        let mut i: usize = 0;
        while i < self.records.len()
            invariant
                self == old(self),
                old(self).wf(),
                i <= self@.len(),
                forall|k: int| 0 <= k < i ==> old(self)@[k] != resource@,
            decreases self@.len() - i,
        {
            if rr_eq(&self.records[i], &resource) {
                assert(old(self)@[i as int] == resource@);
                return ;
            }
            i += 1;
        }
        assert(forall|k: int| 0 <= k < old(self)@.len() ==> old(self)@[k] != resource@);
        self.records.push(resource);
        proof {
            assert(self@ =~= old(self)@.push(resource@));
        }
    }

    /// Removes every record of exactly the given type published under
    /// the given name (ignoring ASCII case).
    pub fn remove_resource_record(&mut self, name: &Name, resource_type: TYPE)
        requires
            old(self).wf(),
        ensures
            final(self)@ == old(self)@.filter(
                |r: ResourceRecordView|
                    !(spec_name_matches(r.name, name@) && r.rdatatype == resource_type),
            ),
            final(self).wf(),
    {
        let ghost pred = |r: ResourceRecordView|
            !(spec_name_matches(r.name, name@) && r.rdatatype == resource_type);
        let mut kept: Vec<ResourceRecord> = Vec::new();
        let mut i: usize = 0;
        proof {
            assert(old(self)@.take(0) =~= Seq::<ResourceRecordView>::empty());
            lemma_filter_empty_rr(pred);
        }
        while i < self.records.len()
            invariant
                self == old(self),
                old(self).wf(),
                i <= self@.len(),
                records_view(kept) == old(self)@.take(i as int).filter(pred),
                pred == (|r: ResourceRecordView|
                    !(spec_name_matches(r.name, name@) && r.rdatatype == resource_type)),
            decreases self@.len() - i,
        {
            let ghost prev = records_view(kept);
            proof {
                assert(old(self)@.take(i as int + 1) =~= old(self)@.take(i as int).push(
                    old(self)@[i as int],
                ));
                old(self)@.take(i as int).lemma_filter_push(old(self)@[i as int], pred);
            }
            let keep = !(self.records[i].name.matches(name) && self.records[i].rdatatype
                == resource_type);
            assert(keep == pred(old(self)@[i as int]));
            if keep {
                let copy = self.records[i].duplicate();
                kept.push(copy);
                proof {
                    assert(records_view(kept) =~= prev.push(old(self)@[i as int]));
                }
            }
            i += 1;
        }
        proof {
            assert(old(self)@.take(old(self)@.len() as int) =~= old(self)@);
            lemma_filter_wf(old(self)@, pred);
        }
        self.records = kept;
    }

    /// Removes every record published under the given name (ignoring
    /// ASCII case).
    pub fn remove_all_resource_records(&mut self, name: &Name)
        requires
            old(self).wf(),
        ensures
            final(self)@ == old(self)@.filter(
                |r: ResourceRecordView| !spec_name_matches(r.name, name@),
            ),
            final(self).wf(),
    {
        let ghost pred = |r: ResourceRecordView| !spec_name_matches(r.name, name@);
        let mut kept: Vec<ResourceRecord> = Vec::new();
        let mut i: usize = 0;
        proof {
            assert(old(self)@.take(0) =~= Seq::<ResourceRecordView>::empty());
            lemma_filter_empty_rr(pred);
        }
        while i < self.records.len()
            invariant
                self == old(self),
                old(self).wf(),
                i <= self@.len(),
                records_view(kept) == old(self)@.take(i as int).filter(pred),
                pred == (|r: ResourceRecordView| !spec_name_matches(r.name, name@)),
            decreases self@.len() - i,
        {
            let ghost prev = records_view(kept);
            proof {
                assert(old(self)@.take(i as int + 1) =~= old(self)@.take(i as int).push(
                    old(self)@[i as int],
                ));
                old(self)@.take(i as int).lemma_filter_push(old(self)@[i as int], pred);
            }
            let keep = !self.records[i].name.matches(name);
            assert(keep == pred(old(self)@[i as int]));
            if keep {
                let copy = self.records[i].duplicate();
                kept.push(copy);
                proof {
                    assert(records_view(kept) =~= prev.push(old(self)@[i as int]));
                }
            }
            i += 1;
        }
        proof {
            assert(old(self)@.take(old(self)@.len() as int) =~= old(self)@);
            lemma_filter_wf(old(self)@, pred);
        }
        self.records = kept;
    }

    /// Returns every record that answers the query, as copies, in
    /// store insertion order.  The result is recomputed on every call
    /// and never cached.
    pub fn find_matching_resources(&self, name: &Name, qtype: QTYPE, qclass: QCLASS) -> (r: Vec<
        ResourceRecord,
    >)
        requires
            self.wf(),
        ensures
            records_view(r) == spec_matching(self@, name@, qtype, qclass),
            forall|i: int| 0 <= i < records_view(r).len() ==> rr_wf(#[trigger] records_view(r)[i]),
    {
        let ghost pred = |r: ResourceRecordView| rr_matches(r, name@, qtype, qclass);
        let mut found: Vec<ResourceRecord> = Vec::new();
        let mut i: usize = 0;
        proof {
            assert(self@.take(0) =~= Seq::<ResourceRecordView>::empty());
            lemma_filter_empty_rr(pred);
        }
        while i < self.records.len()
            invariant
                self.wf(),
                i <= self@.len(),
                records_view(found) == self@.take(i as int).filter(pred),
                pred == (|r: ResourceRecordView| rr_matches(r, name@, qtype, qclass)),
            decreases self@.len() - i,
        {
            let ghost prev = records_view(found);
            proof {
                assert(self@.take(i as int + 1) =~= self@.take(i as int).push(self@[i as int]));
                self@.take(i as int).lemma_filter_push(self@[i as int], pred);
            }
            let hit = self.records[i].name.matches(name) && self.records[i].match_qtype(qtype)
                && self.records[i].match_qclass(qclass);
            assert(hit == pred(self@[i as int]));
            if hit {
                let copy = self.records[i].duplicate();
                found.push(copy);
                proof {
                    assert(records_view(found) =~= prev.push(self@[i as int]));
                }
            }
            i += 1;
        }
        proof {
            assert(self@.take(self@.len() as int) =~= self@);
            lemma_filter_wf(self@, pred);
        }
        found
    }
}

/// Matching completeness: a query for a name with both wildcards
/// returns exactly the records stored under that name — every
/// returned record is stored under the name, and every stored record
/// under the name is returned, whatever insertions and removals
/// produced the store.
pub proof fn lemma_match_any_any(records: Seq<ResourceRecordView>, name: Seq<Seq<u8>>)
    ensures
        forall|j: int|
            0 <= j < spec_matching(records, name, QTYPE::ANY, QCLASS::ANY).len()
                ==> spec_name_matches(
                #[trigger] spec_matching(records, name, QTYPE::ANY, QCLASS::ANY)[j].name,
                name,
            ),
        forall|i: int|
            0 <= i < records.len() && spec_name_matches(#[trigger] records[i].name, name)
                ==> spec_matching(records, name, QTYPE::ANY, QCLASS::ANY).contains(records[i]),
{
    let pred = |r: ResourceRecordView| rr_matches(r, name, QTYPE::ANY, QCLASS::ANY);
    let result = records.filter(pred);
    assert forall|j: int| 0 <= j < result.len() implies spec_name_matches(
        #[trigger] result[j].name,
        name,
    ) by {
        records.lemma_filter_pred(pred, j);
    }
    assert forall|i: int|
        0 <= i < records.len() && spec_name_matches(
            #[trigger] records[i].name,
            name,
        ) implies result.contains(records[i]) by {
        assert(pred(records[i]));
        records.lemma_filter_contains(pred, i);
    }
}

/// Wildcard semantics: with a concrete query type (other than `A`,
/// which also answers `AAAA`) every returned record has exactly that
/// type, and the wildcard class places no constraint on the record
/// class.
pub proof fn lemma_match_specific_type(
    records: Seq<ResourceRecordView>,
    name: Seq<Seq<u8>>,
    t: TYPE,
)
    requires
        t != TYPE::A,
    ensures
        forall|j: int|
            0 <= j < spec_matching(records, name, QTYPE::TYPE(t), QCLASS::ANY).len()
                ==> #[trigger] spec_matching(records, name, QTYPE::TYPE(t), QCLASS::ANY)[j].rdatatype
                == t,
        forall|i: int|
            0 <= i < records.len() && spec_name_matches(#[trigger] records[i].name, name)
                && records[i].rdatatype == t ==> spec_matching(
                records,
                name,
                QTYPE::TYPE(t),
                QCLASS::ANY,
            ).contains(records[i]),
{
    let pred = |r: ResourceRecordView| rr_matches(r, name, QTYPE::TYPE(t), QCLASS::ANY);
    let result = records.filter(pred);
    assert forall|j: int| 0 <= j < result.len() implies #[trigger] result[j].rdatatype == t by {
        records.lemma_filter_pred(pred, j);
    }
    assert forall|i: int|
        0 <= i < records.len() && spec_name_matches(#[trigger] records[i].name, name)
            && records[i].rdatatype == t implies result.contains(records[i]) by {
        assert(pred(records[i]));
        records.lemma_filter_contains(pred, i);
    }
}

} // verus!
