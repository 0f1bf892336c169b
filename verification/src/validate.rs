//! The property validator: extracts a configured subset of key/value pairs
//! from the two-column `global_properties` table and accepts a dump only
//! when the observed set equals the expected configuration exactly — the
//! same keys with the same values; a superset, a subset or one changed
//! value is a rejection. A rejected set is rendered into a human-readable
//! quarantine reason of `key: value` lines.

use crate::tables::{
    entries_to_map, lemma_bytes_dv, lemma_dv_push, lemma_dv_update, lemma_entries_absent,
    lemma_entries_exists, lemma_entries_index, unique_names, RowsV,
};
use vstd::prelude::*;

verus! {

/// An observed set of named properties, in first-insertion order, with
/// pairwise-distinct keys.
pub struct PropertySet {
    pub entries: Vec<(Vec<u8>, Vec<u8>)>,
}

impl View for PropertySet {
    type V = Map<Seq<u8>, Seq<u8>>;

    open spec fn view(&self) -> Map<Seq<u8>, Seq<u8>> {
        entries_to_map(self.entries.deep_view())
    }
}

/// Recording one property: a key already present keeps its position and
/// takes the new value (the last writer wins); a new key is appended.
pub open spec fn upsert(es: Seq<(Seq<u8>, Seq<u8>)>, k: Seq<u8>, v: Seq<u8>) -> Seq<
    (Seq<u8>, Seq<u8>),
> {
    if exists|i: int| 0 <= i < es.len() && (#[trigger] es[i]).0 == k {
        let i = choose|i: int| 0 <= i < es.len() && (#[trigger] es[i]).0 == k;
        es.update(i, (k, v))
    } else {
        es.push((k, v))
    }
}

/// The properties a table's rows yield for the requested keys: column 0 is
/// the key, column 1 the value; rows without two fields, and rows whose key
/// was not requested, are ignored.
pub open spec fn extract_entries(rows: RowsV, keys: Seq<Seq<u8>>) -> Seq<(Seq<u8>, Seq<u8>)>
    decreases rows.len(),
{
    if rows.len() == 0 {
        Seq::empty()
    } else {
        let es = extract_entries(rows.drop_last(), keys);
        let row = rows.last();
        if row.len() >= 2 && keys.contains(row[0]) {
            upsert(es, row[0], row[1])
        } else {
            es
        }
    }
}

impl PropertySet {
    pub open spec fn wf(self) -> bool {
        unique_names(self.entries.deep_view())
    }

    pub fn new() -> (r: PropertySet)
        ensures
            r.wf(),
            r.entries@.len() == 0,
            r.entries.deep_view() == Seq::<(Seq<u8>, Seq<u8>)>::empty(),
    {
        let r = PropertySet { entries: Vec::new() };
        proof {
            assert(r.entries.deep_view() =~= Seq::<(Seq<u8>, Seq<u8>)>::empty());
        }
        r
    }

    /// Index of the entry keyed `k`, if any.
    fn find(&self, k: &[u8]) -> (r: Option<usize>)
        ensures
            match r {
                Some(i) => i < self.entries@.len() && self.entries.deep_view()[i as int].0 == k@,
                None => forall|i: int|
                    0 <= i < self.entries@.len() ==> self.entries.deep_view()[i].0 != k@,
            },
    {
        broadcast use lemma_bytes_dv;

        let mut i: usize = 0;
        while i < self.entries.len()
            invariant
                0 <= i <= self.entries@.len(),
                forall|j: int| 0 <= j < i ==> self.entries.deep_view()[j].0 != k@,
            decreases self.entries@.len() - i,
        {
            if crate::bytes_eq(self.entries[i].0.as_slice(), k) {
                assert(self.entries.deep_view()[i as int].0 == self.entries@[i as int].0@);
                return Some(i);
            }
            assert(self.entries.deep_view()[i as int].0 == self.entries@[i as int].0@);
            i += 1;
        }
        None
    }

    /// The value recorded for `k`, if present.
    pub fn get(&self, k: &[u8]) -> (r: Option<&Vec<u8>>)
        requires
            self.wf(),
        ensures
            match r {
                Some(v) => self@.contains_key(k@) && v@ == self@[k@],
                None => !self@.contains_key(k@),
            },
    {
        broadcast use lemma_bytes_dv;

        match self.find(k) {
            Some(i) => {
                proof {
                    lemma_entries_index(self.entries.deep_view(), i as int);
                }
                Some(&self.entries[i].1)
            },
            None => {
                proof {
                    lemma_entries_absent(self.entries.deep_view(), k@);
                }
                None
            },
        }
    }

    /// Records one property, as `upsert` specifies.
    pub fn insert_prop(&mut self, k: Vec<u8>, v: Vec<u8>)
        requires
            old(self).wf(),
        ensures
            final(self).wf(),
            final(self).entries.deep_view() == upsert(old(self).entries.deep_view(), k@, v@),
    {
        broadcast use lemma_bytes_dv;

        let ghost es0 = self.entries.deep_view();
        match self.find(k.as_slice()) {
            Some(i) => {
                self.entries.remove(i);
                self.entries.insert(i, (k, v));
                proof {
                    assert(self.entries@ =~= old(self).entries@.update(
                        i as int,
                        self.entries@[i as int],
                    ));
                    lemma_dv_update(
                        old(self).entries,
                        self.entries,
                        i as int,
                        self.entries@[i as int],
                    );
                    let w = choose|j: int| 0 <= j < es0.len() && (#[trigger] es0[j]).0 == k@;
                    assert(w == i as int);
                    assert(self.entries.deep_view() =~= upsert(es0, k@, v@));
                }
            },
            None => {
                proof {
                    lemma_entries_absent(es0, k@);
                }
                self.entries.push((k, v));
                proof {
                    lemma_dv_push(old(self).entries, self.entries, self.entries@.last());
                    assert(self.entries.deep_view() =~= es0.push(
                        (self.entries@.last().0@, self.entries@.last().1@),
                    ));
                }
            },
        }
    }
}

/// Whether `x` is one of the requested keys.
pub fn contains_bytes(keys: &Vec<Vec<u8>>, x: &[u8]) -> (r: bool)
    ensures
        r == keys.deep_view().contains(x@),
{
    broadcast use lemma_bytes_dv;

    let mut i: usize = 0;
    while i < keys.len()
        invariant
            0 <= i <= keys@.len(),
            forall|j: int| 0 <= j < i ==> keys.deep_view()[j] != x@,
        decreases keys@.len() - i,
    {
        if crate::bytes_eq(keys[i].as_slice(), x) {
            assert(keys.deep_view()[i as int] == x@);
            return true;
        }
        assert(keys.deep_view()[i as int] == keys@[i as int]@);
        i += 1;
    }
    proof {
        assert(!keys.deep_view().contains(x@));
    }
    false
}

/// Scans one table's rows and retains, for the requested keys, the value of
/// column 1 under the key of column 0; the last occurrence of a key wins.
pub fn extract_property_values(data: &crate::tables::Rows, property_names: &Vec<Vec<u8>>) -> (r:
    PropertySet)
    ensures
        r.wf(),
        r.entries.deep_view() == extract_entries(data.deep_view(), property_names.deep_view()),
{
    broadcast use lemma_bytes_dv;

    let mut r = PropertySet::new();
    let mut i: usize = 0;
    while i < data.len()
        invariant
            0 <= i <= data@.len(),
            r.wf(),
            r.entries.deep_view() == extract_entries(
                data.deep_view().take(i as int),
                property_names.deep_view(),
            ),
        decreases data@.len() - i,
    {
        broadcast use lemma_bytes_dv;

        let ghost pre = data.deep_view().take(i as int);
        proof {
            assert(data.deep_view().take(i as int + 1).drop_last() =~= pre);
            assert(data.deep_view().take(i as int + 1).last() == data.deep_view()[i as int]);
        }
        let row = &data[i];
        if row.len() >= 2 {
            if contains_bytes(property_names, row[0].as_slice()) {
                let k = crate::parse::clone_bytes(row[0].as_slice());
                let v = crate::parse::clone_bytes(row[1].as_slice());
                proof {
                    assert(data.deep_view()[i as int][0] == row@[0]@);
                    assert(data.deep_view()[i as int][1] == row@[1]@);
                }
                r.insert_prop(k, v);
            } else {
                proof {
                    assert(data.deep_view()[i as int][0] == row@[0]@);
                }
            }
        } else {
            proof {
                assert(data.deep_view()[i as int].len() == row@.len());
            }
        }
        i += 1;
    }
    proof {
        assert(data.deep_view().take(data@.len() as int) =~= data.deep_view());
    }
    r
}

/// Whether every entry of `a` is present in `b` with the same value.
fn one_way(a: &PropertySet, b: &PropertySet) -> (r: bool)
    requires
        b.wf(),
    ensures
        r == (forall|i: int|
            0 <= i < a.entries.deep_view().len() ==> b@.contains_key(
                (#[trigger] a.entries.deep_view()[i]).0,
            ) && b@[a.entries.deep_view()[i].0] == a.entries.deep_view()[i].1),
{
    broadcast use lemma_bytes_dv;

    let mut i: usize = 0;
    while i < a.entries.len()
        invariant
            0 <= i <= a.entries@.len(),
            b.wf(),
            forall|j: int|
                0 <= j < i ==> b@.contains_key((#[trigger] a.entries.deep_view()[j]).0)
                    && b@[a.entries.deep_view()[j].0] == a.entries.deep_view()[j].1,
        decreases a.entries@.len() - i,
    {
        broadcast use lemma_bytes_dv;

        proof {
            assert(a.entries.deep_view()[i as int] == (
                a.entries@[i as int].0@,
                a.entries@[i as int].1@,
            ));
        }
        match b.get(a.entries[i].0.as_slice()) {
            None => {
                return false;
            },
            Some(v) => {
                if !crate::bytes_eq(v.as_slice(), a.entries[i].1.as_slice()) {
                    return false;
                }
            },
        }
        i += 1;
    }
    true
}

/// Acceptance is exact equality of the observed properties with the
/// expected configuration: the same key set with the same values. Any
/// missing key, extra key or changed value is a rejection.
pub fn validate(observed: &PropertySet, expected: &PropertySet) -> (r: bool)
    requires
        observed.wf(),
        expected.wf(),
    ensures
        r == (observed@ == expected@),
{
    let fwd = one_way(observed, expected);
    let bwd = one_way(expected, observed);
    if fwd && bwd {
        proof {
            assert forall|k: Seq<u8>| #[trigger]
                observed@.contains_key(k) implies expected@.contains_key(k) && expected@[k]
                == observed@[k] by {
                lemma_entries_exists(observed.entries.deep_view(), k);
            }
            assert forall|k: Seq<u8>| #[trigger]
                expected@.contains_key(k) implies observed@.contains_key(k) by {
                lemma_entries_exists(expected.entries.deep_view(), k);
            }
            assert(observed@ =~= expected@);
        }
        true
    } else {
        proof {
            if !fwd {
                let i = choose|i: int|
                    0 <= i < observed.entries.deep_view().len() && !(expected@.contains_key(
                        (#[trigger] observed.entries.deep_view()[i]).0,
                    ) && expected@[observed.entries.deep_view()[i].0]
                        == observed.entries.deep_view()[i].1);
                lemma_entries_index(observed.entries.deep_view(), i);
            } else {
                let i = choose|i: int|
                    0 <= i < expected.entries.deep_view().len() && !(observed@.contains_key(
                        (#[trigger] expected.entries.deep_view()[i]).0,
                    ) && observed@[expected.entries.deep_view()[i].0]
                        == expected.entries.deep_view()[i].1);
                lemma_entries_index(expected.entries.deep_view(), i);
            }
        }
        false
    }
}

/// Appends `src` to `dst`.
pub fn append_bytes(dst: &mut Vec<u8>, src: &[u8])
    ensures
        final(dst)@ == old(dst)@ + src@,
{
    let mut i: usize = 0;
    while i < src.len()
        invariant
            0 <= i <= src@.len(),
            dst@ == old(dst)@ + src@.take(i as int),
        decreases src@.len() - i,
    {
        dst.push(src[i]);
        proof {
            assert(old(dst)@ + src@.take(i as int + 1) =~= (old(dst)@ + src@.take(i as int)).push(
                src@[i as int],
            ));
        }
        i += 1;
    }
    proof {
        assert(src@.take(src@.len() as int) =~= src@);
    }
}

/// One `key: value` line per observed property, in entry order.
pub open spec fn spec_reason(es: Seq<(Seq<u8>, Seq<u8>)>) -> Seq<u8>
    decreases es.len(),
{
    if es.len() == 0 {
        Seq::empty()
    } else {
        spec_reason(es.drop_last()) + es.last().0 + seq![58u8, 32u8] + es.last().1 + seq![10u8]
    }
}

/// Renders the quarantine reason for a rejected property set: one
/// `key: value` line per observed property, in entry order.
pub fn render_reason(ps: &PropertySet) -> (r: Vec<u8>)
    ensures
        r@ == spec_reason(ps.entries.deep_view()),
{
    broadcast use lemma_bytes_dv;

    let mut out: Vec<u8> = Vec::new();
    let mut i: usize = 0;
    while i < ps.entries.len()
        invariant
            0 <= i <= ps.entries@.len(),
            out@ == spec_reason(ps.entries.deep_view().take(i as int)),
        decreases ps.entries@.len() - i,
    {
        broadcast use lemma_bytes_dv;

        let ghost pre = ps.entries.deep_view().take(i as int);
        proof {
            assert(ps.entries.deep_view().take(i as int + 1).drop_last() =~= pre);
            assert(ps.entries.deep_view().take(i as int + 1).last() == ps.entries.deep_view()[i as int]);
            assert(ps.entries.deep_view()[i as int] == (
                ps.entries@[i as int].0@,
                ps.entries@[i as int].1@,
            ));
        }
        append_bytes(&mut out, ps.entries[i].0.as_slice());
        out.push(58);
        out.push(32);
        append_bytes(&mut out, ps.entries[i].1.as_slice());
        out.push(10);
        proof {
            assert(out@ =~= spec_reason(ps.entries.deep_view().take(i as int + 1)));
        }
        i += 1;
    }
    proof {
        assert(ps.entries.deep_view().take(ps.entries@.len() as int) =~= ps.entries.deep_view());
    }
    out
}

/// The quarantine reason depends on the observed property set alone:
/// validating the same rejected set twice yields the identical payload.
pub proof fn lemma_reason_deterministic(a: PropertySet, b: PropertySet)
    requires
        a.entries.deep_view() == b.entries.deep_view(),
    ensures
        spec_reason(a.entries.deep_view()) == spec_reason(b.entries.deep_view()),
{
}

/// Changing one property's value flips acceptance to rejection.
pub proof fn lemma_changed_value_rejected(
    observed: Map<Seq<u8>, Seq<u8>>,
    expected: Map<Seq<u8>, Seq<u8>>,
    k: Seq<u8>,
    v: Seq<u8>,
)
    requires
        expected.contains_key(k),
        v != expected[k],
        observed == expected.insert(k, v),
    ensures
        observed != expected,
{
    assert(observed[k] == v);
}

/// An extra property flips acceptance to rejection.
pub proof fn lemma_extra_key_rejected(
    observed: Map<Seq<u8>, Seq<u8>>,
    expected: Map<Seq<u8>, Seq<u8>>,
    k: Seq<u8>,
    v: Seq<u8>,
)
    requires
        !expected.contains_key(k),
        observed == expected.insert(k, v),
    ensures
        observed != expected,
{
    assert(observed.contains_key(k));
}

/// An omitted required property flips acceptance to rejection.
pub proof fn lemma_missing_key_rejected(
    observed: Map<Seq<u8>, Seq<u8>>,
    expected: Map<Seq<u8>, Seq<u8>>,
    k: Seq<u8>,
)
    requires
        expected.contains_key(k),
        observed == expected.remove(k),
    ensures
        observed != expected,
{
    assert(!observed.contains_key(k));
}


pub open spec fn prop_name_1_v() -> Seq<u8> {
    seq![112u8, 114, 111, 112, 101, 114, 116, 121, 95, 110, 97, 109, 101, 95, 49]
}

pub fn prop_name_1() -> (r: Vec<u8>)
    ensures
        r@ == prop_name_1_v(),
{
    let mut v: Vec<u8> = Vec::new();
    v.push(112);
    v.push(114);
    v.push(111);
    v.push(112);
    v.push(101);
    v.push(114);
    v.push(116);
    v.push(121);
    v.push(95);
    v.push(110);
    v.push(97);
    v.push(109);
    v.push(101);
    v.push(95);
    v.push(49);
    proof {
        assert(v@ =~= prop_name_1_v());
    }
    v
}


pub open spec fn prop_name_2_v() -> Seq<u8> {
    seq![112u8, 114, 111, 112, 101, 114, 116, 121, 95, 110, 97, 109, 101, 95, 50]
}

pub fn prop_name_2() -> (r: Vec<u8>)
    ensures
        r@ == prop_name_2_v(),
{
    let mut v: Vec<u8> = Vec::new();
    v.push(112);
    v.push(114);
    v.push(111);
    v.push(112);
    v.push(101);
    v.push(114);
    v.push(116);
    v.push(121);
    v.push(95);
    v.push(110);
    v.push(97);
    v.push(109);
    v.push(101);
    v.push(95);
    v.push(50);
    proof {
        assert(v@ =~= prop_name_2_v());
    }
    v
}


pub open spec fn expected_value_1_v() -> Seq<u8> {
    seq![101u8, 120, 112, 101, 99, 116, 101, 100, 95, 118, 97, 108, 117, 101, 95, 49]
}

pub fn expected_value_1() -> (r: Vec<u8>)
    ensures
        r@ == expected_value_1_v(),
{
    let mut v: Vec<u8> = Vec::new();
    v.push(101);
    v.push(120);
    v.push(112);
    v.push(101);
    v.push(99);
    v.push(116);
    v.push(101);
    v.push(100);
    v.push(95);
    v.push(118);
    v.push(97);
    v.push(108);
    v.push(117);
    v.push(101);
    v.push(95);
    v.push(49);
    proof {
        assert(v@ =~= expected_value_1_v());
    }
    v
}


pub open spec fn expected_value_2_v() -> Seq<u8> {
    seq![101u8, 120, 112, 101, 99, 116, 101, 100, 95, 118, 97, 108, 117, 101, 95, 50]
}

pub fn expected_value_2() -> (r: Vec<u8>)
    ensures
        r@ == expected_value_2_v(),
{
    let mut v: Vec<u8> = Vec::new();
    v.push(101);
    v.push(120);
    v.push(112);
    v.push(101);
    v.push(99);
    v.push(116);
    v.push(101);
    v.push(100);
    v.push(95);
    v.push(118);
    v.push(97);
    v.push(108);
    v.push(117);
    v.push(101);
    v.push(95);
    v.push(50);
    proof {
        assert(v@ =~= expected_value_2_v());
    }
    v
}


pub open spec fn global_properties_name_v() -> Seq<u8> {
    seq![103u8, 108, 111, 98, 97, 108, 95, 112, 114, 111, 112, 101, 114, 116, 105, 101, 115]
}

pub fn global_properties_name() -> (r: Vec<u8>)
    ensures
        r@ == global_properties_name_v(),
{
    let mut v: Vec<u8> = Vec::new();
    v.push(103);
    v.push(108);
    v.push(111);
    v.push(98);
    v.push(97);
    v.push(108);
    v.push(95);
    v.push(112);
    v.push(114);
    v.push(111);
    v.push(112);
    v.push(101);
    v.push(114);
    v.push(116);
    v.push(105);
    v.push(101);
    v.push(115);
    proof {
        assert(v@ =~= global_properties_name_v());
    }
    v
}

/// The expected configuration's entries.
pub open spec fn expected_entries_v() -> Seq<(Seq<u8>, Seq<u8>)> {
    seq![
        (prop_name_1_v(), expected_value_1_v()),
        (prop_name_2_v(), expected_value_2_v()),
    ]
}

/// The property keys that the validator checks.
pub fn checked_property_names() -> (r: Vec<Vec<u8>>)
    ensures
        r.deep_view() == seq![prop_name_1_v(), prop_name_2_v()],
{
    let mut r: Vec<Vec<u8>> = Vec::new();
    r.push(prop_name_1());
    r.push(prop_name_2());
    proof {
        broadcast use lemma_bytes_dv;

        assert(r.deep_view() =~= seq![prop_name_1_v(), prop_name_2_v()]);
    }
    r
}

/// The expected configuration compiled into the system: the property values
/// a dump must carry to be accepted.
pub fn expected_property_values() -> (r: PropertySet)
    ensures
        r.wf(),
        r.entries.deep_view() == expected_entries_v(),
{
    let mut entries: Vec<(Vec<u8>, Vec<u8>)> = Vec::new();
    entries.push((prop_name_1(), expected_value_1()));
    entries.push((prop_name_2(), expected_value_2()));
    let r = PropertySet { entries };
    proof {
        broadcast use lemma_bytes_dv;

        assert(r.entries.deep_view() =~= expected_entries_v());
        assert(prop_name_1_v() != prop_name_2_v());
    }
    r
}

} // verus!
