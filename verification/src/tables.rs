//! The table/row structure a dump parses into: a mapping from table name to
//! an ordered sequence of rows, each row an ordered sequence of byte-string
//! field values. Stored as an association list with pairwise-distinct names
//! so that contracts can speak both of the mapping and of an entry order.

use vstd::prelude::*;

verus! {

/// One row: its field values, in order.
pub type RowVals = Vec<Vec<u8>>;

/// The rows of one table, in dump order.
pub type Rows = Vec<RowVals>;

/// Spec-level view of one row.
pub type RowV = Seq<Seq<u8>>;

/// Spec-level view of a table's rows.
pub type RowsV = Seq<RowV>;

/// For byte vectors the deep view coincides with the plain view.
pub broadcast proof fn lemma_bytes_dv(v: Vec<u8>)
    ensures
        #[trigger] v.deep_view() == v@,
{
    assert(v.deep_view() =~= v@);
}

/// The mapping an entry sequence denotes; a later entry would shadow an
/// earlier one with the same name (well-formed maps have no such pair).
pub open spec fn entries_to_map<V>(es: Seq<(Seq<u8>, V)>) -> Map<Seq<u8>, V>
    decreases es.len(),
{
    if es.len() == 0 {
        Map::empty()
    } else {
        entries_to_map(es.drop_last()).insert(es.last().0, es.last().1)
    }
}

pub open spec fn unique_names<V>(es: Seq<(Seq<u8>, V)>) -> bool {
    forall|i: int, j: int| 0 <= i < j < es.len() ==> es[i].0 != es[j].0
}

/// A parsed dump: table name -> ordered rows.
pub struct TableMap {
    pub entries: Vec<(Vec<u8>, Rows)>,
}

impl View for TableMap {
    type V = Map<Seq<u8>, RowsV>;

    open spec fn view(&self) -> Map<Seq<u8>, RowsV> {
        entries_to_map(self.entries.deep_view())
    }
}

pub proof fn lemma_dv_push<T: DeepView>(v1: Vec<T>, v2: Vec<T>, x: T)
    requires
        v2@ == v1@.push(x),
    ensures
        v2.deep_view() == v1.deep_view().push(x.deep_view()),
{
    assert(v2.deep_view() =~= v1.deep_view().push(x.deep_view()));
}

pub proof fn lemma_dv_app<T: DeepView>(v1: Vec<T>, v2: Vec<T>, v3: Vec<T>)
    requires
        v3@ == v1@ + v2@,
    ensures
        v3.deep_view() == v1.deep_view() + v2.deep_view(),
{
    assert(v3.deep_view() =~= v1.deep_view() + v2.deep_view());
}

pub proof fn lemma_dv_update<T: DeepView>(v1: Vec<T>, v2: Vec<T>, i: int, x: T)
    requires
        0 <= i < v1@.len(),
        v2@ == v1@.update(i, x),
    ensures
        v2.deep_view() == v1.deep_view().update(i, x.deep_view()),
{
    assert(v2.deep_view() =~= v1.deep_view().update(i, x.deep_view()));
}

/// An entry's name is in the denoted map, bound to that entry's rows.
pub proof fn lemma_entries_index<V>(es: Seq<(Seq<u8>, V)>, i: int)
    requires
        unique_names(es),
        0 <= i < es.len(),
    ensures
        entries_to_map(es).contains_key(es[i].0),
        entries_to_map(es)[es[i].0] == es[i].1,
    decreases es.len(),
{
    if i < es.len() - 1 {
        assert(es.drop_last()[i] == es[i]);
        assert(forall|a: int, b: int|
            0 <= a < b < es.drop_last().len() ==> #[trigger] es.drop_last()[a].0
                != #[trigger] es.drop_last()[b].0) by {
            assert(forall|a: int| 0 <= a < es.drop_last().len() ==> es.drop_last()[a] == es[a]);
        }
        lemma_entries_index(es.drop_last(), i);
        assert(es[i].0 != es.last().0);
    }
}

/// A name that no entry carries is not in the denoted map.
pub proof fn lemma_entries_absent<V>(es: Seq<(Seq<u8>, V)>, k: Seq<u8>)
    requires
        forall|i: int| 0 <= i < es.len() ==> es[i].0 != k,
    ensures
        !entries_to_map(es).contains_key(k),
    decreases es.len(),
{
    if es.len() > 0 {
        assert(forall|i: int|
            0 <= i < es.drop_last().len() ==> #[trigger] es.drop_last()[i].0 != k) by {
            assert(forall|i: int| 0 <= i < es.drop_last().len() ==> es.drop_last()[i] == es[i]);
        }
        lemma_entries_absent(es.drop_last(), k);
    }
}

/// Every name in the denoted map is carried by some entry, with its rows.
pub proof fn lemma_entries_exists<V>(es: Seq<(Seq<u8>, V)>, k: Seq<u8>)
    requires
        entries_to_map(es).contains_key(k),
    ensures
        exists|i: int|
            0 <= i < es.len() && (#[trigger] es[i]).0 == k && es[i].1 == entries_to_map(es)[k],
    decreases es.len(),
{
    if es.len() > 0 {
        if es.last().0 == k {
            assert(es[es.len() - 1].0 == k && es[es.len() - 1].1 == entries_to_map(es)[k]);
        } else {
            lemma_entries_exists(es.drop_last(), k);
            let i = choose|i: int|
                0 <= i < es.drop_last().len() && (#[trigger] es.drop_last()[i]).0 == k
                    && es.drop_last()[i].1 == entries_to_map(es.drop_last())[k];
            assert(es[i].0 == k && es[i].1 == entries_to_map(es)[k]);
        }
    }
}

/// Replacing the rows of one entry updates the denoted map at that name only.
pub proof fn lemma_entries_update<V>(es: Seq<(Seq<u8>, V)>, i: int, v: V)
    requires
        unique_names(es),
        0 <= i < es.len(),
    ensures
        entries_to_map(es.update(i, (es[i].0, v))) == entries_to_map(es).insert(es[i].0, v),
    decreases es.len(),
{
    let es2 = es.update(i, (es[i].0, v));
    if i == es.len() - 1 {
        assert(es2.drop_last() =~= es.drop_last());
        assert(entries_to_map(es2) =~= entries_to_map(es).insert(es[i].0, v));
    } else {
        assert(es2.drop_last() =~= es.drop_last().update(i, (es[i].0, v)));
        assert(forall|a: int, b: int|
            0 <= a < b < es.drop_last().len() ==> #[trigger] es.drop_last()[a].0
                != #[trigger] es.drop_last()[b].0) by {
            assert(forall|a: int| 0 <= a < es.drop_last().len() ==> es.drop_last()[a] == es[a]);
        }
        assert(es.drop_last()[i] == es[i]);
        lemma_entries_update(es.drop_last(), i, v);
        assert(es[i].0 != es.last().0);
        assert(entries_to_map(es2) =~= entries_to_map(es).insert(es[i].0, v));
    }
}

/// Appending an entry inserts its name into the denoted map.
pub proof fn lemma_entries_push<V>(es: Seq<(Seq<u8>, V)>, k: Seq<u8>, v: V)
    ensures
        entries_to_map(es.push((k, v))) == entries_to_map(es).insert(k, v),
{
    assert(es.push((k, v)).drop_last() =~= es);
}

impl TableMap {
    pub open spec fn wf(self) -> bool {
        unique_names(self.entries.deep_view())
    }

    pub fn new() -> (r: TableMap)
        ensures
            r.wf(),
            r@ == Map::<Seq<u8>, RowsV>::empty(),
            r.entries@.len() == 0,
    {
        TableMap { entries: Vec::new() }
    }

    /// Index of the entry named `name`, if any.
    fn find(&self, name: &[u8]) -> (r: Option<usize>)
        ensures
            match r {
                Some(i) => i < self.entries@.len() && self.entries.deep_view()[i as int].0
                    == name@,
                None => forall|i: int|
                    0 <= i < self.entries@.len() ==> self.entries.deep_view()[i].0 != name@,
            },
    {
        broadcast use lemma_bytes_dv;

        let mut i: usize = 0;
        while i < self.entries.len()
            invariant
                0 <= i <= self.entries@.len(),
                forall|j: int| 0 <= j < i ==> self.entries.deep_view()[j].0 != name@,
            decreases self.entries@.len() - i,
        {
            if crate::bytes_eq(self.entries[i].0.as_slice(), name) {
                assert(self.entries.deep_view()[i as int].0 == self.entries@[i as int].0@);
                return Some(i);
            }
            assert(self.entries.deep_view()[i as int].0 == self.entries@[i as int].0@);
            i += 1;
        }
        None
    }

    /// The rows recorded for `name`, if that table is present.
    pub fn get(&self, name: &[u8]) -> (r: Option<&Rows>)
        requires
            self.wf(),
        ensures
            match r {
                Some(rows) => self@.contains_key(name@) && rows.deep_view() == self@[name@],
                None => !self@.contains_key(name@),
            },
    {
        match self.find(name) {
            Some(i) => {
                proof {
                    lemma_entries_index(self.entries.deep_view(), i as int);
                }
                Some(&self.entries[i].1)
            },
            None => {
                proof {
                    lemma_entries_absent(self.entries.deep_view(), name@);
                }
                None
            },
        }
    }

    /// Appends one completed row to the table named `name`, creating the
    /// table if this is its first row.
    pub fn push_row(&mut self, name: Vec<u8>, row: RowVals)
        requires
            old(self).wf(),
        ensures
            final(self).wf(),
            final(self)@ == (if old(self)@.contains_key(name@) {
                old(self)@.insert(name@, old(self)@[name@].push(row.deep_view()))
            } else {
                old(self)@.insert(name@, seq![row.deep_view()])
            }),
    {
        broadcast use lemma_bytes_dv;

        let ghost es0 = self.entries.deep_view();
        match self.find(name.as_slice()) {
            Some(i) => {
                proof {
                    lemma_entries_index(es0, i as int);
                }
                let ghost old_rows = es0[i as int].1;
                let mut entry = self.entries.remove(i);
                entry.1.push(row);
                let ghost mid = self.entries;
                self.entries.insert(i, entry);
                proof {
                    assert(self.entries@ =~= old(self).entries@.update(
                        i as int,
                        self.entries@[i as int],
                    ));
                    lemma_dv_update(
                        old(self).entries,
                        self.entries,
                        i as int,
                        self.entries@[i as int],
                    );
                    assert(self.entries@[i as int].1.deep_view() =~= old_rows.push(
                        row.deep_view(),
                    ));
                    assert(self.entries.deep_view() =~= es0.update(
                        i as int,
                        (name@, old_rows.push(row.deep_view())),
                    ));
                    lemma_entries_update(es0, i as int, old_rows.push(row.deep_view()));
                }
            },
            None => {
                proof {
                    lemma_entries_absent(es0, name@);
                }
                let ghost n = name@;
                let ghost rv = row.deep_view();
                self.entries.push((name, row_singleton(row)));
                proof {
                    lemma_dv_push(old(self).entries, self.entries, self.entries@.last());
                    assert(self.entries.deep_view() =~= es0.push((n, seq![rv])));
                    lemma_entries_push(es0, n, seq![rv]);
                }
            },
        }
    }
}

/// A one-row table body.
fn row_singleton(row: RowVals) -> (r: Rows)
    ensures
        r.deep_view() == seq![row.deep_view()],
{
    let mut r: Rows = Vec::new();
    let ghost rv = row.deep_view();
    r.push(row);
    proof {
        assert(r.deep_view() =~= seq![rv]);
    }
    r
}

} // verus!
