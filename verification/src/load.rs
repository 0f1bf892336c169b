//! The transactional loader's logic: the tenant-scoping row rewrite, the
//! parameterized insert statement for each table, the checkpoint batching
//! that bounds client-side bookkeeping, and a model of the single
//! per-file transaction proving that a write failure anywhere leaves the
//! destination store exactly as it was (full rollback), while success
//! appends every row of every table in order.

use crate::tables::{
    lemma_bytes_dv, lemma_dv_app, lemma_dv_push, RowV, RowVals, Rows, RowsV,
};
use vstd::prelude::*;

verus! {

/// Why a load fails: the destination is unreachable before anything starts,
/// or a statement or checkpoint flush fails mid-transaction.
#[derive(Clone, Copy, Debug, PartialEq, Eq, Structural)]
pub enum LoadErr {
    Connection,
    Write,
}

/// A row rewritten for a tenant-scoped table: the site identifier prepended
/// as the new leading field.
pub open spec fn scope_row_v(site: Seq<u8>, row: RowV) -> RowV {
    seq![site] + row
}

/// The rows written for one table: rewritten when the table is
/// tenant-scoped, unchanged otherwise.
pub open spec fn prepare_rows_v(rows: RowsV, scoped: bool, site: Seq<u8>) -> RowsV {
    if scoped {
        rows.map_values(|r: RowV| scope_row_v(site, r))
    } else {
        rows
    }
}

pub fn scope_row(site: &[u8], row: &RowVals) -> (r: RowVals)
    ensures
        r.deep_view() == scope_row_v(site@, row.deep_view()),
{
    broadcast use lemma_bytes_dv;

    let mut r: RowVals = Vec::new();
    r.push(crate::parse::clone_bytes(site));
    proof {
        assert(r.deep_view() =~= seq![site@]);
    }
    let mut i: usize = 0;
    while i < row.len()
        invariant
            0 <= i <= row@.len(),
            r.deep_view() == seq![site@] + row.deep_view().take(i as int),
        decreases row@.len() - i,
    {
        let ghost rg = r;
        r.push(crate::parse::clone_bytes(row[i].as_slice()));
        proof {
            broadcast use lemma_bytes_dv;

            lemma_dv_push(rg, r, r@.last());
            assert(r.deep_view() =~= seq![site@] + row.deep_view().take(i as int + 1));
        }
        i += 1;
    }
    proof {
        assert(row.deep_view().take(row@.len() as int) =~= row.deep_view());
    }
    r
}

/// The rows to write for one table. Every row of a tenant-scoped table gets
/// exactly one more field than the parsed row, the site identifier, at
/// position 0, with the original fields following unchanged; a non-scoped
/// table's rows are written exactly as parsed.
pub fn prepare_rows(rows: &Rows, scoped: bool, site: &[u8]) -> (r: Rows)
    ensures
        r.deep_view() == prepare_rows_v(rows.deep_view(), scoped, site@),
        r.deep_view().len() == rows.deep_view().len(),
        scoped ==> forall|i: int|
            0 <= i < rows.deep_view().len() ==> (#[trigger] r.deep_view()[i]).len()
                == rows.deep_view()[i].len() + 1 && r.deep_view()[i][0] == site@
                && r.deep_view()[i].skip(1) == rows.deep_view()[i],
        !scoped ==> r.deep_view() == rows.deep_view(),
{
    broadcast use lemma_bytes_dv;

    if !scoped {
        return crate::parse::clone_rows(rows);
    }
    let mut r: Rows = Vec::new();
    let mut i: usize = 0;
    while i < rows.len()
        invariant
            0 <= i <= rows@.len(),
            r.deep_view() == rows.deep_view().take(i as int).map_values(
                |x: RowV| scope_row_v(site@, x),
            ),
        decreases rows@.len() - i,
    {
        let ghost rg = r;
        r.push(scope_row(site, &rows[i]));
        proof {
            broadcast use lemma_bytes_dv;

            lemma_dv_push(rg, r, r@.last());
            assert(r.deep_view() =~= rows.deep_view().take(i as int + 1).map_values(
                |x: RowV| scope_row_v(site@, x),
            ));
        }
        i += 1;
    }
    proof {
        assert(rows.deep_view().take(rows@.len() as int) =~= rows.deep_view());
        assert(forall|i: int|
            0 <= i < rows.deep_view().len() ==> (#[trigger] prepare_rows_v(
                rows.deep_view(),
                true,
                site@,
            )[i]).skip(1) =~= rows.deep_view()[i]);
    }
    r
}

/// `n` statement parameter markers, comma-separated.
pub open spec fn placeholders_v(n: nat) -> Seq<u8>
    decreases n,
{
    if n == 0 {
        Seq::empty()
    } else if n == 1 {
        seq![63u8]
    } else {
        placeholders_v((n - 1) as nat) + seq![44u8, 32u8, 63u8]
    }
}


pub open spec fn insert_prefix_v() -> Seq<u8> {
    seq![73u8, 78, 83, 69, 82, 84, 32, 73, 78, 84, 79, 32, 96]
}

fn insert_prefix() -> (r: Vec<u8>)
    ensures
        r@ == insert_prefix_v(),
{
    let mut v: Vec<u8> = Vec::new();
    v.push(73);
    v.push(78);
    v.push(83);
    v.push(69);
    v.push(82);
    v.push(84);
    v.push(32);
    v.push(73);
    v.push(78);
    v.push(84);
    v.push(79);
    v.push(32);
    v.push(96);
    proof {
        assert(v@ =~= insert_prefix_v());
    }
    v
}

pub open spec fn values_mid_v() -> Seq<u8> {
    seq![96u8, 32, 86, 65, 76, 85, 69, 83, 32, 40]
}

fn values_mid() -> (r: Vec<u8>)
    ensures
        r@ == values_mid_v(),
{
    let mut v: Vec<u8> = Vec::new();
    v.push(96);
    v.push(32);
    v.push(86);
    v.push(65);
    v.push(76);
    v.push(85);
    v.push(69);
    v.push(83);
    v.push(32);
    v.push(40);
    proof {
        assert(v@ =~= values_mid_v());
    }
    v
}

/// The parameterized insert statement for one table and row arity: field
/// values are bound as parameters, never interpolated into the text, so
/// arbitrary field content cannot change the statement.
pub open spec fn insert_stmt_v(name: Seq<u8>, arity: nat) -> Seq<u8> {
    insert_prefix_v() + name + values_mid_v() + placeholders_v(arity) + seq![41u8]
}

pub fn insert_statement(table_name: &[u8], arity: usize) -> (r: Vec<u8>)
    ensures
        r@ == insert_stmt_v(table_name@, arity as nat),
{
    let mut out = insert_prefix();
    crate::validate::append_bytes(&mut out, table_name);
    let mid = values_mid();
    crate::validate::append_bytes(&mut out, mid.as_slice());
    let mut i: usize = 0;
    while i < arity
        invariant
            0 <= i <= arity,
            out@ == insert_prefix_v() + table_name@ + values_mid_v() + placeholders_v(i as nat),
        decreases arity - i,
    {
        if i == 0 {
            out.push(63);
        } else {
            out.push(44);
            out.push(32);
            out.push(63);
        }
        proof {
            assert(out@ =~= insert_prefix_v() + table_name@ + values_mid_v() + placeholders_v(
                (i + 1) as nat,
            ));
        }
        i += 1;
    }
    out.push(41);
    proof {
        assert(out@ =~= insert_stmt_v(table_name@, arity as nat));
    }
    out
}

/// Checkpoint bookkeeping: one savepoint per written row, released in
/// groups of `batch`, so that at most `batch - 1` savepoints are ever
/// pending — the loader's client-side state stays bounded however many
/// rows a file holds.
pub struct CheckpointTracker {
    pub batch: usize,
    pub pending: usize,
}

impl CheckpointTracker {
    pub open spec fn wf(self) -> bool {
        self.batch >= 1 && self.pending < self.batch
    }

    pub fn new(batch: usize) -> (r: CheckpointTracker)
        requires
            batch >= 1,
        ensures
            r.wf(),
            r.batch == batch,
            r.pending == 0,
    {
        CheckpointTracker { batch, pending: 0 }
    }

    /// Records one savepoint; the result says whether the accumulated group
    /// must be released now.
    pub fn record(&mut self) -> (flush: bool)
        requires
            old(self).wf(),
        ensures
            final(self).wf(),
            final(self).batch == old(self).batch,
            flush == (old(self).pending + 1 == old(self).batch),
            final(self).pending == (if flush {
                0int
            } else {
                old(self).pending + 1
            }),
    {
        if self.pending + 1 == self.batch {
            self.pending = 0;
            true
        } else {
            self.pending = self.pending + 1;
            false
        }
    }

    /// Whether savepoints remain to release at table end.
    pub fn has_pending(&self) -> (r: bool)
        ensures
            r == (self.pending > 0),
    {
        self.pending > 0
    }
}

/// One table's rows tagged with its name, in order.
pub open spec fn tag_rows(name: Seq<u8>, rows: RowsV) -> Seq<(Seq<u8>, RowV)> {
    rows.map_values(|r: RowV| (name, r))
}

/// Every row of every table, in write order.
pub open spec fn flatten_tables(ts: Seq<(Seq<u8>, RowsV)>) -> Seq<(Seq<u8>, RowV)>
    decreases ts.len(),
{
    if ts.len() == 0 {
        Seq::empty()
    } else {
        flatten_tables(ts.drop_last()) + tag_rows(ts.last().0, ts.last().1)
    }
}

/// An abstract destination store: the committed rows, each tagged with its
/// table, in write order.
pub struct StoreModel {
    pub committed: Vec<(Vec<u8>, RowVals)>,
}

impl StoreModel {
    pub fn new() -> (r: StoreModel)
        ensures
            r.committed@.len() == 0,
            r.committed.deep_view() == Seq::<(Seq<u8>, RowV)>::empty(),
    {
        let r = StoreModel { committed: Vec::new() };
        proof {
            assert(r.committed.deep_view() =~= Seq::<(Seq<u8>, RowV)>::empty());
        }
        r
    }
}

/// Whether the injected failure strikes within this file's writes.
pub open spec fn fails_in_range(ts: Seq<(Seq<u8>, RowsV)>, fail_at: Option<(usize, usize)>) -> bool {
    match fail_at {
        None => false,
        Some((ti, ri)) => ti < ts.len() && ri < ts[ti as int].1.len(),
    }
}

/// Whether the injected failure strikes before write position (`i`, `j`).
pub open spec fn fails_before(
    ts: Seq<(Seq<u8>, RowsV)>,
    fail_at: Option<(usize, usize)>,
    i: int,
    j: int,
) -> bool {
    match fail_at {
        None => false,
        Some((ti, ri)) => ti < ts.len() && ri < ts[ti as int].1.len() && (ti < i || (ti == i && ri
            < j)),
    }
}

/// Writes one file's tables against the store model inside a single
/// transaction: rows are buffered in the open transaction, a savepoint is
/// recorded per row and released in groups, and the transaction commits
/// only after every row of every table was written. `fail_at` injects a
/// write failure at the given table and row index; any failure rolls the
/// whole file back, leaving the store exactly as it was.
pub fn run_load(
    store: &mut StoreModel,
    tables: &Vec<(Vec<u8>, Rows)>,
    batch: usize,
    fail_at: Option<(usize, usize)>,
) -> (r: Result<(), LoadErr>)
    requires
        batch >= 1,
    ensures
        r is Ok <==> !fails_in_range(tables.deep_view(), fail_at),
        r is Ok ==> final(store).committed.deep_view() == old(store).committed.deep_view()
            + flatten_tables(tables.deep_view()),
        r is Err ==> *final(store) == *old(store) && r == Err::<(), LoadErr>(LoadErr::Write),
{
    broadcast use lemma_bytes_dv;

    let ghost tv = tables.deep_view();
    let mut pending: Vec<(Vec<u8>, RowVals)> = Vec::new();
    let mut cp = CheckpointTracker::new(batch);
    proof {
        assert(pending.deep_view() =~= Seq::<(Seq<u8>, RowV)>::empty());
        assert(flatten_tables(tv.take(0)) =~= Seq::<(Seq<u8>, RowV)>::empty());
    }
    let mut i: usize = 0;
    while i < tables.len()
        invariant
            0 <= i <= tables@.len(),
            tv == tables.deep_view(),
            cp.wf(),
            *store == *old(store),
            pending.deep_view() == flatten_tables(tv.take(i as int)),
            !fails_before(tv, fail_at, i as int, 0),
        decreases tables@.len() - i,
    {
        let name = &tables[i].0;
        let rows = &tables[i].1;
        let ghost base = pending.deep_view();
        let mut j: usize = 0;
        while j < rows.len()
            invariant
                0 <= j <= rows@.len(),
                0 <= i < tables@.len(),
                tv == tables.deep_view(),
                rows.deep_view() == tv[i as int].1,
                name@ == tables@[i as int].0@,
                cp.wf(),
                *store == *old(store),
                base == flatten_tables(tv.take(i as int)),
                pending.deep_view() == base + tag_rows(tv[i as int].0, tv[i as int].1.take(
                    j as int,
                )),
                !fails_before(tv, fail_at, i as int, j as int),
            decreases rows@.len() - j,
        {
            match fail_at {
                Some((ti, ri)) => {
                    if ti == i && ri == j {
                        proof {
                            assert(tv[i as int].1.len() == rows@.len());
                            assert(fails_in_range(tv, fail_at));
                        }
                        return Err(LoadErr::Write);
                    }
                },
                None => {},
            }
            let ghost pg = pending;
            pending.push(
                (
                    crate::parse::clone_bytes(name.as_slice()),
                    crate::parse::clone_row(&rows[j]),
                ),
            );
            cp.record();
            proof {
                broadcast use lemma_bytes_dv;

                lemma_dv_push(pg, pending, pending@.last());
                assert(tv[i as int].1[j as int] == rows.deep_view()[j as int]);
                assert(pending.deep_view() =~= base + tag_rows(tv[i as int].0, tv[i as int
                ].1.take(j as int + 1)));
            }
            j += 1;
        }
        proof {
            assert(tv[i as int].1.take(rows@.len() as int) =~= tv[i as int].1);
            assert(tv.take(i as int + 1).drop_last() =~= tv.take(i as int));
            assert(tv.take(i as int + 1).last() == tv[i as int]);
        }
        i += 1;
    }
    let ghost pg = pending;
    let ghost cg = store.committed;
    store.committed.append(&mut pending);
    proof {
        assert(tv.take(tables@.len() as int) =~= tv);
        lemma_dv_app(cg, pg, store.committed);
        assert(!fails_in_range(tv, fail_at));
    }
    Ok(())
}

} // verus!
