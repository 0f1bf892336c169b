//! The per-file pipeline decision: parse the compressed dump, gate it on
//! the expected configuration, and either hand back the prepared tables to
//! load (tenant-scoping applied) or the quarantine reason to write. The
//! file and store I/O around this decision lives outside the library; the
//! decision itself is a pure function of the file's bytes and the
//! configuration.

use crate::load::{prepare_rows, prepare_rows_v};
use crate::parse::ParseErr;
use crate::tables::{entries_to_map, lemma_bytes_dv, lemma_dv_push, unique_names, Rows, RowsV};
use crate::validate::{extract_entries, spec_reason, PropertySet};
use vstd::prelude::*;

verus! {

/// The configuration surface the pipeline consumes, loaded once at startup
/// by the excluded configuration collaborator.
pub struct PipelineConfig {
    /// The property keys extracted from the global properties table.
    pub property_names: Vec<Vec<u8>>,
    /// The expected configuration a dump must match exactly.
    pub expected: PropertySet,
    /// The tables whose rows receive the tenant-scoping rewrite.
    pub transactional_tables: Vec<Vec<u8>>,
    /// The site identifier prepended to tenant-scoped rows.
    pub site_id: Vec<u8>,
    /// How many savepoints accumulate before a flush.
    pub checkpoint_batch: usize,
}

impl PipelineConfig {
    pub open spec fn wf(self) -> bool {
        self.expected.wf() && self.checkpoint_batch >= 1
    }
}

/// The configuration with the compiled-in property expectations.
pub fn standard_config(
    transactional_tables: Vec<Vec<u8>>,
    site_id: Vec<u8>,
    checkpoint_batch: usize,
) -> (r: PipelineConfig)
    requires
        checkpoint_batch >= 1,
    ensures
        r.wf(),
        r.property_names.deep_view() == seq![
            crate::validate::prop_name_1_v(),
            crate::validate::prop_name_2_v(),
        ],
        r.expected.entries.deep_view() == crate::validate::expected_entries_v(),
        r.transactional_tables == transactional_tables,
        r.site_id == site_id,
        r.checkpoint_batch == checkpoint_batch,
{
    PipelineConfig {
        property_names: crate::validate::checked_property_names(),
        expected: crate::validate::expected_property_values(),
        transactional_tables,
        site_id,
        checkpoint_batch,
    }
}

/// What becomes of one discovered file.
pub enum FileOutcome {
    /// The dump could not be parsed: logged, file abandoned in place.
    ParseFailed(ParseErr),
    /// The dump carries no global properties table: logged, file abandoned.
    MissingProperties,
    /// The observed properties differ from the expected configuration: the
    /// file moves to quarantine with this reason payload.
    Quarantine(Vec<u8>),
    /// The dump is accepted: these tables, tenant-scoping already applied,
    /// are written in one transaction.
    Load(Vec<(Vec<u8>, Rows)>),
}

/// Each parsed table prepared for the load: its rows rewritten exactly when
/// its name is tenant-scoped.
pub open spec fn prep_entries(
    es: Seq<(Seq<u8>, RowsV)>,
    trans: Seq<Seq<u8>>,
    site: Seq<u8>,
) -> Seq<(Seq<u8>, RowsV)> {
    es.map_values(|e: (Seq<u8>, RowsV)| (e.0, prepare_rows_v(e.1, trans.contains(e.0), site)))
}

/// The same preparation, seen through the denoted maps.
pub open spec fn prepared_map(
    m: Map<Seq<u8>, RowsV>,
    trans: Seq<Seq<u8>>,
    site: Seq<u8>,
) -> Map<Seq<u8>, RowsV> {
    Map::new(
        |k: Seq<u8>| m.contains_key(k),
        |k: Seq<u8>| prepare_rows_v(m[k], trans.contains(k), site),
    )
}

/// Preparing the entries prepares the denoted map, pointwise.
pub proof fn lemma_prepared_entries(es: Seq<(Seq<u8>, RowsV)>, trans: Seq<Seq<u8>>, site: Seq<u8>)
    ensures
        entries_to_map(prep_entries(es, trans, site)) == prepared_map(
            entries_to_map(es),
            trans,
            site,
        ),
    decreases es.len(),
{
    let pe = prep_entries(es, trans, site);
    if es.len() == 0 {
        assert(entries_to_map(pe) =~= prepared_map(entries_to_map(es), trans, site));
    } else {
        assert(pe.drop_last() =~= prep_entries(es.drop_last(), trans, site));
        lemma_prepared_entries(es.drop_last(), trans, site);
        assert(pe.last() == (es.last().0, prepare_rows_v(
            es.last().1,
            trans.contains(es.last().0),
            site,
        )));
        assert(entries_to_map(pe) =~= prepared_map(entries_to_map(es), trans, site));
    }
}

/// Runs one file's pipeline decision: parse, validate, and prepare the
/// accepted tables for the transactional load, or name the failure. For a
/// parse error the file is abandoned; a missing global properties table is
/// abandoned too; a property mismatch yields the quarantine reason; an
/// accepted dump yields every parsed table with tenant-scoping applied to
/// exactly the configured tables.
pub fn plan_file(compressed: &[u8], config: &PipelineConfig) -> (r: FileOutcome)
    requires
        config.wf(),
    ensures
        match crate::parse::spec_parse_dump(compressed@) {
            Err(k) => r == FileOutcome::ParseFailed(k),
            Ok(m) => {
                if !m.contains_key(crate::validate::global_properties_name_v()) {
                    r is MissingProperties
                } else {
                    let obs = extract_entries(
                        m[crate::validate::global_properties_name_v()],
                        config.property_names.deep_view(),
                    );
                    if entries_to_map(obs) == config.expected@ {
                        r matches FileOutcome::Load(ts) && unique_names(ts.deep_view())
                            && entries_to_map(ts.deep_view()) == prepared_map(
                            m,
                            config.transactional_tables.deep_view(),
                            config.site_id@,
                        )
                    } else {
                        r matches FileOutcome::Quarantine(reason) && reason@ == spec_reason(obs)
                    }
                }
            },
        },
{
    broadcast use lemma_bytes_dv;

    let tm = match crate::parse::parse_table_data(compressed) {
        Err(k) => {
            return FileOutcome::ParseFailed(k);
        },
        Ok(tm) => tm,
    };
    let gp = crate::validate::global_properties_name();
    let rows = match tm.get(gp.as_slice()) {
        None => {
            return FileOutcome::MissingProperties;
        },
        Some(rows) => rows,
    };
    let ps = crate::validate::extract_property_values(rows, &config.property_names);
    if crate::validate::validate(&ps, &config.expected) {
        let ghost trans_v = config.transactional_tables.deep_view();
        let ghost site_v = config.site_id@;
        let ghost es = tm.entries.deep_view();
        let mut ts: Vec<(Vec<u8>, Rows)> = Vec::new();
        proof {
            assert(ts.deep_view() =~= prep_entries(es.take(0), trans_v, site_v));
        }
        let mut i: usize = 0;
        while i < tm.entries.len()
            invariant
                0 <= i <= tm.entries@.len(),
                es == tm.entries.deep_view(),
                trans_v == config.transactional_tables.deep_view(),
                site_v == config.site_id@,
                ts.deep_view() == prep_entries(es.take(i as int), trans_v, site_v),
            decreases tm.entries@.len() - i,
        {
            broadcast use lemma_bytes_dv;

            let name = crate::parse::clone_bytes(tm.entries[i].0.as_slice());
            let scoped = crate::validate::contains_bytes(
                &config.transactional_tables,
                tm.entries[i].0.as_slice(),
            );
            let prepared = prepare_rows(&tm.entries[i].1, scoped, config.site_id.as_slice());
            let ghost tsg = ts;
            ts.push((name, prepared));
            proof {
                lemma_dv_push(tsg, ts, ts@.last());
                assert(es[i as int] == (tm.entries@[i as int].0@, tm.entries@[
                    i as int].1.deep_view()));
                assert(ts.deep_view() =~= prep_entries(es.take(i as int + 1), trans_v, site_v));
            }
            i += 1;
        }
        proof {
            assert(es.take(es.len() as int) =~= es);
            lemma_prepared_entries(es, trans_v, site_v);
            assert(unique_names(ts.deep_view())) by {
                assert(forall|j: int|
                    0 <= j < es.len() ==> (#[trigger] prep_entries(es, trans_v, site_v)[j]).0
                        == es[j].0);
            }
        }
        FileOutcome::Load(ts)
    } else {
        FileOutcome::Quarantine(crate::validate::render_reason(&ps))
    }
}


pub open spec fn watch_prefix_v() -> Seq<u8> {
    seq![111u8, 112, 101, 110, 109, 114, 115, 95]
}

fn watch_prefix() -> (r: Vec<u8>)
    ensures
        r@ == watch_prefix_v(),
{
    let mut v: Vec<u8> = Vec::new();
    v.push(111);
    v.push(112);
    v.push(101);
    v.push(110);
    v.push(109);
    v.push(114);
    v.push(115);
    v.push(95);
    proof {
        assert(v@ =~= watch_prefix_v());
    }
    v
}

pub open spec fn watch_suffix_v() -> Seq<u8> {
    seq![46u8, 115, 113, 108, 46, 103, 122]
}

fn watch_suffix() -> (r: Vec<u8>)
    ensures
        r@ == watch_suffix_v(),
{
    let mut v: Vec<u8> = Vec::new();
    v.push(46);
    v.push(115);
    v.push(113);
    v.push(108);
    v.push(46);
    v.push(103);
    v.push(122);
    proof {
        assert(v@ =~= watch_suffix_v());
    }
    v
}

/// The watcher's filename filter: a dump file's name begins with the export
/// prefix and ends with the compressed-dump extension.
pub open spec fn is_dump_name_v(n: Seq<u8>) -> bool {
    &&& n.len() >= watch_prefix_v().len()
    &&& n.take(watch_prefix_v().len() as int) == watch_prefix_v()
    &&& n.len() >= watch_suffix_v().len()
    &&& n.skip(n.len() - watch_suffix_v().len()) == watch_suffix_v()
}

fn has_prefix(s: &[u8], p: &[u8]) -> (r: bool)
    ensures
        r == (s@.len() >= p@.len() && s@.take(p@.len() as int) == p@),
{
    if s.len() < p.len() {
        return false;
    }
    let mut i: usize = 0;
    while i < p.len()
        invariant
            0 <= i <= p@.len() <= s@.len(),
            forall|j: int| 0 <= j < i ==> s@[j] == p@[j],
        decreases p@.len() - i,
    {
        if s[i] != p[i] {
            assert(s@.take(p@.len() as int)[i as int] != p@[i as int]);
            return false;
        }
        i += 1;
    }
    assert(s@.take(p@.len() as int) =~= p@);
    true
}

fn has_suffix(s: &[u8], p: &[u8]) -> (r: bool)
    ensures
        r == (s@.len() >= p@.len() && s@.skip(s@.len() - p@.len()) == p@),
{
    if s.len() < p.len() {
        return false;
    }
    let base = s.len() - p.len();
    let mut i: usize = 0;
    while i < p.len()
        invariant
            0 <= i <= p@.len() <= s@.len(),
            s@.len() <= usize::MAX,
            base == s@.len() - p@.len(),
            forall|j: int| 0 <= j < i ==> s@[base + j] == p@[j],
        decreases p@.len() - i,
    {
        if s[base + i] != p[i] {
            assert(s@.skip(s@.len() - p@.len())[i as int] != p@[i as int]);
            return false;
        }
        i += 1;
    }
    assert(s@.skip(s@.len() - p@.len()) =~= p@);
    true
}

/// Whether a discovered file name is a dump this pipeline processes.
pub fn is_dump_file_name(name: &[u8]) -> (r: bool)
    ensures
        r == is_dump_name_v(name@),
{
    let pfx = watch_prefix();
    let sfx = watch_suffix();
    let a = has_prefix(name, pfx.as_slice());
    let b = has_suffix(name, sfx.as_slice());
    a && b
}

/// Fold over the bytes of a comma-separated configuration value: the parts
/// completed so far and the part in progress.
pub open spec fn commas_acc(b: Seq<u8>) -> (Seq<Seq<u8>>, Seq<u8>)
    decreases b.len(),
{
    if b.len() == 0 {
        (Seq::empty(), Seq::empty())
    } else {
        let acc = commas_acc(b.drop_last());
        let x = b.last();
        if x == crate::parse::COMMA_B {
            (acc.0.push(acc.1), Seq::empty())
        } else {
            (acc.0, acc.1.push(x))
        }
    }
}

/// A comma-separated configuration value, split: the text between the
/// commas, in order, the empty part included.
pub open spec fn spec_split_commas(b: Seq<u8>) -> Seq<Seq<u8>> {
    commas_acc(b).0.push(commas_acc(b).1)
}

/// Splits the comma-separated list of tenant-scoped table names as the
/// configuration surface supplies it.
pub fn split_config_tables(b: &[u8]) -> (r: Vec<Vec<u8>>)
    ensures
        r.deep_view() == spec_split_commas(b@),
{
    broadcast use lemma_bytes_dv;

    let mut out: Vec<Vec<u8>> = Vec::new();
    let mut cur: Vec<u8> = Vec::new();
    let mut i: usize = 0;
    while i < b.len()
        invariant
            0 <= i <= b@.len(),
            out.deep_view() == commas_acc(b@.take(i as int)).0,
            cur@ == commas_acc(b@.take(i as int)).1,
        decreases b@.len() - i,
    {
        let ghost pre = b@.take(i as int);
        proof {
            assert(b@.take(i as int + 1).drop_last() =~= pre);
            assert(b@.take(i as int + 1).last() == b@[i as int]);
        }
        let x = b[i];
        if x == 44 {
            let ghost outg = out;
            let finished = cur;
            cur = Vec::new();
            out.push(finished);
            proof {
                broadcast use lemma_bytes_dv;

                lemma_dv_push(outg, out, out@.last());
                assert(out.deep_view() =~= commas_acc(b@.take(i as int + 1)).0);
                assert(cur@ =~= commas_acc(b@.take(i as int + 1)).1);
            }
        } else {
            cur.push(x);
        }
        i += 1;
    }
    proof {
        assert(b@.take(b@.len() as int) =~= b@);
    }
    let ghost outg = out;
    out.push(cur);
    proof {
        broadcast use lemma_bytes_dv;

        lemma_dv_push(outg, out, out@.last());
        assert(out.deep_view() =~= spec_split_commas(b@));
    }
    out
}

} // verus!
