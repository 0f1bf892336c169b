//! The dump parser: a line-oriented, stateful grammar over the decompressed
//! byte stream.
//!
//! A `CREATE TABLE \`name\`` line opens a table, finalizing any row still in
//! progress; a line beginning with `)` closes the current table; a line
//! beginning with `(` starts a logical row; every other line continues the
//! current logical row, if one is in progress, and is skipped otherwise
//! (schema lines inside a table header, preamble before the first table).
//! Field values are comma-separated; a single-quoted value may contain
//! escaped bytes (backslash), literal commas and line breaks, so quote state
//! is tracked across the whole logical row, never per physical line. A row
//! ends at its closing `)` outside quotes. Finalizing a row whose quoting
//! never closed is a parse error, as is a table line without a closing
//! backtick.
//!
//! The specification below is a sequential fold over the lines; the
//! executable parser splits the stream into segments at table-start lines,
//! parses the segments independently (in parallel for throughput), and is
//! proved to produce exactly the sequential fold's result.

use crate::tables::{RowV, RowsV, TableMap};
use rayon::iter::IntoParallelRefIterator;
use rayon::iter::ParallelIterator;
use vstd::prelude::*;

verus! {

pub const QUOTE_B: u8 = 39;

pub const BACKSLASH_B: u8 = 92;

pub const COMMA_B: u8 = 44;

pub const OPEN_B: u8 = 40;

pub const CLOSE_B: u8 = 41;

pub const NL_B: u8 = 10;

pub const CR_B: u8 = 13;

pub const BACKTICK_B: u8 = 96;

/// Why a dump fails to parse.
#[derive(Clone, Copy, Debug, PartialEq, Eq, Structural)]
pub enum ParseErr {
    /// The stream is not a well-formed compressed stream.
    NotGzip,
    /// The decompressed stream is not valid text.
    BadText,
    /// A table-start line has no closing name delimiter.
    BadTableLine,
    /// A logical row was finalized while its quoting was still open.
    UnclosedQuote,
}

/// The accumulator for one logical row.
#[verifier::ext_equal]
pub struct RbV {
    pub fields: Seq<Seq<u8>>,
    pub cur: Seq<u8>,
    pub quoted: bool,
    pub esc: bool,
    pub done: bool,
}

pub open spec fn rb_init() -> RbV {
    RbV { fields: Seq::empty(), cur: Seq::empty(), quoted: false, esc: false, done: false }
}

/// One byte of row content.
pub open spec fn feed1(rb: RbV, b: u8) -> RbV {
    if rb.done {
        rb
    } else if rb.esc {
        RbV { cur: rb.cur.push(b), esc: false, ..rb }
    } else if rb.quoted {
        if b == BACKSLASH_B {
            RbV { esc: true, ..rb }
        } else if b == QUOTE_B {
            RbV { quoted: false, ..rb }
        } else {
            RbV { cur: rb.cur.push(b), ..rb }
        }
    } else {
        if b == QUOTE_B {
            RbV { quoted: true, ..rb }
        } else if b == COMMA_B {
            RbV { fields: rb.fields.push(rb.cur), cur: Seq::empty(), ..rb }
        } else if b == CLOSE_B {
            RbV { done: true, ..rb }
        } else if b == NL_B {
            rb
        } else {
            RbV { cur: rb.cur.push(b), ..rb }
        }
    }
}

pub open spec fn feed(rb: RbV, bs: Seq<u8>) -> RbV
    decreases bs.len(),
{
    if bs.len() == 0 {
        rb
    } else {
        feed1(feed(rb, bs.drop_last()), bs.last())
    }
}

pub proof fn lemma_feed_push(rb: RbV, bs: Seq<u8>, b: u8)
    ensures
        feed(rb, bs.push(b)) == feed1(feed(rb, bs), b),
{
    assert(bs.push(b).drop_last() =~= bs);
}

/// Once a row is done, further content is ignored.
pub proof fn lemma_feed_done(rb: RbV, bs: Seq<u8>)
    requires
        rb.done,
    ensures
        feed(rb, bs) == rb,
    decreases bs.len(),
{
    if bs.len() > 0 {
        lemma_feed_done(rb, bs.drop_last());
    }
}

/// The completed row a finished accumulator denotes.
pub open spec fn emit(rb: RbV) -> RowV {
    rb.fields.push(rb.cur)
}

/// A quoted value is captured intact: while quoting is open, every byte
/// other than the quote and the escape — a comma, a line break or a closing
/// delimiter included — extends the current field and nothing else. The
/// field is not split, the row does not end, and the quote stays open.
pub proof fn lemma_quoted_value_one_field(rb: RbV, content: Seq<u8>)
    requires
        !rb.done,
        !rb.esc,
        rb.quoted,
        forall|i: int|
            0 <= i < content.len() ==> content[i] != QUOTE_B && content[i] != BACKSLASH_B,
    ensures
        feed(rb, content) == (RbV { cur: rb.cur + content, ..rb }),
    decreases content.len(),
{
    if content.len() == 0 {
        assert(rb.cur + content =~= rb.cur);
        assert(feed(rb, content) =~= (RbV { cur: rb.cur + content, ..rb }));
    } else {
        assert(forall|i: int|
            0 <= i < content.drop_last().len() ==> #[trigger] content.drop_last()[i] != QUOTE_B
                && content.drop_last()[i] != BACKSLASH_B) by {
            assert(forall|i: int|
                0 <= i < content.drop_last().len() ==> content.drop_last()[i] == content[i]);
        }
        lemma_quoted_value_one_field(rb, content.drop_last());
        assert(rb.cur + content =~= (rb.cur + content.drop_last()).push(content.last()));
        assert(feed(rb, content) =~= (RbV { cur: rb.cur + content, ..rb }));
    }
}

/// Smallest index `>= from` where byte `b` occurs, if any.
pub open spec fn find_byte(s: Seq<u8>, b: u8, from: int) -> Option<int>
    decreases s.len() - from,
{
    if from < 0 || from >= s.len() {
        None
    } else if s[from] == b {
        Some(from)
    } else {
        find_byte(s, b, from + 1)
    }
}

pub proof fn lemma_find_byte(s: Seq<u8>, b: u8, from: int)
    requires
        0 <= from <= s.len(),
    ensures
        match find_byte(s, b, from) {
            Some(j) => from <= j < s.len() && s[j] == b && (forall|k: int|
                from <= k < j ==> s[k] != b),
            None => forall|k: int| from <= k < s.len() ==> s[k] != b,
        },
    decreases s.len() - from,
{
    if from < s.len() && s[from] != b {
        lemma_find_byte(s, b, from + 1);
    }
}

/// Lines open tables with this prefix; the name follows, backtick-delimited.
pub open spec fn ts_prefix_v() -> Seq<u8> {
    seq![67u8, 82, 69, 65, 84, 69, 32, 84, 65, 66, 76, 69, 32, 96]
}

pub open spec fn is_table_start(line: Seq<u8>) -> bool {
    line.len() >= 14 && line.take(14) == ts_prefix_v()
}

/// The declared table name: the bytes between the prefix's backtick and the
/// next backtick; `None` when that closing backtick is missing.
pub open spec fn spec_table_name(line: Seq<u8>) -> Option<Seq<u8>> {
    match find_byte(line, BACKTICK_B, 14) {
        None => None,
        Some(j) => Some(line.subrange(14, j)),
    }
}

/// One completed row, tagged with the table it belongs to.
pub type EventV = (Seq<u8>, RowV);

/// The parser's in-flight state: the open table, if any, and the row in
/// progress within it, if any.
#[verifier::ext_equal]
pub struct StV {
    pub table: Option<Seq<u8>>,
    pub rb: Option<RbV>,
}

pub open spec fn st_init() -> StV {
    StV { table: None, rb: None }
}

/// Finalizes any row in progress: what happens at a table marker and at end
/// of stream. A row whose quoting never closed is an error.
pub open spec fn finish(s: StV) -> Result<Seq<EventV>, ParseErr> {
    match (s.table, s.rb) {
        (Some(t), Some(rb)) => if rb.quoted {
            Err(ParseErr::UnclosedQuote)
        } else {
            Ok(seq![(t, emit(rb))])
        },
        (_, _) => Ok(Seq::empty()),
    }
}

/// One line of the grammar.
pub open spec fn step(s: StV, line: Seq<u8>) -> Result<(StV, Seq<EventV>), ParseErr> {
    if is_table_start(line) {
        match finish(s) {
            Err(k) => Err(k),
            Ok(e) => match spec_table_name(line) {
                None => Err(ParseErr::BadTableLine),
                Some(name) => Ok((StV { table: Some(name), rb: None }, e)),
            },
        }
    } else if line.len() > 0 && line[0] == CLOSE_B {
        match finish(s) {
            Err(k) => Err(k),
            Ok(e) => Ok((StV { table: None, rb: None }, e)),
        }
    } else if line.len() > 0 && line[0] == OPEN_B {
        match s.table {
            None => Ok((s, Seq::empty())),
            Some(t) => match finish(s) {
                Err(k) => Err(k),
                Ok(e) => {
                    let rb = feed(rb_init(), line.drop_first());
                    if rb.done {
                        Ok((StV { table: Some(t), rb: None }, e.push((t, emit(rb)))))
                    } else {
                        Ok((StV { table: Some(t), rb: Some(rb) }, e))
                    }
                },
            },
        }
    } else {
        match (s.table, s.rb) {
            (Some(t), Some(rb0)) => {
                let rb = feed(feed1(rb0, NL_B), line);
                if rb.done {
                    Ok((StV { table: Some(t), rb: None }, seq![(t, emit(rb))]))
                } else {
                    Ok((StV { table: Some(t), rb: Some(rb) }, Seq::empty()))
                }
            },
            (_, _) => Ok((s, Seq::empty())),
        }
    }
}

/// The sequential fold of `step` over the lines seen so far.
pub open spec fn run(s: StV, lines: Seq<Seq<u8>>) -> Result<(StV, Seq<EventV>), ParseErr>
    decreases lines.len(),
{
    if lines.len() == 0 {
        Ok((s, Seq::empty()))
    } else {
        match run(s, lines.drop_last()) {
            Err(k) => Err(k),
            Ok((s1, e1)) => match step(s1, lines.last()) {
                Err(k) => Err(k),
                Ok((s2, e2)) => Ok((s2, e1 + e2)),
            },
        }
    }
}

/// Parsing a whole line sequence from state `s`: fold the lines, then
/// finalize at end of stream.
pub open spec fn run_fin(s: StV, lines: Seq<Seq<u8>>) -> Result<Seq<EventV>, ParseErr> {
    match run(s, lines) {
        Err(k) => Err(k),
        Ok((s1, e1)) => match finish(s1) {
            Err(k) => Err(k),
            Ok(e2) => Ok(e1 + e2),
        },
    }
}

/// What a line sequence parses to: the completed rows, in stream order,
/// each tagged with its table.
pub open spec fn events_of(lines: Seq<Seq<u8>>) -> Result<Seq<EventV>, ParseErr> {
    run_fin(st_init(), lines)
}

/// Grouping the completed rows by table, preserving each table's row order.
pub open spec fn map_of(e: Seq<EventV>) -> Map<Seq<u8>, RowsV>
    decreases e.len(),
{
    if e.len() == 0 {
        Map::empty()
    } else {
        let m = map_of(e.drop_last());
        let ev = e.last();
        if m.contains_key(ev.0) {
            m.insert(ev.0, m[ev.0].push(ev.1))
        } else {
            m.insert(ev.0, seq![ev.1])
        }
    }
}

/// The decompressed stream split at newlines, one carriage return stripped
/// from each line end; the byte content of a quoted multi-line field keeps
/// its newlines through `feed1`'s continuation handling instead.
pub open spec fn strip_cr(l: Seq<u8>) -> Seq<u8> {
    if l.len() > 0 && l.last() == CR_B {
        l.drop_last()
    } else {
        l
    }
}

/// Fold over the bytes: the completed lines so far and the line in progress.
pub open spec fn lines_acc(b: Seq<u8>) -> (Seq<Seq<u8>>, Seq<u8>)
    decreases b.len(),
{
    if b.len() == 0 {
        (Seq::empty(), Seq::empty())
    } else {
        let acc = lines_acc(b.drop_last());
        let x = b.last();
        if x == NL_B {
            (acc.0.push(strip_cr(acc.1)), Seq::empty())
        } else {
            (acc.0, acc.1.push(x))
        }
    }
}

pub open spec fn spec_lines(b: Seq<u8>) -> Seq<Seq<u8>> {
    let acc = lines_acc(b);
    if b.len() > 0 && b.last() != NL_B {
        acc.0.push(acc.1)
    } else {
        acc.0
    }
}

/// A completed row, tagged with its table: the executable form of `EventV`.
pub type Event = (Vec<u8>, crate::tables::RowVals);

/// What a segment parse must return: exactly the sequential fold's result on
/// the segment's lines.
pub open spec fn seg_post(lines: Seq<Seq<u8>>, r: Result<Vec<Event>, ParseErr>) -> bool {
    match (events_of(lines), r) {
        (Ok(es), Ok(v)) => v.deep_view() == es,
        (Err(k1), Err(k2)) => k1 == k2,
        (_, _) => false,
    }
}

/// An error on a prefix of the lines is the error of the whole sequence.
pub proof fn lemma_run_err_prefix(s: StV, lines: Seq<Seq<u8>>, n: int)
    requires
        0 <= n <= lines.len(),
        run(s, lines.take(n)) is Err,
    ensures
        run(s, lines) == run(s, lines.take(n)),
    decreases lines.len() - n,
{
    if n == lines.len() {
        assert(lines.take(n) =~= lines);
    } else {
        assert(lines.take(n + 1).drop_last() =~= lines.take(n));
        lemma_run_err_prefix(s, lines, n + 1);
    }
}

/// Copies a byte slice into an owned vector.
pub fn clone_bytes(s: &[u8]) -> (r: Vec<u8>)
    ensures
        r@ == s@,
{
    vstd::slice::slice_to_vec(s)
}

fn ts_prefix() -> (r: Vec<u8>)
    ensures
        r@ == ts_prefix_v(),
{
    let mut v: Vec<u8> = Vec::new();
    v.push(67);
    v.push(82);
    v.push(69);
    v.push(65);
    v.push(84);
    v.push(69);
    v.push(32);
    v.push(84);
    v.push(65);
    v.push(66);
    v.push(76);
    v.push(69);
    v.push(32);
    v.push(96);
    proof {
        assert(v@ =~= ts_prefix_v());
    }
    v
}

fn line_is_table_start(line: &[u8]) -> (r: bool)
    ensures
        r == is_table_start(line@),
{
    if line.len() < 14 {
        return false;
    }
    let p = ts_prefix();
    let mut i: usize = 0;
    while i < 14
        invariant
            0 <= i <= 14,
            line@.len() >= 14,
            p@ == ts_prefix_v(),
            forall|j: int| 0 <= j < i ==> line@[j] == ts_prefix_v()[j],
        decreases 14 - i,
    {
        if line[i] != p[i] {
            assert(line@.take(14)[i as int] != ts_prefix_v()[i as int]);
            return false;
        }
        i += 1;
    }
    assert(line@.take(14) =~= ts_prefix_v());
    true
}

/// The declared table name of a table-start line, if its closing backtick is
/// present.
fn table_name_exec(line: &[u8]) -> (r: Option<Vec<u8>>)
    requires
        line@.len() >= 14,
    ensures
        match (r, spec_table_name(line@)) {
            (Some(v), Some(s)) => v@ == s,
            (None, None) => true,
            (_, _) => false,
        },
{
    proof {
        lemma_find_byte(line@, BACKTICK_B, 14);
    }
    let mut j: usize = 14;
    while j < line.len()
        invariant
            14 <= j <= line@.len(),
            forall|k: int| 14 <= k < j ==> line@[k] != BACKTICK_B,
        decreases line@.len() - j,
    {
        if line[j] == 96 {
            proof {
                lemma_find_byte(line@, BACKTICK_B, 14);
                assert(find_byte(line@, BACKTICK_B, 14) == Some(j as int));
            }
            return Some(clone_bytes(vstd::slice::slice_subrange(line, 14, j)));
        }
        j += 1;
    }
    proof {
        lemma_find_byte(line@, BACKTICK_B, 14);
    }
    None
}

/// The in-progress row of the executable parser.
pub struct RowBuilder {
    pub fields: Vec<Vec<u8>>,
    pub cur: Vec<u8>,
    pub quoted: bool,
    pub esc: bool,
}

impl RowBuilder {
    /// The accumulator this builder stands for.
    pub open spec fn v(self, done: bool) -> RbV {
        RbV {
            fields: self.fields.deep_view(),
            cur: self.cur@,
            quoted: self.quoted,
            esc: self.esc,
            done,
        }
    }

    fn new() -> (r: RowBuilder)
        ensures
            r.v(false) == rb_init(),
    {
        let r = RowBuilder { fields: Vec::new(), cur: Vec::new(), quoted: false, esc: false };
        proof {
            assert(r.v(false) =~= rb_init());
        }
        r
    }

    /// One byte of row content; the result says whether the row just closed.
    fn feed_byte(&mut self, b: u8) -> (done: bool)
        ensures
            done == feed1(old(self).v(false), b).done,
            final(self).v(done) == feed1(old(self).v(false), b),
    {
        broadcast use crate::tables::lemma_bytes_dv;

        let ghost rv0 = self.v(false);
        if self.esc {
            self.cur.push(b);
            self.esc = false;
            proof {
                crate::tables::lemma_dv_push(old(self).cur, self.cur, b);
                assert(self.v(false) =~= feed1(rv0, b));
            }
            false
        } else if self.quoted {
            if b == BACKSLASH_B {
                self.esc = true;
                proof {
                    assert(self.v(false) =~= feed1(rv0, b));
                }
                false
            } else if b == QUOTE_B {
                self.quoted = false;
                proof {
                    assert(self.v(false) =~= feed1(rv0, b));
                }
                false
            } else {
                self.cur.push(b);
                proof {
                    crate::tables::lemma_dv_push(old(self).cur, self.cur, b);
                    assert(self.v(false) =~= feed1(rv0, b));
                }
                false
            }
        } else {
            if b == QUOTE_B {
                self.quoted = true;
                proof {
                    assert(self.v(false) =~= feed1(rv0, b));
                }
                false
            } else if b == COMMA_B {
                let field = clone_bytes(self.cur.as_slice());
                self.fields.push(field);
                self.cur.clear();
                proof {
                    crate::tables::lemma_dv_push(
                        old(self).fields,
                        self.fields,
                        self.fields@.last(),
                    );
                    assert(self.v(false) =~= feed1(rv0, b));
                }
                false
            } else if b == CLOSE_B {
                proof {
                    assert(self.v(true) =~= feed1(rv0, b));
                }
                true
            } else if b == NL_B {
                proof {
                    assert(self.v(false) =~= feed1(rv0, b));
                }
                false
            } else {
                self.cur.push(b);
                proof {
                    crate::tables::lemma_dv_push(old(self).cur, self.cur, b);
                    assert(self.v(false) =~= feed1(rv0, b));
                }
                false
            }
        }
    }

    /// Feeds `bytes[start..]`; the result says whether the row closed.
    fn feed_bytes(&mut self, bytes: &[u8], start: usize) -> (done: bool)
        requires
            start <= bytes@.len(),
        ensures
            done == feed(old(self).v(false), bytes@.skip(start as int)).done,
            final(self).v(done) == feed(old(self).v(false), bytes@.skip(start as int)),
    {
        let ghost rv0 = self.v(false);
        let ghost tail = bytes@.skip(start as int);
        let mut i: usize = start;
        while i < bytes.len()
            invariant
                start <= i <= bytes@.len(),
                rv0 == old(self).v(false),
                tail == bytes@.skip(start as int),
                self.v(false) == feed(rv0, bytes@.subrange(start as int, i as int)),
            decreases bytes@.len() - i,
        {
            let ghost sofar = bytes@.subrange(start as int, i as int);
            let b = bytes[i];
            let done = self.feed_byte(b);
            proof {
                lemma_feed_push(rv0, sofar, b);
                assert(sofar.push(b) =~= bytes@.subrange(start as int, i as int + 1));
            }
            if done {
                proof {
                    let fullpart = bytes@.subrange(start as int, i as int + 1);
                    let rest = bytes@.skip(i as int + 1);
                    assert(feed(rv0, fullpart) == self.v(true));
                    assert(feed(rv0, fullpart).done);
                    lemma_feed_done(feed(rv0, fullpart), rest);
                    lemma_feed_app(rv0, fullpart, rest);
                    assert(fullpart + rest =~= tail);
                    assert(feed(rv0, tail) == self.v(true));
                }
                return true;
            }
            i += 1;
        }
        proof {
            assert(bytes@.subrange(start as int, bytes@.len() as int) =~= tail);
        }
        false
    }

    /// The completed row: the accumulated fields plus the one in progress.
    fn into_row(self) -> (r: crate::tables::RowVals)
        ensures
            r.deep_view() == emit(self.v(false)),
    {
        broadcast use crate::tables::lemma_bytes_dv;

        let ghost s0 = self;
        let RowBuilder { mut fields, cur, quoted: _, esc: _ } = self;
        fields.push(cur);
        proof {
            crate::tables::lemma_dv_push(s0.fields, fields, fields@.last());
        }
        fields
    }
}

/// Feeding a concatenation is feeding the parts in turn.
pub proof fn lemma_feed_app(rb: RbV, b1: Seq<u8>, b2: Seq<u8>)
    ensures
        feed(rb, b1 + b2) == feed(feed(rb, b1), b2),
    decreases b2.len(),
{
    if b2.len() == 0 {
        assert(b1 + b2 =~= b1);
    } else {
        assert((b1 + b2).drop_last() =~= b1 + b2.drop_last());
        lemma_feed_app(rb, b1, b2.drop_last());
        assert((b1 + b2).last() == b2.last());
    }
}

/// The state the executable parser's variables stand for.
pub open spec fn st_of(table: Option<Vec<u8>>, rbo: Option<RowBuilder>) -> StV {
    StV {
        table: table.deep_view(),
        rb: match rbo {
            None => None,
            Some(rb) => Some(rb.v(false)),
        },
    }
}

/// Finalizes any in-progress row into `events`, as `finish` specifies.
fn finalize_pending(
    table: &Option<Vec<u8>>,
    rbo: Option<RowBuilder>,
    events: &mut Vec<Event>,
) -> (r: Result<(), ParseErr>)
    ensures
        match finish(st_of(*table, rbo)) {
            Ok(es) => r is Ok && final(events).deep_view() == old(events).deep_view() + es,
            Err(k) => r == Err::<(), ParseErr>(k) && *final(events) == *old(events),
        },
{
    broadcast use crate::tables::lemma_bytes_dv;

    match rbo {
        None => {
            proof {
                assert(old(events).deep_view() + Seq::<EventV>::empty() =~= old(
                    events,
                ).deep_view());
            }
            Ok(())
        },
        Some(rb) => {
            match table {
                None => {
                    proof {
                        assert(old(events).deep_view() + Seq::<EventV>::empty() =~= old(
                            events,
                        ).deep_view());
                    }
                    Ok(())
                },
                Some(t) => {
                    if rb.quoted {
                        return Err(ParseErr::UnclosedQuote);
                    }
                    let ghost rbv = rb.v(false);
                    let name = clone_bytes(t.as_slice());
                    let row = rb.into_row();
                    let ghost ev = (name@, row.deep_view());
                    events.push((name, row));
                    proof {
                        crate::tables::lemma_dv_push(*old(events), *events, events@.last());
                        assert(events.deep_view() =~= old(events).deep_view() + seq![ev]);
                    }
                    Ok(())
                },
            }
        },
    }
}

/// The events recorded once `finish(s)` succeeded, after `ev0`.
pub open spec fn pre_fin_events(ev0: Seq<EventV>, s: StV) -> Seq<EventV> {
    match finish(s) {
        Ok(es) => ev0 + es,
        Err(_) => ev0,
    }
}

/// Records one completed row.
fn push_event(events: &mut Vec<Event>, name: Vec<u8>, row: crate::tables::RowVals)
    ensures
        final(events).deep_view() == old(events).deep_view().push((name@, row.deep_view())),
{
    broadcast use crate::tables::lemma_bytes_dv;

    let ghost evt = (name@, row.deep_view());
    events.push((name, row));
    proof {
        crate::tables::lemma_dv_push(*old(events), *events, events@.last());
        assert(events.deep_view() =~= old(events).deep_view().push(evt));
    }
}

/// Parses the segment `lines[a..b]` from a fresh state, yielding the
/// completed rows in stream order, each tagged with its table: exactly the
/// sequential fold's result on those lines.
pub fn parse_segment_range(lines: &Vec<Vec<u8>>, a: usize, b: usize) -> (r: Result<
    Vec<Event>,
    ParseErr,
>)
    requires
        a <= b <= lines@.len(),
    ensures
        seg_post(lines.deep_view().subrange(a as int, b as int), r),
{
    broadcast use crate::tables::lemma_bytes_dv;

    let ghost lv = lines.deep_view().subrange(a as int, b as int);
    let mut table: Option<Vec<u8>> = None;
    let mut rbo: Option<RowBuilder> = None;
    let mut events: Vec<Event> = Vec::new();
    proof {
        assert(st_of(table, rbo) =~= st_init());
        assert(lv.take(0) =~= Seq::<Seq<u8>>::empty());
        assert(events.deep_view() =~= Seq::<EventV>::empty());
    }
    let mut k: usize = a;
    while k < b
        invariant
            a <= k <= b <= lines@.len(),
            lv == lines.deep_view().subrange(a as int, b as int),
            run(st_init(), lv.take(k - a)) == Ok::<(StV, Seq<EventV>), ParseErr>(
                (st_of(table, rbo), events.deep_view()),
            ),
        decreases b - k,
    {
        let ghost pre = st_of(table, rbo);
        let ghost ev0 = events.deep_view();
        let ghost line_v = lv[k - a];
        let line = &lines[k];
        proof {
            assert(lv[k - a] == lines@[k as int].deep_view());
            assert(line_v == line@);
            assert(lv.take(k - a + 1).drop_last() =~= lv.take(k - a));
            assert(lv.take(k - a + 1).last() == line_v);
        }
        if line_is_table_start(line.as_slice()) {
            let taken = rbo;
            rbo = None;
            match finalize_pending(&table, taken, &mut events) {
                Err(kk) => {
                    proof {
                        assert(step(pre, line_v) == Err::<(StV, Seq<EventV>), ParseErr>(kk));
                        assert(run(st_init(), lv.take(k - a + 1)) == Err::<
                            (StV, Seq<EventV>),
                            ParseErr,
                        >(kk));
                        lemma_run_err_prefix(st_init(), lv, k - a + 1);
                    }
                    return Err(kk);
                },
                Ok(()) => {},
            }
            match table_name_exec(line.as_slice()) {
                None => {
                    proof {
                        assert(step(pre, line_v) == Err::<(StV, Seq<EventV>), ParseErr>(
                            ParseErr::BadTableLine,
                        ));
                        assert(run(st_init(), lv.take(k - a + 1)) == Err::<
                            (StV, Seq<EventV>),
                            ParseErr,
                        >(ParseErr::BadTableLine));
                        lemma_run_err_prefix(st_init(), lv, k - a + 1);
                    }
                    return Err(ParseErr::BadTableLine);
                },
                Some(nm) => {
                    table = Some(nm);
                },
            }
        } else if line.len() > 0 && line[0] == CLOSE_B {
            let taken = rbo;
            rbo = None;
            match finalize_pending(&table, taken, &mut events) {
                Err(kk) => {
                    proof {
                        assert(step(pre, line_v) == Err::<(StV, Seq<EventV>), ParseErr>(kk));
                        assert(run(st_init(), lv.take(k - a + 1)) == Err::<
                            (StV, Seq<EventV>),
                            ParseErr,
                        >(kk));
                        lemma_run_err_prefix(st_init(), lv, k - a + 1);
                    }
                    return Err(kk);
                },
                Ok(()) => {},
            }
            table = None;
            proof {
                assert(st_of(table, rbo) =~= StV { table: None, rb: None });
            }
        } else if line.len() > 0 && line[0] == OPEN_B {
            match &table {
                None => {
                    proof {
                        assert(step(pre, line_v) == Ok::<(StV, Seq<EventV>), ParseErr>(
                            (pre, Seq::empty()),
                        ));
                        assert(ev0 + Seq::<EventV>::empty() =~= ev0);
                    }
                },
                Some(t) => {
                    let tname = clone_bytes(t.as_slice());
                    let taken = rbo;
                    rbo = None;
                    match finalize_pending(&table, taken, &mut events) {
                        Err(kk) => {
                            proof {
                                assert(step(pre, line_v) == Err::<(StV, Seq<EventV>), ParseErr>(
                                    kk,
                                ));
                                assert(run(st_init(), lv.take(k - a + 1)) == Err::<
                                    (StV, Seq<EventV>),
                                    ParseErr,
                                >(kk));
                                lemma_run_err_prefix(st_init(), lv, k - a + 1);
                            }
                            return Err(kk);
                        },
                        Ok(()) => {},
                    }
                    let mut rb = RowBuilder::new();
                    let done = rb.feed_bytes(line.as_slice(), 1);
                    proof {
                        assert(line_v.drop_first() =~= line_v.skip(1));
                    }
                    if done {
                        let ghost rbg = rb;
                        let ghost tnv = tname@;
                        let row = rb.into_row();
                        let ghost rowv = row.deep_view();
                        push_event(&mut events, tname, row);
                        rbo = None;
                        proof {
                            broadcast use crate::tables::lemma_bytes_dv;

                            assert(pre.table == Some(tnv));
                            let rbv = feed(rb_init(), line_v.drop_first());
                            assert(rbv == rbg.v(true));
                            assert(emit(rbg.v(false)) == emit(rbv));
                            assert(rowv == emit(rbv));
                            assert(events.deep_view() == pre_fin_events(ev0, pre).push(
                                (tnv, emit(rbv)),
                            ));
                        }
                    } else {
                        rbo = Some(rb);
                        proof {
                        }
                    }
                },
            }
        } else {
            match (&table, rbo) {
                (Some(t), Some(rb_in)) => {
                    let mut rb = rb_in;
                    let ghost rb0v = rb.v(false);
                    let d1 = rb.feed_byte(NL_B);
                    let done = if d1 {
                        proof {
                            lemma_feed_done(feed1(rb0v, NL_B), line_v);
                        }
                        true
                    } else {
                        rb.feed_bytes(line.as_slice(), 0)
                    };
                    proof {
                        assert(line_v.skip(0) =~= line_v);
                    }
                    if done {
                        let tname = clone_bytes(t.as_slice());
                        let ghost rbg = rb;
                        let ghost tnv = tname@;
                        let row = rb.into_row();
                        let ghost rowv = row.deep_view();
                        push_event(&mut events, tname, row);
                        rbo = None;
                        proof {
                            broadcast use crate::tables::lemma_bytes_dv;

                            assert(pre.table == Some(tnv));
                            assert(pre.rb == Some(rb0v));
                            let rbv = feed(feed1(rb0v, NL_B), line_v);
                            assert(rbv == rbg.v(true));
                            assert(emit(rbg.v(false)) == emit(rbv));
                            assert(rowv == emit(rbv));
                            assert(events.deep_view() == ev0.push((tnv, emit(rbv))));
                        }
                    } else {
                        rbo = Some(rb);
                        proof {
                        }
                    }
                },
                (_, r) => {
                    rbo = r;
                    proof {
                        assert(step(pre, line_v) == Ok::<(StV, Seq<EventV>), ParseErr>(
                            (pre, Seq::empty()),
                        ));
                        assert(ev0 + Seq::<EventV>::empty() =~= ev0);
                    }
                },
            }
        }
        proof {
            match step(pre, line_v) {
                Ok((s2, e2)) => {
                    assert(st_of(table, rbo) =~= s2);
                    assert(events.deep_view() =~= ev0 + e2);
                },
                Err(_) => {
                    assert(false);
                },
            }
        }
        k += 1;
    }
    proof {
        assert(lv.take(b - a) =~= lv);
    }
    let ghost ev_run = events.deep_view();
    match finalize_pending(&table, rbo, &mut events) {
        Err(kk) => {
            proof {
                assert(run_fin(st_init(), lv) == Err::<Seq<EventV>, ParseErr>(kk));
            }
            Err(kk)
        },
        Ok(()) => {
            proof {
                assert(run_fin(st_init(), lv) == Ok::<Seq<EventV>, ParseErr>(events.deep_view()));
            }
            Ok(events)
        },
    }
}

/// Folding a concatenation of line sequences is folding the parts in turn.
pub proof fn lemma_run_app(s: StV, l1: Seq<Seq<u8>>, l2: Seq<Seq<u8>>)
    ensures
        run(s, l1 + l2) == (match run(s, l1) {
            Err(k) => Err::<(StV, Seq<EventV>), ParseErr>(k),
            Ok((s1, e1)) => match run(s1, l2) {
                Err(k) => Err(k),
                Ok((s2, e2)) => Ok((s2, e1 + e2)),
            },
        }),
    decreases l2.len(),
{
    if l2.len() == 0 {
        assert(l1 + l2 =~= l1);
        match run(s, l1) {
            Err(_) => {},
            Ok((s1, e1)) => {
                assert(run(s1, l2) == Ok::<(StV, Seq<EventV>), ParseErr>((s1, Seq::empty())));
                assert(e1 + Seq::<EventV>::empty() =~= e1);
            },
        }
    } else {
        lemma_run_app(s, l1, l2.drop_last());
        assert((l1 + l2).drop_last() =~= l1 + l2.drop_last());
        assert((l1 + l2).last() == l2.last());
        match run(s, l1) {
            Err(_) => {},
            Ok((s1, e1)) => {
                match run(s1, l2.drop_last()) {
                    Err(_) => {},
                    Ok((s2, e2)) => {
                        match step(s2, l2.last()) {
                            Err(_) => {},
                            Ok((s3, e3)) => {
                                assert((e1 + e2) + e3 =~= e1 + (e2 + e3));
                            },
                        }
                    },
                }
            },
        }
    }
}

/// Parsing to end of stream from any state, across a segment that begins at
/// a table-start line, equals finalizing the state and parsing the segment
/// from a fresh state: the boundary resets the parser.
pub proof fn lemma_boundary(s: StV, seg: Seq<Seq<u8>>)
    requires
        seg.len() > 0,
        is_table_start(seg[0]),
    ensures
        run_fin(s, seg) == (match finish(s) {
            Err(k) => Err::<Seq<EventV>, ParseErr>(k),
            Ok(e0) => match run_fin(st_init(), seg) {
                Err(k) => Err(k),
                Ok(e) => Ok(e0 + e),
            },
        }),
{
    let first = seq![seg[0]];
    let rest = seg.drop_first();
    assert(first + rest =~= seg);
    lemma_run_app(s, first, rest);
    lemma_run_app(st_init(), first, rest);
    assert(first.drop_last() =~= Seq::<Seq<u8>>::empty());
    assert(first.last() == seg[0]);
    assert(run(s, Seq::<Seq<u8>>::empty()) == Ok::<(StV, Seq<EventV>), ParseErr>(
        (s, Seq::empty()),
    ));
    assert(run(st_init(), Seq::<Seq<u8>>::empty()) == Ok::<(StV, Seq<EventV>), ParseErr>(
        (st_init(), Seq::empty()),
    ));
    assert(run(s, first.drop_last()) == Ok::<(StV, Seq<EventV>), ParseErr>((s, Seq::empty())));
    assert(run(st_init(), first.drop_last()) == Ok::<(StV, Seq<EventV>), ParseErr>(
        (st_init(), Seq::empty()),
    ));
    assert(finish(st_init()) == Ok::<Seq<EventV>, ParseErr>(Seq::empty()));
    match finish(s) {
        Err(_) => {},
        Ok(e0) => {
            match spec_table_name(seg[0]) {
                None => {},
                Some(name) => {
                    let fresh = StV { table: Some(name), rb: None };
                    assert(run(s, first) == Ok::<(StV, Seq<EventV>), ParseErr>(
                        (fresh, Seq::<EventV>::empty() + e0),
                    ));
                    assert(run(st_init(), first) == Ok::<(StV, Seq<EventV>), ParseErr>(
                        (fresh, Seq::<EventV>::empty() + Seq::<EventV>::empty()),
                    ));
                    match run(fresh, rest) {
                        Err(_) => {},
                        Ok((s2, e2)) => {
                            match finish(s2) {
                                Err(_) => {},
                                Ok(e3) => {
                                    assert(((Seq::<EventV>::empty() + e0) + e2) + e3 =~= e0 + ((
                                    (Seq::<EventV>::empty() + Seq::<EventV>::empty()) + e2) + e3));
                                },
                            }
                        },
                    }
                },
            }
        },
    }
}

/// The line streams of the segments, in order.
pub open spec fn concat_all(segs: Seq<Seq<Seq<u8>>>) -> Seq<Seq<u8>>
    decreases segs.len(),
{
    if segs.len() == 0 {
        Seq::empty()
    } else {
        segs.first() + concat_all(segs.drop_first())
    }
}

/// Merging two segment results: events concatenated in stream order, the
/// first error winning.
pub open spec fn glue(
    r1: Result<Seq<EventV>, ParseErr>,
    r2: Result<Seq<EventV>, ParseErr>,
) -> Result<Seq<EventV>, ParseErr> {
    match r1 {
        Err(k) => Err(k),
        Ok(e1) => match r2 {
            Err(k) => Err(k),
            Ok(e2) => Ok(e1 + e2),
        },
    }
}

/// What the parallel plan computes: each segment parsed independently from a
/// fresh state, the results merged in stream order.
pub open spec fn glue_all(segs: Seq<Seq<Seq<u8>>>) -> Result<Seq<EventV>, ParseErr>
    decreases segs.len(),
{
    if segs.len() == 0 {
        Ok(Seq::empty())
    } else {
        glue(events_of(segs.first()), glue_all(segs.drop_first()))
    }
}

pub proof fn lemma_concat_first(segs: Seq<Seq<Seq<u8>>>)
    requires
        segs.len() > 0,
        segs[0].len() > 0,
    ensures
        concat_all(segs).len() > 0,
        concat_all(segs)[0] == segs[0][0],
{
}

/// Boundary-aligned parallel decomposition is exact: parsing the whole line
/// stream sequentially equals parsing each segment independently from a
/// fresh state and merging in stream order, provided every segment after
/// the first begins at a table-start line. Splitting anywhere else carries
/// no such guarantee, which is why the executable parser never does it.
pub proof fn lemma_parse_segmented(segs: Seq<Seq<Seq<u8>>>)
    requires
        forall|i: int|
            1 <= i < segs.len() ==> (#[trigger] segs[i]).len() > 0 && is_table_start(segs[i][0]),
    ensures
        events_of(concat_all(segs)) == glue_all(segs),
    decreases segs.len(),
{
    if segs.len() == 0 {
        assert(concat_all(segs) == Seq::<Seq<u8>>::empty());
        assert(run(st_init(), Seq::<Seq<u8>>::empty()) == Ok::<(StV, Seq<EventV>), ParseErr>(
            (st_init(), Seq::empty()),
        ));
        assert(Seq::<EventV>::empty() + Seq::<EventV>::empty() =~= Seq::<EventV>::empty());
    } else if segs.len() == 1 {
        assert(segs.drop_first().len() == 0);
        assert(concat_all(segs.drop_first()) == Seq::<Seq<u8>>::empty());
        assert(glue_all(segs.drop_first()) == Ok::<Seq<EventV>, ParseErr>(Seq::empty()));
        assert(concat_all(segs) =~= segs[0]);
        assert(segs.first() == segs[0]);
        match events_of(segs[0]) {
            Err(_) => {},
            Ok(e) => {
                assert(e + Seq::<EventV>::empty() =~= e);
            },
        }
    } else {
        let l1 = segs.first();
        let rest = segs.drop_first();
        let l2 = concat_all(rest);
        assert(forall|i: int|
            1 <= i < rest.len() ==> (#[trigger] rest[i]).len() > 0 && is_table_start(rest[i][0]))
            by {
            assert(forall|i: int| 0 <= i < rest.len() ==> rest[i] == segs[i + 1]);
        }
        lemma_parse_segmented(rest);
        assert(rest[0] == segs[1]);
        lemma_concat_first(rest);
        assert(concat_all(segs) == l1 + l2);
        lemma_run_app(st_init(), l1, l2);
        assert(glue_all(segs) == glue(events_of(l1), glue_all(rest)));
        assert(events_of(l2) == glue_all(rest));
        match run(st_init(), l1) {
            Err(k) => {
                assert(events_of(l1) == Err::<Seq<EventV>, ParseErr>(k));
                assert(events_of(l1 + l2) == Err::<Seq<EventV>, ParseErr>(k));
            },
            Ok((s1, e1)) => {
                lemma_boundary(s1, l2);
                match finish(s1) {
                    Err(k) => {
                        assert(events_of(l1) == Err::<Seq<EventV>, ParseErr>(k));
                        assert(run_fin(s1, l2) == Err::<Seq<EventV>, ParseErr>(k));
                        match run(s1, l2) {
                            Err(k2) => {
                                assert(events_of(l1 + l2) == Err::<Seq<EventV>, ParseErr>(k2));
                                assert(k2 == k);
                            },
                            Ok((s2, e2)) => {
                                assert(finish(s2) == Err::<Seq<EventV>, ParseErr>(k));
                                assert(events_of(l1 + l2) == Err::<Seq<EventV>, ParseErr>(k));
                            },
                        }
                    },
                    Ok(e0) => {
                        assert(events_of(l1) == Ok::<Seq<EventV>, ParseErr>(e1 + e0));
                        match events_of(l2) {
                            Err(k) => {
                                assert(run_fin(s1, l2) == Err::<Seq<EventV>, ParseErr>(k));
                                match run(s1, l2) {
                                    Err(k2) => {
                                        assert(events_of(l1 + l2) == Err::<
                                            Seq<EventV>,
                                            ParseErr,
                                        >(k2));
                                        assert(k2 == k);
                                    },
                                    Ok((s2, e2)) => {
                                        assert(finish(s2) == Err::<Seq<EventV>, ParseErr>(k));
                                        assert(events_of(l1 + l2) == Err::<
                                            Seq<EventV>,
                                            ParseErr,
                                        >(k));
                                    },
                                }
                            },
                            Ok(e) => {
                                assert(run_fin(s1, l2) == Ok::<Seq<EventV>, ParseErr>(e0 + e));
                                match run(s1, l2) {
                                    Err(_) => {
                                        assert(false);
                                    },
                                    Ok((s2, e2)) => {
                                        match finish(s2) {
                                            Err(_) => {
                                                assert(false);
                                            },
                                            Ok(e3) => {
                                                assert(e2 + e3 == e0 + e);
                                                assert(events_of(l1 + l2) == Ok::<
                                                    Seq<EventV>,
                                                    ParseErr,
                                                >((e1 + e2) + e3));
                                                assert((e1 + e2) + e3 =~= e1 + (e2 + e3));
                                                assert((e1 + e0) + e =~= e1 + (e0 + e));
                                                assert(glue_all(segs) == Ok::<
                                                    Seq<EventV>,
                                                    ParseErr,
                                                >((e1 + e0) + e));
                                            },
                                        }
                                    },
                                }
                            },
                        }
                    },
                }
            },
        }
    }
}

/// What decompressing a byte stream yields: the decompressed bytes, or
/// nothing when the stream is not well-formed. A function of the input
/// bytes alone.
pub uninterp spec fn gunzip_of(b: Seq<u8>) -> Option<Seq<u8>>;

/// Relies on flate2's `bufread::GzDecoder` read to the end of a byte slice:
/// decompression is a function of the input bytes alone; a malformed stream
/// yields an error.
#[verifier::external_body]
fn gunzip(input: &[u8]) -> (r: Option<Vec<u8>>)
    ensures
        match r {
            Some(d) => gunzip_of(input@) == Some(d@),
            None => gunzip_of(input@) is None,
        },
{
    let mut out = Vec::new();
    let mut dec = flate2::bufread::GzDecoder::new(input);
    match std::io::Read::read_to_end(&mut dec, &mut out) {
        Ok(_) => Some(out),
        Err(_) => None,
    }
}

/// Relies on `core::str::from_utf8`: it accepts exactly the valid UTF-8
/// byte sequences, as `vstd::utf8::valid_utf8` defines them.
#[verifier::external_body]
fn utf8_check(b: &[u8]) -> (r: bool)
    ensures
        r == vstd::utf8::valid_utf8(b@),
{
    core::str::from_utf8(b).is_ok()
}

/// Relies on rayon's parallel iterator `map` and `collect`: collecting an
/// indexed parallel map yields the same vector, in the same order, as the
/// sequential map; the closure only calls the verified segment parser. Each
/// element therefore satisfies that parser's contract for its bounds.
#[verifier::external_body]
fn par_parse_segments(lines: &Vec<Vec<u8>>, bounds: &Vec<(usize, usize)>) -> (r: Vec<
    Result<Vec<Event>, ParseErr>,
>)
    requires
        forall|i: int|
            0 <= i < bounds@.len() ==> (#[trigger] bounds@[i]).0 <= bounds@[i].1 <= lines@.len(),
    ensures
        r@.len() == bounds@.len(),
        forall|i: int|
            0 <= i < bounds@.len() ==> seg_post(
                lines.deep_view().subrange(bounds@[i].0 as int, bounds@[i].1 as int),
                r@[i],
            ),
{
    bounds.par_iter().map(|p| parse_segment_range(lines, p.0, p.1)).collect()
}

/// Splits the decompressed stream at newlines, stripping one carriage
/// return from each line end.
pub fn split_lines(b: &[u8]) -> (r: Vec<Vec<u8>>)
    ensures
        r.deep_view() == spec_lines(b@),
{
    let mut out: Vec<Vec<u8>> = Vec::new();
    let mut cur: Vec<u8> = Vec::new();
    let mut i: usize = 0;
    while i < b.len()
        invariant
            0 <= i <= b@.len(),
            out.deep_view() == lines_acc(b@.take(i as int)).0,
            cur@ == lines_acc(b@.take(i as int)).1,
        decreases b@.len() - i,
    {
        let ghost pre = b@.take(i as int);
        proof {
            assert(b@.take(i as int + 1).drop_last() =~= pre);
            assert(b@.take(i as int + 1).last() == b@[i as int]);
        }
        let x = b[i];
        if x == NL_B {
            if cur.len() > 0 && cur[cur.len() - 1] == CR_B {
                cur.pop();
            }
            let ghost outg = out;
            let ghost curg = cur@;
            let finished = cur;
            cur = Vec::new();
            out.push(finished);
            proof {
                broadcast use crate::tables::lemma_bytes_dv;

                crate::tables::lemma_dv_push(outg, out, out@.last());
                assert(curg == strip_cr(lines_acc(pre).1));
                assert(out.deep_view() =~= lines_acc(b@.take(i as int + 1)).0);
                assert(cur@ =~= lines_acc(b@.take(i as int + 1)).1);
            }
        } else {
            cur.push(x);
        }
        i += 1;
    }
    proof {
        assert(b@.take(b@.len() as int) =~= b@);
    }
    if b.len() > 0 && b[b.len() - 1] != NL_B {
        let ghost outg = out;
        out.push(cur);
        proof {
            broadcast use crate::tables::lemma_bytes_dv;

            crate::tables::lemma_dv_push(outg, out, out@.last());
            assert(out.deep_view() =~= spec_lines(b@));
        }
    }
    out
}

/// The line streams of the segments the bounds delimit.
pub open spec fn segs_of(lv: Seq<Seq<u8>>, bs: Seq<(usize, usize)>) -> Seq<Seq<Seq<u8>>> {
    Seq::new(bs.len() as nat, |i: int| lv.subrange(bs[i].0 as int, bs[i].1 as int))
}

/// A boundary-aligned segmentation: contiguous, covering the whole stream,
/// and every segment after the first begins at a table-start line.
pub open spec fn bounds_ok(lv: Seq<Seq<u8>>, bs: Seq<(usize, usize)>) -> bool {
    &&& bs.len() >= 1
    &&& bs[0].0 == 0
    &&& bs[bs.len() - 1].1 == lv.len()
    &&& forall|i: int| 0 <= i < bs.len() ==> (#[trigger] bs[i]).0 <= bs[i].1 <= lv.len()
    &&& forall|i: int| 0 <= i < bs.len() - 1 ==> (#[trigger] bs[i]).1 == bs[i + 1].0
    &&& forall|i: int|
        1 <= i < bs.len() ==> (#[trigger] bs[i]).0 < bs[i].1 && is_table_start(
            lv[bs[i].0 as int],
        )
}

proof fn lemma_segs_concat(lv: Seq<Seq<u8>>, bs: Seq<(usize, usize)>)
    requires
        bs.len() >= 1,
        forall|i: int| 0 <= i < bs.len() ==> (#[trigger] bs[i]).0 <= bs[i].1 <= lv.len(),
        forall|i: int| 0 <= i < bs.len() - 1 ==> (#[trigger] bs[i]).1 == bs[i + 1].0,
    ensures
        concat_all(segs_of(lv, bs)) == lv.subrange(bs[0].0 as int, bs[bs.len() - 1].1 as int),
        bs[0].0 <= bs[bs.len() - 1].1,
    decreases bs.len(),
{
    let segs = segs_of(lv, bs);
    if bs.len() == 1 {
        assert(segs.drop_first().len() == 0);
        assert(concat_all(segs.drop_first()) == Seq::<Seq<u8>>::empty());
        assert(concat_all(segs) =~= lv.subrange(bs[0].0 as int, bs[0].1 as int));
    } else {
        let bs2 = bs.drop_first();
        assert(forall|i: int| 0 <= i < bs2.len() ==> bs2[i] == bs[i + 1]);
        lemma_segs_concat(lv, bs2);
        assert(segs.drop_first() =~= segs_of(lv, bs2));
        assert(segs.first() == lv.subrange(bs[0].0 as int, bs[0].1 as int));
        assert(bs2[0] == bs[1]);
        assert(bs2[bs2.len() - 1] == bs[bs.len() - 1]);
        assert(lv.subrange(bs[0].0 as int, bs[0].1 as int) + lv.subrange(
            bs[1].0 as int,
            bs[bs.len() - 1].1 as int,
        ) =~= lv.subrange(bs[0].0 as int, bs[bs.len() - 1].1 as int));
    }
}

/// The boundary-aligned segmentation of the lines: a new segment begins at
/// every table-start line; the stream is never cut mid-table or mid-row.
fn segment_bounds(lines: &Vec<Vec<u8>>) -> (r: Vec<(usize, usize)>)
    ensures
        bounds_ok(lines.deep_view(), r@),
{
    let ghost lv = lines.deep_view();
    let mut r: Vec<(usize, usize)> = Vec::new();
    let mut start: usize = 0;
    let mut k: usize = 1;
    while k < lines.len()
        invariant
            lv == lines.deep_view(),
            lv.len() == lines@.len(),
            start < k,
            r@.len() == 0 ==> start == 0,
            r@.len() > 0 ==> r@[0].0 == 0 && r@[r@.len() - 1].1 == start && start > 0
                && is_table_start(lv[start as int]) && start < lines@.len(),
            forall|i: int| 0 <= i < r@.len() ==> (#[trigger] r@[i]).0 <= r@[i].1 <= lv.len(),
            forall|i: int| 0 <= i < r@.len() - 1 ==> (#[trigger] r@[i]).1 == r@[i + 1].0,
            forall|i: int|
                1 <= i < r@.len() ==> (#[trigger] r@[i]).0 < r@[i].1 && is_table_start(
                    lv[r@[i].0 as int],
                ),
        decreases lines@.len() - k,
    {
        proof {
            broadcast use crate::tables::lemma_bytes_dv;

            assert(lv[k as int] == lines@[k as int]@);
        }
        if line_is_table_start(lines[k].as_slice()) {
            r.push((start, k));
            start = k;
        }
        k += 1;
    }
    r.push((start, lines.len()));
    r
}

/// What a compressed dump stream parses to: decompress, decode as text,
/// split into lines, fold the grammar, group the completed rows by table.
pub open spec fn spec_parse_dump(compressed: Seq<u8>) -> Result<Map<Seq<u8>, RowsV>, ParseErr> {
    match gunzip_of(compressed) {
        None => Err(ParseErr::NotGzip),
        Some(d) => if !vstd::utf8::valid_utf8(d) {
            Err(ParseErr::BadText)
        } else {
            match events_of(spec_lines(d)) {
                Err(k) => Err(k),
                Ok(es) => Ok(map_of(es)),
            }
        },
    }
}

/// Copies one row.
pub fn clone_row(r: &crate::tables::RowVals) -> (out: crate::tables::RowVals)
    ensures
        out.deep_view() == r.deep_view(),
{
    broadcast use crate::tables::lemma_bytes_dv;

    let mut out: crate::tables::RowVals = Vec::new();
    let mut i: usize = 0;
    while i < r.len()
        invariant
            0 <= i <= r@.len(),
            out.deep_view() == r.deep_view().take(i as int),
        decreases r@.len() - i,
    {
        let ghost outg = out;
        out.push(clone_bytes(r[i].as_slice()));
        proof {
            broadcast use crate::tables::lemma_bytes_dv;

            crate::tables::lemma_dv_push(outg, out, out@.last());
            assert(out.deep_view() =~= r.deep_view().take(i as int + 1));
        }
        i += 1;
    }
    proof {
        assert(r.deep_view().take(r@.len() as int) =~= r.deep_view());
    }
    out
}

/// Copies a table's rows.
pub fn clone_rows(rs: &crate::tables::Rows) -> (out: crate::tables::Rows)
    ensures
        out.deep_view() == rs.deep_view(),
{
    let mut out: crate::tables::Rows = Vec::new();
    let mut i: usize = 0;
    while i < rs.len()
        invariant
            0 <= i <= rs@.len(),
            out.deep_view() == rs.deep_view().take(i as int),
        decreases rs@.len() - i,
    {
        let ghost outg = out;
        out.push(clone_row(&rs[i]));
        proof {
            crate::tables::lemma_dv_push(outg, out, out@.last());
            assert(out.deep_view() =~= rs.deep_view().take(i as int + 1));
        }
        i += 1;
    }
    proof {
        assert(rs.deep_view().take(rs@.len() as int) =~= rs.deep_view());
    }
    out
}

/// Parses one compressed dump stream into its table map: decompression,
/// text check, boundary-aligned segmentation, parallel segment parsing, and
/// an order-preserving merge, together proved equal to the sequential fold
/// of the grammar over the whole stream.
pub fn parse_table_data(compressed: &[u8]) -> (r: Result<TableMap, ParseErr>)
    ensures
        match (r, spec_parse_dump(compressed@)) {
            (Ok(tm), Ok(m)) => tm.wf() && tm@ == m,
            (Err(k1), Err(k2)) => k1 == k2,
            (_, _) => false,
        },
{
    let decompressed = match gunzip(compressed) {
        None => {
            return Err(ParseErr::NotGzip);
        },
        Some(d) => d,
    };
    if !utf8_check(decompressed.as_slice()) {
        return Err(ParseErr::BadText);
    }
    let lines = split_lines(decompressed.as_slice());
    let ghost lv = lines.deep_view();
    let bounds = segment_bounds(&lines);
    let ghost segs = segs_of(lv, bounds@);
    proof {
        lemma_segs_concat(lv, bounds@);
        assert(lv.subrange(0, lv.len() as int) =~= lv);
        assert(forall|i: int|
            1 <= i < segs.len() ==> (#[trigger] segs[i]).len() > 0 && is_table_start(segs[i][0]));
        lemma_parse_segmented(segs);
        assert(events_of(lv) == glue_all(segs));
    }
    let results = par_parse_segments(&lines, &bounds);
    let mut tm = TableMap::new();
    let ghost mut done_events: Seq<EventV> = Seq::empty();
    proof {
        assert(segs.skip(0) =~= segs);
        assert(map_of(done_events) =~= Map::<Seq<u8>, RowsV>::empty());
    }
    let mut i: usize = 0;
    while i < results.len()
        invariant
            0 <= i <= results@.len(),
            results@.len() == bounds@.len(),
            bounds_ok(lv, bounds@),
            segs == segs_of(lv, bounds@),
            spec_parse_dump(compressed@) == (match events_of(lv) {
                Err(k) => Err::<Map<Seq<u8>, RowsV>, ParseErr>(k),
                Ok(es) => Ok(map_of(es)),
            }),
            segs.len() == bounds@.len(),
            events_of(lv) == glue_all(segs),
            forall|j: int|
                0 <= j < bounds@.len() ==> seg_post(
                    #[trigger] lv.subrange(bounds@[j].0 as int, bounds@[j].1 as int),
                    results@[j],
                ),
            glue_all(segs) == (match glue_all(segs.skip(i as int)) {
                Err(k) => Err::<Seq<EventV>, ParseErr>(k),
                Ok(e) => Ok(done_events + e),
            }),
            tm.wf(),
            tm@ == map_of(done_events),
        decreases results@.len() - i,
    {
        proof {
            assert(segs.skip(i as int).first() == segs[i as int]);
            assert(segs.skip(i as int).drop_first() =~= segs.skip(i as int + 1));
            assert(segs[i as int] == lv.subrange(bounds@[i as int].0 as int,
                bounds@[i as int].1 as int));
        }
        match &results[i] {
            Err(k) => {
                proof {
                    assert(events_of(segs[i as int]) == Err::<Seq<EventV>, ParseErr>(*k));
                    assert(glue_all(segs.skip(i as int)) == Err::<Seq<EventV>, ParseErr>(*k));
                    assert(events_of(lv) == Err::<Seq<EventV>, ParseErr>(*k));
                }
                return Err(*k);
            },
            Ok(evs) => {
                proof {
                    assert(events_of(segs[i as int]) == Ok::<Seq<EventV>, ParseErr>(
                        evs.deep_view(),
                    ));
                }
                let ghost base = done_events;
                let mut j: usize = 0;
                while j < evs.len()
                    invariant
                        0 <= j <= evs@.len(),
                        tm.wf(),
                        tm@ == map_of(base + evs.deep_view().take(j as int)),
                        done_events == base,
                    decreases evs@.len() - j,
                {
                    broadcast use crate::tables::lemma_bytes_dv;

                    let name = clone_bytes(evs[j].0.as_slice());
                    let row = clone_row(&evs[j].1);
                    let ghost sofar = base + evs.deep_view().take(j as int);
                    let ghost ev = evs.deep_view()[j as int];
                    proof {
                        assert(ev == (evs@[j as int].0@, evs@[j as int].1.deep_view()));
                        assert(sofar.push(ev).drop_last() =~= sofar);
                    }
                    tm.push_row(name, row);
                    proof {
                        assert(tm@ == map_of(sofar.push(ev)));
                        assert(sofar.push(ev) =~= base + evs.deep_view().take(j as int + 1));
                    }
                    j += 1;
                }
                proof {
                    assert(evs.deep_view().take(evs@.len() as int) =~= evs.deep_view());
                    done_events = base + evs.deep_view();
                    match glue_all(segs.skip(i as int + 1)) {
                        Err(_) => {},
                        Ok(e) => {
                            assert((base + evs.deep_view()) + e =~= base + (evs.deep_view() + e));
                        },
                    }
                }
            },
        }
        i += 1;
    }
    proof {
        assert(segs.skip(i as int).len() == 0);
        assert(glue_all(segs.skip(i as int)) == Ok::<Seq<EventV>, ParseErr>(Seq::empty()));
        assert(done_events + Seq::<EventV>::empty() =~= done_events);
        assert(events_of(lv) == Ok::<Seq<EventV>, ParseErr>(done_events));
    }
    Ok(tm)
}

} // verus!
