//! The store: an offset log, the source of truth, and the relational index
//! derived from it.
use crate::db::{
    lemma_newer_members, limited, newer_offsets, append_parsed, find_feed_flume_seqs_newer_than, find_feed_latest_seq,
    find_message_flume_seq_by_author_and_sequence, find_message_flume_seq_by_key, get_latest,
    Index, Row,
};
use crate::error::Error;
use crate::offset_log::{
    batch_entries, lemma_append_to_tidy, log_tidy, batch_bytes, batch_size, frame_payload, frame_valid, entries_from, lemma_entries_ascending, lemma_entries_extend, lemma_entries_suffix, LogEntry,
    OffsetLog,
};
use crate::ssb_message::{envelope_of, parse_message, project_value, value_projection, SsbMessage};
use vstd::prelude::*;

verus! {

/// Entries indexed per step; a step either indexes all of its entries or none.
pub const CHUNK_SIZE: usize = 10000;

/// The row that an entry at offset `e.0` whose payload holds envelope `env` yields.
pub open spec fn row_of(off: int, env: (Seq<char>, Seq<char>, u32)) -> Row {
    (off, env.2 as i32 as int, env.0, env.1)
}

/// The rows that indexing entries `es` in order yields: one for each payload that
/// holds an envelope, none for the others.
pub open spec fn rows_of(es: Seq<(int, Seq<u8>)>) -> Seq<Row>
    decreases es.len(),
{
    if es.len() == 0 {
        Seq::empty()
    } else {
        let prev = rows_of(es.drop_last());
        let e = es.last();
        match envelope_of(e.1) {
            Some(env) => prev.push(row_of(e.0, env)),
            None => prev,
        }
    }
}

/// Indexing one run of entries after another yields the rows of each, in turn.
pub proof fn lemma_rows_of_concat(a: Seq<(int, Seq<u8>)>, b: Seq<(int, Seq<u8>)>)
    ensures
        rows_of(a + b) == rows_of(a) + rows_of(b),
    decreases b.len(),
{
    if b.len() == 0 {
        assert(a + b =~= a);
        assert(rows_of(a) + rows_of(b) =~= rows_of(a));
    } else {
        assert((a + b).drop_last() =~= a + b.drop_last());
        lemma_rows_of_concat(a, b.drop_last());
        assert((a + b).last() == b.last());
    }
}

/// The rows of a prefix of the entries come first among the rows of a longer one.
pub proof fn lemma_rows_of_prefix(es: Seq<(int, Seq<u8>)>, i: int, j: int)
    requires
        0 <= i <= j <= es.len(),
    ensures
        rows_of(es.take(i)).len() <= rows_of(es.take(j)).len(),
        rows_of(es.take(j)).take(rows_of(es.take(i)).len() as int) == rows_of(es.take(i)),
{
    assert(es.take(j) =~= es.take(i) + es.take(j).skip(i));
    lemma_rows_of_concat(es.take(i), es.take(j).skip(i));
    assert(rows_of(es.take(j)).take(rows_of(es.take(i)).len() as int) =~= rows_of(es.take(i)));
}

/// Every row comes from an entry whose payload holds its envelope; the last row
/// comes from an entry after which no payload holds one.
proof fn lemma_rows_origin(es: Seq<(int, Seq<u8>)>)
    ensures
        forall|j: int|
            #![trigger rows_of(es)[j]]
            0 <= j < rows_of(es).len() ==> exists|i: int|
                0 <= i < es.len() && #[trigger] envelope_of(es[i].1) is Some && rows_of(es)[j]
                    == row_of(es[i].0, envelope_of(es[i].1)->Some_0),
        rows_of(es).len() > 0 ==> exists|p: int|
            0 <= p < es.len() && es[p].0 == rows_of(es).last().0 && rows_of(es) == rows_of(
                es.take(p + 1),
            ),
    decreases es.len(),
{
    if es.len() > 0 {
        let prev = es.drop_last();
        lemma_rows_origin(prev);
        assert forall|j: int|
            #![trigger rows_of(es)[j]]
            0 <= j < rows_of(es).len() implies exists|i: int|
            0 <= i < es.len() && #[trigger] envelope_of(es[i].1) is Some && rows_of(es)[j]
                == row_of(es[i].0, envelope_of(es[i].1)->Some_0) by {
            if j < rows_of(prev).len() {
                let i = choose|i: int|
                    0 <= i < prev.len() && #[trigger] envelope_of(prev[i].1) is Some
                        && rows_of(prev)[j] == row_of(prev[i].0, envelope_of(prev[i].1)->Some_0);
                assert(es[i] == prev[i]);
            } else {
                let i = es.len() - 1;
                assert(es[i] == es.last());
            }
        }
        if rows_of(es).len() > 0 {
            if envelope_of(es.last().1) is Some {
                assert(es.take(es.len() as int) == es);
                assert(es[es.len() - 1] == es.last());
            } else {
                let p = choose|p: int|
                    0 <= p < prev.len() && prev[p].0 == rows_of(prev).last().0 && rows_of(prev)
                        == rows_of(prev.take(p + 1));
                assert(prev.take(p + 1) == es.take(p + 1));
                assert(es[p] == prev[p]);
            }
        }
    }
}

/// Rows of entries whose offsets ascend strictly ascend strictly too.
pub proof fn lemma_rows_of_ascending(es: Seq<(int, Seq<u8>)>)
    requires
        forall|k: int, l: int| 0 <= k < l < es.len() ==> #[trigger] es[k].0 < #[trigger] es[l].0,
    ensures
        forall|i: int, j: int|
            0 <= i < j < rows_of(es).len() ==> #[trigger] rows_of(es)[i].0 < #[trigger] rows_of(
                es,
            )[j].0,
    decreases es.len(),
{
    if es.len() > 0 {
        let prev = es.drop_last();
        lemma_rows_of_ascending(prev);
        lemma_rows_origin(prev);
        let rs = rows_of(es);
        assert forall|i: int, j: int| 0 <= i < j < rs.len() implies #[trigger] rs[i].0
            < #[trigger] rs[j].0 by {
            if j >= rows_of(prev).len() {
                let q = choose|q: int|
                    0 <= q < prev.len() && #[trigger] envelope_of(prev[q].1) is Some
                        && rows_of(prev)[i] == row_of(prev[q].0, envelope_of(prev[q].1)->Some_0);
                assert(rs[i] == rows_of(prev)[i]);
                assert(prev[q] == es[q]);
                assert(es[q].0 < es[es.len() - 1].0);
            } else {
                assert(rs[i] == rows_of(prev)[i]);
                assert(rs[j] == rows_of(prev)[j]);
            }
        }
    }
}

/// Parses the payloads of `entries[from..to]`, which are the entries
/// `es[base + from..base + to]` of a forward read. Also counts the envelopes, and
/// tells whether one of them stands at an offset the index cannot hold.
fn parse_run(
    entries: &Vec<LogEntry>,
    from: usize,
    to: usize,
    Ghost(es): Ghost<Seq<(int, Seq<u8>)>>,
    Ghost(base): Ghost<int>,
) -> (r: (Vec<Option<SsbMessage>>, usize, bool))
    requires
        0 <= base,
        from <= to <= entries@.len(),
        base + entries@.len() <= es.len(),
        forall|k: int| 0 <= k < entries@.len() ==> #[trigger] entries@[k]@ == es[base + k],
    ensures
        r.0@.len() == to - from,
        forall|k: int|
            from <= k < to ==> match #[trigger] r.0@[k - from] {
                Some(m) => envelope_of(es[base + k].1) == Some(m@),
                None => envelope_of(es[base + k].1) is None,
            },
        r.1 == rows_of(es.take(base + to)).len() - rows_of(es.take(base + from)).len(),
        r.1 <= to - from,
        !r.2 <==> forall|k: int|
            from <= k < to && envelope_of(#[trigger] es[base + k].1) is Some ==> es[base + k].0
                <= i64::MAX,
{
    let mut parsed: Vec<Option<SsbMessage>> = Vec::new();
    let mut count: usize = 0;
    let mut big = false;
    let mut i: usize = from;
    while i < to
        invariant
            0 <= base,
            from <= i <= to <= entries@.len(),
            base + entries@.len() <= es.len(),
            forall|k: int| 0 <= k < entries@.len() ==> #[trigger] entries@[k]@ == es[base + k],
            parsed@.len() == i - from,
            forall|k: int|
                from <= k < i ==> match #[trigger] parsed@[k - from] {
                    Some(m) => envelope_of(es[base + k].1) == Some(m@),
                    None => envelope_of(es[base + k].1) is None,
                },
            count == rows_of(es.take(base + i)).len() - rows_of(es.take(base + from)).len(),
            count <= i - from,
            !big <==> forall|k: int|
                from <= k < i && envelope_of(#[trigger] es[base + k].1) is Some ==> es[base + k].0
                    <= i64::MAX,
        decreases to - i,
    {
        let ghost e = es[base + i];
        proof {
            assert(entries@[i as int]@ == e);
            assert(es.take(base + i + 1).drop_last() == es.take(base + i));
            assert(es.take(base + i + 1).last() == e);
        }
        let m = parse_message(entries[i].data.as_slice());
        if m.is_some() {
            count = count + 1;
            if entries[i].offset > i64::MAX as u64 {
                big = true;
            }
        }
        parsed.push(m);
        proof {
            assert(parsed@[i - from] == m);
        }
        i = i + 1;
    }
    (parsed, count, big)
}

/// Indexes the parsed entries `parsed`, which are those of `es[base + from..base + to]`,
/// when the index has room for them.
fn index_run(
    index: &mut Index,
    entries: &Vec<LogEntry>,
    parsed: &Vec<Option<SsbMessage>>,
    from: usize,
    to: usize,
    Ghost(es): Ghost<Seq<(int, Seq<u8>)>>,
    Ghost(base): Ghost<int>,
)
    requires
        old(index).wf(),
        0 <= base,
        from <= to <= entries@.len(),
        base + entries@.len() <= es.len(),
        forall|k: int| 0 <= k < entries@.len() ==> #[trigger] entries@[k]@ == es[base + k],
        forall|k: int, l: int| 0 <= k < l < es.len() ==> #[trigger] es[k].0 < #[trigger] es[l].0,
        parsed@.len() == to - from,
        forall|k: int|
            from <= k < to ==> match #[trigger] parsed@[k - from] {
                Some(m) => envelope_of(es[base + k].1) == Some(m@),
                None => envelope_of(es[base + k].1) is None,
            },
        old(index).rows() == rows_of(es.take(base + from)),
        old(index).room() >= 2 * (rows_of(es.take(base + to)).len() - old(index).rows().len()),
        forall|k: int|
            from <= k < to && envelope_of(#[trigger] es[base + k].1) is Some ==> es[base + k].0
                <= i64::MAX,
    ensures
        final(index).wf(),
        final(index).rows() == rows_of(es.take(base + to)),
        old(index).rows().len() <= final(index).rows().len(),
        final(index).rows().take(old(index).rows().len() as int) == old(index).rows(),
        final(index).room() >= old(index).room() - 2 * (final(index).rows().len() - old(
            index,
        ).rows().len()),
{
    let ghost rows0 = index.rows();
    let ghost room0 = index.room();
    let ghost goal = rows_of(es.take(base + to));
    let mut i: usize = from;
    while i < to
        invariant
            0 <= base,
            from <= i <= to <= entries@.len(),
            base + entries@.len() <= es.len(),
            forall|k: int| 0 <= k < entries@.len() ==> #[trigger] entries@[k]@ == es[base + k],
            forall|k: int, l: int| 0 <= k < l < es.len() ==> #[trigger] es[k].0 < #[trigger] es[l].0,
            parsed@.len() == to - from,
            forall|k: int|
                from <= k < to ==> match #[trigger] parsed@[k - from] {
                    Some(m) => envelope_of(es[base + k].1) == Some(m@),
                    None => envelope_of(es[base + k].1) is None,
                },
            forall|k: int|
                from <= k < to && envelope_of(#[trigger] es[base + k].1) is Some ==> es[base + k].0
                    <= i64::MAX,
            goal == rows_of(es.take(base + to)),
            index.wf(),
            index.rows() == rows_of(es.take(base + i)),
            rows0.len() <= index.rows().len(),
            index.rows().take(rows0.len() as int) == rows0,
            index.room() >= 2 * (goal.len() - index.rows().len()),
            index.room() >= room0 - 2 * (index.rows().len() - rows0.len()),
        decreases to - i,
    {
        let ghost e = es[base + i];
        proof {
            assert(entries@[i as int]@ == e);
            assert(es.take(base + i + 1).drop_last() == es.take(base + i));
            assert(es.take(base + i + 1).last() == e);
            lemma_rows_of_prefix(es, base + i + 1, base + to);
            lemma_rows_origin(es.take(base + i));
            assert forall|j: int| 0 <= j < index.rows().len() implies #[trigger] index.rows()[j].0
                != e.0 by {
                let pre = es.take(base + i);
                let q = choose|q: int|
                    0 <= q < pre.len() && #[trigger] envelope_of(pre[q].1) is Some
                        && rows_of(pre)[j] == row_of(pre[q].0, envelope_of(pre[q].1)->Some_0);
                assert(pre[q] == es[q]);
                assert(es[q].0 < es[base + i].0);
            }
        }
        let ghost rows_before = index.rows();
        match &parsed[i - from] {
            Some(m) => {
                let r = append_parsed(index, entries[i].offset, m);
                proof {
                    assert(r is Ok);
                }
            },
            None => {},
        }
        proof {
            assert(index.rows().take(rows_before.len() as int) =~= rows_before);
            assert(index.rows().take(rows0.len() as int) =~= rows0);
        }
        i = i + 1;
    }
}

/// The store: the offset log and the index derived from it.
pub struct SqliteSsbDb {
    offset_log: OffsetLog,
    index: Index,
    /// How many entries of the log, read forward from offset 0, the index covers.
    indexed: Ghost<nat>,
}

impl SqliteSsbDb {
    /// The bytes of the log.
    pub closed spec fn log(&self) -> Seq<u8> {
        self.offset_log@
    }

    /// The index's message rows, in order.
    pub closed spec fn rows(&self) -> Seq<Row> {
        self.index.rows()
    }

    /// How many more authors, and as many keys, the index can take.
    pub closed spec fn room(&self) -> int {
        self.index.room()
    }

    /// The index is consistent and holds the rows of the first entries of the log.
    pub closed spec fn wf(&self) -> bool {
        let es = entries_from(self.offset_log@, 0);
        &&& self.index.wf()
        &&& self.indexed@ <= es.len()
        &&& self.index.rows() == rows_of(es.take(self.indexed@ as int))
    }

    /// The index holds the rows of every entry of the log.
    pub open spec fn is_current(&self) -> bool {
        self.rows() == rows_of(entries_from(self.log(), 0))
    }

    /// Every indexed row names a valid frame whose payload holds the row's envelope.
    proof fn lemma_rows_valid(&self)
        requires
            self.wf(),
        ensures
            forall|j: int|
                0 <= j < self.rows().len() ==> {
                    let r = #[trigger] self.rows()[j];
                    &&& crate::offset_log::frame_valid(self.log(), r.0)
                    &&& envelope_of(crate::offset_log::frame_payload(self.log(), r.0)) matches Some(
                        env,
                    ) && r == row_of(r.0, env)
                },
    {
        let es = entries_from(self.offset_log@, 0);
        let pre = es.take(self.indexed@ as int);
        lemma_rows_origin(pre);
        lemma_entries_ascending(self.offset_log@, 0);
        assert forall|j: int| 0 <= j < self.rows().len() implies {
            let r = #[trigger] self.rows()[j];
            &&& crate::offset_log::frame_valid(self.log(), r.0)
            &&& envelope_of(crate::offset_log::frame_payload(self.log(), r.0)) matches Some(env)
                && r == row_of(r.0, env)
        } by {
            let i = choose|i: int|
                0 <= i < pre.len() && #[trigger] envelope_of(pre[i].1) is Some && rows_of(pre)[j]
                    == row_of(pre[i].0, envelope_of(pre[i].1)->Some_0);
            assert(pre[i] == es[i]);
        }
    }

    /// The index's offsets ascend strictly: its rows come from a forward read.
    pub proof fn lemma_rows_ascending(&self)
        requires
            self.wf(),
        ensures
            forall|i: int, j: int|
                0 <= i < j < self.rows().len() ==> #[trigger] self.rows()[i].0
                    < #[trigger] self.rows()[j].0,
    {
        let es = entries_from(self.offset_log@, 0);
        let pre = es.take(self.indexed@ as int);
        lemma_entries_ascending(self.offset_log@, 0);
        assert forall|k: int, l: int| 0 <= k < l < pre.len() implies #[trigger] pre[k].0
            < #[trigger] pre[l].0 by {
            assert(pre[k] == es[k]);
            assert(pre[l] == es[l]);
        }
        lemma_rows_of_ascending(pre);
    }

    /// A store over the log whose file holds `log_bytes`, with an empty index.
    pub fn new(log_bytes: Vec<u8>) -> (r: SqliteSsbDb)
        ensures
            r.wf(),
            r.log() == log_bytes@,
            r.rows() == Seq::<Row>::empty(),
            r.room() == crate::db::MAX_ID,
    {
        let r = SqliteSsbDb {
            offset_log: OffsetLog::from_bytes(log_bytes),
            index: Index::new(),
            indexed: Ghost(0),
        };
        proof {
            let es = entries_from(r.offset_log@, 0);
            assert(es.take(0) =~= Seq::<(int, Seq<u8>)>::empty());
        }
        r
    }

    /// The offset log.
    pub fn offset_log(&self) -> (r: &OffsetLog)
        ensures
            r@ == self.log(),
    {
        &self.offset_log
    }

    /// Brings the index up to date with the log: reads the high-water mark, reads
    /// forward from it (skipping the frame at the mark, already indexed), and
    /// indexes the new entries, at most `CHUNK_SIZE` per step. A step that the index
    /// cannot take fails with `SqliteAppendError` before it changes anything, so the
    /// index keeps its earlier rows and a later call resumes where this one stopped.
    #[verifier::rlimit(60)]
    pub fn update_indexes_from_offset_file(&mut self) -> (r: Result<(), Error>)
        requires
            old(self).wf(),
        ensures
            final(self).wf(),
            final(self).log() == old(self).log(),
            old(self).rows().len() <= final(self).rows().len(),
            final(self).rows().take(old(self).rows().len() as int) == old(self).rows(),
            r is Ok ==> final(self).is_current(),
            r matches Err(e) ==> e == Error::SqliteAppendError,
            old(self).room() >= 2 * (rows_of(entries_from(old(self).log(), 0)).len() - old(
                self,
            ).rows().len()) && old(self).log().len() <= i64::MAX ==> r is Ok,
            old(self).is_current() ==> r is Ok && final(self).rows() == old(self).rows(),
    {
        let ghost b = self.offset_log@;
        let ghost es = entries_from(b, 0);
        let ghost old_rows = self.index.rows();
        let ghost room0 = self.index.room();
        let ghost current0 = old_rows == rows_of(es);
        let ghost cond0 = room0 >= 2 * (rows_of(es).len() - old_rows.len()) && b.len() <= i64::MAX;
        let latest = get_latest(&self.index);
        let ghost base = lemma_resume_point(b, self.indexed@, old_rows, latest);
        let (start, skip): (u64, usize) = match latest {
            None => (0, 0),
            Some(h) => (h, 1),
        };
        let entries: Vec<LogEntry> = self.offset_log.iter_at_offset(start);
        proof {
            lemma_entries_ascending(b, 0);
            let ev = entries@.map_values(|e: LogEntry| e@);
            assert(ev == es.skip(base));
            assert(entries@.len() == ev.len());
            assert forall|k: int| 0 <= k < entries@.len() implies #[trigger] entries@[k]@ == es[base
                + k] by {
                assert(ev[k] == entries@[k]@);
            }
            assert(es.take(es.len() as int) == es);
        }
        let mut i: usize = skip;
        let mut refused = false;
        while i < entries.len()
            invariant_except_break
                !refused,
            invariant
                b == self.offset_log@,
                es == entries_from(b, 0),
                es.take(es.len() as int) == es,
                0 <= base,
                base + entries@.len() == es.len(),
                forall|k: int| 0 <= k < entries@.len() ==> #[trigger] entries@[k]@ == es[base + k],
                skip <= i <= entries@.len(),
                self.index.wf(),
                self.index.rows() == rows_of(es.take(base + i)),
                old_rows.len() <= self.index.rows().len(),
                self.index.rows().take(old_rows.len() as int) == old_rows,
                forall|k: int, l: int| 0 <= k < l < es.len() ==> #[trigger] es[k].0 < #[trigger] es[l].0,
                forall|k: int| 0 <= k < es.len() ==> #[trigger] es[k].0 < b.len(),
                cond0 ==> self.index.room() >= 2 * (rows_of(es).len() - self.index.rows().len()),
                cond0 ==> b.len() <= i64::MAX,
                current0 ==> old_rows == rows_of(es) && self.index.rows() == old_rows,
                self.indexed@ <= es.len(),
            ensures
                b == self.offset_log@,
                skip <= i <= entries@.len(),
                refused || i == entries@.len(),
                self.index.wf(),
                self.index.rows() == rows_of(es.take(base + i)),
                old_rows.len() <= self.index.rows().len(),
                self.index.rows().take(old_rows.len() as int) == old_rows,
                refused ==> !cond0 && !current0,
                current0 ==> self.index.rows() == old_rows,
            decreases entries@.len() - i,
        {
            let chunk_end: usize = if entries.len() - i > CHUNK_SIZE {
                i + CHUNK_SIZE
            } else {
                entries.len()
            };
            let (parsed, count, big) = parse_run(&entries, i, chunk_end, Ghost(es), Ghost(base));
            proof {
                lemma_rows_of_prefix(es, base + i, base + chunk_end);
                lemma_rows_of_prefix(es, base + chunk_end, es.len() as int);
            }
            // the step is one transaction: refuse it whole if the index cannot take it
            if self.index.room_left() < 2 * count || big {
                proof {
                    if cond0 {
                        assert forall|k: int|
                            i <= k < chunk_end && envelope_of(#[trigger] es[base + k].1) is Some
                                implies es[base + k].0 <= i64::MAX by {
                            assert(es[base + k].0 < b.len());
                        }
                    }
                    if current0 {
                        assert(count == 0);
                        assert forall|k: int|
                            i <= k < chunk_end && envelope_of(#[trigger] es[base + k].1) is Some
                                implies es[base + k].0 <= i64::MAX by {
                            lemma_rows_cover(es.take(base + chunk_end).skip(base + i));
                            assert(false) by {
                                let sub = es.take(base + chunk_end).skip(base + i);
                                assert(sub[k - i] == es[base + k]);
                                assert(es.take(base + chunk_end) =~= es.take(base + i) + sub);
                                lemma_rows_of_concat(es.take(base + i), sub);
                            }
                        }
                    }
                }
                refused = true;
                break;
            }
            index_run(&mut self.index, &entries, &parsed, i, chunk_end, Ghost(es), Ghost(base));
            i = chunk_end;
        }
        if refused {
            proof {
                self.indexed = Ghost((base + i) as nat);
            }
            return Err(Error::SqliteAppendError);
        }
        proof {
            self.indexed = Ghost(es.len());
            assert(es.take(base + i) == es);
        }
        Ok(())
    }
}

/// What projecting the values of the frames at `offs`, in order, gives: the
/// projected values, entries with nothing to project left out, or the first error.
pub open spec fn values_of(log: Seq<u8>, offs: Seq<int>) -> Result<Seq<Seq<u8>>, Error>
    decreases offs.len(),
{
    if offs.len() == 0 {
        Ok(Seq::empty())
    } else {
        match values_of(log, offs.drop_last()) {
            Err(e) => Err(e),
            Ok(vs) => match value_projection(frame_payload(log, offs.last())) {
                Ok(None) => Ok(vs),
                Ok(Some(v)) => Ok(vs.push(v)),
                Err(e) => Err(e),
            },
        }
    }
}

impl SqliteSsbDb {
    /// Every offset that a newer-than query returns names a valid frame whose
    /// payload holds an envelope.
    proof fn lemma_query_frames(&self, a: Seq<char>, s: int, limit: Option<i64>)
        requires
            self.wf(),
        ensures
            forall|i: int|
                0 <= i < limited(newer_offsets(self.rows(), a, s), limit).len() ==> {
                    let o = #[trigger] limited(newer_offsets(self.rows(), a, s), limit)[i];
                    &&& frame_valid(self.log(), o)
                    &&& envelope_of(frame_payload(self.log(), o)) is Some
                    &&& envelope_of(frame_payload(self.log(), o))->Some_0.1 == a
                    &&& envelope_of(frame_payload(self.log(), o))->Some_0.2 as i32 as int > s
                    &&& 0 <= o
                },
    {
        self.lemma_rows_valid();
        self.index.lemma_rows_distinct();
        let all = newer_offsets(self.rows(), a, s);
        lemma_newer_members(self.rows(), a, s);
        assert forall|i: int| 0 <= i < limited(all, limit).len() implies {
            let o = #[trigger] limited(all, limit)[i];
            &&& frame_valid(self.log(), o)
            &&& envelope_of(frame_payload(self.log(), o)) is Some
            &&& envelope_of(frame_payload(self.log(), o))->Some_0.1 == a
            &&& envelope_of(frame_payload(self.log(), o))->Some_0.2 as i32 as int > s
            &&& 0 <= o
        } by {
            assert(limited(all, limit)[i] == all[i]);
            let j = choose|j: int|
                0 <= j < self.rows().len() && #[trigger] self.rows()[j].0 == all[i]
                    && self.rows()[j].3 == a && self.rows()[j].1 > s;
        }
    }

    /// The payload of the first message (in index order) whose key is `message_key`.
    pub fn get_entry_by_key(&self, message_key: &str) -> (r: Result<Vec<u8>, Error>)
        requires
            self.wf(),
        ensures
            r is Err <==> forall|i: int| 0 <= i < self.rows().len() ==> #[trigger] self.rows()[i].2
                != message_key@,
            r matches Err(e) ==> e == Error::MessageNotFound,
            r matches Ok(d) ==> envelope_of(d@) matches Some(env) && env.0 == message_key@,
            r matches Ok(d) ==> exists|i: int|
                0 <= i < self.rows().len() && #[trigger] self.rows()[i].2 == message_key@
                    && d@ == frame_payload(self.log(), self.rows()[i].0) && forall|j: int|
                    0 <= j < i ==> #[trigger] self.rows()[j].2 != message_key@,
    {
        proof {
            self.lemma_rows_valid();
        }
        match find_message_flume_seq_by_key(&self.index, message_key) {
            None => Err(Error::MessageNotFound),
            Some(f) => match self.offset_log.get(f) {
                Ok(d) => Ok(d),
                Err(_) => Err(Error::OffsetGetError),
            },
        }
    }

    /// The payload of the first message (in index order) of feed `feed_id` with
    /// sequence `sequence`; `None` where the feed has no such message.
    pub fn get_entry_by_seq(&self, feed_id: &str, sequence: i32) -> (r: Result<
        Option<Vec<u8>>,
        Error,
    >)
        requires
            self.wf(),
        ensures
            r is Ok,
            r matches Ok(Some(d)) ==> envelope_of(d@) matches Some(env) && env.1 == feed_id@
                && env.2 as i32 == sequence,
            r matches Ok(None) <==> forall|i: int|
                0 <= i < self.rows().len() ==> !(#[trigger] self.rows()[i].3 == feed_id@
                    && self.rows()[i].1 == sequence),
            r matches Ok(Some(d)) ==> exists|i: int|
                0 <= i < self.rows().len() && #[trigger] self.rows()[i].3 == feed_id@
                    && self.rows()[i].1 == sequence && d@ == frame_payload(
                    self.log(),
                    self.rows()[i].0,
                ) && forall|j: int|
                    0 <= j < i ==> !(#[trigger] self.rows()[j].3 == feed_id@ && self.rows()[j].1
                        == sequence),
    {
        proof {
            self.lemma_rows_valid();
            self.index.lemma_rows_distinct();
        }
        match find_message_flume_seq_by_author_and_sequence(&self.index, feed_id, sequence) {
            None => Ok(None),
            Some(f) => match self.offset_log.get(f as u64) {
                Ok(d) => Ok(Some(d)),
                Err(_) => Err(Error::OffsetGetError),
            },
        }
    }

    /// The largest sequence of feed `feed_id`; `None` if the feed has no messages.
    pub fn get_feed_latest_sequence(&self, feed_id: &str) -> (r: Result<Option<i32>, Error>)
        requires
            self.wf(),
        ensures
            r is Ok,
            r matches Ok(None) <==> forall|i: int|
                0 <= i < self.rows().len() ==> #[trigger] self.rows()[i].3 != feed_id@,
            r matches Ok(Some(s)) ==> (exists|i: int|
                0 <= i < self.rows().len() && #[trigger] self.rows()[i].3 == feed_id@
                    && self.rows()[i].1 == s) && forall|i: int|
                0 <= i < self.rows().len() && #[trigger] self.rows()[i].3 == feed_id@
                    ==> self.rows()[i].1 <= s,
    {
        let s = find_feed_latest_seq(&self.index, feed_id);
        proof {
            assert(self.rows() == self.index.rows());
        }
        Ok(s)
    }

    /// The messages of feed `feed_id` with sequence greater than `sequence`, in
    /// index order, at most `limit` of them when `limit` is given and not negative,
    /// each as asked: the whole payload (keys and values), the message key (keys
    /// only), or the envelope's value written back with its fields in the order they were stored
    /// (values only). Asking for neither fails before anything is read.
    pub fn get_entries_newer_than_sequence(
        &self,
        feed_id: &str,
        sequence: i32,
        limit: Option<i64>,
        include_keys: bool,
        include_values: bool,
    ) -> (r: Result<Vec<Vec<u8>>, Error>)
        requires
            self.wf(),
        ensures
            ({
                let offs = limited(newer_offsets(self.rows(), feed_id@, sequence as int), limit);
                &&& !include_keys && !include_values ==> r == Err::<Vec<Vec<u8>>, Error>(
                    Error::IncludeKeysIncludeValuesBothFalse,
                )
                &&& include_keys && include_values ==> (r matches Ok(vs) && vs@.len() == offs.len()
                    && forall|i: int|
                    0 <= i < offs.len() ==> #[trigger] vs@[i]@ == frame_payload(self.log(), offs[i]))
                &&& include_keys && !include_values ==> (r matches Ok(vs) && vs@.len() == offs.len()
                    && forall|i: int|
                    0 <= i < offs.len() ==> #[trigger] vs@[i]@ == vstd::utf8::encode_utf8(
                        envelope_of(frame_payload(self.log(), offs[i]))->Some_0.0,
                    ))
                &&& !include_keys && include_values ==> match r {
                    Ok(vs) => values_of(self.log(), offs) == Ok::<Seq<Seq<u8>>, Error>(
                        vs@.map_values(|v: Vec<u8>| v@),
                    ),
                    Err(e) => values_of(self.log(), offs) == Err::<Seq<Seq<u8>>, Error>(e),
                }
                &&& include_keys || include_values ==> forall|i: int|
                    0 <= i < offs.len() ==> {
                        let env = #[trigger] envelope_of(frame_payload(self.log(), offs[i]));
                        &&& env is Some
                        &&& env->Some_0.1 == feed_id@
                        &&& env->Some_0.2 as i32 as int > sequence as int
                    }
            }),
    {
        if !include_keys && !include_values {
            return Err(Error::IncludeKeysIncludeValuesBothFalse);
        }
        let offs = find_feed_flume_seqs_newer_than(&self.index, feed_id, sequence, limit);
        let ghost want = limited(newer_offsets(self.rows(), feed_id@, sequence as int), limit);
        proof {
            self.lemma_query_frames(feed_id@, sequence as int, limit);
            assert forall|i: int| 0 <= i < offs@.len() implies #[trigger] offs@[i] as int == want[i] by {
                assert(offs@.map_values(|o: u64| o as int)[i] == offs@[i] as int);
            }
            assert(offs@.len() == want.len()) by {
                assert(offs@.map_values(|o: u64| o as int).len() == offs@.len());
            }
        }
        if include_keys {
            self.read_entries(&offs, include_values, Ghost(want))
        } else {
            self.read_values(&offs, Ghost(want))
        }
    }

    /// The whole payloads, or the message keys, of the frames at `offs`.
    fn read_entries(&self, offs: &Vec<u64>, include_values: bool, Ghost(want): Ghost<Seq<int>>) -> (r:
        Result<Vec<Vec<u8>>, Error>)
        requires
            self.wf(),
            offs@.len() == want.len(),
            forall|k: int| 0 <= k < offs@.len() ==> #[trigger] offs@[k] as int == want[k],
            forall|k: int|
                0 <= k < want.len() ==> {
                    let o = #[trigger] want[k];
                    &&& frame_valid(self.log(), o)
                    &&& envelope_of(frame_payload(self.log(), o)) is Some
                },
        ensures
            r matches Ok(vs) && vs@.len() == want.len(),
            include_values ==> (r matches Ok(vs) && forall|k: int|
                0 <= k < want.len() ==> #[trigger] vs@[k]@ == frame_payload(self.log(), want[k])),
            !include_values ==> (r matches Ok(vs) && forall|k: int|
                0 <= k < want.len() ==> #[trigger] vs@[k]@ == vstd::utf8::encode_utf8(
                    envelope_of(frame_payload(self.log(), want[k]))->Some_0.0,
                )),
    {
        let mut out: Vec<Vec<u8>> = Vec::new();
        let mut i: usize = 0;
        while i < offs.len()
            invariant
                self.wf(),
                i <= offs@.len(),
                offs@.len() == want.len(),
                forall|k: int| 0 <= k < offs@.len() ==> #[trigger] offs@[k] as int == want[k],
                forall|k: int|
                    0 <= k < want.len() ==> {
                        let o = #[trigger] want[k];
                        &&& frame_valid(self.log(), o)
                        &&& envelope_of(frame_payload(self.log(), o)) is Some
                    },
                out@.len() == i,
                include_values ==> forall|k: int|
                    0 <= k < i ==> #[trigger] out@[k]@ == frame_payload(self.log(), want[k]),
                !include_values ==> forall|k: int|
                    0 <= k < i ==> #[trigger] out@[k]@ == vstd::utf8::encode_utf8(
                        envelope_of(frame_payload(self.log(), want[k]))->Some_0.0,
                    ),
            decreases offs@.len() - i,
        {
            let payload = match self.offset_log.get(offs[i]) {
                Ok(d) => d,
                Err(_) => {
                    proof {
                        assert(false);
                    }
                    return Err(Error::OffsetGetError);
                },
            };
            if include_values {
                out.push(payload);
            } else {
                match parse_message(payload.as_slice()) {
                    Some(m) => {
                        out.push(vstd::slice::slice_to_vec(m.key.as_str().as_bytes()));
                    },
                    None => {
                        proof {
                            assert(false);
                        }
                    },
                }
            }
            i = i + 1;
        }
        Ok(out)
    }

    /// The projected values of the frames at `offs`, in order.
    fn read_values(&self, offs: &Vec<u64>, Ghost(want): Ghost<Seq<int>>) -> (r: Result<
        Vec<Vec<u8>>,
        Error,
    >)
        requires
            self.wf(),
            offs@.len() == want.len(),
            forall|k: int| 0 <= k < offs@.len() ==> #[trigger] offs@[k] as int == want[k],
            forall|k: int|
                0 <= k < want.len() ==> frame_valid(self.log(), #[trigger] want[k]),
        ensures
            match r {
                Ok(vs) => values_of(self.log(), want) == Ok::<Seq<Seq<u8>>, Error>(
                    vs@.map_values(|v: Vec<u8>| v@),
                ),
                Err(e) => values_of(self.log(), want) == Err::<Seq<Seq<u8>>, Error>(e),
            },
    {
        let mut out: Vec<Vec<u8>> = Vec::new();
        let mut i: usize = 0;
        proof {
            assert(want.take(0) =~= Seq::<int>::empty());
            assert(out@.map_values(|v: Vec<u8>| v@) =~= Seq::<Seq<u8>>::empty());
        }
        while i < offs.len()
            invariant
                self.wf(),
                i <= offs@.len(),
                offs@.len() == want.len(),
                forall|k: int| 0 <= k < offs@.len() ==> #[trigger] offs@[k] as int == want[k],
                forall|k: int| 0 <= k < want.len() ==> frame_valid(self.log(), #[trigger] want[k]),
                values_of(self.log(), want.take(i as int)) == Ok::<Seq<Seq<u8>>, Error>(
                    out@.map_values(|v: Vec<u8>| v@),
                ),
            decreases offs@.len() - i,
        {
            let payload = match self.offset_log.get(offs[i]) {
                Ok(d) => d,
                Err(_) => {
                    proof {
                        assert(frame_valid(self.log(), want[i as int]));
                        assert(false);
                    }
                    return Err(Error::OffsetGetError);
                },
            };
            proof {
                assert(want.take(i as int + 1).drop_last() == want.take(i as int));
                assert(want.take(i as int + 1).last() == want[i as int]);
            }
            let ghost before = out@.map_values(|v: Vec<u8>| v@);
            match project_value(payload.as_slice()) {
                Ok(Some(v)) => {
                    out.push(v);
                    proof {
                        assert(out@.map_values(|v: Vec<u8>| v@) =~= before.push(v@));
                    }
                },
                Ok(None) => {},
                Err(e) => {
                    proof {
                        lemma_values_of_err(self.log(), want, i as int + 1, e);
                    }
                    return Err(e);
                },
            }
            i = i + 1;
        }
        proof {
            assert(want.take(i as int) == want);
        }
        Ok(out)
    }
}

/// A limit only truncates a values projection: where projecting all the frames
/// succeeds, projecting the first `i` of them succeeds with a prefix of its values.
pub proof fn lemma_values_of_prefix(log: Seq<u8>, offs: Seq<int>, i: int)
    requires
        0 <= i <= offs.len(),
        values_of(log, offs) is Ok,
    ensures
        values_of(log, offs.take(i)) is Ok,
        values_of(log, offs.take(i))->Ok_0.len() <= values_of(log, offs)->Ok_0.len(),
        values_of(log, offs)->Ok_0.take(values_of(log, offs.take(i))->Ok_0.len() as int)
            == values_of(log, offs.take(i))->Ok_0,
    decreases offs.len() - i,
{
    if i == offs.len() {
        assert(offs.take(i) == offs);
        let vs = values_of(log, offs)->Ok_0;
        assert(vs.take(vs.len() as int) == vs);
    } else {
        lemma_values_of_prefix(log, offs, i + 1);
        assert(offs.take(i + 1).drop_last() == offs.take(i));
        let v1 = values_of(log, offs.take(i + 1))->Ok_0;
        let v0 = values_of(log, offs.take(i))->Ok_0;
        let vs = values_of(log, offs)->Ok_0;
        assert(vs.take(v1.len() as int) == v1);
        assert(v1.take(v0.len() as int) =~= v0);
        assert(vs.take(v0.len() as int) =~= v0);
    }
}

/// Once projecting a prefix of the frames fails, projecting all of them fails alike.
proof fn lemma_values_of_err(log: Seq<u8>, offs: Seq<int>, i: int, e: Error)
    requires
        0 <= i <= offs.len(),
        values_of(log, offs.take(i)) == Err::<Seq<Seq<u8>>, Error>(e),
    ensures
        values_of(log, offs) == Err::<Seq<Seq<u8>>, Error>(e),
    decreases offs.len() - i,
{
    if i == offs.len() {
        assert(offs.take(i) == offs);
    } else {
        assert(offs.take(i + 1).drop_last() == offs.take(i));
        lemma_values_of_err(log, offs, i + 1, e);
    }
}

impl SqliteSsbDb {
    /// Appends the raw messages to the log, then brings the index up to date. The
    /// authoritative author of each message is the one its envelope names, so
    /// `_feed_id` is not consulted. If the log cannot take the batch
    /// (`OffsetAppendError`) nothing changes; if the index cannot take the new
    /// entries (`SqliteAppendError`) the log holds them and a later
    /// `update_indexes_from_offset_file` indexes them.
    pub fn append_batch(&mut self, _feed_id: &str, messages: &[Vec<u8>]) -> (r: Result<(), Error>)
        requires
            old(self).wf(),
        ensures
            final(self).wf(),
            old(self).rows().len() <= final(self).rows().len(),
            final(self).rows().take(old(self).rows().len() as int) == old(self).rows(),
            ({
                let ps = messages@.map_values(|m: Vec<u8>| m@);
                let fits = old(self).log().len() + batch_size(ps) <= crate::offset_log::MAX_LOG_LEN;
                &&& r == Err::<(), Error>(Error::OffsetAppendError) <==> !fits
                &&& !fits ==> final(self).log() == old(self).log() && final(self).rows() == old(
                    self,
                ).rows()
                &&& fits ==> final(self).log() == old(self).log() + batch_bytes(
                    old(self).log().len() as int,
                    ps,
                )
                &&& fits && log_tidy(old(self).log()) ==> log_tidy(final(self).log()) && entries_from(
                    final(self).log(),
                    0,
                ) == entries_from(old(self).log(), 0) + batch_entries(old(self).log().len() as int, ps)
                &&& r is Ok && log_tidy(old(self).log()) ==> final(self).rows() == rows_of(
                    entries_from(old(self).log(), 0),
                ) + rows_of(batch_entries(old(self).log().len() as int, ps))
                &&& fits && old(self).room() >= 2 * (rows_of(entries_from(final(self).log(), 0)).len()
                    - old(self).rows().len()) && final(self).log().len() <= i64::MAX ==> r is Ok
            }),
            r is Ok ==> final(self).is_current(),
            r matches Err(e) ==> e == Error::OffsetAppendError || e == Error::SqliteAppendError,
    {
        let ghost b1 = self.offset_log@;
        match self.offset_log.append_batch(messages) {
            Err(_) => {
                return Err(Error::OffsetAppendError);
            },
            Ok(_) => {},
        }
        proof {
            let b2 = self.offset_log@;
            assert(b2.subrange(0, b1.len() as int) =~= b1);
            lemma_entries_extend(b1, b2, 0);
            let k = self.indexed@ as int;
            assert(entries_from(b2, 0).take(k) =~= entries_from(b1, 0).take(k));
            if log_tidy(b1) {
                lemma_append_to_tidy(b1, messages@.map_values(|m: Vec<u8>| m@));
            }
        }
        let r = self.update_indexes_from_offset_file();
        proof {
            if r is Ok && log_tidy(b1) {
                lemma_rows_of_concat(
                    entries_from(b1, 0),
                    batch_entries(b1.len() as int, messages@.map_values(|m: Vec<u8>| m@)),
                );
            }
        }
        r
    }

    /// Drops the index and builds it again from the log; the log is not touched.
    pub fn rebuild_indexes(&mut self) -> (r: Result<(), Error>)
        requires
            old(self).wf(),
        ensures
            final(self).wf(),
            final(self).log() == old(self).log(),
            r is Ok ==> final(self).is_current(),
            r is Ok ==> old(self).rows().len() <= final(self).rows().len() && final(self).rows().take(
                old(self).rows().len() as int,
            ) == old(self).rows(),
            r matches Err(e) ==> e == Error::SqliteAppendError,
            crate::db::MAX_ID >= 2 * rows_of(entries_from(old(self).log(), 0)).len() && old(
                self,
            ).log().len() <= i64::MAX ==> r is Ok,
    {
        let ghost es = entries_from(self.offset_log@, 0);
        let ghost k = self.indexed@ as int;
        self.index = Index::new();
        proof {
            self.indexed = Ghost(0);
            assert(es.take(0) =~= Seq::<(int, Seq<u8>)>::empty());
        }
        let r = self.update_indexes_from_offset_file();
        proof {
            if r is Ok {
                assert(es.take(es.len() as int) == es);
                lemma_rows_of_prefix(es, k, es.len() as int);
            }
        }
        r
    }
}

/// Indexing never lowers the high-water mark: where the rows before an operation
/// come first among the rows after it, the last offset after is at least the last
/// offset before.
pub proof fn lemma_high_water_monotone(before: &SqliteSsbDb, after: &SqliteSsbDb)
    requires
        before.wf(),
        after.wf(),
        before.rows().len() <= after.rows().len(),
        after.rows().take(before.rows().len() as int) == before.rows(),
    ensures
        before.rows().len() > 0 ==> after.rows().len() > 0 && before.rows().last().0
            <= after.rows().last().0,
{
    if before.rows().len() > 0 {
        after.lemma_rows_ascending();
        let n = before.rows().len() as int;
        assert(before.rows().last() == after.rows()[n - 1]);
        if n < after.rows().len() {
            assert(after.rows()[n - 1].0 < after.rows()[after.rows().len() - 1].0);
        }
    }
}

/// Once the index is up to date, every entry of the log whose payload holds an
/// envelope has exactly one row, and it carries the entry's offset.
pub proof fn lemma_index_complete(db: &SqliteSsbDb)
    requires
        db.wf(),
        db.is_current(),
    ensures
        forall|i: int|
            0 <= i < entries_from(db.log(), 0).len() && #[trigger] envelope_of(
                entries_from(db.log(), 0)[i].1,
            ) is Some ==> exists|j: int|
                0 <= j < db.rows().len() && db.rows()[j].0 == entries_from(db.log(), 0)[i].0,
        forall|j1: int, j2: int|
            0 <= j1 < db.rows().len() && 0 <= j2 < db.rows().len() && #[trigger] db.rows()[j1].0
                == #[trigger] db.rows()[j2].0 ==> j1 == j2,
{
    let es = entries_from(db.log(), 0);
    lemma_rows_cover(es);
    db.lemma_rows_ascending();
    assert forall|j1: int, j2: int|
        0 <= j1 < db.rows().len() && 0 <= j2 < db.rows().len() && #[trigger] db.rows()[j1].0
            == #[trigger] db.rows()[j2].0 implies j1 == j2 by {
        if j1 < j2 {
            assert(db.rows()[j1].0 < db.rows()[j2].0);
        } else if j2 < j1 {
            assert(db.rows()[j2].0 < db.rows()[j1].0);
        }
    }
}

/// Each entry whose payload holds an envelope yields a row with its offset.
proof fn lemma_rows_cover(es: Seq<(int, Seq<u8>)>)
    ensures
        forall|i: int|
            0 <= i < es.len() && #[trigger] envelope_of(es[i].1) is Some ==> exists|j: int|
                0 <= j < rows_of(es).len() && rows_of(es)[j].0 == es[i].0,
    decreases es.len(),
{
    if es.len() > 0 {
        let prev = es.drop_last();
        lemma_rows_cover(prev);
        assert forall|i: int| 0 <= i < es.len() && #[trigger] envelope_of(es[i].1) is Some implies exists|
            j: int,
        | 0 <= j < rows_of(es).len() && rows_of(es)[j].0 == es[i].0 by {
            if i < es.len() - 1 {
                assert(es[i] == prev[i]);
                assert(envelope_of(prev[i].1) is Some);
                let j = choose|j: int| 0 <= j < rows_of(prev).len() && rows_of(prev)[j].0 == prev[i].0;
                assert(rows_of(es)[j] == rows_of(prev)[j]);
            } else {
                assert(es[i] == es.last());
                assert(rows_of(es).last().0 == es[i].0);
            }
        }
    }
}

/// The index is a function of the log: two up-to-date stores over the same log
/// hold the same rows, so rebuilding an up-to-date index, or updating it once more,
/// changes no query result.
pub proof fn lemma_index_determined_by_log(a: &SqliteSsbDb, b: &SqliteSsbDb)
    requires
        a.is_current(),
        b.is_current(),
        a.log() == b.log(),
    ensures
        a.rows() == b.rows(),
{
}

/// An entry whose payload holds no envelope, such as a zeroed tombstone, adds no
/// row: indexing `before`, the tombstone, then `after` yields the rows of `before`
/// then those of `after`.
pub proof fn lemma_tombstone_adds_no_row(
    before: Seq<(int, Seq<u8>)>,
    tombstone: (int, Seq<u8>),
    after: Seq<(int, Seq<u8>)>,
)
    requires
        envelope_of(tombstone.1) is None,
    ensures
        rows_of(before.push(tombstone) + after) == rows_of(before) + rows_of(after),
{
    lemma_rows_of_concat(before.push(tombstone), after);
    assert(before.push(tombstone).drop_last() == before);
    assert(before.push(tombstone).last() == tombstone);
}

/// Where indexing resumes: the position among the log's entries of the entry at
/// the high-water mark (or 0 when the index is empty), with the read from the mark
/// being the entries from that position on.
proof fn lemma_resume_point(b: Seq<u8>, k: nat, rows: Seq<Row>, latest: Option<u64>) -> (base: int)
    requires
        k <= entries_from(b, 0).len(),
        rows == rows_of(entries_from(b, 0).take(k as int)),
        latest is None <==> rows.len() == 0,
        latest matches Some(h) ==> (exists|i: int| 0 <= i < rows.len() && #[trigger] rows[i].0 == h)
            && forall|i: int| 0 <= i < rows.len() ==> #[trigger] rows[i].0 <= h,
    ensures
        0 <= base <= entries_from(b, 0).len(),
        entries_from(b, match latest { Some(h) => h as int, None => 0 }) == entries_from(b, 0).skip(base),
        latest is None ==> base == 0 && rows == rows_of(entries_from(b, 0).take(0)),
        latest is Some ==> base < entries_from(b, 0).len() && rows == rows_of(entries_from(b, 0).take(base + 1))
            && entries_from(b, 0)[base].0 == rows.last().0,
{
    let es = entries_from(b, 0);
    let pre = es.take(k as int);
    lemma_rows_origin(pre);
    lemma_entries_ascending(b, 0);
    lemma_rows_of_ascending(pre);
    if let Some(h) = latest {
        let w = choose|w: int| 0 <= w < rows.len() && #[trigger] rows[w].0 == h;
        let n = rows.len() - 1;
        if w < n {
            assert(rows[w].0 < rows[n].0);
        }
        assert(rows[n] == rows.last());
    }
    match latest {
        None => {
            assert(es.skip(0) == es);
            assert(es.take(0) =~= Seq::<(int, Seq<u8>)>::empty());
            assert(pre.len() == 0 || rows_of(pre).len() == 0);
            0
        },
        Some(h) => {
            let p = choose|p: int|
                0 <= p < pre.len() && pre[p].0 == rows_of(pre).last().0 && rows_of(pre) == rows_of(
                    pre.take(p + 1),
                );
            assert(pre.take(p + 1) == es.take(p + 1));
            assert(pre[p] == es[p]);
            lemma_entries_suffix(b, 0, p);
            p
        },
    }
}

} // verus!
