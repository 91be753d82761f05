//! The merge of several log files into one stream, oldest record first.
//!
//! The cursors stand in a row, in the order of their files. Each round
//! serves the cursor whose pending record is oldest, the first of them in
//! the row where several are equally old: its record is emitted and the
//! cursor moves on. It stays at its place in the row while it has a record
//! pending that lies in the window, and leaves the row when it has none.

use crate::args::Args;
use crate::log_seek::{
    lemma_read_at_bounds, opened, read_at_spec, Cursor, Log, LogReader, Record, Seekable,
};
use crate::order::comes_before;
use crate::timestamp::Timestamp;
use vstd::prelude::*;

verus! {

/// The cursors of a merge, in the order of their files.
pub struct MergeHeap {
    pub cursors: Vec<Seekable>,
}

/// The views of a row of cursors.
pub open spec fn cursor_views(s: Seq<Seekable>) -> Seq<Cursor> {
    s.map_values(|c: Seekable| c@)
}

/// The views of a row of readers.
pub open spec fn reader_views(s: Seq<LogReader>) -> Seq<Log> {
    s.map_values(|r: LogReader| r@)
}

/// The texts of a row of records.
pub open spec fn texts(s: Seq<Record>) -> Seq<Seq<char>> {
    s.map_values(|r: Record| r.text)
}

/// The views of a row of lines.
pub open spec fn lines_of(s: Seq<String>) -> Seq<Seq<char>> {
    s.map_values(|line: String| line@)
}

impl View for MergeHeap {
    type V = Seq<Cursor>;

    open spec fn view(&self) -> Seq<Cursor> {
        cursor_views(self.cursors@)
    }
}

/// Whether the cursor `c` takes part in a merge over the window from
/// `start` to `end`: the last record of its file does not lie before
/// `start`, and it has a record pending that does not lie behind `end`.
pub open spec fn in_window(c: Cursor, start: Option<Timestamp>, end: Option<Timestamp>) -> bool {
    &&& start matches Some(s) ==> c.last.sort@ >= s@
    &&& c.pending is Some
    &&& end matches Some(e) ==> c.pending.unwrap().sort@ <= e@
}

/// The place of the cursor that is served next: the first in the row that
/// no other comes before.
pub open spec fn best(cursors: Seq<Cursor>) -> int
    decreases cursors.len(),
{
    if cursors.len() <= 1 {
        0
    } else {
        let b = best(cursors.drop_last());
        if comes_before(cursors.last(), cursors[b]) {
            cursors.len() - 1
        } else {
            b
        }
    }
}

/// The cursor `c` after it has handed out its pending record.
pub open spec fn advanced(c: Cursor) -> Cursor {
    match c.pending {
        Some(r) => Cursor { log: c.log, pending: read_at_spec(c.log, r.pos), last: c.last },
        None => c,
    }
}

/// The row after the cursor at `i` has handed out its record: the cursor
/// has moved on and stays at its place where it still takes part in the
/// merge; else it has left the row.
pub open spec fn after_emit(
    cursors: Seq<Cursor>,
    i: int,
    start: Option<Timestamp>,
    end: Option<Timestamp>,
) -> Seq<Cursor> {
    let c = advanced(cursors[i]);
    if in_window(c, start, end) {
        cursors.update(i, c)
    } else {
        cursors.remove(i)
    }
}

/// The next record that the row emits, with the row behind it: cursors
/// that are served with no record left leave the row, until one is served
/// that has a record. `None` where the row runs empty first.
pub open spec fn next_emission(
    cursors: Seq<Cursor>,
    start: Option<Timestamp>,
    end: Option<Timestamp>,
) -> Option<(Record, Seq<Cursor>)>
    decreases cursors.len(),
{
    if cursors.len() == 0 {
        None
    } else {
        let i = best(cursors);
        match cursors[i].pending {
            None => {
                proof {
                    lemma_best_bounds(cursors);
                }
                next_emission(cursors.remove(i), start, end)
            },
            Some(r) => Some((r, after_emit(cursors, i, start, end))),
        }
    }
}

/// What is left to read for a cursor: 1 where it has no record left, else 2
/// and the bytes behind its pending record.
pub open spec fn weight(c: Cursor) -> nat {
    match c.pending {
        None => 1,
        Some(r) => if r.pos < c.log.bytes.len() {
            (2 + c.log.bytes.len() - r.pos) as nat
        } else {
            2
        },
    }
}

/// What is left to read for a row of cursors.
pub open spec fn total_weight(cursors: Seq<Cursor>) -> nat
    decreases cursors.len(),
{
    if cursors.len() == 0 {
        0
    } else {
        total_weight(cursors.drop_last()) + weight(cursors.last())
    }
}

/// The records that the row emits until it is empty.
pub open spec fn merged(
    cursors: Seq<Cursor>,
    start: Option<Timestamp>,
    end: Option<Timestamp>,
) -> Seq<Record>
    decreases total_weight(cursors),
    via merged_decreases
{
    match next_emission(cursors, start, end) {
        None => Seq::empty(),
        Some((r, rest)) => seq![r] + merged(rest, start, end),
    }
}

#[via_fn]
proof fn merged_decreases(cursors: Seq<Cursor>, start: Option<Timestamp>, end: Option<Timestamp>) {
    lemma_emission_weight(cursors, start, end);
}

/// The cursors that a merge over `logs` starts with: one for each file that
/// can be opened at `start` and whose cursor takes part in the merge, in the
/// order of the files.
pub open spec fn heap_of(logs: Seq<Log>, start: Option<Timestamp>, end: Option<Timestamp>) -> Seq<
    Cursor,
>
    decreases logs.len(),
{
    if logs.len() == 0 {
        Seq::empty()
    } else {
        let rest = heap_of(logs.drop_last(), start, end);
        match opened(logs.last(), start) {
            Some(c) => if in_window(c, start, end) {
                rest.push(c)
            } else {
                rest
            },
            None => rest,
        }
    }
}

/// The places in `logs` of the files that cannot be opened at `start`.
pub open spec fn not_found(logs: Seq<Log>, start: Option<Timestamp>) -> Seq<usize>
    decreases logs.len(),
{
    if logs.len() == 0 {
        Seq::empty()
    } else {
        let rest = not_found(logs.drop_last(), start);
        match opened(logs.last(), start) {
            Some(_) => rest,
            None => rest.push((logs.len() - 1) as usize),
        }
    }
}

/// The cursor that is served next stands in the row.
pub proof fn lemma_best_bounds(cursors: Seq<Cursor>)
    requires
        cursors.len() > 0,
    ensures
        0 <= best(cursors) < cursors.len(),
    decreases cursors.len(),
{
    if cursors.len() > 1 {
        lemma_best_bounds(cursors.drop_last());
    }
}

/// No cursor in the row comes before the one that is served next, and that
/// one comes before each that stands before it in the row.
pub proof fn lemma_best_is_first(cursors: Seq<Cursor>, j: int)
    requires
        0 <= j < cursors.len(),
    ensures
        !comes_before(cursors[j], cursors[best(cursors)]),
        j < best(cursors) ==> comes_before(cursors[best(cursors)], cursors[j]),
    decreases cursors.len(),
{
    if cursors.len() > 1 {
        let front = cursors.drop_last();
        lemma_best_bounds(front);
        if j < cursors.len() - 1 {
            lemma_best_is_first(front, j);
        }
        lemma_best_is_first(front, best(front));
    }
}

/// Where the cursor that is served next has no record left, none has, and
/// the row emits nothing more.
pub proof fn lemma_all_exhausted(
    cursors: Seq<Cursor>,
    start: Option<Timestamp>,
    end: Option<Timestamp>,
)
    requires
        cursors.len() == 0 || cursors[best(cursors)].pending is None,
    ensures
        forall|j: int| 0 <= j < cursors.len() ==> (#[trigger] cursors[j]).pending is None,
        next_emission(cursors, start, end) is None,
    decreases cursors.len(),
{
    if cursors.len() > 0 {
        let b = best(cursors);
        lemma_best_bounds(cursors);
        assert forall|j: int| 0 <= j < cursors.len() implies (#[trigger] cursors[j]).pending
            is None by {
            lemma_best_is_first(cursors, j);
        }
        let rest = cursors.remove(b);
        if rest.len() > 0 {
            lemma_best_bounds(rest);
            let next = best(rest);
            assert(rest[next] == cursors[if next < b {
                next
            } else {
                next + 1
            }]);
        }
        lemma_all_exhausted(rest, start, end);
    }
}

/// Taking a cursor out of the row takes its weight off the whole.
pub proof fn lemma_weight_remove(cursors: Seq<Cursor>, i: int)
    requires
        0 <= i < cursors.len(),
    ensures
        total_weight(cursors.remove(i)) + weight(cursors[i]) == total_weight(cursors),
    decreases cursors.len(),
{
    if i == cursors.len() - 1 {
        assert(cursors.remove(i) =~= cursors.drop_last());
    } else {
        lemma_weight_remove(cursors.drop_last(), i);
        assert(cursors.remove(i).drop_last() =~= cursors.drop_last().remove(i));
    }
}

/// Putting a cursor into the row adds its weight to the whole.
pub proof fn lemma_weight_insert(cursors: Seq<Cursor>, i: int, c: Cursor)
    requires
        0 <= i <= cursors.len(),
    ensures
        total_weight(cursors.insert(i, c)) == total_weight(cursors) + weight(c),
{
    lemma_weight_remove(cursors.insert(i, c), i);
    assert(cursors.insert(i, c).remove(i) =~= cursors);
}

/// A cursor that hands out a record has less left to read afterwards.
pub proof fn lemma_advance_weight(c: Cursor)
    requires
        c.pending is Some,
    ensures
        weight(advanced(c)) < weight(c),
{
    let r = c.pending.unwrap();
    if read_at_spec(c.log, r.pos) is Some {
        lemma_read_at_bounds(c.log, r.pos);
    }
}

/// A row that emits a record has less left to read afterwards.
pub proof fn lemma_emission_weight(
    cursors: Seq<Cursor>,
    start: Option<Timestamp>,
    end: Option<Timestamp>,
)
    ensures
        next_emission(cursors, start, end) matches Some((_, rest)) ==> total_weight(rest)
            < total_weight(cursors),
    decreases cursors.len(),
{
    if cursors.len() > 0 {
        let i = best(cursors);
        lemma_best_bounds(cursors);
        lemma_weight_remove(cursors, i);
        match cursors[i].pending {
            None => {
                lemma_emission_weight(cursors.remove(i), start, end);
            },
            Some(r) => {
                let c = advanced(cursors[i]);
                lemma_advance_weight(cursors[i]);
                if in_window(c, start, end) {
                    assert(cursors.update(i, c) =~= cursors.remove(i).insert(i, c));
                    lemma_weight_insert(cursors.remove(i), i, c);
                }
            },
        }
    }
}

impl MergeHeap {
    /// An empty row.
    pub fn new() -> (heap: MergeHeap)
        ensures
            heap@ == Seq::<Cursor>::empty(),
    {
        let heap = MergeHeap { cursors: Vec::new() };
        assert(heap@ =~= Seq::<Cursor>::empty());
        heap
    }

    /// The number of cursors in the row.
    pub fn len(&self) -> (n: usize)
        ensures
            n == self@.len(),
    {
        self.cursors.len()
    }

    /// Whether no cursor is left.
    pub fn is_empty(&self) -> (r: bool)
        ensures
            r == (self@.len() == 0),
    {
        self.cursors.len() == 0
    }

    /// Puts `cursor` at the end of the row.
    pub fn push(&mut self, cursor: Seekable)
        ensures
            final(self)@ == old(self)@.push(cursor@),
    {
        self.cursors.push(cursor);
        assert(self@ =~= old(self)@.push(cursor@));
    }

    /// The place of the cursor that is served next.
    pub fn peek_index(&self) -> (i: usize)
        requires
            self@.len() > 0,
        ensures
            i == best(self@),
            i < self@.len(),
    {
        let n = self.cursors.len();
        let mut b: usize = 0;
        let mut j: usize = 1;
        assert(best(self@.subrange(0, 1)) == 0);
        while j < n
            invariant
                1 <= j <= n,
                n == self.cursors@.len(),
                n == self@.len(),
                b < j,
                b == best(self@.subrange(0, j as int)),
            decreases n - j,
        {
            proof {
                let next = self@.subrange(0, j + 1);
                assert(next.drop_last() =~= self@.subrange(0, j as int));
                assert(next.last() == self.cursors@[j as int]@);
                assert(next[b as int] == self.cursors@[b as int]@);
            }
            if self.cursors[j].precedes(&self.cursors[b]) {
                b = j;
            }
            j += 1;
        }
        assert(self@.subrange(0, n as int) =~= self@);
        b
    }

    /// Takes the cursor that is served next out of the row.
    pub fn pop(&mut self) -> (r: Option<Seekable>)
        ensures
            match r {
                Some(cursor) => old(self)@.len() > 0 && cursor@ == old(self)@[best(old(self)@)]
                    && final(self)@ == old(self)@.remove(best(old(self)@)),
                None => old(self)@.len() == 0 && final(self)@ == old(self)@,
            },
    {
        if self.cursors.len() == 0 {
            return None;
        }
        let i = self.peek_index();
        let cursor = self.cursors.remove(i);
        assert(self@ =~= old(self)@.remove(i as int));
        Some(cursor)
    }

    /// Takes the cursor that emits the next record out of the row and
    /// returns it with the place it had. Where the cursor that is served
    /// next has no record left, none has: the row is emptied, and `None`
    /// returned.
    pub fn take_next(&mut self) -> (r: Option<(usize, Seekable)>)
        ensures
            match r {
                Some((i, cursor)) => old(self)@.len() > 0 && i == best(old(self)@) && cursor@
                    == old(self)@[i as int] && cursor.next is Some && final(self)@ == old(
                    self,
                )@.remove(i as int),
                None => (old(self)@.len() == 0 || old(self)@[best(old(self)@)].pending is None)
                    && final(self)@.len() == 0,
            },
    {
        if self.cursors.len() == 0 {
            return None;
        }
        let i = self.peek_index();
        if self.cursors[i].next.is_none() {
            self.cursors.clear();
            return None;
        }
        let cursor = self.cursors.remove(i);
        assert(self@ =~= old(self)@.remove(i as int));
        Some((i, cursor))
    }

    /// Puts `cursor` back at the place `i` of the row where it takes part
    /// in the merge over the window of `cli`, and says whether it does.
    pub fn put_back(&mut self, i: usize, cursor: Seekable, cli: &Args) -> (kept: bool)
        requires
            i <= old(self)@.len(),
        ensures
            kept == in_window(cursor@, cli.start, cli.end),
            final(self)@ == if kept {
                old(self)@.insert(i as int, cursor@)
            } else {
                old(self)@
            },
    {
        match is_valid(cursor, cli) {
            Some(cursor) => {
                self.cursors.insert(i, cursor);
                assert(self@ =~= old(self)@.insert(i as int, cursor@));
                true
            },
            None => false,
        }
    }
}

/// Hands back `seekable` where it takes part in a merge over the window of
/// `cli`: where the last record of its file does not lie before the start,
/// and it has a record pending that does not lie behind the end.
pub fn is_valid(seekable: Seekable, cli: &Args) -> (r: Option<Seekable>)
    ensures
        match r {
            Some(same) => same == seekable && in_window(seekable@, cli.start, cli.end),
            None => !in_window(seekable@, cli.start, cli.end),
        },
{
    if let Some(start) = &cli.start {
        if seekable.last.sort.lt(start) {
            return None;
        }
    }
    let pending = match &seekable.next {
        Some(next) => match &cli.end {
            Some(end) => !next.sort.gt(end),
            None => true,
        },
        None => false,
    };
    if pending {
        Some(seekable)
    } else {
        None
    }
}

/// Opens a cursor over each of `readers` at the start of the window of
/// `cli` and puts those that take part in the merge into a row, in the
/// order of the files. Also returns the places in `readers` of the files
/// over which no cursor could be opened.
pub fn get_heap_of_files(readers: Vec<LogReader>, cli: &Args) -> (r: (MergeHeap, Vec<usize>))
    ensures
        r.0@ == heap_of(reader_views(readers@), cli.start, cli.end),
        r.1@ == not_found(reader_views(readers@), cli.start),
{
    let ghost logs = reader_views(readers@);
    let mut readers = readers;
    let mut heap = MergeHeap::new();
    let mut skipped: Vec<usize> = Vec::new();
    let mut done: usize = 0;
    let total = readers.len();
    assert(logs.len() == total);
    assert(logs.subrange(0, 0) =~= Seq::<Log>::empty());
    assert(logs.subrange(0, logs.len() as int) =~= logs);
    while readers.len() > 0
        invariant
            logs.len() <= usize::MAX,
            done + readers@.len() == logs.len(),
            reader_views(readers@) == logs.subrange(done as int, logs.len() as int),
            heap@ == heap_of(logs.subrange(0, done as int), cli.start, cli.end),
            skipped@ == not_found(logs.subrange(0, done as int), cli.start),
        decreases readers@.len(),
    {
        let ghost before = readers@;
        let reader = readers.remove(0);
        proof {
            let next = logs.subrange(0, done + 1);
            assert(next.drop_last() =~= logs.subrange(0, done as int));
            assert(reader_views(before)[0] == reader@);
            assert(next.last() == reader@);
            assert(readers@ == before.remove(0));
            assert forall|k: int| 0 <= k < readers@.len() implies #[trigger] reader_views(
                readers@,
            )[k] == logs[done + 1 + k] by {
                assert(readers@[k] == before[k + 1]);
                assert(reader_views(before)[k + 1] == before[k + 1]@);
            }
            assert(reader_views(readers@) =~= logs.subrange(done + 1, logs.len() as int));
        }
        let len = reader.len();
        match Seekable::new(reader, len, cli.start) {
            Some(seekable) => {
                if let Some(seekable) = is_valid(seekable, cli) {
                    heap.push(seekable);
                }
            },
            None => {
                skipped.push(done);
            },
        }
        done += 1;
    }
    assert(logs.subrange(0, done as int) =~= logs);
    (heap, skipped)
}

/// Emits the next line of the merge: serves cursors until one hands out a
/// record, gives the text of that record and moves its cursor on. `None`
/// when no cursor has a record left; the row is empty then.
pub fn next_line(heap: &mut MergeHeap, cli: &Args) -> (r: Option<String>)
    ensures
        match r {
            Some(line) => next_emission(old(heap)@, cli.start, cli.end) matches Some((rec, rest))
                && rec.text == line@ && final(heap)@ == rest,
            None => next_emission(old(heap)@, cli.start, cli.end) is None && final(heap)@.len()
                == 0,
        },
{
    let ghost row = heap@;
    let (i, mut cursor) = match heap.take_next() {
        Some(taken) => taken,
        None => {
            proof {
                lemma_all_exhausted(row, cli.start, cli.end);
            }
            return None;
        },
    };
    proof {
        lemma_best_bounds(row);
    }
    let line = match &cursor.next {
        Some(item) => item.value.clone(),
        None => return None,
    };
    let ghost served_cursor = cursor@;
    cursor.advance();
    assert(cursor@ == advanced(served_cursor));
    let kept = heap.put_back(i, cursor, cli);
    assert(row.remove(i as int).insert(i as int, cursor@) =~= row.update(i as int, cursor@));
    Some(line)
}

/// Runs the merge to its end and returns the lines in the order in which
/// they are emitted.
pub fn merge(heap: MergeHeap, cli: &Args) -> (out: Vec<String>)
    ensures
        lines_of(out@) == texts(merged(heap@, cli.start, cli.end)),
{
    let ghost all = merged(heap@, cli.start, cli.end);
    let mut heap = heap;
    let mut out: Vec<String> = Vec::new();
    assert(lines_of(out@) =~= Seq::<Seq<char>>::empty());
    loop
        invariant
            texts(all) == lines_of(out@) + texts(merged(heap@, cli.start, cli.end)),
        ensures
            texts(all) == lines_of(out@),
        decreases total_weight(heap@),
    {
        let ghost row = heap@;
        let ghost emitted = out@;
        match next_line(&mut heap, cli) {
            Some(line) => {
                out.push(line);
                proof {
                    lemma_emission_weight(row, cli.start, cli.end);
                    let (rec, rest) = next_emission(row, cli.start, cli.end).unwrap();
                    assert(merged(row, cli.start, cli.end) == seq![rec] + merged(
                        rest,
                        cli.start,
                        cli.end,
                    ));
                    assert(texts(seq![rec] + merged(rest, cli.start, cli.end)) =~= seq![rec.text]
                        + texts(merged(rest, cli.start, cli.end)));
                    assert(lines_of(out@) =~= lines_of(emitted).push(line@));
                    assert(texts(all) =~= lines_of(out@) + texts(merged(heap@, cli.start, cli.end)));
                }
            },
            None => {
                proof {
                    assert(merged(row, cli.start, cli.end) =~= Seq::<Record>::empty());
                    assert(texts(all) =~= lines_of(out@));
                }
                break ;
            },
        }
    }
    out
}

} // verus!
