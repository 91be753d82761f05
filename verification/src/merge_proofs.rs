//! What a merge emits: the records of its cursors up to the end of the
//! window, each cursor's in their own order, and oldest first where each
//! cursor's records are in order.

use crate::log_seek::{lemma_read_at_bounds, opened, read_at_spec, Cursor, Log, Record};
use crate::log_seek_proofs::{lemma_pending_is_read, ordered};
use crate::merge::{
    advanced, after_emit, best, heap_of, in_window, lemma_best_bounds, lemma_best_is_first,
    lemma_emission_weight, merged, next_emission, total_weight,
};
use crate::timestamp::Timestamp;
use vstd::prelude::*;

verus! {

/// The records that reads give one behind the other, from `pos` on, until
/// a read finds none.
pub open spec fn records_from(log: Log, pos: int) -> Seq<Record>
    decreases log.bytes.len() - pos,
    via records_from_decreases
{
    match read_at_spec(log, pos) {
        Some(r) => seq![r] + records_from(log, r.pos),
        None => Seq::empty(),
    }
}

#[via_fn]
proof fn records_from_decreases(log: Log, pos: int) {
    if read_at_spec(log, pos) is Some {
        lemma_read_at_bounds(log, pos);
    }
}

/// The records that a cursor has yet to hand out: the pending one, and
/// those read on behind it.
pub open spec fn remaining(c: Cursor) -> Seq<Record> {
    match c.pending {
        Some(r) => seq![r] + records_from(c.log, r.pos),
        None => Seq::empty(),
    }
}

/// No record in `s` is older than one before it.
pub open spec fn sorted(s: Seq<Record>) -> bool {
    forall|i: int, j: int| 0 <= i <= j < s.len() ==> s[i].sort@ <= s[j].sort@
}

/// No record in `s` is older than `t`.
pub open spec fn none_before(s: Seq<Record>, t: int) -> bool {
    forall|k: int| 0 <= k < s.len() ==> (#[trigger] s[k]).sort@ >= t
}

/// What each cursor has yet to hand out is in order.
pub open spec fn all_sorted(cursors: Seq<Cursor>) -> bool {
    forall|i: int| 0 <= i < cursors.len() ==> sorted(remaining(#[trigger] cursors[i]))
}

/// No cursor has yet to hand out a record older than `t`.
pub open spec fn at_least(cursors: Seq<Cursor>, t: int) -> bool {
    forall|i: int| 0 <= i < cursors.len() ==> none_before(remaining(#[trigger] cursors[i]), t)
}

/// Each cursor of the row takes part in the merge over the window.
pub open spec fn all_in_window(
    cursors: Seq<Cursor>,
    start: Option<Timestamp>,
    end: Option<Timestamp>,
) -> bool {
    forall|i: int| 0 <= i < cursors.len() ==> in_window(#[trigger] cursors[i], start, end)
}

/// The records at the start of `s` up to the first that lies behind `end`.
pub open spec fn within(s: Seq<Record>, end: Option<Timestamp>) -> Seq<Record>
    decreases s.len(),
{
    if s.len() == 0 || (end matches Some(e) && s[0].sort@ > e@) {
        Seq::empty()
    } else {
        seq![s[0]] + within(s.drop_first(), end)
    }
}

/// What each cursor of a row hands out until it leaves the row: its records
/// up to the first that lies behind `end`.
pub open spec fn windowed(cursors: Seq<Cursor>, end: Option<Timestamp>) -> Seq<Seq<Record>> {
    cursors.map_values(|c: Cursor| within(remaining(c), end))
}

/// No record in `s` lies behind `end`.
pub open spec fn none_behind(s: Seq<Record>, end: Option<Timestamp>) -> bool {
    forall|k: int| 0 <= k < s.len() ==> (end matches Some(e) ==> (#[trigger] s[k]).sort@ <= e@)
}

/// Without an end of the window, every record is within it.
pub proof fn lemma_within_no_end(s: Seq<Record>)
    ensures
        within(s, None) == s,
    decreases s.len(),
{
    if s.len() > 0 {
        lemma_within_no_end(s.drop_first());
        assert(seq![s[0]] + s.drop_first() =~= s);
    }
}

/// `out` is made of the records of `parts`, those of each part in their
/// own order: its first record is the first of some part, and the rest of
/// it is so made of what is then left of the parts.
pub open spec fn interleaves(out: Seq<Record>, parts: Seq<Seq<Record>>) -> bool
    decreases out.len(),
{
    if out.len() == 0 {
        forall|i: int| 0 <= i < parts.len() ==> (#[trigger] parts[i]).len() == 0
    } else {
        exists|i: int|
            0 <= i < parts.len() && (#[trigger] parts[i]).len() > 0 && parts[i][0] == out[0]
                && interleaves(out.drop_first(), parts.update(i, parts[i].drop_first()))
    }
}

/// A cursor that has handed out its record has the rest left.
pub proof fn lemma_advanced_remaining(c: Cursor)
    requires
        c.pending is Some,
    ensures
        remaining(advanced(c)) == remaining(c).drop_first(),
        remaining(c).len() > 0,
        remaining(c)[0] == c.pending.unwrap(),
{
    let r = c.pending.unwrap();
    assert(remaining(c).drop_first() =~= records_from(c.log, r.pos));
    assert(remaining(advanced(c)) =~= records_from(c.log, r.pos));
}

/// The rest of a row of records in order is in order, and holds no record
/// older than the first.
pub proof fn lemma_sorted_rest(s: Seq<Record>)
    requires
        sorted(s),
        s.len() > 0,
    ensures
        sorted(s.drop_first()),
        none_before(s.drop_first(), s[0].sort@),
        none_before(s, s[0].sort@),
{
    let rest = s.drop_first();
    assert forall|i: int, j: int| 0 <= i <= j < rest.len() implies rest[i].sort@
        <= rest[j].sort@ by {
        assert(rest[i] == s[i + 1] && rest[j] == s[j + 1]);
    }
    assert forall|k: int| 0 <= k < rest.len() implies (#[trigger] rest[k]).sort@ >= s[0].sort@ by {
        assert(rest[k] == s[k + 1]);
    }
}

/// The record that a row emits is not older than a bound that holds of all
/// its cursors, and the bound holds of the row behind it.
pub proof fn lemma_emission_at_least(
    cursors: Seq<Cursor>,
    start: Option<Timestamp>,
    end: Option<Timestamp>,
    t: int,
)
    requires
        at_least(cursors, t),
        next_emission(cursors, start, end) is Some,
    ensures
        next_emission(cursors, start, end).unwrap().0.sort@ >= t,
        at_least(next_emission(cursors, start, end).unwrap().1, t),
    decreases cursors.len(),
{
    let b = best(cursors);
    lemma_best_bounds(cursors);
    let c = cursors[b];
    match c.pending {
        None => {
            let rest = cursors.remove(b);
            assert forall|i: int| 0 <= i < rest.len() implies none_before(
                remaining(#[trigger] rest[i]),
                t,
            ) by {
                if i < b {
                    assert(rest[i] == cursors[i]);
                } else {
                    assert(rest[i] == cursors[i + 1]);
                }
            }
            lemma_emission_at_least(rest, start, end, t);
        },
        Some(r) => {
            lemma_advanced_remaining(c);
            let moved = advanced(c);
            let rest = after_emit(cursors, b, start, end);
            assert(none_before(remaining(c), t));
            assert(remaining(c)[0].sort@ >= t);
            assert(none_before(remaining(moved), t)) by {
                assert forall|k: int| 0 <= k < remaining(moved).len() implies (
                #[trigger] remaining(moved)[k]).sort@ >= t by {
                    assert(remaining(moved)[k] == remaining(c)[k + 1]);
                }
            }
            assert forall|i: int| 0 <= i < rest.len() implies none_before(
                remaining(#[trigger] rest[i]),
                t,
            ) by {
                if in_window(moved, start, end) {
                    if i != b {
                        assert(rest[i] == cursors[i]);
                    }
                } else {
                    if i < b {
                        assert(rest[i] == cursors[i]);
                    } else {
                        assert(rest[i] == cursors[i + 1]);
                    }
                }
            }
        },
    }
}

/// Where what each cursor has yet to hand out is in order, it still is
/// behind an emission, and no cursor has a record left that is older than
/// the one emitted.
pub proof fn lemma_emission_sorted(
    cursors: Seq<Cursor>,
    start: Option<Timestamp>,
    end: Option<Timestamp>,
)
    requires
        all_sorted(cursors),
        next_emission(cursors, start, end) is Some,
    ensures
        all_sorted(next_emission(cursors, start, end).unwrap().1),
        at_least(
            next_emission(cursors, start, end).unwrap().1,
            next_emission(cursors, start, end).unwrap().0.sort@,
        ),
    decreases cursors.len(),
{
    let b = best(cursors);
    lemma_best_bounds(cursors);
    let c = cursors[b];
    match c.pending {
        None => {
            let rest = cursors.remove(b);
            assert forall|i: int| 0 <= i < rest.len() implies sorted(
                remaining(#[trigger] rest[i]),
            ) by {
                if i < b {
                    assert(rest[i] == cursors[i]);
                } else {
                    assert(rest[i] == cursors[i + 1]);
                }
            }
            lemma_emission_sorted(rest, start, end);
        },
        Some(r) => {
            lemma_advanced_remaining(c);
            let moved = advanced(c);
            let rest = after_emit(cursors, b, start, end);
            assert(sorted(remaining(c)));
            lemma_sorted_rest(remaining(c));
            assert forall|j: int| 0 <= j < cursors.len() implies none_before(
                remaining(#[trigger] cursors[j]),
                r.sort@,
            ) by {
                lemma_best_is_first(cursors, j);
                let other = cursors[j];
                assert(sorted(remaining(other)));
                if other.pending is Some {
                    lemma_advanced_remaining(other);
                    lemma_sorted_rest(remaining(other));
                }
            }
            assert forall|i: int| 0 <= i < rest.len() implies sorted(
                remaining(#[trigger] rest[i]),
            ) && none_before(remaining(rest[i]), r.sort@) by {
                if in_window(moved, start, end) {
                    if i != b {
                        assert(rest[i] == cursors[i]);
                    }
                } else {
                    if i < b {
                        assert(rest[i] == cursors[i]);
                    } else {
                        assert(rest[i] == cursors[i + 1]);
                    }
                }
            }
        },
    }
}

/// A merge emits no record older than a bound that holds of all its
/// cursors.
pub proof fn lemma_merged_at_least(
    cursors: Seq<Cursor>,
    start: Option<Timestamp>,
    end: Option<Timestamp>,
    t: int,
)
    requires
        at_least(cursors, t),
    ensures
        none_before(merged(cursors, start, end), t),
    decreases total_weight(cursors),
{
    match next_emission(cursors, start, end) {
        None => {},
        Some((r, rest)) => {
            lemma_emission_weight(cursors, start, end);
            lemma_emission_at_least(cursors, start, end, t);
            lemma_merged_at_least(rest, start, end, t);
            let tail = merged(rest, start, end);
            let out = merged(cursors, start, end);
            assert forall|k: int| 0 <= k < out.len() implies (#[trigger] out[k]).sort@ >= t by {
                if k > 0 {
                    assert(out[k] == tail[k - 1]);
                }
            }
        },
    }
}

/// A merge of cursors whose records are each in order emits its records
/// oldest first.
pub proof fn merge_is_sorted(
    cursors: Seq<Cursor>,
    start: Option<Timestamp>,
    end: Option<Timestamp>,
)
    requires
        all_sorted(cursors),
    ensures
        sorted(merged(cursors, start, end)),
    decreases total_weight(cursors),
{
    match next_emission(cursors, start, end) {
        None => {},
        Some((r, rest)) => {
            lemma_emission_weight(cursors, start, end);
            lemma_emission_sorted(cursors, start, end);
            merge_is_sorted(rest, start, end);
            lemma_merged_at_least(rest, start, end, r.sort@);
            let tail = merged(rest, start, end);
            let out = merged(cursors, start, end);
            assert forall|i: int, j: int| 0 <= i <= j < out.len() implies out[i].sort@
                <= out[j].sort@ by {
                if i > 0 {
                    assert(out[i] == tail[i - 1] && out[j] == tail[j - 1]);
                } else if j > 0 {
                    assert(out[j] == tail[j - 1]);
                }
            }
        },
    }
}

/// Putting an empty part into the row of parts changes nothing.
pub proof fn lemma_interleaves_insert(out: Seq<Record>, parts: Seq<Seq<Record>>, j: int)
    requires
        0 <= j < parts.len(),
        parts[j].len() == 0,
        interleaves(out, parts.remove(j)),
    ensures
        interleaves(out, parts),
    decreases out.len(),
{
    let less = parts.remove(j);
    if out.len() == 0 {
        assert forall|i: int| 0 <= i < parts.len() implies (#[trigger] parts[i]).len() == 0 by {
            if i < j {
                assert(less[i] == parts[i]);
            } else if i > j {
                assert(less[i - 1] == parts[i]);
            }
        }
    } else {
        let i = choose|i: int|
            0 <= i < less.len() && (#[trigger] less[i]).len() > 0 && less[i][0] == out[0]
                && interleaves(out.drop_first(), less.update(i, less[i].drop_first()));
        let at = if i < j {
            i
        } else {
            i + 1
        };
        assert(parts[at] == less[i]);
        let next = parts.update(at, parts[at].drop_first());
        assert(next.remove(j) =~= less.update(i, less[i].drop_first()));
        lemma_interleaves_insert(out.drop_first(), next, j);
    }
}

/// A cursor that has moved on and no longer takes part in the merge hands
/// out nothing more within the window, where it did take part before.
pub proof fn lemma_left_the_row(c: Cursor, start: Option<Timestamp>, end: Option<Timestamp>)
    requires
        in_window(c, start, end),
    ensures
        within(remaining(c), end).len() > 0,
        within(remaining(c), end)[0] == c.pending.unwrap(),
        within(remaining(c), end).drop_first() == within(remaining(advanced(c)), end),
        !in_window(advanced(c), start, end) ==> within(remaining(advanced(c)), end).len() == 0,
{
    lemma_advanced_remaining(c);
    let moved = advanced(c);
    assert(within(remaining(c), end).drop_first() =~= within(remaining(c).drop_first(), end));
    if moved.pending is Some {
        lemma_advanced_remaining(moved);
    }
}

/// A merge of cursors that take part in it emits what the cursors have to
/// hand out up to the end of the window, the records of each cursor in
/// their own order.
pub proof fn merge_interleaves(
    cursors: Seq<Cursor>,
    start: Option<Timestamp>,
    end: Option<Timestamp>,
)
    requires
        all_in_window(cursors, start, end),
    ensures
        interleaves(merged(cursors, start, end), windowed(cursors, end)),
    decreases total_weight(cursors),
{
    let parts = windowed(cursors, end);
    let out = merged(cursors, start, end);
    if cursors.len() > 0 {
        let b = best(cursors);
        lemma_best_bounds(cursors);
        let c = cursors[b];
        assert(in_window(c, start, end));
        let rest = next_emission(cursors, start, end).unwrap().1;
        lemma_emission_weight(cursors, start, end);
        lemma_left_the_row(c, start, end);
        let moved = advanced(c);
        let next = parts.update(b, parts[b].drop_first());
        assert(out.drop_first() =~= merged(rest, start, end));
        assert(parts[b].len() > 0 && parts[b][0] == out[0]);
        if in_window(moved, start, end) {
            assert(rest == cursors.update(b, moved));
            assert forall|i: int| 0 <= i < rest.len() implies in_window(
                #[trigger] rest[i],
                start,
                end,
            ) by {
                if i != b {
                    assert(rest[i] == cursors[i]);
                }
            }
            merge_interleaves(rest, start, end);
            assert(windowed(rest, end) =~= next);
        } else {
            assert(rest == cursors.remove(b));
            assert forall|i: int| 0 <= i < rest.len() implies in_window(
                #[trigger] rest[i],
                start,
                end,
            ) by {
                if i < b {
                    assert(rest[i] == cursors[i]);
                } else {
                    assert(rest[i] == cursors[i + 1]);
                }
            }
            merge_interleaves(rest, start, end);
            assert(windowed(rest, end) =~= next.remove(b));
            lemma_interleaves_insert(out.drop_first(), next, b);
        }
    } else {
        assert(next_emission(cursors, start, end) is None);
    }
}

/// A merge of cursors that take part in it emits no record that lies behind
/// the end of the window.
pub proof fn merge_ends_at_the_window(
    cursors: Seq<Cursor>,
    start: Option<Timestamp>,
    end: Option<Timestamp>,
)
    requires
        all_in_window(cursors, start, end),
    ensures
        none_behind(merged(cursors, start, end), end),
    decreases total_weight(cursors),
{
    let out = merged(cursors, start, end);
    if cursors.len() > 0 {
        let b = best(cursors);
        lemma_best_bounds(cursors);
        let c = cursors[b];
        assert(in_window(c, start, end));
        let rest = next_emission(cursors, start, end).unwrap().1;
        lemma_emission_weight(cursors, start, end);
        let moved = advanced(c);
        assert forall|i: int| 0 <= i < rest.len() implies in_window(
            #[trigger] rest[i],
            start,
            end,
        ) by {
            if in_window(moved, start, end) {
                if i != b {
                    assert(rest[i] == cursors[i]);
                }
            } else {
                if i < b {
                    assert(rest[i] == cursors[i]);
                } else {
                    assert(rest[i] == cursors[i + 1]);
                }
            }
        }
        merge_ends_at_the_window(rest, start, end);
        let tail = merged(rest, start, end);
        assert forall|k: int| 0 <= k < out.len() implies (end matches Some(e) ==> (
        #[trigger] out[k]).sort@ <= e@) by {
            if k > 0 {
                assert(out[k] == tail[k - 1]);
            }
        }
    } else {
        assert(next_emission(cursors, start, end) is None);
    }
}

/// The records read on from `pos` in a file whose records are in order are
/// in order, and none is older than a record that ends at or before `pos`.
pub proof fn lemma_records_from_sorted(log: Log, pos: int, q: int)
    requires
        ordered(log),
        read_at_spec(log, q) is Some,
        read_at_spec(log, q).unwrap().pos <= pos,
    ensures
        sorted(records_from(log, pos)),
        none_before(records_from(log, pos), read_at_spec(log, q).unwrap().sort@),
    decreases log.bytes.len() - pos,
{
    match read_at_spec(log, pos) {
        None => {},
        Some(r) => {
            lemma_read_at_bounds(log, pos);
            lemma_records_from_sorted(log, r.pos, pos);
            lemma_records_from_sorted(log, r.pos, q);
            let tail = records_from(log, r.pos);
            let all = records_from(log, pos);
            let t = read_at_spec(log, q).unwrap().sort@;
            assert(r.sort@ >= t);
            assert forall|k: int| 0 <= k < all.len() implies (#[trigger] all[k]).sort@ >= t by {
                if k > 0 {
                    assert(all[k] == tail[k - 1]);
                }
            }
            assert forall|i: int, j: int| 0 <= i <= j < all.len() implies all[i].sort@
                <= all[j].sort@ by {
                if i > 0 {
                    assert(all[i] == tail[i - 1] && all[j] == tail[j - 1]);
                } else if j > 0 {
                    assert(all[j] == tail[j - 1]);
                }
            }
        },
    }
}

/// The cursor that is opened over a file whose records are in order has
/// its records in order.
pub proof fn lemma_opened_sorted(log: Log, start: Option<Timestamp>)
    requires
        ordered(log),
        opened(log, start) is Some,
    ensures
        sorted(remaining(opened(log, start).unwrap())),
{
    let c = opened(log, start).unwrap();
    let q = lemma_pending_is_read(log, start);
    let r = c.pending.unwrap();
    assert(read_at_spec(log, q) == Some(r));
    lemma_records_from_sorted(log, r.pos, q);
    let tail = records_from(log, r.pos);
    let all = remaining(c);
    assert forall|i: int, j: int| 0 <= i <= j < all.len() implies all[i].sort@
        <= all[j].sort@ by {
        if i > 0 {
            assert(all[i] == tail[i - 1] && all[j] == tail[j - 1]);
        } else if j > 0 {
            assert(all[j] == tail[j - 1]);
        }
    }
}

/// The cursors that a merge starts with lie in its window.
pub proof fn lemma_heap_in_window(
    logs: Seq<Log>,
    start: Option<Timestamp>,
    end: Option<Timestamp>,
)
    ensures
        all_in_window(heap_of(logs, start, end), start, end),
    decreases logs.len(),
{
    if logs.len() > 0 {
        lemma_heap_in_window(logs.drop_last(), start, end);
    }
}

/// The cursors that a merge over files with records in order starts with
/// have their records in order.
pub proof fn lemma_heap_sorted(logs: Seq<Log>, start: Option<Timestamp>, end: Option<Timestamp>)
    requires
        forall|i: int| 0 <= i < logs.len() ==> ordered(#[trigger] logs[i]),
    ensures
        all_sorted(heap_of(logs, start, end)),
    decreases logs.len(),
{
    if logs.len() > 0 {
        let front = logs.drop_last();
        assert forall|i: int| 0 <= i < front.len() implies ordered(#[trigger] front[i]) by {
            assert(front[i] == logs[i]);
        }
        lemma_heap_sorted(front, start, end);
        if opened(logs.last(), start) is Some {
            lemma_opened_sorted(logs.last(), start);
        }
    }
}

/// A merge over files whose records are in order emits its records oldest
/// first and none behind the end of the window, and emits what its cursors
/// have to hand out up to that end, the records of each file in their own
/// order.
pub proof fn merge_of_ordered_files(
    logs: Seq<Log>,
    start: Option<Timestamp>,
    end: Option<Timestamp>,
)
    requires
        forall|i: int| 0 <= i < logs.len() ==> ordered(#[trigger] logs[i]),
    ensures
        sorted(merged(heap_of(logs, start, end), start, end)),
        none_behind(merged(heap_of(logs, start, end), start, end), end),
        interleaves(
            merged(heap_of(logs, start, end), start, end),
            windowed(heap_of(logs, start, end), end),
        ),
{
    lemma_heap_sorted(logs, start, end);
    lemma_heap_in_window(logs, start, end);
    merge_is_sorted(heap_of(logs, start, end), start, end);
    merge_ends_at_the_window(heap_of(logs, start, end), start, end);
    merge_interleaves(heap_of(logs, start, end), start, end);
}

/// The cursors that a merge of a file with itself, with no window, starts
/// with: two alike, or none where no cursor can be opened over the file.
pub proof fn lemma_heap_of_pair(log: Log)
    ensures
        heap_of(seq![log, log], None, None) == match opened(log, None) {
            Some(c) => seq![c, c],
            None => Seq::<Cursor>::empty(),
        },
{
    let one = seq![log];
    let two = seq![log, log];
    assert(one.drop_last() =~= Seq::<Log>::empty());
    assert(two.drop_last() =~= one);
    assert(one.last() == log && two.last() == log);
    assert(heap_of(Seq::<Log>::empty(), None, None) =~= Seq::<Cursor>::empty());
    match opened(log, None) {
        Some(c) => {
            assert(heap_of(one, None, None) =~= seq![c]);
            assert(heap_of(two, None, None) =~= seq![c, c]);
        },
        None => {
            assert(heap_of(one, None, None) =~= Seq::<Cursor>::empty());
            assert(heap_of(two, None, None) =~= Seq::<Cursor>::empty());
        },
    }
}

/// Merging a file with itself, with no window, where the records read
/// from its start on are in order, emits the records oldest first: each
/// record of the file twice, those of either copy in the order of the
/// file. A file over which no cursor can
/// be opened gives an empty merge.
pub proof fn merge_of_a_file_with_itself(log: Log)
    requires
        sorted(records_from(log, 0)),
    ensures
        sorted(merged(heap_of(seq![log, log], None, None), None, None)),
        match opened(log, None) {
            Some(_) => interleaves(
                merged(heap_of(seq![log, log], None, None), None, None),
                seq![records_from(log, 0), records_from(log, 0)],
            ),
            None => merged(heap_of(seq![log, log], None, None), None, None).len() == 0,
        },
{
    let heap = heap_of(seq![log, log], None, None);
    lemma_heap_of_pair(log);
    match opened(log, None) {
        Some(c) => {
            assert(remaining(c) =~= records_from(log, 0));
            assert(heap == seq![c, c]);
            assert(all_sorted(heap));
            assert(all_in_window(heap, None, None));
            merge_is_sorted(heap, None, None);
            merge_interleaves(heap, None, None);
            lemma_within_no_end(records_from(log, 0));
            assert(windowed(heap, None) =~= seq![records_from(log, 0), records_from(log, 0)]);
        },
        None => {
            assert(next_emission(heap, None, None) is None);
        },
    }
}

} // verus!
