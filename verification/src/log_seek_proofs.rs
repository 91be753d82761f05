//! What opening a cursor finds in a file whose records are in order.

use crate::log_seek::{
    first_from, last_line, last_record, lemma_line_end_bounds,
    lemma_read_at_bounds, line_end, line_start, line_text, opened, raw_line, read_at_spec,
    record_in, search_low, seek, Log, Record, MAX_PROBES,
};
use crate::stream::{scan_of, Scan};
use crate::text::{lemma_trimmed_after_trim_end, trim_end_of};
use crate::timestamp::Timestamp;
use vstd::prelude::*;
use vstd::utf8::*;

verus! {

/// `p` is the offset of the first byte of a line.
pub open spec fn is_line_start(bytes: Seq<u8>, p: int) -> bool {
    0 <= p < bytes.len() && (p == 0 || bytes[p - 1] == 10)
}

/// `x` is the start of the file, its end, or an offset behind a newline.
pub open spec fn is_boundary(bytes: Seq<u8>, x: int) -> bool {
    0 <= x <= bytes.len() && (x == 0 || x == bytes.len() || bytes[x - 1] == 10)
}

/// The record of the whole line that starts at `p`, where `p` starts a line
/// and the line holds a timestamp.
pub open spec fn whole_record(log: Log, p: int) -> Option<Record> {
    let raw = raw_line(log.bytes, p);
    if is_line_start(log.bytes, p) && valid_utf8(raw) {
        record_in(raw, log.year, p + raw.len())
    } else {
        None
    }
}

/// The records of the file are in order: of two records that reads
/// anywhere in the file give, the one that ends first is not the younger.
pub open spec fn ordered(log: Log) -> bool {
    forall|p: int, q: int|
        (#[trigger] read_at_spec(log, p) is Some && #[trigger] read_at_spec(log, q) is Some
            && read_at_spec(log, p).unwrap().pos <= read_at_spec(log, q).unwrap().pos)
            ==> read_at_spec(log, p).unwrap().sort@ <= read_at_spec(log, q).unwrap().sort@
}

/// Every record that ends at or before `x` is older than `start`.
pub open spec fn all_before(log: Log, start: Timestamp, x: int) -> bool {
    forall|q: int|
        (#[trigger] read_at_spec(log, q) is Some && read_at_spec(log, q).unwrap().pos <= x)
            ==> read_at_spec(log, q).unwrap().sort@ < start@
}

/// No newline stands inside a line before its last byte.
pub proof fn lemma_no_newline_in_line(bytes: Seq<u8>, p: int, k: int)
    requires
        0 <= p <= k < line_end(bytes, p) - 1,
        p < bytes.len(),
    ensures
        bytes[k] != 10,
    decreases bytes.len() - p,
{
    if bytes[p] != 10 && k > p {
        lemma_line_end_bounds(bytes, p);
        lemma_no_newline_in_line(bytes, p + 1, k);
    }
}

/// A line ends behind a newline or at the end of the file.
pub proof fn lemma_line_end_is_boundary(bytes: Seq<u8>, p: int)
    requires
        0 <= p < bytes.len(),
    ensures
        is_boundary(bytes, line_end(bytes, p)),
    decreases bytes.len() - p,
{
    if bytes[p] != 10 {
        if p + 1 < bytes.len() {
            lemma_line_end_is_boundary(bytes, p + 1);
        } else {
            assert(line_end(bytes, p + 1) == bytes.len());
        }
    }
}

/// A line that starts before a line start ends at or before it.
pub proof fn lemma_line_end_before_start(bytes: Seq<u8>, x: int, q: int)
    requires
        0 <= x < q <= bytes.len(),
        bytes[q - 1] == 10,
    ensures
        line_end(bytes, x) <= q,
    decreases q - x,
{
    if bytes[x] != 10 {
        lemma_line_end_before_start(bytes, x + 1, q);
    }
}

/// Where `bytes` holds no newline from `from` up to `i`, and `from` starts
/// a line, the line that holds the byte at `i` starts at `from`.
pub proof fn lemma_line_start_scan(bytes: Seq<u8>, i: int, from: int)
    requires
        0 <= from <= i <= bytes.len(),
        from == 0 || bytes[from - 1] == 10,
        forall|k: int| from <= k < i ==> bytes[k] != 10,
    ensures
        line_start(bytes, i) == from,
    decreases i - from,
{
    if i > from {
        lemma_line_start_scan(bytes, i - 1, from);
    }
}

/// Where `bytes` holds no newline from `from` up to its last byte, the line
/// read at `from` reaches to the end.
pub proof fn lemma_line_end_scan(bytes: Seq<u8>, from: int)
    requires
        0 <= from < bytes.len(),
        forall|k: int| from <= k < bytes.len() - 1 ==> bytes[k] != 10,
    ensures
        line_end(bytes, from) == bytes.len(),
    decreases bytes.len() - from,
{
    if from + 1 < bytes.len() {
        lemma_line_end_scan(bytes, from + 1);
    } else {
        assert(line_end(bytes, from + 1) == bytes.len());
    }
}

/// The last line of a file is what stands behind the last newline before
/// its final byte: where `tail` is not empty and holds no newline before
/// its last byte, and `head` is empty or ends with a newline, the last line
/// of `head` followed by `tail` is the text of `tail` without the
/// whitespace at its end. This holds of a `tail` that is one newline too: a
/// file that ends with a blank line has that blank line as its last.
pub proof fn last_line_of_tail(head: Seq<u8>, tail: Seq<u8>)
    requires
        head.len() == 0 || head.last() == 10,
        tail.len() > 0,
        forall|k: int| 0 <= k < tail.len() - 1 ==> tail[k] != 10,
    ensures
        last_line(head + tail) == match line_text(tail) {
            Some(text) => Some(trim_end_of(text)),
            None => None,
        },
{
    let bytes = head + tail;
    let from = head.len() as int;
    assert forall|k: int| from <= k < bytes.len() - 1 implies bytes[k] != 10 by {
        assert(bytes[k] == tail[k - from]);
    }
    if from > 0 {
        assert(bytes[from - 1] == head.last());
    }
    lemma_line_start_scan(bytes, bytes.len() - 1, from);
    lemma_line_end_scan(bytes, from);
    assert(raw_line(bytes, from) =~= tail);
}

/// The record of a whole line is what a read at its start gives.
pub proof fn lemma_whole_record_is_read(log: Log, p: int)
    requires
        whole_record(log, p) is Some,
    ensures
        read_at_spec(log, p) == whole_record(log, p),
        whole_record(log, p).unwrap().pos == line_end(log.bytes, p),
{
    lemma_line_end_bounds(log.bytes, p);
}

/// A record that is read ends behind a newline or at the end of the file.
pub proof fn lemma_record_ends_at_boundary(log: Log, x: int)
    requires
        read_at_spec(log, x) is Some,
    ensures
        is_boundary(log.bytes, read_at_spec(log, x).unwrap().pos),
{
    lemma_read_at_bounds(log, x);
    lemma_line_end_bounds(log.bytes, x);
    lemma_line_end_is_boundary(log.bytes, x);
    let end = line_end(log.bytes, x);
    if end < log.bytes.len() {
        lemma_line_end_bounds(log.bytes, end);
        lemma_line_end_is_boundary(log.bytes, end);
    }
}

/// A read at a boundary before the end of a whole line's record gives a
/// record that ends no later than that one.
pub proof fn lemma_read_before(log: Log, x: int, p: int)
    requires
        is_boundary(log.bytes, x),
        whole_record(log, p) is Some,
        x < whole_record(log, p).unwrap().pos,
        read_at_spec(log, x) is Some,
    ensures
        read_at_spec(log, x).unwrap().pos <= whole_record(log, p).unwrap().pos,
{
    let bytes = log.bytes;
    lemma_whole_record_is_read(log, p);
    lemma_line_end_bounds(bytes, p);
    lemma_read_at_bounds(log, x);
    if x > p {
        lemma_no_newline_in_line(bytes, p, x - 1);
    } else if x < p {
        lemma_line_end_bounds(bytes, x);
        lemma_line_end_before_start(bytes, x, p);
        let end = line_end(bytes, x);
        if end < p {
            lemma_line_end_bounds(bytes, end);
            lemma_line_end_before_start(bytes, end, p);
        }
    }
}

/// The lower bound that the binary search reaches is a boundary with only
/// older records before it, where it set out from one.
pub proof fn lemma_search_low(
    log: Log,
    start: Timestamp,
    low: int,
    high: int,
    last_mid: int,
    probes: nat,
)
    requires
        ordered(log),
        is_boundary(log.bytes, low),
        all_before(log, start, low),
        search_low(log, start, low, high, last_mid, probes) is Some,
    ensures
        is_boundary(log.bytes, search_low(log, start, low, high, last_mid, probes).unwrap()),
        all_before(log, start, search_low(log, start, low, high, last_mid, probes).unwrap()),
    decreases probes,
{
    if low >= high || probes == 0 {
    } else {
        let mid = low + (high - low) / 2;
        let item = read_at_spec(log, mid).unwrap();
        if item.sort@ < start@ {
            lemma_record_ends_at_boundary(log, mid);
            assert(all_before(log, start, item.pos));
        }
        let next_low = if item.sort@ < start@ {
            item.pos
        } else {
            low
        };
        let next_high = if item.sort@ < start@ {
            high
        } else {
            item.pos
        };
        if mid != last_mid {
            lemma_search_low(log, start, next_low, next_high, mid, (probes - 1) as nat);
        }
    }
}

/// Reading on from a boundary with only older records before it ends on a
/// record of the timestamp `start`, where a whole line has that timestamp.
pub proof fn lemma_first_from(log: Log, start: Timestamp, x: int, p: int)
    requires
        ordered(log),
        is_boundary(log.bytes, x),
        all_before(log, start, x),
        whole_record(log, p) is Some,
        whole_record(log, p).unwrap().sort == start,
        first_from(log, start, x) is Some,
    ensures
        first_from(log, start, x).unwrap().sort == start,
        first_from(log, start, x).unwrap().pos <= whole_record(log, p).unwrap().pos,
    decreases log.bytes.len() - x,
{
    let t = whole_record(log, p).unwrap();
    lemma_whole_record_is_read(log, p);
    assert(read_at_spec(log, p) is Some);
    assert(x < t.pos);
    let item = read_at_spec(log, x).unwrap();
    lemma_read_before(log, x, p);
    lemma_read_at_bounds(log, x);
    assert(item.sort@ <= t.sort@);
    if item.sort@ >= start@ {
        crate::timestamp::lemma_view_injective(item.sort, start);
    } else {
        lemma_record_ends_at_boundary(log, x);
        assert(all_before(log, start, item.pos));
        lemma_first_from(log, start, item.pos, p);
    }
}

/// A search for the timestamp of a whole line, in a file whose records are
/// in order, ends on a record of that timestamp which stands no later in
/// the file than the line, unless the search fails.
pub proof fn seek_finds_timestamp(log: Log, start: Timestamp, p: int)
    requires
        ordered(log),
        whole_record(log, p) is Some,
        whole_record(log, p).unwrap().sort == start,
        seek(log, start) is Some,
    ensures
        seek(log, start).unwrap().sort == start,
        seek(log, start).unwrap().pos <= whole_record(log, p).unwrap().pos,
{
    let len = log.bytes.len() as int;
    assert(all_before(log, start, 0)) by {
        assert forall|q: int|
            (#[trigger] read_at_spec(log, q) is Some && read_at_spec(log, q).unwrap().pos
                <= 0) implies read_at_spec(log, q).unwrap().sort@ < start@ by {
            lemma_read_at_bounds(log, q);
        }
    }
    lemma_search_low(log, start, 0, len, len, MAX_PROBES as nat);
    let low = search_low(log, start, 0, len, len, MAX_PROBES as nat).unwrap();
    lemma_first_from(log, start, low, p);
}

/// A cursor that is opened at the timestamp of a whole line, in a file
/// whose records are in order, has a record of that timestamp pending,
/// which stands no later in the file than the line. Files in which the
/// search fails, so that no cursor is opened, are left aside.
pub proof fn opening_at_a_timestamp(log: Log, start: Timestamp, p: int)
    requires
        ordered(log),
        whole_record(log, p) is Some,
        whole_record(log, p).unwrap().sort == start,
        opened(log, Some(start)) is Some,
    ensures
        opened(log, Some(start)).unwrap().pending is Some,
        opened(log, Some(start)).unwrap().pending.unwrap().sort == start,
        opened(log, Some(start)).unwrap().pending.unwrap().pos <= whole_record(
            log,
            p,
        ).unwrap().pos,
{
    let last = last_record(log).unwrap();
    let first = read_at_spec(log, 0).unwrap();
    let t = whole_record(log, p).unwrap();
    lemma_whole_record_is_read(log, p);
    lemma_read_at_bounds(log, 0);
    lemma_read_at_bounds(log, p);
    assert(is_boundary(log.bytes, 0));
    lemma_read_before(log, 0, p);
    assert(first.sort@ <= t.sort@);
    seek_finds_timestamp(log, start, p);
}

/// The line that holds the byte at `i` starts at the start of the file or
/// behind a newline, and holds no newline before `i`.
pub proof fn lemma_line_start_props(bytes: Seq<u8>, i: int)
    requires
        0 <= i <= bytes.len(),
    ensures
        0 <= line_start(bytes, i) <= i,
        line_start(bytes, i) == 0 || bytes[line_start(bytes, i) - 1] == 10,
        forall|k: int| line_start(bytes, i) <= k < i ==> bytes[k] != 10,
    decreases i,
{
    if i > 0 && bytes[i - 1] != 10 {
        lemma_line_start_props(bytes, i - 1);
    }
}

/// The start of a line as a block of the file shows it: behind the last
/// newline in the block, or where the line starts that holds the first
/// byte of the block.
pub proof fn lemma_line_start_in_block(bytes: Seq<u8>, from: int, i: int)
    requires
        0 <= from <= i <= bytes.len(),
    ensures
        0 <= line_start(bytes.subrange(from, bytes.len() as int), i - from) <= i - from,
        line_start(bytes, i) == if line_start(bytes.subrange(from, bytes.len() as int), i - from)
            > 0 {
            from + line_start(bytes.subrange(from, bytes.len() as int), i - from)
        } else {
            line_start(bytes, from)
        },
    decreases i - from,
{
    if i > from && bytes[i - 1] != 10 {
        lemma_line_start_in_block(bytes, from, i - 1);
    }
}

/// A scan of the block of a file from `from` up to `to` either finds where
/// the line starts that holds the byte at `to`, or leaves that start to be
/// sought as the start of the line that holds the byte at `from`.
pub proof fn scan_back_follows_the_line(bytes: Seq<u8>, from: int, to: int)
    requires
        0 <= from <= to <= bytes.len(),
        to <= u64::MAX,
    ensures
        match scan_of(bytes.subrange(from, to), from) {
            Scan::Found(at) => line_start(bytes, to) == at,
            Scan::Before(next) => next == from && line_start(bytes, to) == line_start(bytes, from),
        },
{
    let block = bytes.subrange(from, to);
    let rest = bytes.subrange(from, bytes.len() as int);
    lemma_line_start_in_block(bytes, from, to);
    assert(block =~= rest.subrange(0, to - from));
    crate::log_seek::lemma_line_start_prefix(rest, to - from, to - from);
}

/// The last record of a file is the record of its whole last line, and
/// ends where the file ends.
pub proof fn lemma_last_record_is_whole(log: Log)
    requires
        last_record(log) is Some,
    ensures
        whole_record(log, line_start(log.bytes, log.bytes.len() - 1)) is Some,
        whole_record(log, line_start(log.bytes, log.bytes.len() - 1)).unwrap().sort
            == last_record(log).unwrap().sort,
        whole_record(log, line_start(log.bytes, log.bytes.len() - 1)).unwrap().text
            == last_record(log).unwrap().text,
        whole_record(log, line_start(log.bytes, log.bytes.len() - 1)).unwrap().pos
            == log.bytes.len(),
{
    let bytes = log.bytes;
    let from = line_start(bytes, bytes.len() - 1);
    lemma_line_start_props(bytes, bytes.len() - 1);
    lemma_line_end_scan(bytes, from);
    let raw = raw_line(bytes, from);
    lemma_trimmed_after_trim_end(decode_utf8(raw));
}

/// In a file whose records are in order, no record that a read gives is
/// younger than the last record of the file.
pub proof fn no_record_behind_the_last(log: Log, q: int)
    requires
        ordered(log),
        last_record(log) is Some,
        read_at_spec(log, q) is Some,
    ensures
        read_at_spec(log, q).unwrap().sort@ <= last_record(log).unwrap().sort@,
{
    let from = line_start(log.bytes, log.bytes.len() - 1);
    lemma_last_record_is_whole(log);
    lemma_whole_record_is_read(log, from);
    lemma_read_at_bounds(log, q);
    assert(read_at_spec(log, from) is Some);
}

/// The record that reading on from `pos` ends on is one that a read gives.
pub proof fn lemma_first_from_is_read(log: Log, start: Timestamp, pos: int) -> (q: int)
    requires
        first_from(log, start, pos) is Some,
    ensures
        read_at_spec(log, q) == first_from(log, start, pos),
    decreases log.bytes.len() - pos,
{
    let item = read_at_spec(log, pos).unwrap();
    lemma_read_at_bounds(log, pos);
    if item.sort@ >= start@ {
        pos
    } else {
        lemma_first_from_is_read(log, start, item.pos)
    }
}

/// The record that a new cursor has pending is one that a read gives.
pub proof fn lemma_pending_is_read(log: Log, start: Option<Timestamp>) -> (q: int)
    requires
        opened(log, start) is Some,
    ensures
        read_at_spec(log, q) == opened(log, start).unwrap().pending,
        opened(log, start).unwrap().pending is Some,
{
    if start is Some && start.unwrap()@ >= read_at_spec(log, 0).unwrap().sort@ {
        let len = log.bytes.len() as int;
        let low = search_low(log, start.unwrap(), 0, len, len, MAX_PROBES as nat).unwrap();
        lemma_first_from_is_read(log, start.unwrap(), low)
    } else {
        0
    }
}

/// The cursor that is opened over a file whose records are in order has no
/// record pending that is younger than the last record of the file, and
/// will have none: each record that it moves on to is one that a read
/// gives.
pub proof fn pending_not_behind_the_last(log: Log, start: Option<Timestamp>)
    requires
        ordered(log),
        opened(log, start) is Some,
    ensures
        opened(log, start).unwrap().pending.unwrap().sort@ <= opened(
            log,
            start,
        ).unwrap().last.sort@,
{
    let q = lemma_pending_is_read(log, start);
    no_record_behind_the_last(log, q);
}

/// No cursor is opened at a start behind the last record of the file.
pub proof fn opening_behind_the_last_record(log: Log, start: Timestamp)
    requires
        last_record(log) matches Some(last) ==> start@ > last.sort@,
    ensures
        opened(log, Some(start)) is None,
{
}

} // verus!
