//! Cursors over one log file.
//!
//! A file is held as its bytes. A record is a line that starts with a
//! timestamp; it is known by that timestamp, its trimmed text and the byte
//! offset just behind the line, where the next read resumes. Offsets given to
//! the reader need not be line starts: a read takes what is left of the line
//! at the offset and, where that holds no timestamp, the line after it.

use crate::date_utils::{current_year, recognized};
use crate::stream::{
    halved, item_in, read_step, record_of, scan_back, stepped, Outcome, Phase, ReadStep, Scan,
    Search, SearchStep,
};
use crate::text::{lemma_trim_byte_len, opt_text, trim_end, trim_end_of, trimmed, utf8_text};
use crate::timestamp::Timestamp;
use vstd::prelude::*;
use vstd::slice::slice_subrange;
use vstd::string::*;
use vstd::utf8::*;

verus! {

/// The most probes that one binary search makes before it settles for the
/// lower bound it has reached.
pub const MAX_PROBES: u64 = 0xffff_ffff_ffff_ffff;

/// A log file as the contracts see it: its bytes, and the year in which
/// its syslog lines are read.
pub struct Log {
    pub bytes: Seq<u8>,
    pub year: int,
}

/// A record as the contracts see it.
pub struct Record {
    /// The timestamp at the start of the line.
    pub sort: Timestamp,
    /// The line without the whitespace around it.
    pub text: Seq<char>,
    /// The offset of the byte behind the line.
    pub pos: int,
}

/// The bytes of a log file, with the year in which its syslog lines are read.
pub struct LogReader {
    pub data: Vec<u8>,
    pub year: i32,
}

/// One record of a log file.
pub struct SeekableItem {
    pub sort: Timestamp,
    pub value: String,
    pub pos: u64,
}

/// A cursor over one log file: the record that it hands out next, if any is
/// left, and the last record of the file.
pub struct Seekable {
    pub reader: LogReader,
    pub next: Option<SeekableItem>,
    pub last: SeekableItem,
}

/// A cursor as the contracts see it.
pub struct Cursor {
    pub log: Log,
    pub pending: Option<Record>,
    pub last: Record,
}

impl View for LogReader {
    type V = Log;

    open spec fn view(&self) -> Log {
        Log { bytes: self.data@, year: self.year as int }
    }
}

impl View for SeekableItem {
    type V = Record;

    open spec fn view(&self) -> Record {
        Record { sort: self.sort, text: self.value@, pos: self.pos as int }
    }
}

impl View for Seekable {
    type V = Cursor;

    open spec fn view(&self) -> Cursor {
        Cursor { log: self.reader@, pending: opt_record(self.next), last: self.last@ }
    }
}

/// The view of an optional record.
pub open spec fn opt_record(o: Option<SeekableItem>) -> Option<Record> {
    match o {
        Some(item) => Some(item@),
        None => None,
    }
}

/// The offset behind the first newline at or after `pos`, or the length of
/// `bytes` where none follows.
pub open spec fn line_end(bytes: Seq<u8>, pos: int) -> int
    decreases bytes.len() - pos,
{
    if pos < 0 || pos >= bytes.len() {
        bytes.len() as int
    } else if bytes[pos] == 10 {
        pos + 1
    } else {
        line_end(bytes, pos + 1)
    }
}

/// What one read at `pos` takes: the bytes from `pos` through the next
/// newline, or through the end of the file; nothing at or behind the end.
pub open spec fn raw_line(bytes: Seq<u8>, pos: int) -> Seq<u8> {
    if 0 <= pos < bytes.len() {
        bytes.subrange(pos, line_end(bytes, pos))
    } else {
        Seq::empty()
    }
}

/// The text of the bytes of a line, where they are valid UTF-8.
pub open spec fn line_text(raw: Seq<u8>) -> Option<Seq<char>> {
    if valid_utf8(raw) {
        Some(decode_utf8(raw))
    } else {
        None
    }
}

/// The record that the line `raw`, which ends at `end`, holds.
pub open spec fn record_in(raw: Seq<u8>, year: int, end: int) -> Option<Record> {
    record_of(decode_utf8(raw), year, end)
}

/// The record read at `pos`: that of the line taken at `pos` or, where that
/// line holds no timestamp, that of the line behind it. There is none where
/// neither holds a timestamp, or where a line that was read is not valid
/// UTF-8.
pub open spec fn read_at_spec(log: Log, pos: int) -> Option<Record> {
    let raw = raw_line(log.bytes, pos);
    let end = pos + raw.len();
    if !valid_utf8(raw) {
        None
    } else if record_in(raw, log.year, end) is Some {
        record_in(raw, log.year, end)
    } else {
        let second = raw_line(log.bytes, end);
        if !valid_utf8(second) {
            None
        } else {
            record_in(second, log.year, end + second.len())
        }
    }
}

/// The start of the line that holds the byte at `i`: the offset behind the
/// last newline before `i`, or 0 where none precedes.
pub open spec fn line_start(bytes: Seq<u8>, i: int) -> int
    decreases i,
{
    if i <= 0 || i > bytes.len() {
        0
    } else if bytes[i - 1] == 10 {
        i
    } else {
        line_start(bytes, i - 1)
    }
}

/// The last line of a file, without the whitespace at its end: the line that
/// holds the last byte but one, read from its start. An empty file has none,
/// nor one whose last line is not valid UTF-8.
pub open spec fn last_line(bytes: Seq<u8>) -> Option<Seq<char>> {
    if bytes.len() == 0 {
        None
    } else {
        match line_text(raw_line(bytes, line_start(bytes, bytes.len() - 1))) {
            Some(text) => Some(trim_end_of(text)),
            None => None,
        }
    }
}

/// The last record of a file: its last line, where that holds a timestamp.
/// It ends where the file ends.
pub open spec fn last_record(log: Log) -> Option<Record> {
    match last_line(log.bytes) {
        Some(line) => {
            let text = trimmed(line);
            match recognized(text, log.year) {
                Some(sort) => Some(Record { sort, text, pos: log.bytes.len() as int }),
                None => None,
            }
        },
        None => None,
    }
}

/// The lower bound that the binary search for `start` reaches from the
/// bounds `low` and `high`, where the probe before was made at `last_mid` and
/// `probes` probes are left; `None` where a probe finds no record.
///
/// Each step probes the middle of the bounds. A record before `start` moves
/// `low` behind that record; any other moves `high` behind it. The search
/// ends when the bounds meet or a probe is made where the one before was.
pub open spec fn search_low(
    log: Log,
    start: Timestamp,
    low: int,
    high: int,
    last_mid: int,
    probes: nat,
) -> Option<int>
    decreases probes,
{
    if low >= high || probes == 0 {
        Some(low)
    } else {
        let mid = low + (high - low) / 2;
        match read_at_spec(log, mid) {
            None => None,
            Some(item) => {
                let next_low = if item.sort@ < start@ {
                    item.pos
                } else {
                    low
                };
                let next_high = if item.sort@ < start@ {
                    high
                } else {
                    item.pos
                };
                if mid == last_mid {
                    Some(next_low)
                } else {
                    search_low(log, start, next_low, next_high, mid, (probes - 1) as nat)
                }
            },
        }
    }
}

/// The first record not before `start` among those read one behind the
/// other from `pos` on; `None` where a read finds no record before one such
/// is met.
pub open spec fn first_from(log: Log, start: Timestamp, pos: int) -> Option<Record>
    decreases log.bytes.len() - pos,
    via first_from_decreases
{
    match read_at_spec(log, pos) {
        None => None,
        Some(item) => if item.sort@ >= start@ {
            Some(item)
        } else {
            first_from(log, start, item.pos)
        },
    }
}

#[via_fn]
proof fn first_from_decreases(log: Log, start: Timestamp, pos: int) {
    if read_at_spec(log, pos) is Some {
        lemma_read_at_bounds(log, pos);
    }
}

/// The record that a search for `start` ends on: the first not before
/// `start`, read on from the lower bound of the binary search over the whole
/// file.
pub open spec fn seek(log: Log, start: Timestamp) -> Option<Record> {
    match search_low(
        log,
        start,
        0,
        log.bytes.len() as int,
        log.bytes.len() as int,
        MAX_PROBES as nat,
    ) {
        Some(low) => first_from(log, start, low),
        None => None,
    }
}

/// The record that a new cursor hands out first, in a file whose last
/// record has the timestamp `last_date`. There is none where the file does
/// not start with a record, where `start` is later than `last_date`, or where
/// the search for `start` fails.
pub open spec fn first_pending(log: Log, start: Option<Timestamp>, last_date: Timestamp) -> Option<
    Record,
> {
    match read_at_spec(log, 0) {
        None => None,
        Some(first) => match start {
            None => Some(first),
            Some(s) => if s@ > last_date@ {
                None
            } else if s@ >= first.sort@ {
                seek(log, s)
            } else {
                Some(first)
            },
        },
    }
}

/// The cursor that opening `log` at `start` gives.
pub open spec fn opened(log: Log, start: Option<Timestamp>) -> Option<Cursor> {
    match last_record(log) {
        Some(last) => match first_pending(log, start, last.sort) {
            Some(next) => Some(Cursor { log, pending: Some(next), last }),
            None => None,
        },
        None => None,
    }
}

/// A line read at an offset inside the file is not empty and ends inside
/// the file.
pub proof fn lemma_line_end_bounds(bytes: Seq<u8>, pos: int)
    requires
        0 <= pos < bytes.len(),
    ensures
        pos < line_end(bytes, pos) <= bytes.len(),
    decreases bytes.len() - pos,
{
    if bytes[pos] != 10 {
        if pos + 1 < bytes.len() {
            lemma_line_end_bounds(bytes, pos + 1);
        } else {
            assert(line_end(bytes, pos + 1) == bytes.len());
        }
    }
}

/// What a read takes lies inside the file, and as text is as long as it is
/// in bytes.
pub proof fn lemma_raw_line_len(bytes: Seq<u8>, pos: int)
    requires
        0 <= pos,
    ensures
        pos + raw_line(bytes, pos).len() <= (if pos < bytes.len() {
            bytes.len() as int
        } else {
            pos
        }),
        valid_utf8(raw_line(bytes, pos)) ==> crate::text::byte_len(
            decode_utf8(raw_line(bytes, pos)),
        ) == raw_line(bytes, pos).len(),
{
    if pos < bytes.len() {
        lemma_line_end_bounds(bytes, pos);
    }
    if valid_utf8(raw_line(bytes, pos)) {
        decode_utf8_encode_utf8(raw_line(bytes, pos));
    }
}

/// The start of a line does not depend on the bytes behind it.
pub proof fn lemma_line_start_prefix(bytes: Seq<u8>, k: int, i: int)
    requires
        0 <= i <= k <= bytes.len(),
    ensures
        line_start(bytes.subrange(0, k), i) == line_start(bytes, i),
        0 <= line_start(bytes, i) <= i,
    decreases i,
{
    if i > 0 && bytes[i - 1] != 10 {
        lemma_line_start_prefix(bytes, k, i - 1);
    }
}

/// No line holds a record unless it is at least sixteen bytes long.
pub proof fn lemma_record_in_len(raw: Seq<u8>, year: int, end: int)
    requires
        valid_utf8(raw),
        record_in(raw, year, end) is Some,
    ensures
        raw.len() >= 16,
{
    let text = decode_utf8(raw);
    crate::date_utils::lemma_recognized_len(trimmed(text), year);
    lemma_trim_byte_len(text);
    decode_utf8_encode_utf8(raw);
}

/// A record that is read at `pos` ends behind `pos` and inside the file, and
/// `pos` lies inside the file.
pub proof fn lemma_read_at_bounds(log: Log, pos: int)
    requires
        read_at_spec(log, pos) is Some,
    ensures
        0 <= pos < read_at_spec(log, pos).unwrap().pos <= log.bytes.len(),
{
    let raw = raw_line(log.bytes, pos);
    let end = pos + raw.len();
    if !(0 <= pos < log.bytes.len()) {
        assert(raw.len() == 0);
        if record_in(raw, log.year, end) is Some {
            lemma_record_in_len(raw, log.year, end);
        } else {
            let second = raw_line(log.bytes, end);
            assert(second.len() == 0);
            lemma_record_in_len(second, log.year, end + second.len());
        }
    } else {
        lemma_line_end_bounds(log.bytes, pos);
        if record_in(raw, log.year, end) is Some {
        } else {
            let second = raw_line(log.bytes, end);
            lemma_record_in_len(second, log.year, end + second.len());
            lemma_line_end_bounds(log.bytes, end);
        }
    }
}

impl LogReader {
    /// A reader over `data` that reads syslog lines in the current year.
    pub fn new(data: Vec<u8>) -> (r: LogReader)
        ensures
            r.data == data,
    {
        LogReader { data, year: current_year() }
    }

    /// A reader over `data` that reads syslog lines in the year `year`.
    pub fn with_year(data: Vec<u8>, year: i32) -> (r: LogReader)
        ensures
            r == (LogReader { data, year }),
    {
        LogReader { data, year }
    }

    /// The length of the file in bytes.
    pub fn len(&self) -> (n: u64)
        ensures
            n == self.data@.len(),
    {
        self.data.len() as u64
    }

    /// Reads one line at `pos`: its text, where its bytes are valid UTF-8,
    /// and the offset behind it.
    pub fn read_line(&self, pos: u64) -> (r: (Option<&str>, u64))
        ensures
            opt_text(r.0) == line_text(raw_line(self.data@, pos as int)),
            r.1 == pos + raw_line(self.data@, pos as int).len(),
    {
        let n = self.data.len();
        if pos >= n as u64 {
            let empty = slice_subrange(self.data.as_slice(), 0, 0);
            assert(empty@ =~= raw_line(self.data@, pos as int));
            return (utf8_text(empty), pos);
        }
        let from = pos as usize;
        let mut i = from;
        while i < n && self.data[i] != 10
            invariant
                from <= i <= n,
                n == self.data@.len(),
                line_end(self.data@, i as int) == line_end(self.data@, from as int),
            decreases n - i,
        {
            i += 1;
        }
        let end = if i < n {
            i + 1
        } else {
            n
        };
        let raw = slice_subrange(self.data.as_slice(), from, end);
        (utf8_text(raw), end as u64)
    }
}

/// Reads the record at `pos`, which need not be the start of a line: where
/// what is left of the line at `pos` holds no timestamp, the next line is
/// tried, and no more.
pub fn read_at(reader: &LogReader, pos: u64) -> (r: Option<SeekableItem>)
    ensures
        opt_record(r) == read_at_spec(reader@, pos as int),
{
    let (line, _) = reader.read_line(pos);
    proof {
        lemma_raw_line_len(reader.data@, pos as int);
    }
    match read_step(line, pos, reader.year, true) {
        ReadStep::Found(item) => Some(item),
        ReadStep::Failed => None,
        ReadStep::Retry(next) => {
            let (second, _) = reader.read_line(next);
            proof {
                lemma_raw_line_len(reader.data@, next as int);
            }
            match read_step(second, next, reader.year, false) {
                ReadStep::Found(item) => Some(item),
                _ => None,
            }
        },
    }
}

/// Finds the last line of the file by going back from its end: the last
/// byte is passed over, and the line starts behind the first newline met
/// before it, or at the start of the file.
pub fn read_last_line(file: &LogReader) -> (r: Option<String>)
    ensures
        match r {
            Some(line) => last_line(file.data@) == Some(line@),
            None => last_line(file.data@) is None,
        },
{
    let n = file.data.len();
    if n == 0 {
        return None;
    }
    let block = slice_subrange(file.data.as_slice(), 0, n - 1);
    let from = match scan_back(block, 0) {
        Scan::Found(from) => from,
        Scan::Before(from) => from,
    };
    proof {
        lemma_line_start_prefix(file.data@, n - 1, n - 1);
    }
    let (line, _) = file.read_line(from);
    match line {
        Some(last) => Some(String::from_str(trim_end(last))),
        None => None,
    }
}

/// What a search that is driven by reads of `log` ends on, seen from the
/// state `s` between two reads.
pub open spec fn search_goal(log: Log, s: Search) -> Option<Record> {
    match s.phase {
        Phase::First => first_pending(log, s.start, s.last_date),
        Phase::Halving => match search_low(
            log,
            s.start.unwrap(),
            s.low as int,
            s.high as int,
            s.last_mid as int,
            (s.probes + 1) as nat,
        ) {
            Some(low) => first_from(log, s.start.unwrap(), low),
            None => None,
        },
        Phase::Scanning => first_from(log, s.start.unwrap(), s.probe as int),
    }
}

/// The search `s` stands where a search over a file of the length of `log`
/// can stand: a probe that is out lies in the middle of bounds that have
/// not met, and a start is given once the first record has been read.
pub open spec fn search_fits(log: Log, s: Search) -> bool {
    &&& s.len == log.bytes.len()
    &&& match s.phase {
        Phase::First => s.probe == 0,
        Phase::Halving => s.start is Some && s.low < s.high && s.probe == s.low + (s.high
            - s.low) / 2 && s.probes < MAX_PROBES,
        Phase::Scanning => s.start is Some,
    }
}

/// How far a search is from its end: the phases go one way, the probes of
/// the halving run out, and reading on moves towards the end of the file.
pub open spec fn search_rank(s: Search) -> (nat, nat, nat) {
    match s.phase {
        Phase::First => (2, 0, 0),
        Phase::Halving => (1, s.probes as nat, 0),
        Phase::Scanning => (0, 0, if s.probe < s.len {
            (s.len - s.probe) as nat
        } else {
            0
        }),
    }
}

/// Whether the rank `a` lies before the rank `b`.
pub open spec fn nearer(a: (nat, nat, nat), b: (nat, nat, nat)) -> bool {
    a.0 < b.0 || (a.0 == b.0 && (a.1 < b.1 || (a.1 == b.1 && a.2 < b.2)))
}

/// What is to hold behind a step of a search that is driven by reads of
/// `log`: the step either ends the search on what it was to end on, or
/// leaves the search nearer to its end and bound for the same record.
pub open spec fn step_holds(log: Log, s: Search, next: Search, outcome: Outcome) -> bool {
    match outcome {
        Outcome::Probe(at) => search_fits(log, next) && at == next.probe && search_goal(log, next)
            == search_goal(log, s) && nearer(search_rank(next), search_rank(s)),
        Outcome::Found(item) => search_goal(log, s) == Some(item),
        Outcome::Failed => search_goal(log, s) is None,
    }
}

proof fn lemma_step_first(log: Log, s: Search)
    requires
        search_fits(log, s),
        s.phase == Phase::First,
    ensures
        step_holds(
            log,
            s,
            stepped(s, read_at_spec(log, s.probe as int)).0,
            stepped(s, read_at_spec(log, s.probe as int)).1,
        ),
{
    let found = read_at_spec(log, 0);
    if found is Some && s.start is Some {
        lemma_read_at_bounds(log, 0);
        let item = found.unwrap();
        let start = s.start.unwrap();
        if start@ <= s.last_date@ && start@ >= item.sort@ {
            let len = log.bytes.len() as int;
            let next = halved(Search { probes: MAX_PROBES, ..s }, 0, s.len, s.len);
            assert(next.phase == Phase::Halving);
            assert(next.probes + 1 == MAX_PROBES);
            assert(search_goal(log, next) == seek(log, start));
            assert(first_pending(log, s.start, s.last_date) == seek(log, start));
        }
    }
}

proof fn lemma_step_halving(log: Log, s: Search)
    requires
        search_fits(log, s),
        s.phase == Phase::Halving,
    ensures
        step_holds(
            log,
            s,
            stepped(s, read_at_spec(log, s.probe as int)).0,
            stepped(s, read_at_spec(log, s.probe as int)).1,
        ),
{
    let found = read_at_spec(log, s.probe as int);
    let start = s.start.unwrap();
    let all = search_low(
        log,
        start,
        s.low as int,
        s.high as int,
        s.last_mid as int,
        (s.probes + 1) as nat,
    );
    if found is Some {
        lemma_read_at_bounds(log, s.probe as int);
        let item = found.unwrap();
        let low = if item.sort@ < start@ {
            item.pos as u64
        } else {
            s.low
        };
        let high = if item.sort@ < start@ {
            s.high
        } else {
            item.pos as u64
        };
        let next = stepped(s, found).0;
        if s.probe == s.last_mid {
            assert(all == Some(low as int));
        } else {
            let rest = search_low(
                log,
                start,
                low as int,
                high as int,
                s.probe as int,
                s.probes as nat,
            );
            assert(all == rest);
            assert(next == halved(s, low, high, s.probe));
            if low < high && s.probes > 0 {
                assert(next.probes + 1 == s.probes);
            } else {
                assert(rest == Some(low as int));
            }
        }
    } else {
        assert(all is None);
    }
}

proof fn lemma_step_scanning(log: Log, s: Search)
    requires
        search_fits(log, s),
        s.phase == Phase::Scanning,
    ensures
        step_holds(
            log,
            s,
            stepped(s, read_at_spec(log, s.probe as int)).0,
            stepped(s, read_at_spec(log, s.probe as int)).1,
        ),
{
    if read_at_spec(log, s.probe as int) is Some {
        lemma_read_at_bounds(log, s.probe as int);
    }
}

/// A step of a search that is driven by reads of `log` either ends the
/// search on what it was to end on, or leaves the search nearer to its end
/// and bound for the same record.
pub proof fn lemma_search_step(log: Log, s: Search)
    requires
        search_fits(log, s),
    ensures
        step_holds(
            log,
            s,
            stepped(s, read_at_spec(log, s.probe as int)).0,
            stepped(s, read_at_spec(log, s.probe as int)).1,
        ),
{
    match s.phase {
        Phase::First => lemma_step_first(log, s),
        Phase::Halving => lemma_step_halving(log, s),
        Phase::Scanning => lemma_step_scanning(log, s),
    }
}

/// Finds the record that a cursor over `reader` hands out first: the first
/// record of the file or, where `start` is given and not before that record,
/// the first record not before `start`, sought by binary search over the
/// byte offsets up to `len`.
pub fn new_next(reader: LogReader, len: u64, start: Option<Timestamp>, last_date: Timestamp) -> (r:
    Option<(LogReader, SeekableItem)>)
    requires
        len == reader.data@.len(),
    ensures
        match r {
            Some((same, item)) => same == reader && first_pending(reader@, start, last_date)
                == Some(item@),
            None => first_pending(reader@, start, last_date) is None,
        },
{
    let ghost log = reader@;
    let mut search = Search::new(len, start, last_date);
    loop
        invariant
            log == reader@,
            search_fits(log, search),
            search_goal(log, search) == first_pending(log, start, last_date),
        decreases search_rank(search).0, search_rank(search).1, search_rank(search).2,
    {
        proof {
            lemma_search_step(log, search);
        }
        let found = read_at(&reader, search.probe);
        match search.step(found) {
            SearchStep::Probe(_) => {},
            SearchStep::Found(item) => {
                return Some((reader, item));
            },
            SearchStep::Failed => {
                return None;
            },
        }
    }
}

impl Seekable {
    /// Opens a cursor over `reader`, whose length is `len`, at the first
    /// record not before `start`, or at the first record of the file where
    /// no `start` is given. No cursor is opened on a file whose last line or
    /// first record cannot be read, nor where `start` lies behind the last
    /// record.
    pub fn new(reader: LogReader, len: u64, start: Option<Timestamp>) -> (r: Option<Seekable>)
        requires
            len == reader.data@.len(),
        ensures
            match r {
                Some(cursor) => opened(reader@, start) == Some(cursor@) && cursor.reader == reader,
                None => opened(reader@, start) is None,
            },
    {
        let line = match read_last_line(&reader) {
            Some(line) => line,
            None => return None,
        };
        let last = match item_in(line.as_str(), reader.year, len) {
            Some(last) => last,
            None => return None,
        };
        let last_date = last.sort;
        match new_next(reader, len, start, last_date) {
            Some((reader, next)) => Some(Seekable { reader, next: Some(next), last }),
            None => None,
        }
    }

    /// Moves the cursor to the record behind the one it hands out. A cursor
    /// that has no record left stays as it is.
    pub fn advance(&mut self) -> (r: bool)
        ensures
            r == old(self).next is Some,
            !r ==> *final(self) == *old(self),
            r ==> final(self).reader == old(self).reader && final(self).last == old(self).last
                && opt_record(final(self).next) == read_at_spec(
                old(self).reader@,
                old(self).next.unwrap().pos as int,
            ),
    {
        let pos = match &self.next {
            None => return false,
            Some(item) => item.pos,
        };
        let seekable = read_at(&self.reader, pos);
        self.next = seekable;
        true
    }
}

} // verus!
