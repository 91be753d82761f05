//! The decisions of a cursor, one read at a time.
//!
//! A caller that holds a file open need not hold its bytes: it reads what
//! a step asks for, hands the step what it read, and is told what to read
//! next. The cursors over bytes in memory take the same steps.

use crate::date_utils::{date_from_line_in_year, recognized};
use crate::log_seek::{line_start, opt_record, Record, SeekableItem, MAX_PROBES};
use crate::text::{byte_len, trim, trim_end, trim_end_of, trimmed};
use crate::timestamp::Timestamp;
use vstd::prelude::*;
use vstd::string::*;

verus! {

/// The record that a line with the text `text`, which ends at `end`,
/// holds: its timestamp, and its text without the whitespace around it.
pub open spec fn record_of(text: Seq<char>, year: int, end: int) -> Option<Record> {
    match recognized(trimmed(text), year) {
        Some(sort) => Some(Record { sort, text: trimmed(text), pos: end }),
        None => None,
    }
}

/// Builds the record of a line: `text` is the line as read and `end` the
/// offset behind it.
pub fn item_in(text: &str, year: i32, end: u64) -> (r: Option<SeekableItem>)
    ensures
        opt_record(r) == record_of(text@, year as int, end as int),
{
    let value = trim(text);
    match date_from_line_in_year(value, year) {
        Some(date) => Some(SeekableItem { sort: date, value: String::from_str(value), pos: end }),
        None => None,
    }
}

/// Builds the last record of a file of `len` bytes from its last line as
/// read: the record ends where the file ends.
pub fn last_item(line: &str, year: i32, len: u64) -> (r: Option<SeekableItem>)
    ensures
        opt_record(r) == record_of(trim_end_of(line@), year as int, len as int),
{
    item_in(trim_end(line), year, len)
}

/// What the read of one record does next.
pub enum ReadStep {
    /// The line holds this record.
    Found(SeekableItem),
    /// The line holds no timestamp: the line at this offset is to be read.
    Retry(u64),
    /// No record is read.
    Failed,
}

/// Whether a line of the text `text` that was read at `pos` ends at an
/// offset that a `u64` holds.
pub open spec fn line_fits(text: Seq<char>, pos: int) -> bool {
    pos + byte_len(text) <= u64::MAX
}

/// Decides on a line that was read at `pos`, or on `None` where it could
/// not be read as text. A line with a timestamp is the record. The first
/// line read, `first`, may hold none: the line behind it is tried then, and
/// no more.
pub fn read_step(line: Option<&str>, pos: u64, year: i32, first: bool) -> (r: ReadStep)
    ensures
        match r {
            ReadStep::Found(item) => line is Some && line_fits(line.unwrap()@, pos as int)
                && record_of(line.unwrap()@, year as int, pos + byte_len(line.unwrap()@)) == Some(
                item@,
            ),
            ReadStep::Retry(next) => first && line is Some && line_fits(line.unwrap()@, pos as int)
                && record_of(line.unwrap()@, year as int, pos + byte_len(line.unwrap()@)) is None
                && next == pos + byte_len(line.unwrap()@),
            ReadStep::Failed => line is None || !line_fits(line.unwrap()@, pos as int) || (!first
                && record_of(line.unwrap()@, year as int, pos + byte_len(line.unwrap()@))
                is None),
        },
{
    let text = match line {
        Some(text) => text,
        None => return ReadStep::Failed,
    };
    let size = text.as_bytes().len();
    if size as u64 > u64::MAX - pos {
        return ReadStep::Failed;
    }
    let end = pos + size as u64;
    match item_in(text, year, end) {
        Some(item) => ReadStep::Found(item),
        None => if first {
            ReadStep::Retry(end)
        } else {
            ReadStep::Failed
        },
    }
}

/// What the search for the start of the last line does next.
pub enum Scan {
    /// The last line starts at this offset.
    Found(u64),
    /// The bytes before this offset are to be scanned.
    Before(u64),
}

/// What a scan of `block`, which holds the bytes of a file from the offset
/// `from` on, gives: the line starts behind the last newline in the block,
/// or at the start of the file where the block starts there and holds no
/// newline; else the scan goes on before the block.
pub open spec fn scan_of(block: Seq<u8>, from: int) -> Scan {
    let at = line_start(block, block.len() as int);
    if at > 0 || from == 0 {
        Scan::Found((from + at) as u64)
    } else {
        Scan::Before(from as u64)
    }
}

/// Scans a block of a file backwards for the start of a line that is known
/// to hold no newline behind the block.
pub fn scan_back(block: &[u8], from: u64) -> (r: Scan)
    requires
        from + block@.len() <= u64::MAX,
    ensures
        r == scan_of(block@, from as int),
{
    let mut at = block.len();
    while at > 0 && block[at - 1] != 10
        invariant
            at <= block@.len(),
            line_start(block@, at as int) == line_start(block@, block@.len() as int),
        decreases at,
    {
        at -= 1;
    }
    if at > 0 || from == 0 {
        Scan::Found(from + at as u64)
    } else {
        Scan::Before(from)
    }
}

/// Where a search stands.
#[derive(Clone, Copy, Debug, PartialEq, Eq, Structural)]
pub enum Phase {
    /// The first record of the file is being read.
    First,
    /// The bounds are being halved.
    Halving,
    /// Records are read one behind the other from the lower bound on.
    Scanning,
}

/// The search for the record that a new cursor hands out first: the state
/// between two reads.
#[derive(Clone, Copy, Debug)]
pub struct Search {
    /// The length of the file.
    pub len: u64,
    /// The start of the window, if any.
    pub start: Option<Timestamp>,
    /// The timestamp of the last record of the file.
    pub last_date: Timestamp,
    pub phase: Phase,
    pub low: u64,
    pub high: u64,
    /// The offset of the probe before the one that is out.
    pub last_mid: u64,
    /// The probes that may still be made behind the one that is out.
    pub probes: u64,
    /// The offset of the read that is out.
    pub probe: u64,
}

/// What a search does next.
pub enum SearchStep {
    /// The record at this offset is to be read.
    Probe(u64),
    /// The search ends on this record.
    Found(SeekableItem),
    /// The search ends without a record.
    Failed,
}

/// What a search does next, as the contracts see it.
pub enum Outcome {
    Probe(int),
    Found(Record),
    Failed,
}

impl View for SearchStep {
    type V = Outcome;

    open spec fn view(&self) -> Outcome {
        match *self {
            SearchStep::Probe(at) => Outcome::Probe(at as int),
            SearchStep::Found(item) => Outcome::Found(item@),
            SearchStep::Failed => Outcome::Failed,
        }
    }
}

/// The search `s` as it goes on with the bounds `low` and `high` after a
/// probe at `mid`: the next probe halves the bounds where they have not
/// met and probes are left; else the records are read from `low` on.
pub open spec fn halved(s: Search, low: u64, high: u64, mid: u64) -> Search {
    if low < high && s.probes > 0 {
        Search {
            phase: Phase::Halving,
            low,
            high,
            last_mid: mid,
            probes: (s.probes - 1) as u64,
            probe: (low + (high - low) / 2) as u64,
            ..s
        }
    } else {
        Search { phase: Phase::Scanning, low, high, last_mid: mid, probe: low, ..s }
    }
}

/// The search `s` after the read that was out gave `found`, with what it
/// does next.
///
/// A read that gives no record ends the search without one. The first
/// record is handed out where no start is given or the start lies before
/// it; there is none where the start lies behind the last record of the
/// file; else the bounds are set to the whole file and halved. A probe
/// moves the lower bound behind a record before the start, the upper bound
/// behind any other, and is followed by reading on from the lower bound
/// where it was made where the probe before it was. Reading on ends with
/// the first record that is not before the start.
pub open spec fn stepped(s: Search, found: Option<Record>) -> (Search, Outcome) {
    match found {
        None => (s, Outcome::Failed),
        Some(item) => match s.phase {
            Phase::First => match s.start {
                None => (s, Outcome::Found(item)),
                Some(start) => if start@ > s.last_date@ {
                    (s, Outcome::Failed)
                } else if start@ >= item.sort@ {
                    let next = halved(Search { probes: MAX_PROBES, ..s }, 0, s.len, s.len);
                    (next, Outcome::Probe(next.probe as int))
                } else {
                    (s, Outcome::Found(item))
                },
            },
            Phase::Halving => {
                let before = s.start is Some && item.sort@ < s.start.unwrap()@;
                let low = if before {
                    item.pos as u64
                } else {
                    s.low
                };
                let high = if before {
                    s.high
                } else {
                    item.pos as u64
                };
                let next = if s.probe == s.last_mid {
                    Search {
                        phase: Phase::Scanning,
                        low,
                        high,
                        last_mid: s.probe,
                        probe: low,
                        ..s
                    }
                } else {
                    halved(s, low, high, s.probe)
                };
                (next, Outcome::Probe(next.probe as int))
            },
            Phase::Scanning => if s.start is None || item.sort@ >= s.start.unwrap()@ {
                (s, Outcome::Found(item))
            } else {
                let next = Search { probe: item.pos as u64, ..s };
                (next, Outcome::Probe(next.probe as int))
            },
        },
    }
}

impl Search {
    /// A search in a file of `len` bytes for the first record not before
    /// `start`, where the last record of the file has the timestamp
    /// `last_date`. It starts with the read of the record at offset 0.
    pub fn new(len: u64, start: Option<Timestamp>, last_date: Timestamp) -> (s: Search)
        ensures
            s == (Search {
                len,
                start,
                last_date,
                phase: Phase::First,
                low: 0,
                high: len,
                last_mid: len,
                probes: MAX_PROBES,
                probe: 0,
            }),
    {
        Search {
            len,
            start,
            last_date,
            phase: Phase::First,
            low: 0,
            high: len,
            last_mid: len,
            probes: MAX_PROBES,
            probe: 0,
        }
    }

    fn halve(&mut self, low: u64, high: u64, mid: u64)
        ensures
            *final(self) == halved(*old(self), low, high, mid),
    {
        self.low = low;
        self.high = high;
        self.last_mid = mid;
        if low < high && self.probes > 0 {
            self.phase = Phase::Halving;
            self.probes = self.probes - 1;
            self.probe = low + (high - low) / 2;
        } else {
            self.phase = Phase::Scanning;
            self.probe = low;
        }
    }

    /// Takes what the read at `self.probe` gave and says what the search
    /// does next.
    pub fn step(&mut self, found: Option<SeekableItem>) -> (r: SearchStep)
        ensures
            (*final(self), r@) == stepped(*old(self), opt_record(found)),
    {
        let item = match found {
            Some(item) => item,
            None => return SearchStep::Failed,
        };
        match self.phase {
            Phase::First => match self.start {
                None => SearchStep::Found(item),
                Some(start) => if start.gt(&self.last_date) {
                    SearchStep::Failed
                } else if start.ge(&item.sort) {
                    self.probes = MAX_PROBES;
                    self.halve(0, self.len, self.len);
                    SearchStep::Probe(self.probe)
                } else {
                    SearchStep::Found(item)
                },
            },
            Phase::Halving => {
                let before = match self.start {
                    Some(start) => item.sort.lt(&start),
                    None => false,
                };
                let low = if before {
                    item.pos
                } else {
                    self.low
                };
                let high = if before {
                    self.high
                } else {
                    item.pos
                };
                if self.probe == self.last_mid {
                    self.phase = Phase::Scanning;
                    self.low = low;
                    self.high = high;
                    self.probe = low;
                } else {
                    self.halve(low, high, self.probe);
                }
                SearchStep::Probe(self.probe)
            },
            Phase::Scanning => {
                let reached = match self.start {
                    Some(start) => !item.sort.lt(&start),
                    None => true,
                };
                if reached {
                    SearchStep::Found(item)
                } else {
                    self.probe = item.pos;
                    SearchStep::Probe(self.probe)
                }
            },
        }
    }
}

} // verus!
