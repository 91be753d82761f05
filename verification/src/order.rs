//! The order in which cursors are served: the one whose pending record is
//! oldest ranks greatest, and a cursor with no record left ranks least.

use crate::log_seek::{Cursor, Record, Seekable, SeekableItem};
use std::cmp::Ordering;
use vstd::prelude::*;
use vstd::std_specs::cmp::{PartialEqSpecImpl, PartialOrdSpecImpl};

verus! {

/// `a` is older than `b`.
pub open spec fn older(a: Record, b: Record) -> bool {
    a.sort@ < b.sort@
}

/// `a` is served before `b`: it has a pending record, and `b` has none or a
/// younger one.
pub open spec fn comes_before(a: Cursor, b: Cursor) -> bool {
    match (a.pending, b.pending) {
        (Some(x), Some(y)) => older(x, y),
        (Some(_), None) => true,
        (None, _) => false,
    }
}

/// The rank of `a` against `b`: the older record is the greater.
pub open spec fn item_rank(a: Record, b: Record) -> Ordering {
    if older(a, b) {
        Ordering::Greater
    } else if older(b, a) {
        Ordering::Less
    } else {
        Ordering::Equal
    }
}

/// The rank of `a` against `b`: the cursor that is served first is the
/// greater.
pub open spec fn cursor_rank(a: Cursor, b: Cursor) -> Ordering {
    if comes_before(a, b) {
        Ordering::Greater
    } else if comes_before(b, a) {
        Ordering::Less
    } else {
        Ordering::Equal
    }
}

/// Two records are equal in rank where their timestamps are.
impl PartialEq for SeekableItem {
    fn eq(&self, other: &SeekableItem) -> (r: bool) {
        self.sort == other.sort
    }
}

impl PartialEqSpecImpl for SeekableItem {
    open spec fn obeys_eq_spec() -> bool {
        true
    }

    open spec fn eq_spec(&self, other: &SeekableItem) -> bool {
        self.sort == other.sort
    }
}

impl Eq for SeekableItem {

}

impl PartialOrd for SeekableItem {
    fn partial_cmp(&self, other: &SeekableItem) -> (o: Option<Ordering>) {
        Some(self.cmp(other))
    }
}

impl PartialOrdSpecImpl for SeekableItem {
    open spec fn obeys_partial_cmp_spec() -> bool {
        true
    }

    open spec fn partial_cmp_spec(&self, other: &SeekableItem) -> Option<Ordering> {
        Some(item_rank(self@, other@))
    }
}

impl SeekableItem {
    /// Ranks by timestamp, the older record greater.
    pub fn cmp(&self, other: &SeekableItem) -> (o: Ordering)
        ensures
            o == item_rank(self@, other@),
    {
        if self.sort.lt(&other.sort) {
            Ordering::Greater
        } else if other.sort.lt(&self.sort) {
            Ordering::Less
        } else {
            Ordering::Equal
        }
    }
}

/// Whether two cursors are equal in rank: both have no record left, or
/// both have one and the timestamps of the two are equal.
pub open spec fn same_rank(a: Cursor, b: Cursor) -> bool {
    match (a.pending, b.pending) {
        (Some(x), Some(y)) => x.sort == y.sort,
        (None, None) => true,
        _ => false,
    }
}

impl PartialEq for Seekable {
    fn eq(&self, other: &Seekable) -> (r: bool) {
        match &self.next {
            Some(next) => match &other.next {
                Some(other_next) => next.sort == other_next.sort,
                None => false,
            },
            None => other.next.is_none(),
        }
    }
}

impl PartialEqSpecImpl for Seekable {
    open spec fn obeys_eq_spec() -> bool {
        true
    }

    open spec fn eq_spec(&self, other: &Seekable) -> bool {
        same_rank(self@, other@)
    }
}

impl Eq for Seekable {

}

impl PartialOrd for Seekable {
    fn partial_cmp(&self, other: &Seekable) -> (o: Option<Ordering>) {
        Some(self.cmp(other))
    }
}

impl PartialOrdSpecImpl for Seekable {
    open spec fn obeys_partial_cmp_spec() -> bool {
        true
    }

    open spec fn partial_cmp_spec(&self, other: &Seekable) -> Option<Ordering> {
        Some(cursor_rank(self@, other@))
    }
}

impl Seekable {

    /// Ranks by the pending records, the cursor that is served first
    /// greater.
    pub fn cmp(&self, other: &Seekable) -> (o: Ordering)
        ensures
            o == cursor_rank(self@, other@),
    {
        match &self.next {
            Some(next) => match &other.next {
                Some(other_next) => next.cmp(other_next),
                None => Ordering::Greater,
            },
            None => match &other.next {
                Some(_) => Ordering::Less,
                None => Ordering::Equal,
            },
        }
    }

    /// Whether `self` is served before `other`.
    pub fn precedes(&self, other: &Seekable) -> (r: bool)
        ensures
            r == comes_before(self@, other@),
    {
        match self.cmp(other) {
            Ordering::Greater => true,
            _ => false,
        }
    }
}

} // verus!
