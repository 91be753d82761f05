//! Merging of timestamp-ordered log files into one chronological stream.
//!
//! A log file is a sequence of newline-terminated lines, each of which starts
//! with a timestamp in one of a few recognized forms ([`date_utils`]). A
//! [`log_seek::Seekable`] is a cursor over the bytes of one file: it finds the
//! first record at or after a requested start time by binary search over byte
//! offsets and then hands out the records one by one. A [`merge::MergeHeap`]
//! holds one cursor per file and emits the oldest pending record of all of
//! them until every file is exhausted. A caller that holds the files open
//! and not their bytes takes the same decisions one read at a time
//! ([`stream`]).
//!
//! What the cursors and the merge do on files whose records are in order is
//! stated and proved in [`log_seek_proofs`] and [`merge_proofs`].

pub mod args;
pub mod date_utils;
pub mod log_seek;
pub mod log_seek_proofs;
pub mod merge;
pub mod merge_proofs;
pub mod order;
pub mod stream;
pub mod text;
pub mod timestamp;
