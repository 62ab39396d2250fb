//! Grouped min/median/max statistics over `name;value` records.
//!
//! The input is a byte stream of newline-terminated lines, each holding a
//! name and a signed fixed-point value with one fractional digit. The
//! library partitions such a stream into line-aligned chunks, scans each
//! chunk into per-name histograms of tenths-values, merges histograms, and
//! renders the per-name minimum, median and maximum, sorted by name.

use vstd::prelude::*;

pub mod hist;
pub mod parse;
pub mod part;
pub mod pipeline;
pub mod render;
pub mod scan;
pub mod table;

verus! {

/// The failures the pipeline can report.
///
/// `MalformedInput`: a value fails the fixed-point grammar, or the byte
/// stream does not end on a newline-aligned boundary within a partition
/// scan window (or holds a non-ASCII byte there).
/// `RecordTooLarge`: a name longer than 100 bytes or a value longer than
/// 6 bytes.
#[derive(Clone, Copy, Debug, PartialEq, Eq, Structural)]
pub enum AggError {
    MalformedInput,
    RecordTooLarge,
}

} // verus!
