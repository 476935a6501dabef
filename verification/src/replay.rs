//! Replay of a recorded log at its original cadence.
//!
//! A log holds one record per line, `"<epochMillis>:<payload>"`. The engine
//! takes the first record's timestamp as the reference and emits every
//! record's full original line — timestamp prefix included — once the
//! wall-clock time elapsed since replay start reaches the record's offset
//! from the reference. Timestamps are reproduced verbatim: out-of-order or
//! duplicate timestamps are not sorted or deduplicated; a record stamped
//! before the reference is due immediately.
//!
//! File access and the clock stay outside the library: the replay loop reads
//! lines, parses each with `shallow_parse_data`, and busy-polls `replay_due`
//! with the elapsed time until the record may be emitted.

use vstd::prelude::*;

use crate::errors::ProtocolError;
use crate::floor::line_bytes;
use crate::wire::{dec_value, is_dec, lemma_split_first, parse_u128, split_bytes_spec, COLON};

verus! {

/// The timestamp prefix of a record: the bytes before the first colon, or
/// the whole record if it has none.
pub open spec fn record_prefix(s: Seq<u8>) -> Seq<u8> {
    split_bytes_spec(s, COLON)[0]
}

/// A record whose timestamp prefix is a decimal numeral that fits the
/// timestamp type.
pub open spec fn record_epoch_valid(s: Seq<u8>) -> bool {
    is_dec(record_prefix(s)) && dec_value(record_prefix(s)) <= u128::MAX
}

/// The epoch-millisecond timestamp of a record.
pub open spec fn record_epoch(s: Seq<u8>) -> nat {
    dec_value(record_prefix(s))
}

/// Parses a record just deep enough to read its timestamp, handing the full
/// original line back untouched.
///
/// A record whose prefix before the first colon is not a timestamp is the
/// fatal condition `MalformedRecord`.
pub fn shallow_parse_data(line: String) -> (r: Result<(u128, String), ProtocolError>)
    ensures
        r is Ok <==> record_epoch_valid(line_bytes(line)),
        r matches Ok(p) ==> p.0 as nat == record_epoch(line_bytes(line)) && p.1 == line,
        r is Err ==> r == Err::<(u128, String), ProtocolError>(ProtocolError::MalformedRecord),
{
    let bytes = line.as_str().as_bytes();
    let n = bytes.len();
    let mut i: usize = 0;
    while i < n && bytes[i] != COLON
        invariant
            i <= n,
            n == bytes@.len(),
            forall|t: int| 0 <= t < i ==> bytes@[t] != COLON,
        decreases n - i,
    {
        i += 1;
    }
    proof {
        lemma_split_first(bytes@, COLON, i as int);
    }
    let prefix = vstd::slice::slice_subrange(bytes, 0, i);
    proof {
        assert(prefix@ =~= record_prefix(line_bytes(line)));
    }
    match parse_u128(prefix) {
        Some(epoch) => Ok((epoch, line)),
        None => Err(ProtocolError::MalformedRecord),
    }
}

/// The replay offset of a record relative to the reference timestamp. A
/// record stamped before the reference replays immediately: its offset is
/// zero.
pub fn relative_offset(reference: u128, record: u128) -> (r: u128)
    ensures
        r as int == if record >= reference {
            record - reference
        } else {
            0
        },
{
    if record >= reference {
        record - reference
    } else {
        0
    }
}

/// The pacing decision: a record is due once the wall-clock time elapsed
/// since replay start has reached the record's offset.
pub fn replay_due(elapsed: u128, offset: u128) -> (r: bool)
    ensures
        r == (elapsed >= offset),
{
    elapsed >= offset
}

/// The emission schedule of a whole log: record `i` is due at the offset of
/// its timestamp from the first record's timestamp, so the first record is
/// due immediately and the original relative timing is reproduced.
pub fn replay_offsets(epochs: &Vec<u128>) -> (r: Vec<u128>)
    requires
        epochs@.len() >= 1,
    ensures
        r@.len() == epochs@.len(),
        r@[0] == 0,
        forall|i: int|
            0 <= i < r@.len() ==> (#[trigger] r@[i]) as int == (if epochs@[i] >= epochs@[0] {
                epochs@[i] - epochs@[0]
            } else {
                0
            }),
{
    let reference = epochs[0];
    let mut out: Vec<u128> = Vec::new();
    let mut i: usize = 0;
    while i < epochs.len()
        invariant
            i <= epochs@.len(),
            epochs@.len() >= 1,
            reference == epochs@[0],
            out@.len() == i,
            forall|t: int|
                0 <= t < i ==> (#[trigger] out@[t]) as int == (if epochs@[t] >= epochs@[0] {
                    epochs@[t] - epochs@[0]
                } else {
                    0
                }),
        decreases epochs@.len() - i,
    {
        let off = relative_offset(reference, epochs[i]);
        out.push(off);
        i += 1;
    }
    out
}

/// The producer that replays a recorded log file at its original cadence.
/// The loop that opens the file, reads lines and paces emission runs
/// outside the library against `shallow_parse_data`, `relative_offset` and
/// `replay_due`.
pub struct ReplayFloorMessanger {
    pub filename: String,
}

impl ReplayFloorMessanger {
    /// A replay producer for the given log file.
    pub fn new(filename: String) -> (r: ReplayFloorMessanger)
        ensures
            r.filename == filename,
    {
        ReplayFloorMessanger { filename }
    }
}

} // verus!
