//! The system log file: the line written for a message and when the file is rotated.

use vstd::prelude::*;
use crate::datetime::{DateTime, datetime_text, push_datetime};
use crate::number::{dec, push_dec};
use crate::text::{encode_chars, push_lit};
use vstd::utf8::encode_utf8;

verus! {

broadcast use vstd::seq::group_seq_axioms;

/// Size beyond which the log is rotated before the next write, in bytes.
pub const MAX_LOG_SIZE: usize = 512000;

/// Whether a log file of `size` bytes is rotated (moved aside) before the next write.
pub open spec fn rotates(size: nat) -> bool {
    size > MAX_LOG_SIZE
}

/// Whether a log file of `size` bytes is rotated (moved aside) before the next write.
pub fn needs_rotation(size: usize) -> (r: bool)
    ensures
        r == rotates(size as nat),
{
    size > MAX_LOG_SIZE
}

/// The two log files after a record is written: the current log, and the rotated one if
/// any.  A current log beyond the threshold replaces the rotated one (whose contents are
/// discarded) and the record starts a new current log; otherwise the record is appended.
pub open spec fn log_files_after(current: Seq<u8>, rotated: Option<Seq<u8>>, record: Seq<u8>) -> (Seq<u8>, Option<Seq<u8>>) {
    if rotates(current.len()) {
        (record, Some(current))
    } else {
        (current + record, rotated)
    }
}

/// Writing a record keeps at most two log files, moves a current log beyond the threshold
/// aside whole, and leaves the current log within the threshold plus the record just written.
pub proof fn lemma_log_rotation(current: Seq<u8>, rotated: Option<Seq<u8>>, record: Seq<u8>)
    ensures
        ({
            let (cur2, rot2) = log_files_after(current, rotated, record);
            &&& cur2.len() <= MAX_LOG_SIZE + record.len()
            &&& rotates(current.len()) ==> cur2 == record && rot2 == Some(current)
            &&& !rotates(current.len()) ==> cur2 == current + record && rot2 == rotated
        }),
{
}

/// The time stamp that starts a log line: `[YYYY-MM-DD hh:mm:ss] ` from the clock when it
/// can be read, otherwise `[<ms> ms] ` with the milliseconds since boot.
pub open spec fn log_stamp(rtc: Option<DateTime>, ms: u64) -> Seq<char> {
    match rtc {
        Some(dt) => "["@ + datetime_text(dt) + "] "@,
        None => "["@ + dec(ms as nat) + " ms] "@,
    }
}

/// The bytes appended to the log for a message: the time stamp, the message, CR LF.
pub open spec fn log_record(rtc: Option<DateTime>, ms: u64, message: Seq<u8>) -> Seq<u8> {
    encode_utf8(log_stamp(rtc, ms)) + message + seq![13u8, 10u8]
}

/// Builds the bytes appended to the log for `message`.
pub fn log_line(rtc: Option<DateTime>, ms: u64, message: &[u8]) -> (r: Vec<u8>)
    ensures
        r@ == log_record(rtc, ms, message@),
{
    let mut stamp: Vec<char> = Vec::new();
    push_lit(&mut stamp, "[");
    match rtc {
        Some(dt) => {
            push_datetime(&mut stamp, &dt);
            push_lit(&mut stamp, "] ");
        },
        None => {
            push_dec(&mut stamp, ms);
            push_lit(&mut stamp, " ms] ");
        },
    }
    let mut out = encode_chars(stamp.as_slice());
    let ghost head = out@;
    let mut i: usize = 0;
    while i < message.len()
        invariant
            i <= message.len(),
            out@ == head + message@.take(i as int),
        decreases message.len() - i,
    {
        out.push(message[i]);
        assert(message@.take(i + 1) =~= message@.take(i as int).push(message@[i as int]));
        i = i + 1;
    }
    assert(message@.take(message.len() as int) =~= message@);
    out.push(13u8);
    out.push(10u8);
    assert(out@ =~= log_record(rtc, ms, message@));
    out
}

} // verus!
