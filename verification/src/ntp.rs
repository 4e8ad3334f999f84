//! The SNTP client: the request packet, the transmit time of a reply, and what a
//! synchronisation sets the clock to and records.

use vstd::prelude::*;
use crate::config::NtpConfig;
use crate::datetime::{
    DateTime,
    datetime_text,
    ntp_local_time,
    ntp_to_local,
    push_datetime,
    unix_seconds,
    unix_to_datetime,
    valid_civil,
};
use crate::text::{push_lit, string_of, text};

verus! {

broadcast use vstd::seq::group_seq_axioms;

/// Length of an SNTP packet without extensions.
pub const NTP_PACKET_LEN: usize = 48;

/// The client request: leap indicator 0, version 3, mode 3 (client), everything else zero.
pub open spec fn ntp_request_spec() -> Seq<u8> {
    seq![0x1Bu8] + Seq::new(47, |k: int| 0u8)
}

/// Builds the client request packet.
pub fn ntp_request() -> (p: Vec<u8>)
    ensures
        p@ == ntp_request_spec(),
        p.len() == NTP_PACKET_LEN,
{
    let mut p: Vec<u8> = Vec::new();
    p.push(0x1Bu8);
    let mut k: usize = 1;
    while k < 48
        invariant
            1 <= k <= 48,
            p@ == seq![0x1Bu8] + Seq::new((k - 1) as nat, |j: int| 0u8),
        decreases 48 - k,
    {
        p.push(0u8);
        assert(Seq::new(k as nat, |j: int| 0u8) =~= Seq::new((k - 1) as nat, |j: int| 0u8).push(0u8));
        k = k + 1;
    }
    p
}

/// A big-endian 32-bit number.
pub open spec fn be_u32(b: Seq<u8>) -> int {
    b[0] * 0x100_0000 + b[1] * 0x1_0000 + b[2] * 0x100 + b[3]
}

/// The seconds of the transmit timestamp (bytes 40..44) of a reply of `n` bytes held in
/// `resp`; `None` when the reply is shorter than a full packet.
pub fn transmit_seconds(resp: &[u8], n: usize) -> (r: Option<u32>)
    requires
        n <= resp.len(),
    ensures
        r is Some <==> n >= NTP_PACKET_LEN,
        r matches Some(s) ==> s == be_u32(resp@.subrange(40, 44)),
{
    if n >= NTP_PACKET_LEN {
        let b0 = resp[40] as u32;
        let b1 = resp[41] as u32;
        let b2 = resp[42] as u32;
        let b3 = resp[43] as u32;
        Some(b0 * 0x100_0000 + b1 * 0x1_0000 + b2 * 0x100 + b3)
    } else {
        None
    }
}

/// The server asked when none is configured.
pub open spec fn default_ntp_server() -> Seq<char> {
    "pool.ntp.org"@
}

/// The server to synchronise with: the configured one, or `pool.ntp.org`.
pub fn ntp_server(conf: &Option<NtpConfig>) -> (r: String)
    ensures
        r@ == match conf {
            Some(c) => c.server@,
            None => default_ntp_server(),
        },
{
    match conf {
        Some(c) => c.server.clone(),
        None => text("pool.ntp.org"),
    }
}

/// The log line of a synchronisation: `NTP Sync: YYYY-MM-DD hh:mm:ss UTC`, or `Local` in
/// place of `UTC` when a time-zone offset was applied.
pub open spec fn ntp_sync_message(dt: DateTime, local: bool) -> Seq<char> {
    "NTP Sync: "@ + datetime_text(dt) + " "@ + if local {
        "Local"@
    } else {
        "UTC"@
    }
}

/// Builds the log line of a synchronisation.
pub fn ntp_sync_text(dt: &DateTime, local: bool) -> (r: String)
    ensures
        r@ == ntp_sync_message(*dt, local),
{
    let mut out: Vec<char> = Vec::new();
    push_lit(&mut out, "NTP Sync: ");
    push_datetime(&mut out, dt);
    push_lit(&mut out, " ");
    if local {
        push_lit(&mut out, "Local");
    } else {
        push_lit(&mut out, "UTC");
    }
    string_of(out.as_slice())
}

/// What a reply with transmit time `ts` (NTP seconds) does, given the configured time-zone
/// offset in minutes: `None` for a time not after 1970; otherwise the date and time the
/// clock is set to (the local time, 32-bit wrapping) and the line that is logged.
pub fn ntp_sync_outcome(ts: u32, tz: Option<i32>) -> (r: Option<(DateTime, String)>)
    ensures
        r is Some <==> ntp_local_time(ts, tz) is Some,
        r matches Some((dt, msg)) ==> {
            &&& valid_civil(dt)
            &&& ntp_local_time(ts, tz) == Some(unix_seconds(dt) as u32)
            &&& 0 <= unix_seconds(dt) < 0x1_0000_0000
            &&& msg@ == ntp_sync_message(dt, tz is Some)
        },
{
    match ntp_to_local(ts, tz) {
        None => None,
        Some((t, local)) => match unix_to_datetime(t) {
            Some(dt) => {
                let msg = ntp_sync_text(&dt, local);
                Some((dt, msg))
            },
            None => None,
        },
    }
}

} // verus!
