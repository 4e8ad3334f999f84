//! The Wi-Fi scan report: the networks found, as a JSON array of at most 2048 bytes, and
//! its transfer in chunks of 64 bytes.

use vstd::prelude::*;
use vstd::utf8::{decode_utf8, valid_utf8};
use crate::number::{dec_signed, push_dec_signed};
use crate::text::{
    append_chars,
    bpush,
    bpush_exec,
    decode_chars,
    push_lit,
    string_of,
    trim,
    trim_ws,
    utf8_len,
    utf8_len_of,
};

verus! {

broadcast use vstd::seq::group_seq_axioms;

/// Capacity of the report, in bytes.
pub const REPORT_CAP: usize = 2048;

/// Size of the chunks the report is sent in.
pub const CHUNK: usize = 64;

/// One network found by a scan.
pub struct ScanEntry {
    /// The network name as broadcast (at most 32 bytes).
    pub ssid: Vec<u8>,
    /// Received signal strength, dBm.
    pub rssi: i16,
}

/// The name shown for a network: its SSID when that is UTF-8, otherwise `Unknown`.
pub open spec fn ssid_text(ssid: Seq<u8>) -> Seq<char> {
    if valid_utf8(ssid) {
        decode_utf8(ssid)
    } else {
        "Unknown"@
    }
}

/// The JSON object of one network: `{"ssid":"<name>","rssi":<rssi>}` (the name is not
/// escaped).
pub open spec fn entry_json(name: Seq<char>, rssi: i16) -> Seq<char> {
    "{\"ssid\":\""@ + name + "\",\"rssi\":"@ + dec_signed(rssi as int) + "}"@
}

/// The report and whether no network has been listed yet, after the entries `es`: a network
/// whose name is blank is skipped; before any other than the first a comma is added (when
/// it fits); its object is added when the report stays under 2046 bytes.
pub open spec fn scan_fold(es: Seq<ScanEntry>) -> (Seq<char>, bool)
    decreases es.len(),
{
    if es.len() == 0 {
        (seq!['['], true)
    } else {
        let (json, first) = scan_fold(es.drop_last());
        let e = es.last();
        let name = ssid_text(e.ssid@);
        if trim(name).len() == 0 {
            (json, first)
        } else {
            let j1 = if first {
                json
            } else {
                bpush(json, ","@, REPORT_CAP as nat)
            };
            let obj = entry_json(name, e.rssi);
            let j2 = if utf8_len(j1) + utf8_len(obj) < REPORT_CAP - 2 {
                j1 + obj
            } else {
                j1
            };
            (j2, false)
        }
    }
}

/// The full report: the listed networks and the closing bracket (when it fits).
pub open spec fn scan_report(es: Seq<ScanEntry>) -> Seq<char> {
    bpush(scan_fold(es).0, "]"@, REPORT_CAP as nat)
}

proof fn lemma_scan_fold_bound(es: Seq<ScanEntry>)
    ensures
        utf8_len(scan_fold(es).0) <= REPORT_CAP,
    decreases es.len(),
{
    if es.len() == 0 {
        crate::text::lemma_utf8_len_single('[');
        assert(seq!['['] =~= Seq::<char>::empty().push('['));
        crate::text::lemma_utf8_len_push(Seq::<char>::empty(), '[');
    } else {
        lemma_scan_fold_bound(es.drop_last());
        let (json, first) = scan_fold(es.drop_last());
        let e = es.last();
        let name = ssid_text(e.ssid@);
        let j1 = if first {
            json
        } else {
            bpush(json, ","@, REPORT_CAP as nat)
        };
        if !first {
            crate::text::lemma_utf8_len_append(json, ","@);
        }
        let obj = entry_json(name, e.rssi);
        crate::text::lemma_utf8_len_append(j1, obj);
    }
}

/// The report never exceeds its 2048-byte buffer, whatever networks are found.
pub proof fn lemma_scan_report_bounded(es: Seq<ScanEntry>)
    ensures
        utf8_len(scan_report(es)) <= REPORT_CAP,
{
    lemma_scan_fold_bound(es);
    crate::text::lemma_utf8_len_append(scan_fold(es).0, "]"@);
}

fn entry_object(name: &[char], rssi: i16) -> (r: Vec<char>)
    ensures
        r@ == entry_json(name@, rssi),
{
    let mut out: Vec<char> = Vec::new();
    push_lit(&mut out, "{\"ssid\":\"");
    append_chars(&mut out, name);
    push_lit(&mut out, "\",\"rssi\":");
    push_dec_signed(&mut out, rssi as i64);
    push_lit(&mut out, "}");
    out
}

/// Builds the scan report from the networks found, in the order they were found.
pub fn scan_json(es: &Vec<ScanEntry>) -> (r: String)
    ensures
        r@ == scan_report(es@),
{
    let mut json: Vec<char> = Vec::new();
    json.push('[');
    assert(json@ =~= seq!['[']);
    let mut first = true;
    let mut i: usize = 0;
    while i < es.len()
        invariant
            i <= es.len(),
            (json@, first) == scan_fold(es@.take(i as int)),
        decreases es.len() - i,
    {
        let ghost prev = es@.take(i as int);
        assert(es@.take(i + 1).drop_last() =~= prev);
        assert(es@.take(i + 1).last() == es@[i as int]);
        proof {
            lemma_scan_fold_bound(prev);
        }
        let e = &es[i];
        let name: Vec<char> = match decode_chars(e.ssid.as_slice()) {
            Some(v) => v,
            None => crate::text::chars_of("Unknown"),
        };
        assert(name@ == ssid_text(e.ssid@));
        let trimmed = trim_ws(name.as_slice());
        if trimmed.len() > 0 {
            if !first {
                let c = [','];
                proof {
                    reveal_strlit(",");
                    assert(c@ =~= ","@);
                }
                bpush_exec(&mut json, &c, REPORT_CAP);
            }
            first = false;
            let obj = entry_object(name.as_slice(), e.rssi);
            let a = utf8_len_of(json.as_slice());
            let b = utf8_len_of(obj.as_slice());
            proof {
                crate::text::lemma_utf8_len_append(json@, obj@);
            }
            if b < REPORT_CAP - 2 && a < REPORT_CAP - 2 - b {
                append_chars(&mut json, obj.as_slice());
            }
        }
        i = i + 1;
    }
    assert(es@.take(es.len() as int) =~= es@);
    let close = [']'];
    proof {
        reveal_strlit("]");
        assert(close@ =~= "]"@);
    }
    bpush_exec(&mut json, &close, REPORT_CAP);
    string_of(json.as_slice())
}

/// The report split for sending: consecutive pieces of 64 bytes, the last one shorter.
pub open spec fn chunk_count(n: nat) -> nat {
    if n == 0 {
        0
    } else {
        ((n - 1) as nat / (CHUNK as nat) + 1) as nat
    }
}

/// The chunks laid end to end.
pub open spec fn joined(cs: Seq<Seq<u8>>) -> Seq<u8>
    decreases cs.len(),
{
    if cs.len() == 0 {
        Seq::empty()
    } else {
        joined(cs.drop_last()) + cs.last()
    }
}

/// Splits `data` into consecutive chunks of 64 bytes (the last may be shorter).
pub fn chunks_of(data: &[u8]) -> (r: Vec<Vec<u8>>)
    ensures
        r.len() == chunk_count(data@.len()),
        joined(r.deep_view()) == data@,
        forall|k: int|
            0 <= k < r.len() ==> #[trigger] r@[k]@ == data@.subrange(
                k * CHUNK,
                if (k + 1) * CHUNK <= data.len() {
                    (k + 1) * CHUNK
                } else {
                    data.len() as int
                },
            ),
{
    let mut r: Vec<Vec<u8>> = Vec::new();
    let mut start: usize = 0;
    while start < data.len()
        invariant
            start <= data.len(),
            start == if r.len() * CHUNK <= data.len() {
                r.len() * CHUNK
            } else {
                data.len() as int
            },
            r.len() == 0 || (r.len() - 1) * CHUNK < data.len(),
            joined(r.deep_view()) == data@.take(start as int),
            forall|k: int|
                0 <= k < r.len() ==> #[trigger] r@[k]@ == data@.subrange(
                    k * CHUNK,
                    if (k + 1) * CHUNK <= data.len() {
                        (k + 1) * CHUNK
                    } else {
                        data.len() as int
                    },
                ),
        decreases data.len() - start,
    {
        let end: usize = if data.len() - start >= CHUNK {
            start + CHUNK
        } else {
            data.len()
        };
        let mut piece: Vec<u8> = Vec::new();
        let mut j: usize = start;
        while j < end
            invariant
                start <= j <= end <= data.len(),
                piece@ == data@.subrange(start as int, j as int),
            decreases end - j,
        {
            piece.push(data[j]);
            assert(data@.subrange(start as int, j + 1) =~= data@.subrange(start as int, j as int).push(
                data@[j as int],
            ));
            j = j + 1;
        }
        let ghost k = r.len() as int;
        let ghost before = r.deep_view();
        let ghost old_r = r@;
        let ghost pv = piece@;
        r.push(piece);
        proof {
            assert(r.deep_view() =~= before.push(pv)) by {
                assert forall|j: int| 0 <= j < r.len() implies #[trigger] r.deep_view()[j]
                    == before.push(pv)[j] by {
                    if j < k {
                        assert(r@[j] == old_r[j]);
                        assert(before[j] == old_r[j]@);
                    }
                }
            }
            assert(r.deep_view().drop_last() =~= before);
            assert(data@.take(end as int) =~= data@.take(start as int) + pv);
        }
        assert(r@[k]@ == data@.subrange(
            k * CHUNK,
            if (k + 1) * CHUNK <= data.len() {
                (k + 1) * CHUNK
            } else {
                data.len() as int
            },
        ));
        start = end;
    }
    assert(r.len() == chunk_count(data@.len()));
    r
}

} // verus!
