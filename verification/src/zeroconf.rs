//! Zero-configuration networking: the multicast DNS responder for `pico-XXXXXX.local`
//! and the link-local address taken when DHCP does not answer.

use vstd::prelude::*;
use vstd::utf8::encode_utf8;
use crate::text::{chars_of, encode_chars, fmt_concat, fmt_pieces, lemma_fmt_pieces_grows, views};

verus! {

broadcast use vstd::seq::group_seq_axioms;

/// Capacity of the query name buffer, in bytes.
pub const NEEDLE_CAP: usize = 32;

/// The encoded name looked for in queries: a label `pico-` + the short id, then the label
/// `local`, written into a buffer of 32 bytes piece by piece.
pub open spec fn query_needle(short_uid: Seq<char>) -> Seq<char> {
    fmt_pieces(
        Seq::empty(),
        seq!["\x0bpico-"@, short_uid, "\x05local"@],
        NEEDLE_CAP as nat,
    )
}

/// Builds the name looked for in queries, as bytes.
pub fn query_needle_bytes(short_uid: &str) -> (r: Vec<u8>)
    ensures
        r@ == encode_utf8(query_needle(short_uid@)),
        r.len() > 0,
{
    let mut pieces: Vec<Vec<char>> = Vec::new();
    pieces.push(chars_of("\x0bpico-"));
    pieces.push(chars_of(short_uid));
    pieces.push(chars_of("\x05local"));
    let ghost ps = seq!["\x0bpico-"@, short_uid@, "\x05local"@];
    assert(views(pieces@) =~= ps);
    let needle = fmt_concat(&pieces, NEEDLE_CAP);
    proof {
        reveal_strlit("\x0bpico-");
        let p0 = "\x0bpico-"@;
        crate::text::lemma_ascii_len(p0);
        assert(Seq::<char>::empty() + p0 =~= p0);
        lemma_fmt_pieces_grows(p0, ps.drop_first(), NEEDLE_CAP as nat);
    }
    let r = encode_chars(needle.as_slice());
    proof {
        crate::text::lemma_utf8_len_ge_len(needle@);
    }
    r
}

/// Bytes equal when ASCII letter case is ignored (bit 0x20 set on both).
pub open spec fn fold_eq(a: u8, b: u8) -> bool {
    (a | 0x20u8) == (b | 0x20u8)
}

/// `needle` occurs in `data` at `i`, ignoring ASCII letter case.
pub open spec fn matches_at(data: Seq<u8>, needle: Seq<u8>, i: int) -> bool {
    0 <= i && i + needle.len() <= data.len() && forall|j: int|
        0 <= j < needle.len() ==> #[trigger] fold_eq(data[i + j], needle[j])
}

/// `needle` occurs somewhere in `data`, ignoring ASCII letter case.
pub open spec fn contains_folded(data: Seq<u8>, needle: Seq<u8>) -> bool {
    exists|i: int| matches_at(data, needle, i)
}

fn fold_eq_exec(a: u8, b: u8) -> (r: bool)
    ensures
        r == fold_eq(a, b),
{
    (a | 0x20u8) == (b | 0x20u8)
}

fn matches_at_exec(data: &[u8], needle: &[u8], i: usize) -> (r: bool)
    requires
        i + needle.len() <= data.len(),
    ensures
        r == matches_at(data@, needle@, i as int),
{
    let mut j: usize = 0;
    while j < needle.len()
        invariant
            i + needle.len() <= data.len(),
            j <= needle.len(),
            forall|k: int| 0 <= k < j ==> #[trigger] fold_eq(data@[i + k], needle@[k]),
        decreases needle.len() - j,
    {
        if !fold_eq_exec(data[i + j], needle[j]) {
            return false;
        }
        j = j + 1;
    }
    true
}

/// Whether a received datagram asks for our name.  The needle is never empty (its first
/// label always fits).
pub fn query_matches(data: &[u8], needle: &[u8]) -> (r: bool)
    requires
        needle.len() > 0,
    ensures
        r == contains_folded(data@, needle@),
{
    if needle.len() > data.len() {
        return false;
    }
    let last = data.len() - needle.len();
    let mut i: usize = 0;
    while i <= last
        invariant
            last + needle.len() == data.len(),
            i <= last + 1,
            forall|k: int| 0 <= k < i ==> !matches_at(data@, needle@, k),
        decreases last + 1 - i,
    {
        if matches_at_exec(data, needle, i) {
            return true;
        }
        i = i + 1;
    }
    proof {
        assert forall|k: int| !matches_at(data@, needle@, k) by {
            if 0 <= k && k + needle.len() <= data.len() {
                assert(k < i);
            }
        }
    }
    false
}

/// The answer for `pico-<short_uid>.local`: a response header (authoritative, one answer),
/// the name, type A, class IN, TTL 120 s and the four address bytes.
pub open spec fn mdns_answer(short_uid: Seq<u8>, ip: Seq<u8>) -> Seq<u8> {
    seq![0x00u8, 0x00u8, 0x84u8, 0x00u8, 0x00u8, 0x00u8, 0x00u8, 0x01u8, 0x00u8, 0x00u8, 0x00u8, 0x00u8]
        + seq![11u8] + "pico-"@.map_values(|c: char| c as u8) + short_uid + seq![5u8]
        + "local"@.map_values(|c: char| c as u8) + seq![0u8] + seq![
        0x00u8,
        0x01u8,
        0x00u8,
        0x01u8,
    ] + seq![0x00u8, 0x00u8, 0x00u8, 0x78u8] + seq![0x00u8, 0x04u8] + ip
}

fn push_all(out: &mut Vec<u8>, b: &[u8])
    ensures
        final(out)@ == old(out)@ + b@,
{
    let mut i: usize = 0;
    while i < b.len()
        invariant
            i <= b.len(),
            out@ == old(out)@ + b@.take(i as int),
        decreases b.len() - i,
    {
        out.push(b[i]);
        assert(b@.take(i + 1) =~= b@.take(i as int).push(b@[i as int]));
        i = i + 1;
    }
    assert(b@.take(b.len() as int) =~= b@);
}

/// Builds the answer to a query for our name, announcing address `ip`.  The short id is
/// six bytes, the width of its slot in the answer.
pub fn mdns_answer_packet(short_uid: &[u8], ip: [u8; 4]) -> (r: Vec<u8>)
    requires
        short_uid.len() == 6,
    ensures
        r@ == mdns_answer(short_uid@, ip@),
        r.len() == 45,
{
    let mut out: Vec<u8> = Vec::new();
    let head = [0x00u8, 0x00u8, 0x84u8, 0x00u8, 0x00u8, 0x00u8, 0x00u8, 0x01u8, 0x00u8, 0x00u8, 0x00u8, 0x00u8];
    push_all(&mut out, &head);
    out.push(11u8);
    let pico = [0x70u8, 0x69u8, 0x63u8, 0x6fu8, 0x2du8];
    push_all(&mut out, &pico);
    push_all(&mut out, short_uid);
    out.push(5u8);
    let local = [0x6cu8, 0x6fu8, 0x63u8, 0x61u8, 0x6cu8];
    push_all(&mut out, &local);
    out.push(0u8);
    let tail = [0x00u8, 0x01u8, 0x00u8, 0x01u8, 0x00u8, 0x00u8, 0x00u8, 0x78u8, 0x00u8, 0x04u8];
    push_all(&mut out, &tail);
    push_all(&mut out, &ip);
    proof {
        reveal_strlit("pico-");
        reveal_strlit("local");
        assert(pico@ =~= "pico-"@.map_values(|c: char| c as u8));
        assert(local@ =~= "local"@.map_values(|c: char| c as u8));
        assert(out@ =~= mdns_answer(short_uid@, ip@));
    }
    out
}

/// The link-local address taken from the hardware address: 169.254.(mac[4] % 254 + 1).mac[5].
pub open spec fn link_local(mac: Seq<u8>) -> Seq<u8> {
    seq![169u8, 254u8, ((mac[4] % 254) + 1) as u8, mac[5]]
}

/// Computes the link-local address of a hardware address.
pub fn link_local_address(mac: [u8; 6]) -> (r: [u8; 4])
    ensures
        r@ == link_local(mac@),
        1 <= r[2] <= 254,
{
    let b3 = (mac[4] % 254) + 1;
    let r = [169u8, 254u8, b3, mac[5]];
    assert(r@ =~= link_local(mac@));
    r
}

} // verus!
