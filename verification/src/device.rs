//! Names derived from the chip id: the id text, the short id used in the network name, and
//! the name and passkey of the setup access point.

use vstd::prelude::*;
use crate::text::{all_ascii, last_bytes, lemma_ascii_byte_suffix, push_lit, string_of, suffix_on_boundary};

verus! {

broadcast use vstd::seq::group_seq_axioms;

/// Uppercase hexadecimal digit of `d` (0..=15).
pub open spec fn hex_char(d: nat) -> char {
    if d < 10 {
        (48 + d) as char
    } else {
        (55 + d) as char
    }
}

/// The last `k` hexadecimal digits of `n`, most significant first, zero-padded.
pub open spec fn hex_digits(n: nat, k: nat) -> Seq<char>
    decreases k,
{
    if k == 0 {
        Seq::empty()
    } else {
        hex_digits(n / 16, (k - 1) as nat).push(hex_char(n % 16))
    }
}

/// The id text: the eight big-endian bytes of the chip id, each as two uppercase hex digits.
pub open spec fn uid_text(uid: u64) -> Seq<char> {
    hex_digits(uid as nat, 16)
}

/// The short id: the last six characters of the id text.
pub open spec fn short_uid(uid: u64) -> Seq<char> {
    uid_text(uid).subrange(10, 16)
}

/// The setup access point's name: `Pico_2W_Shell_` and the last four bytes of the id in hex.
pub open spec fn ap_ssid(uid: u64) -> Seq<char> {
    "Pico_2W_Shell_"@ + uid_text(uid).subrange(8, 16)
}

/// The setup access point's passkey: the last eight characters of the id text.
pub open spec fn ap_passkey(uid: u64) -> Seq<char> {
    uid_text(uid).subrange(8, 16)
}

fn hex_char_exec(d: u64) -> (c: char)
    requires
        d < 16,
    ensures
        c == hex_char(d as nat),
{
    if d < 10 {
        ((48 + d) as u8) as char
    } else {
        ((55 + d) as u8) as char
    }
}

proof fn lemma_hex_digits_len(n: nat, k: nat)
    ensures
        hex_digits(n, k).len() == k,
        all_ascii(hex_digits(n, k)),
    decreases k,
{
    if k > 0 {
        lemma_hex_digits_len(n / 16, (k - 1) as nat);
        let h = hex_digits(n, k);
        assert forall|i: int| 0 <= i < h.len() implies (#[trigger] h[i] as u32) < 0x80 by {
            if i < h.len() - 1 {
                assert(h[i] == hex_digits(n / 16, (k - 1) as nat)[i]);
            }
        }
    }
}

fn push_hex(out: &mut Vec<char>, n: u64, k: usize)
    ensures
        final(out)@ == old(out)@ + hex_digits(n as nat, k as nat),
    decreases k,
{
    if k > 0 {
        push_hex(out, n / 16, k - 1);
        out.push(hex_char_exec(n % 16));
        assert(out@ =~= old(out)@ + hex_digits(n as nat, k as nat));
    } else {
        assert(out@ =~= old(out)@ + hex_digits(n as nat, k as nat));
    }
}

/// The id text of a chip id.
pub fn uid_string(uid: u64) -> (r: String)
    ensures
        r@ == uid_text(uid),
        r@.len() == 16,
        all_ascii(r@),
{
    let mut out: Vec<char> = Vec::new();
    push_hex(&mut out, uid, 16);
    proof {
        lemma_hex_digits_len(uid as nat, 16);
    }
    string_of(out.as_slice())
}

fn tail_of(v: &Vec<char>, from: usize) -> (r: Vec<char>)
    requires
        from <= v.len(),
    ensures
        r@ == v@.subrange(from as int, v.len() as int),
{
    let mut r: Vec<char> = Vec::new();
    let mut i: usize = from;
    while i < v.len()
        invariant
            from <= i <= v.len(),
            r@ == v@.subrange(from as int, i as int),
        decreases v.len() - i,
    {
        r.push(v[i]);
        assert(v@.subrange(from as int, i + 1) =~= v@.subrange(from as int, i as int).push(v@[i as int]));
        i = i + 1;
    }
    r
}

/// The short id of a chip id (six hex digits, ASCII).
pub fn short_uid_string(uid: u64) -> (r: String)
    ensures
        r@ == short_uid(uid),
        r@.len() == 6,
        all_ascii(r@),
{
    let mut out: Vec<char> = Vec::new();
    push_hex(&mut out, uid, 16);
    proof {
        lemma_hex_digits_len(uid as nat, 16);
    }
    let t = tail_of(&out, 10);
    string_of(t.as_slice())
}

/// The name of the setup access point.
pub fn ap_ssid_string(uid: u64) -> (r: String)
    ensures
        r@ == ap_ssid(uid),
{
    let mut out: Vec<char> = Vec::new();
    push_hex(&mut out, uid, 16);
    proof {
        lemma_hex_digits_len(uid as nat, 16);
    }
    let t = tail_of(&out, 8);
    let mut name: Vec<char> = Vec::new();
    push_lit(&mut name, "Pico_2W_Shell_");
    let mut i: usize = 0;
    let ghost head = name@;
    while i < t.len()
        invariant
            i <= t.len(),
            name@ == head + t@.take(i as int),
        decreases t.len() - i,
    {
        name.push(t[i]);
        assert(t@.take(i + 1) =~= t@.take(i as int).push(t@[i as int]));
        i = i + 1;
    }
    assert(t@.take(t.len() as int) =~= t@);
    string_of(name.as_slice())
}

/// The passkey of the setup access point.
pub fn ap_passkey_string(uid: u64) -> (r: String)
    ensures
        r@ == ap_passkey(uid),
{
    let mut out: Vec<char> = Vec::new();
    push_hex(&mut out, uid, 16);
    proof {
        lemma_hex_digits_len(uid as nat, 16);
    }
    let t = tail_of(&out, 8);
    string_of(t.as_slice())
}

/// An uppercase hexadecimal digit: `0`-`9` or `A`-`F`.
pub open spec fn is_hex_digit(c: char) -> bool {
    ('0' <= c && c <= '9') || ('A' <= c && c <= 'F')
}

/// The value of a hexadecimal digit character.
pub open spec fn hex_value(c: char) -> int {
    if '0' <= c && c <= '9' {
        c as int - '0' as int
    } else {
        c as int - 'A' as int + 10
    }
}

/// The number a text of hexadecimal digits denotes, most significant digit first.
pub open spec fn hex_number(s: Seq<char>) -> int
    decreases s.len(),
{
    if s.len() == 0 {
        0
    } else {
        hex_number(s.drop_last()) * 16 + hex_value(s.last())
    }
}

pub open spec fn pow16(k: nat) -> nat
    decreases k,
{
    if k == 0 {
        1
    } else {
        16 * pow16((k - 1) as nat)
    }
}

proof fn lemma_hex_char_digit(d: nat)
    requires
        d < 16,
    ensures
        is_hex_digit(hex_char(d)),
        hex_value(hex_char(d)) == d,
{
}

proof fn lemma_hex_digits_value(n: nat, k: nat)
    requires
        n < pow16(k),
    ensures
        hex_number(hex_digits(n, k)) == n,
        forall|i: int| 0 <= i < hex_digits(n, k).len() ==> is_hex_digit(#[trigger] hex_digits(n, k)[i]),
    decreases k,
{
    lemma_hex_digits_len(n, k);
    if k > 0 {
        let q = n / 16;
        assert(q < pow16((k - 1) as nat)) by (nonlinear_arith)
            requires
                n < 16 * pow16((k - 1) as nat),
                q == n / 16,
        ;
        lemma_hex_digits_value(q, (k - 1) as nat);
        lemma_hex_char_digit(n % 16);
        let h = hex_digits(n, k);
        assert(h.drop_last() =~= hex_digits(q, (k - 1) as nat));
        assert(n == q * 16 + n % 16);
        assert forall|i: int| 0 <= i < h.len() implies is_hex_digit(#[trigger] h[i]) by {
            if i < h.len() - 1 {
                assert(h[i] == hex_digits(q, (k - 1) as nat)[i]);
            }
        }
    } else {
        assert(n == 0);
    }
}

/// The id text is the chip id written in uppercase hexadecimal: all 16 characters are
/// digits `0`-`9` or `A`-`F`, and reading them back in base 16 gives the id.
pub proof fn lemma_uid_text_is_hex(uid: u64)
    ensures
        uid_text(uid).len() == 16,
        forall|i: int| 0 <= i < 16 ==> is_hex_digit(#[trigger] uid_text(uid)[i]),
        hex_number(uid_text(uid)) == uid,
{
    reveal_with_fuel(pow16, 17);
    assert(pow16(16) == 0x1_0000_0000_0000_0000);
    lemma_hex_digits_value(uid as nat, 16);
    lemma_hex_digits_len(uid as nat, 16);
}

/// The id text is 16 ASCII characters, so the short id and the passkey are its last six and
/// eight bytes.
pub proof fn lemma_uid_text_ascii(uid: u64)
    ensures
        uid_text(uid).len() == 16,
        all_ascii(uid_text(uid)),
        short_uid(uid).len() == 6,
        ap_passkey(uid).len() == 8,
{
    lemma_hex_digits_len(uid as nat, 16);
}

/// The passkey that `auth` expects for the id text is the short id of the host name
/// `pico-XXXXXX.local` that `info` shows, and the access point's passkey is the last eight
/// bytes of the id text; cutting the id text there never splits a character.
pub proof fn lemma_passkeys_of_uid(uid: u64)
    ensures
        crate::cli::passkey(uid_text(uid)) == short_uid(uid),
        crate::cli::host_line(uid_text(uid)) == "Hostname: pico-"@ + short_uid(uid) + ".local\r\n"@,
        last_bytes(uid_text(uid), 8) == ap_passkey(uid),
        suffix_on_boundary(uid_text(uid), 6),
        suffix_on_boundary(uid_text(uid), 8),
{
    lemma_hex_digits_len(uid as nat, 16);
    lemma_ascii_byte_suffix(uid_text(uid), 6);
    lemma_ascii_byte_suffix(uid_text(uid), 8);
}

} // verus!
