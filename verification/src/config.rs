//! The stored configuration records: Wi-Fi credentials, NTP server and time-zone offset.
//!
//! Each record is a small text file.  Writing produces the file's bytes; reading parses the
//! bytes read back from the file.

use vstd::prelude::*;
use vstd::utf8::{encode_utf8, decode_utf8, valid_utf8, encode_utf8_decode_utf8, encode_utf8_valid_utf8};
use crate::text::{
    bpush, fit, fmt_pieces, trim, utf8_len, count_char, find, occurs_at, is_ws, chars_of,
    bpush_exec, fit_chars, trim_ws, find_chars, count_char_exec, decode_chars, encode_chars, string_of,
    lemma_trim_id, lemma_trim_shorter, lemma_count_char_append, lemma_count_char_absent,
    lemma_find_is, lemma_utf8_len_append, lemma_utf8_len_single,
};
use crate::number::{dec_signed, parse_i32, push_dec_signed, parse_i32_chars, lemma_dec_digits, lemma_parse_dec_signed};

verus! {

broadcast use vstd::seq::group_seq_axioms;

/// Capacity in bytes of each Wi-Fi credential field.
pub const FIELD_CAP: usize = 64;
/// Bytes read from, and at most written to, the Wi-Fi configuration file.
pub const WIFI_FILE_CAP: usize = 128;
/// Bytes read from, and at most written to, the NTP configuration file.
pub const NTP_FILE_CAP: usize = 64;
/// Bytes read from the time-zone configuration file.
pub const TZ_FILE_CAP: usize = 16;

/// Stored Wi-Fi station credentials.
pub struct WifiConfig {
    pub ssid: String,
    pub pass: String,
}

/// Stored NTP server host name.
pub struct NtpConfig {
    pub server: String,
}

/// Stored time-zone offset.
pub struct TzConfig {
    pub offset_minutes: i32,
}

// ---------------------------------------------------------------------------
// Wi-Fi
// ---------------------------------------------------------------------------

/// File text for the credentials: `ssid`, a newline and `pass`, written piece by piece
/// into a 128-byte buffer, stopping at the first piece that does not fit.
pub open spec fn wifi_conf_text(ssid: Seq<char>, pass: Seq<char>) -> Seq<char> {
    fmt_pieces(Seq::empty(), seq![ssid, seq!['\n'], pass], 128)
}

/// The credentials held by a file text: present when the text has exactly one newline;
/// each side is trimmed and kept when it fits 64 bytes (otherwise it is empty).
pub open spec fn wifi_fields(text: Seq<char>) -> Option<(Seq<char>, Seq<char>)> {
    if count_char(text, '\n') != 1 {
        None
    } else {
        match find(text, seq!['\n']) {
            Some(k) => Some((fit(trim(text.take(k)), 64), fit(trim(text.skip(k + 1)), 64))),
            None => None,
        }
    }
}

/// The credentials read back from file bytes.
pub open spec fn wifi_conf_read(bytes: Seq<u8>) -> Option<(Seq<char>, Seq<char>)> {
    if bytes.len() == 0 || !valid_utf8(bytes) {
        None
    } else {
        wifi_fields(decode_utf8(bytes))
    }
}

/// Reading file bytes with two or more newlines aborts the device; such bytes are left out.
pub open spec fn wifi_conf_readable(bytes: Seq<u8>) -> bool {
    valid_utf8(bytes) ==> count_char(decode_utf8(bytes), '\n') <= 1
}

/// The bytes to store for the given credentials.
pub fn wifi_conf_bytes(ssid: &str, pass: &str) -> (b: Vec<u8>)
    ensures
        b@ == encode_utf8(wifi_conf_text(ssid@, pass@)),
        b.len() <= WIFI_FILE_CAP,
{
    let s = chars_of(ssid);
    let p = chars_of(pass);
    let nl = ['\n'];
    assert(nl@ =~= seq!['\n']);
    let mut data: Vec<char> = Vec::new();
    let ghost pieces = seq![ssid@, seq!['\n'], pass@];
    let ghost e = Seq::<char>::empty();
    proof {
        crate::text::lemma_fmt_pieces3(ssid@, seq!['\n'], pass@, 128);
        lemma_utf8_len_append(ssid@, seq!['\n']);
    }
    assert(utf8_len(e) == 0);
    if bpush_exec(&mut data, s.as_slice(), WIFI_FILE_CAP) {
        assert(e + ssid@ =~= ssid@);
        if bpush_exec(&mut data, &nl, WIFI_FILE_CAP) {
            bpush_exec(&mut data, p.as_slice(), WIFI_FILE_CAP);
        }
    }
    assert(data@ == wifi_conf_text(ssid@, pass@));
    proof {
        crate::config::lemma_fmt_pieces_bound(e, pieces, 128);
    }
    encode_chars(data.as_slice())
}

proof fn lemma_fmt_pieces_bound(acc: Seq<char>, pieces: Seq<Seq<char>>, cap: nat)
    requires
        utf8_len(acc) <= cap,
    ensures
        utf8_len(fmt_pieces(acc, pieces, cap)) <= cap,
    decreases pieces.len(),
{
    if pieces.len() > 0 && utf8_len(acc) + utf8_len(pieces[0]) <= cap {
        lemma_utf8_len_append(acc, pieces[0]);
        lemma_fmt_pieces_bound(acc + pieces[0], pieces.drop_first(), cap);
    }
}

/// Number of newline characters in the text encoded by `bytes` (zero when not UTF-8).
pub fn utf8_newlines(bytes: &[u8]) -> (n: usize)
    ensures
        valid_utf8(bytes@) ==> n == count_char(decode_utf8(bytes@), '\n'),
        !valid_utf8(bytes@) ==> n == 0,
{
    match decode_chars(bytes) {
        Some(v) => count_char_exec(v.as_slice(), '\n'),
        None => 0,
    }
}

fn wifi_fields_exec(text: &[char]) -> (r: Option<(Vec<char>, Vec<char>)>)
    ensures
        match r {
            Some((a, b)) => wifi_fields(text@) == Some((a@, b@)),
            None => wifi_fields(text@) is None,
        },
{
    if count_char_exec(text, '\n') != 1 {
        return None;
    }
    let nl = ['\n'];
    assert(nl@ =~= seq!['\n']);
    match find_chars(text, &nl) {
        Some(k) => {
            proof {
                crate::text::lemma_find_spec(text@, nl@);
            }
            assert(occurs_at(text@, nl@, k as int));
            assert(nl@.len() == 1);
            assert(k + 1 <= text.len());
            let before = crate::text::subrange_chars(text, 0, k);
            let after = crate::text::subrange_chars(text, k + 1, text.len());
            assert(before@ =~= text@.take(k as int));
            assert(after@ =~= text@.skip(k + 1));
            let ssid = fit_chars(trim_ws(before.as_slice()).as_slice(), FIELD_CAP);
            let pass = fit_chars(trim_ws(after.as_slice()).as_slice(), FIELD_CAP);
            Some((ssid, pass))
        },
        None => None,
    }
}

/// Parses the bytes read from the Wi-Fi configuration file.
pub fn read_wifi_conf(bytes: &[u8]) -> (r: Option<WifiConfig>)
    requires
        wifi_conf_readable(bytes@),
    ensures
        match r {
            Some(c) => wifi_conf_read(bytes@) == Some((c.ssid@, c.pass@)),
            None => wifi_conf_read(bytes@) is None,
        },
{
    if bytes.len() == 0 {
        return None;
    }
    match decode_chars(bytes) {
        None => None,
        Some(text) => match wifi_fields_exec(text.as_slice()) {
            Some((a, b)) => Some(WifiConfig { ssid: string_of(a.as_slice()), pass: string_of(b.as_slice()) }),
            None => None,
        },
    }
}

/// Credentials survive a write followed by a read when neither holds a newline, both are
/// already trimmed, each fits 64 bytes and together they fit the file buffer.
pub proof fn lemma_wifi_conf_roundtrip(ssid: Seq<char>, pass: Seq<char>)
    requires
        !ssid.contains('\n'),
        !pass.contains('\n'),
        trim(ssid) == ssid,
        trim(pass) == pass,
        utf8_len(ssid) <= 64,
        utf8_len(pass) <= 64,
        utf8_len(ssid) + 1 + utf8_len(pass) <= 128,
    ensures
        wifi_conf_readable(encode_utf8(wifi_conf_text(ssid, pass))),
        wifi_conf_read(encode_utf8(wifi_conf_text(ssid, pass))) == Some((ssid, pass)),
{
    let e = Seq::<char>::empty();
    let nl = seq!['\n'];
    let pieces = seq![ssid, nl, pass];
    lemma_utf8_len_single('\n');
    assert(utf8_len(e) == 0);
    lemma_utf8_len_append(ssid, nl);
    crate::text::lemma_fmt_pieces3(ssid, nl, pass, 128);
    let text = ssid + nl + pass;
    assert(wifi_conf_text(ssid, pass) == text);
    encode_utf8_valid_utf8(text);
    encode_utf8_decode_utf8(text);
    crate::text::lemma_encode_len(text);
    lemma_utf8_len_append(ssid + nl, pass);
    assert(encode_utf8(text).len() > 0);
    lemma_count_char_absent(ssid, '\n');
    lemma_count_char_absent(pass, '\n');
    lemma_count_char_append(ssid, nl, '\n');
    lemma_count_char_append(ssid + nl, pass, '\n');
    crate::text::lemma_count_char_single('\n');
    let k = ssid.len() as int;
    assert(occurs_at(text, nl, k)) by {
        assert(text.subrange(k, k + 1) =~= nl);
    }
    assert forall|j: int| 0 <= j < k implies !occurs_at(text, nl, j) by {
        if occurs_at(text, nl, j) {
            assert(text.subrange(j, j + 1)[0] == text[j]);
            assert(text[j] == ssid[j]);
            assert(ssid.contains('\n'));
        }
    }
    lemma_find_is(text, nl, Some(k));
    assert(text.take(k) =~= ssid);
    assert(text.skip(k + 1) =~= pass);
    assert(e + ssid =~= ssid);
    assert(e + pass =~= pass);
}

// ---------------------------------------------------------------------------
// NTP server
// ---------------------------------------------------------------------------

/// File text for the NTP server: the name when it fits 64 bytes, otherwise nothing.
pub open spec fn ntp_conf_text(server: Seq<char>) -> Seq<char> {
    fit(server, 64)
}

/// The server read back from file bytes: the trimmed text, when there is any valid text.
pub open spec fn ntp_conf_read(bytes: Seq<u8>) -> Option<Seq<char>> {
    if bytes.len() == 0 || !valid_utf8(bytes) {
        None
    } else {
        Some(fit(trim(decode_utf8(bytes)), 64))
    }
}

/// The bytes to store for the NTP server.
pub fn ntp_conf_bytes(server: &str) -> (b: Vec<u8>)
    ensures
        b@ == encode_utf8(ntp_conf_text(server@)),
        b.len() <= NTP_FILE_CAP,
{
    let s = chars_of(server);
    let t = fit_chars(s.as_slice(), FIELD_CAP);
    encode_chars(t.as_slice())
}

/// Parses the bytes read from the NTP configuration file.
pub fn read_ntp_conf(bytes: &[u8]) -> (r: Option<NtpConfig>)
    ensures
        match r {
            Some(c) => ntp_conf_read(bytes@) == Some(c.server@),
            None => ntp_conf_read(bytes@) is None,
        },
{
    if bytes.len() == 0 {
        return None;
    }
    match decode_chars(bytes) {
        None => None,
        Some(text) => {
            let t = fit_chars(trim_ws(text.as_slice()).as_slice(), FIELD_CAP);
            Some(NtpConfig { server: string_of(t.as_slice()) })
        },
    }
}

/// A server name of 1 to 64 bytes is read back as its trimmed form.
pub proof fn lemma_ntp_conf_roundtrip(server: Seq<char>)
    requires
        0 < utf8_len(server) <= 64,
    ensures
        ntp_conf_read(encode_utf8(ntp_conf_text(server))) == Some(trim(server)),
{
    let e = Seq::<char>::empty();
    assert(utf8_len(e) == 0);
    assert(e + server =~= server);
    assert(ntp_conf_text(server) == server);
    encode_utf8_valid_utf8(server);
    encode_utf8_decode_utf8(server);
    crate::text::lemma_encode_len(server);
    lemma_trim_shorter(server);
    assert(e + trim(server) =~= trim(server));
}

// ---------------------------------------------------------------------------
// Time zone
// ---------------------------------------------------------------------------

/// The offset read back from file bytes: the trimmed text parsed as a signed 32-bit numeral.
pub open spec fn tz_conf_read(bytes: Seq<u8>) -> Option<int> {
    if bytes.len() == 0 || !valid_utf8(bytes) {
        None
    } else {
        parse_i32(trim(decode_utf8(bytes)))
    }
}

/// The bytes to store for a time-zone offset: its decimal numeral.
pub fn tz_conf_bytes(offset_minutes: i32) -> (b: Vec<u8>)
    ensures
        b@ == encode_utf8(dec_signed(offset_minutes as int)),
        b.len() <= TZ_FILE_CAP,
{
    let mut t: Vec<char> = Vec::new();
    push_dec_signed(&mut t, offset_minutes as i64);
    assert(t@ =~= dec_signed(offset_minutes as int));
    proof {
        crate::config::lemma_dec_signed_i32_len(offset_minutes);
        crate::text::lemma_ascii_len(t@);
    }
    encode_chars(t.as_slice())
}

spec fn pow10(k: nat) -> nat
    decreases k,
{
    if k == 0 {
        1
    } else {
        10 * pow10((k - 1) as nat)
    }
}

proof fn lemma_dec_len_bound(n: nat, k: nat)
    requires
        k >= 1,
        n < pow10(k),
    ensures
        crate::number::dec(n).len() <= k,
    decreases k,
{
    if n >= 10 {
        assert(n / 10 < pow10((k - 1) as nat));
        lemma_dec_len_bound(n / 10, (k - 1) as nat);
    }
}

proof fn lemma_dec_len(n: nat)
    ensures
        n <= 2147483648 ==> crate::number::dec(n).len() <= 10,
{
    reveal_with_fuel(pow10, 11);
    if n <= 2147483648 {
        lemma_dec_len_bound(n, 10);
    }
}

proof fn lemma_dec_signed_i32_len(v: i32)
    ensures
        dec_signed(v as int).len() <= 11,
        crate::text::all_ascii(dec_signed(v as int)),
{
    if v < 0 {
        lemma_dec_len((-(v as int)) as nat);
        lemma_dec_digits((-(v as int)) as nat);
        let d = crate::number::dec((-(v as int)) as nat);
        assert forall|i: int| 0 <= i < (seq!['-'] + d).len() implies (#[trigger] (seq!['-']
            + d)[i] as u32) < 0x80 by {
            if i > 0 {
                assert((seq!['-'] + d)[i] == d[i - 1]);
            }
        }
    } else {
        lemma_dec_len(v as nat);
        lemma_dec_digits(v as nat);
    }
}

/// Parses the bytes read from the time-zone configuration file.
pub fn read_tz_conf(bytes: &[u8]) -> (r: Option<TzConfig>)
    ensures
        match r {
            Some(c) => tz_conf_read(bytes@) == Some(c.offset_minutes as int),
            None => tz_conf_read(bytes@) is None,
        },
{
    if bytes.len() == 0 {
        return None;
    }
    match decode_chars(bytes) {
        None => None,
        Some(text) => {
            let t = trim_ws(text.as_slice());
            match parse_i32_chars(t.as_slice()) {
                Some(m) => Some(TzConfig { offset_minutes: m }),
                None => None,
            }
        },
    }
}

/// Every offset is read back as itself.
pub proof fn lemma_tz_conf_roundtrip(offset_minutes: i32)
    ensures
        tz_conf_read(encode_utf8(dec_signed(offset_minutes as int))) == Some(offset_minutes as int),
{
    let t = dec_signed(offset_minutes as int);
    encode_utf8_valid_utf8(t);
    encode_utf8_decode_utf8(t);
    crate::text::lemma_encode_len(t);
    lemma_dec_signed_i32_len(offset_minutes);
    let v = offset_minutes as int;
    if v < 0 {
        lemma_dec_digits((-v) as nat);
        let d = crate::number::dec((-v) as nat);
        assert((seq!['-'] + d)[0] == '-');
        assert((seq!['-'] + d).last() == d.last());
        assert(d[d.len() - 1] == d.last());
    } else {
        lemma_dec_digits(v as nat);
        let d = crate::number::dec(v as nat);
        assert(d[d.len() - 1] == d.last());
    }
    lemma_trim_id(t);
    crate::text::lemma_utf8_len_ge_len(t);
    lemma_parse_dec_signed(v, i32::MIN as int, i32::MAX as int);
}

} // verus!
