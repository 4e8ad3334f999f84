//! Decimal and hexadecimal numerals: formatting and parsing.

use vstd::prelude::*;
use crate::text::{all_ascii, is_ws};

verus! {

broadcast use vstd::seq::group_seq_axioms;

/// The decimal digit character for `d < 10`.
pub open spec fn digit_char(d: nat) -> char {
    (48 + d) as char
}

/// Decimal numeral of `n`, without leading zeros.
pub open spec fn dec(n: nat) -> Seq<char>
    decreases n,
{
    if n < 10 {
        seq![digit_char(n)]
    } else {
        dec(n / 10).push(digit_char(n % 10))
    }
}

/// Decimal numeral of `n`, left-padded with `'0'` to at least `w` characters.
pub open spec fn dec_pad(n: nat, w: nat) -> Seq<char> {
    let d = dec(n);
    if d.len() < w {
        Seq::new((w - d.len()) as nat, |i: int| '0') + d
    } else {
        d
    }
}

/// Decimal numeral of a signed value, with a leading `'-'` when negative.
pub open spec fn dec_signed(v: int) -> Seq<char> {
    if v < 0 {
        seq!['-'] + dec((-v) as nat)
    } else {
        dec(v as nat)
    }
}

pub open spec fn is_digit(c: char) -> bool {
    '0' <= c && c <= '9'
}

pub open spec fn all_digits(s: Seq<char>) -> bool {
    forall|i: int| 0 <= i < s.len() ==> is_digit(#[trigger] s[i])
}

/// Value of a string of decimal digits.
pub open spec fn digits_val(s: Seq<char>) -> nat
    decreases s.len(),
{
    if s.len() == 0 {
        0
    } else {
        digits_val(s.drop_last()) * 10 + ((s.last() as int - 48) as nat)
    }
}

/// Value of a decimal numeral with an optional leading `'+'` (or `'-'` when `signed`),
/// when it lies in `[lo, hi]`.
pub open spec fn parse_int(s: Seq<char>, signed: bool, lo: int, hi: int) -> Option<int> {
    let neg = signed && s.len() > 0 && s[0] == '-';
    let body = if s.len() > 0 && (s[0] == '+' || neg) {
        s.drop_first()
    } else {
        s
    };
    if body.len() == 0 || !all_digits(body) {
        None
    } else {
        let v = if neg {
            -(digits_val(body) as int)
        } else {
            digits_val(body) as int
        };
        if lo <= v && v <= hi {
            Some(v)
        } else {
            None
        }
    }
}

/// Parsing an `i32` numeral.
pub open spec fn parse_i32(s: Seq<char>) -> Option<int> {
    parse_int(s, true, i32::MIN as int, i32::MAX as int)
}

/// Parsing a `usize` numeral.
pub open spec fn parse_usize(s: Seq<char>) -> Option<int> {
    parse_int(s, false, 0, usize::MAX as int)
}

// ---------------------------------------------------------------------------
// Lemmas
// ---------------------------------------------------------------------------

pub proof fn lemma_dec_digits(n: nat)
    ensures
        all_digits(dec(n)),
        digits_val(dec(n)) == n,
        dec(n).len() >= 1,
        all_ascii(dec(n)),
        dec(n)[0] != '-' && dec(n)[0] != '+',
        forall|i: int| 0 <= i < dec(n).len() ==> !is_ws(#[trigger] dec(n)[i]),
    decreases n,
{
    assert(digit_char(n % 10) as int == 48 + n % 10);
    if n < 10 {
        assert(dec(n).drop_last() =~= Seq::<char>::empty());
        assert(dec(n).last() == digit_char(n));
        assert(digits_val(dec(n)) == digits_val(Seq::<char>::empty()) * 10 + n % 10);
    } else {
        lemma_dec_digits(n / 10);
        assert(dec(n).drop_last() =~= dec(n / 10));
        assert(dec(n).last() == digit_char(n % 10));
        assert(digits_val(dec(n)) == digits_val(dec(n / 10)) * 10 + n % 10);
        assert((n / 10) * 10 + n % 10 == n);
        assert forall|i: int| 0 <= i < dec(n).len() implies is_digit(#[trigger] dec(n)[i]) by {
            if i < dec(n).len() - 1 {
                assert(dec(n)[i] == dec(n / 10)[i]);
            }
        }
    }
    assert forall|i: int| 0 <= i < dec(n).len() implies (#[trigger] dec(n)[i] as u32) < 0x80
        && !is_ws(dec(n)[i]) by {
        assert(is_digit(dec(n)[i]));
    }
}

pub proof fn lemma_digits_val_monotone(s: Seq<char>, k: int)
    requires
        0 <= k <= s.len(),
        all_digits(s),
    ensures
        digits_val(s.take(k)) <= digits_val(s),
    decreases s.len() - k,
{
    if k < s.len() {
        lemma_digits_val_monotone(s, k + 1);
        assert(s.take(k + 1).drop_last() =~= s.take(k));
        assert(is_digit(s[k]));
    } else {
        assert(s.take(k) =~= s);
    }
}

/// Reading back the numeral of a signed value gives the value.
pub proof fn lemma_parse_dec_signed(v: int, lo: int, hi: int)
    requires
        lo <= v <= hi,
    ensures
        parse_int(dec_signed(v), true, lo, hi) == Some(v),
{
    if v < 0 {
        let d = dec((-v) as nat);
        lemma_dec_digits((-v) as nat);
        assert((seq!['-'] + d).drop_first() =~= d);
    } else {
        lemma_dec_digits(v as nat);
    }
}

// ---------------------------------------------------------------------------
// Formatting
// ---------------------------------------------------------------------------

/// Appends the decimal numeral of `n`.
pub fn push_dec(out: &mut Vec<char>, n: u64)
    ensures
        final(out)@ == old(out)@ + dec(n as nat),
    decreases n,
{
    if n >= 10 {
        push_dec(out, n / 10);
    }
    let d = (n % 10) as u8;
    let c = (48u8 + d) as char;
    assert(c == digit_char((n % 10) as nat));
    out.push(c);
    proof {
        if n < 10 {
            assert(old(out)@.push(c) =~= old(out)@ + dec(n as nat));
        } else {
            assert(old(out)@ + dec(n as nat) =~= (old(out)@ + dec((n / 10) as nat)).push(c));
        }
    }
}

/// Appends the decimal numeral of `n`, zero-padded to at least `w` characters.
pub fn push_dec_pad(out: &mut Vec<char>, n: u64, w: usize)
    ensures
        final(out)@ == old(out)@ + dec_pad(n as nat, w as nat),
{
    let mut d: Vec<char> = Vec::new();
    push_dec(&mut d, n);
    assert(d@ =~= dec(n as nat));
    if d.len() < w {
        let pad = w - d.len();
        let mut i: usize = 0;
        let ghost o = out@;
        while i < pad
            invariant
                i <= pad,
                out@ == o + Seq::new(i as nat, |k: int| '0'),
            decreases pad - i,
        {
            out.push('0');
            assert(Seq::new((i + 1) as nat, |k: int| '0') =~= Seq::new(i as nat, |k: int| '0').push('0'));
            i = i + 1;
        }
        let ghost mid = out@;
        let mut j: usize = 0;
        while j < d.len()
            invariant
                j <= d.len(),
                out@ == mid + d@.take(j as int),
            decreases d.len() - j,
        {
            out.push(d[j]);
            assert(d@.take(j + 1) =~= d@.take(j as int).push(d@[j as int]));
            j = j + 1;
        }
        assert(d@.take(d.len() as int) =~= d@);
        assert(out@ =~= old(out)@ + dec_pad(n as nat, w as nat));
    } else {
        let ghost o = out@;
        let mut j: usize = 0;
        while j < d.len()
            invariant
                j <= d.len(),
                out@ == o + d@.take(j as int),
            decreases d.len() - j,
        {
            out.push(d[j]);
            assert(d@.take(j + 1) =~= d@.take(j as int).push(d@[j as int]));
            j = j + 1;
        }
        assert(d@.take(d.len() as int) =~= d@);
    }
}

/// Appends the decimal numeral of a signed value.
pub fn push_dec_signed(out: &mut Vec<char>, v: i64)
    ensures
        final(out)@ == old(out)@ + dec_signed(v as int),
{
    if v < 0 {
        out.push('-');
        let m: u64 = if v == i64::MIN {
            9223372036854775808u64
        } else {
            (-v) as u64
        };
        push_dec(out, m);
        assert(old(out)@ + dec_signed(v as int) =~= old(out)@.push('-') + dec(m as nat));
    } else {
        push_dec(out, v as u64);
    }
}

// ---------------------------------------------------------------------------
// Parsing
// ---------------------------------------------------------------------------

proof fn lemma_step_bound(acc: u64, d: u64, limit: u64)
    requires
        d <= 9,
        d <= limit,
    ensures
        (acc <= (limit - d) / 10) <==> (acc * 10 + d <= limit),
{
    assert((acc <= (limit - d) / 10) <==> (acc * 10 + d <= limit)) by (nonlinear_arith)
        requires
            d <= 9,
            d <= limit,
    ;
}

/// Value of a string of decimal digits when it does not exceed `limit`.
fn digits_value_upto(s: &[char], start: usize, limit: u64) -> (r: Option<u64>)
    requires
        start <= s.len(),
        all_digits(s@.skip(start as int)),
    ensures
        match r {
            Some(v) => v == digits_val(s@.skip(start as int)) && v <= limit,
            None => digits_val(s@.skip(start as int)) > limit,
        },
{
    let ghost body = s@.skip(start as int);
    let mut acc: u64 = 0;
    let mut i: usize = start;
    assert(body.take(0) =~= Seq::<char>::empty());
    while i < s.len()
        invariant
            start <= i <= s.len(),
            body == s@.skip(start as int),
            all_digits(body),
            acc == digits_val(body.take(i - start)),
            acc <= limit,
        decreases s.len() - i,
    {
        let c = s[i];
        assert(body[i - start] == c);
        assert(is_digit(c));
        let d: u64 = (c as u32 - 48) as u64;
        assert(body.take(i + 1 - start).drop_last() =~= body.take(i - start));
        assert(body.take(i + 1 - start).last() == c);
        if d > limit {
            proof {
                lemma_digits_val_monotone(body, i + 1 - start);
            }
            return None;
        }
        proof {
            lemma_step_bound(acc, d, limit);
        }
        if acc > (limit - d) / 10 {
            proof {
                lemma_digits_val_monotone(body, i + 1 - start);
            }
            return None;
        }
        acc = acc * 10 + d;
        i = i + 1;
    }
    assert(body.take(s.len() - start) =~= body);
    Some(acc)
}

fn all_digits_from(s: &[char], start: usize) -> (r: bool)
    requires
        start <= s.len(),
    ensures
        r == all_digits(s@.skip(start as int)),
{
    let mut i = start;
    while i < s.len()
        invariant
            start <= i <= s.len(),
            forall|k: int| start <= k < i ==> is_digit(#[trigger] s@[k]),
        decreases s.len() - i,
    {
        let c = s[i];
        if !(c >= '0' && c <= '9') {
            assert(!is_digit(s@.skip(start as int)[i - start]));
            return false;
        }
        i = i + 1;
    }
    assert forall|k: int| 0 <= k < s@.skip(start as int).len() implies is_digit(
        #[trigger] s@.skip(start as int)[k],
    ) by {
        assert(s@.skip(start as int)[k] == s@[start + k]);
    }
    true
}

/// Parses a signed 32-bit decimal numeral.
pub fn parse_i32_chars(s: &[char]) -> (r: Option<i32>)
    ensures
        match r {
            Some(v) => parse_i32(s@) == Some(v as int),
            None => parse_i32(s@) is None,
        },
{
    let neg = s.len() > 0 && s[0] == '-';
    let start: usize = if s.len() > 0 && (s[0] == '+' || neg) {
        1
    } else {
        0
    };
    assert(start == 1 ==> s@.skip(1) =~= s@.drop_first());
    assert(start == 0 ==> s@.skip(0) =~= s@);
    if start == s.len() || !all_digits_from(s, start) {
        return None;
    }
    match digits_value_upto(s, start, 2147483648u64) {
        None => None,
        Some(m) => {
            if neg {
                if m == 2147483648u64 {
                    Some(i32::MIN)
                } else {
                    Some(-(m as i32))
                }
            } else if m <= 2147483647u64 {
                Some(m as i32)
            } else {
                None
            }
        },
    }
}

/// Parses an unsigned machine-word decimal numeral.
pub fn parse_usize_chars(s: &[char]) -> (r: Option<usize>)
    ensures
        match r {
            Some(v) => parse_usize(s@) == Some(v as int),
            None => parse_usize(s@) is None,
        },
{
    let start: usize = if s.len() > 0 && s[0] == '+' {
        1
    } else {
        0
    };
    assert(start == 1 ==> s@.skip(1) =~= s@.drop_first());
    assert(start == 0 ==> s@.skip(0) =~= s@);
    if start == s.len() || !all_digits_from(s, start) {
        return None;
    }
    match digits_value_upto(s, start, usize::MAX as u64) {
        None => None,
        Some(m) => Some(m as usize),
    }
}

} // verus!
