//! Character-level text utilities with exact specifications over `Seq<char>`.

use vstd::prelude::*;
use vstd::string::*;
use vstd::utf8::*;

verus! {

broadcast use vstd::seq::group_seq_axioms;

// ---------------------------------------------------------------------------
// UTF-8 byte length
// ---------------------------------------------------------------------------

/// Number of bytes of the UTF-8 encoding of one character.
pub open spec fn char_width(c: char) -> nat {
    if (c as u32) < 0x80 {
        1
    } else if (c as u32) < 0x800 {
        2
    } else if (c as u32) < 0x10000 {
        3
    } else {
        4
    }
}

/// Number of bytes of the UTF-8 encoding of a character sequence.
pub open spec fn utf8_len(s: Seq<char>) -> nat
    decreases s.len(),
{
    if s.len() == 0 {
        0
    } else {
        char_width(s[0]) + utf8_len(s.drop_first())
    }
}

pub proof fn lemma_utf8_len_append(a: Seq<char>, b: Seq<char>)
    ensures
        utf8_len(a + b) == utf8_len(a) + utf8_len(b),
    decreases a.len(),
{
    if a.len() == 0 {
        assert(a + b =~= b);
    } else {
        assert((a + b).drop_first() =~= a.drop_first() + b);
        lemma_utf8_len_append(a.drop_first(), b);
    }
}

pub proof fn lemma_utf8_len_single(c: char)
    ensures
        utf8_len(seq![c]) == char_width(c),
{
    assert(seq![c].drop_first() =~= Seq::<char>::empty());
    assert(utf8_len(seq![c]) == char_width(seq![c][0]) + utf8_len(seq![c].drop_first()));
    assert(utf8_len(Seq::<char>::empty()) == 0);
}

pub proof fn lemma_utf8_len_push(a: Seq<char>, c: char)
    ensures
        utf8_len(a.push(c)) == utf8_len(a) + char_width(c),
{
    lemma_utf8_len_append(a, seq![c]);
    assert(a.push(c) =~= a + seq![c]);
    assert(seq![c].drop_first() =~= Seq::<char>::empty());
    assert(utf8_len(seq![c]) == char_width(seq![c][0]) + utf8_len(seq![c].drop_first()));
    assert(utf8_len(Seq::<char>::empty()) == 0);
}

pub proof fn lemma_utf8_len_ge_len(s: Seq<char>)
    ensures
        utf8_len(s) >= s.len(),
        utf8_len(s) <= 4 * s.len(),
    decreases s.len(),
{
    if s.len() > 0 {
        lemma_utf8_len_ge_len(s.drop_first());
    }
}

/// The byte length used here is the length of the UTF-8 encoding.
pub proof fn lemma_encode_len(s: Seq<char>)
    ensures
        encode_utf8(s).len() == utf8_len(s),
    decreases s.len(),
{
    if s.len() > 0 {
        char_is_scalar(s[0]);
        lemma_encode_len(s.drop_first());
    }
}

/// All characters are ASCII.
pub open spec fn all_ascii(s: Seq<char>) -> bool {
    forall|i: int| 0 <= i < s.len() ==> (#[trigger] s[i] as u32) < 0x80
}

pub proof fn lemma_ascii_len(s: Seq<char>)
    requires
        all_ascii(s),
    ensures
        utf8_len(s) == s.len(),
    decreases s.len(),
{
    if s.len() > 0 {
        assert(s[0] as u32 == s[0] as u32);
        assert forall|i: int| 0 <= i < s.drop_first().len() implies (#[trigger] s.drop_first()[i]
            as u32) < 0x80 by {
            assert(s.drop_first()[i] == s[i + 1]);
        }
        lemma_ascii_len(s.drop_first());
    }
}

/// Byte width of one character.
pub fn char_utf8_width(c: char) -> (w: usize)
    ensures
        w == char_width(c),
{
    let v = c as u32;
    if v < 0x80 {
        1
    } else if v < 0x800 {
        2
    } else if v < 0x10000 {
        3
    } else {
        4
    }
}

/// The characters of a string.
pub fn chars_of(s: &str) -> (v: Vec<char>)
    ensures
        v@ == s@,
{
    let mut v: Vec<char> = Vec::new();
    for c in it: s.chars()
        invariant
            it.seq() == s@,
            v@ == it.seq().take(it.index() as int),
    {
        v.push(c);
    }
    v
}

/// `String::push` of std: appends one character.  Claimed: the string's characters after
/// the call are those before it followed by `c`.
#[verifier::external_body]
fn string_push(s: &mut String, c: char)
    ensures
        final(s)@ == old(s)@.push(c),
{
    s.push(c);
}

/// A `String` holding the given characters.
pub fn string_of(v: &[char]) -> (s: String)
    ensures
        s@ == v@,
{
    let mut s = String::new();
    let mut i: usize = 0;
    while i < v.len()
        invariant
            i <= v.len(),
            s@ == v@.take(i as int),
        decreases v.len() - i,
    {
        string_push(&mut s, v[i]);
        assert(v@.take(i + 1) =~= v@.take(i as int).push(v@[i as int]));
        i = i + 1;
    }
    assert(v@.take(v.len() as int) =~= v@);
    s
}

/// Appends characters to a `String`.
pub fn push_chars(s: &mut String, v: &[char])
    ensures
        final(s)@ == old(s)@ + v@,
{
    let mut i: usize = 0;
    while i < v.len()
        invariant
            i <= v.len(),
            s@ == old(s)@ + v@.take(i as int),
        decreases v.len() - i,
    {
        string_push(s, v[i]);
        assert(v@.take(i + 1) =~= v@.take(i as int).push(v@[i as int]));
        i = i + 1;
    }
    assert(v@.take(v.len() as int) =~= v@);
}

/// Appends a string slice to a `String`.
pub fn push_str(s: &mut String, t: &str)
    ensures
        final(s)@ == old(s)@ + t@,
{
    let v = chars_of(t);
    push_chars(s, v.as_slice());
}

/// Byte length of a character slice (saturating at `usize::MAX`).
pub fn utf8_len_of(v: &[char]) -> (n: usize)
    ensures
        n as nat == if utf8_len(v@) <= usize::MAX { utf8_len(v@) } else { usize::MAX as nat },
{
    let mut n: usize = 0;
    let mut i: usize = 0;
    while i < v.len()
        invariant
            i <= v.len(),
            n as nat == if utf8_len(v@.take(i as int)) <= usize::MAX {
                utf8_len(v@.take(i as int))
            } else {
                usize::MAX as nat
            },
        decreases v.len() - i,
    {
        proof {
            assert(v@.take(i + 1) =~= v@.take(i as int).push(v@[i as int]));
            lemma_utf8_len_push(v@.take(i as int), v@[i as int]);
        }
        let w = char_utf8_width(v[i]);
        if n > usize::MAX - w {
            n = usize::MAX;
        } else {
            n = n + w;
        }
        i = i + 1;
    }
    assert(v@.take(v.len() as int) =~= v@);
    n
}

/// Element-wise equality of two character slices.
pub fn chars_eq(a: &[char], b: &[char]) -> (r: bool)
    ensures
        r == (a@ == b@),
{
    if a.len() != b.len() {
        return false;
    }
    let mut i: usize = 0;
    while i < a.len()
        invariant
            a.len() == b.len(),
            i <= a.len(),
            forall|j: int| 0 <= j < i ==> a@[j] == b@[j],
        decreases a.len() - i,
    {
        if a[i] != b[i] {
            return false;
        }
        i = i + 1;
    }
    assert(a@ =~= b@);
    true
}

/// Equality of the characters of a string slice with a character slice.
pub fn str_eq_chars(a: &str, b: &[char]) -> (r: bool)
    ensures
        r == (a@ == b@),
{
    let v = chars_of(a);
    chars_eq(v.as_slice(), b)
}


// ---------------------------------------------------------------------------
// Whitespace and trimming
// ---------------------------------------------------------------------------

/// Characters with the Unicode `White_Space` property.
pub open spec fn is_ws(c: char) -> bool {
    let v = c as u32;
    (0x09 <= v && v <= 0x0D) || v == 0x20 || v == 0x85 || v == 0xA0 || v == 0x1680 || (0x2000
        <= v && v <= 0x200A) || v == 0x2028 || v == 0x2029 || v == 0x202F || v == 0x205F || v
        == 0x3000
}

/// Whether a character has the Unicode `White_Space` property.
pub fn is_whitespace(c: char) -> (r: bool)
    ensures
        r == is_ws(c),
{
    let v = c as u32;
    (0x09 <= v && v <= 0x0D) || v == 0x20 || v == 0x85 || v == 0xA0 || v == 0x1680 || (0x2000
        <= v && v <= 0x200A) || v == 0x2028 || v == 0x2029 || v == 0x202F || v == 0x205F || v
        == 0x3000
}

/// Number of leading characters that are whitespace (`nul == false`) or NUL (`nul == true`).
pub open spec fn lead_count(s: Seq<char>, nul: bool) -> nat
    decreases s.len(),
{
    if s.len() > 0 && (if nul { s[0] == '\0' } else { is_ws(s[0]) }) {
        1 + lead_count(s.drop_first(), nul)
    } else {
        0
    }
}

/// Number of trailing characters that are whitespace (`nul == false`) or NUL (`nul == true`).
pub open spec fn trail_count(s: Seq<char>, nul: bool) -> nat
    decreases s.len(),
{
    if s.len() > 0 && (if nul { s.last() == '\0' } else { is_ws(s.last()) }) {
        1 + trail_count(s.drop_last(), nul)
    } else {
        0
    }
}

/// `s` with leading and trailing whitespace (or NUL characters) removed.
pub open spec fn trim_by(s: Seq<char>, nul: bool) -> Seq<char> {
    let t = s.skip(lead_count(s, nul) as int);
    t.take(t.len() - trail_count(t, nul))
}

/// `s` with leading and trailing Unicode whitespace removed.
pub open spec fn trim(s: Seq<char>) -> Seq<char> {
    trim_by(s, false)
}

pub proof fn lemma_lead_count_bound(s: Seq<char>, nul: bool)
    ensures
        lead_count(s, nul) <= s.len(),
    decreases s.len(),
{
    if s.len() > 0 {
        lemma_lead_count_bound(s.drop_first(), nul);
    }
}

pub proof fn lemma_trail_count_bound(s: Seq<char>, nul: bool)
    ensures
        trail_count(s, nul) <= s.len(),
    decreases s.len(),
{
    if s.len() > 0 {
        lemma_trail_count_bound(s.drop_last(), nul);
    }
}

fn is_strip_char(c: char, nul: bool) -> (r: bool)
    ensures
        r == (if nul { c == '\0' } else { is_ws(c) }),
{
    if nul {
        c == '\0'
    } else {
        is_whitespace(c)
    }
}

/// Removes leading and trailing whitespace (`nul == false`) or NUL characters (`nul == true`).
pub fn trim_chars(v: &[char], nul: bool) -> (r: Vec<char>)
    ensures
        r@ == trim_by(v@, nul),
{
    let n = v.len();
    let mut i: usize = 0;
    assert(v@.skip(0) =~= v@);
    while i < n && is_strip_char(v[i], nul)
        invariant
            n == v.len(),
            i <= n,
            lead_count(v@, nul) == i + lead_count(v@.skip(i as int), nul),
        decreases n - i,
    {
        assert(v@.skip(i as int).drop_first() =~= v@.skip(i + 1));
        i = i + 1;
    }
    assert(lead_count(v@.skip(i as int), nul) == 0);
    let ghost t = v@.skip(i as int);
    let mut j: usize = n;
    while j > i && is_strip_char(v[j - 1], nul)
        invariant
            n == v.len(),
            i <= j <= n,
            t == v@.skip(i as int),
            trail_count(t, nul) == (n - j) + trail_count(v@.subrange(i as int, j as int), nul),
        decreases j - i,
    {
        assert(v@.subrange(i as int, j as int).drop_last() =~= v@.subrange(i as int, j - 1));
        j = j - 1;
    }
    assert(trail_count(v@.subrange(i as int, j as int), nul) == 0);
    let mut r: Vec<char> = Vec::new();
    let mut k: usize = i;
    while k < j
        invariant
            i <= k <= j <= n,
            n == v.len(),
            r@ == v@.subrange(i as int, k as int),
        decreases j - k,
    {
        r.push(v[k]);
        assert(v@.subrange(i as int, k + 1) =~= v@.subrange(i as int, k as int).push(v@[k as int]));
        k = k + 1;
    }
    assert(t.take(t.len() - trail_count(t, nul)) =~= v@.subrange(i as int, j as int));
    r
}

/// Removes leading and trailing Unicode whitespace.
pub fn trim_ws(v: &[char]) -> (r: Vec<char>)
    ensures
        r@ == trim(v@),
{
    trim_chars(v, false)
}

// ---------------------------------------------------------------------------
// Searching
// ---------------------------------------------------------------------------

/// `p` occurs in `s` at index `i`.
pub open spec fn occurs_at(s: Seq<char>, p: Seq<char>, i: int) -> bool {
    0 <= i && i + p.len() <= s.len() && s.subrange(i, i + p.len()) == p
}

/// `s` begins with `p`.
pub open spec fn starts_with(s: Seq<char>, p: Seq<char>) -> bool {
    occurs_at(s, p, 0)
}

/// Index of the first occurrence of `p` in `s`.
#[verifier::opaque]
pub open spec fn find(s: Seq<char>, p: Seq<char>) -> Option<int> {
    if exists|i: int| occurs_at(s, p, i) {
        Some(choose|i: int| occurs_at(s, p, i) && forall|j: int| 0 <= j < i ==> !occurs_at(s, p, j))
    } else {
        None
    }
}

/// Characterizes `find` by the position it returns.
pub proof fn lemma_find_is(s: Seq<char>, p: Seq<char>, k: Option<int>)
    requires
        match k {
            Some(i) => occurs_at(s, p, i) && forall|j: int| 0 <= j < i ==> !occurs_at(s, p, j),
            None => forall|j: int| !occurs_at(s, p, j),
        },
    ensures
        find(s, p) == k,
{
    reveal(find);
    match k {
        Some(i) => {
            assert(exists|i: int| occurs_at(s, p, i));
            let c = choose|c: int| occurs_at(s, p, c) && forall|j: int| 0 <= j < c ==> !occurs_at(s, p, j);
            assert(occurs_at(s, p, c) && forall|j: int| 0 <= j < c ==> !occurs_at(s, p, j));
            if c < i {
                assert(!occurs_at(s, p, c));
            }
            if i < c {
                assert(!occurs_at(s, p, i));
            }
        },
        None => {},
    }
}

/// What `find` returns: the first occurrence, or no occurrence at all.
pub proof fn lemma_find_spec(s: Seq<char>, p: Seq<char>)
    ensures
        match find(s, p) {
            Some(i) => occurs_at(s, p, i) && forall|j: int| 0 <= j < i ==> !occurs_at(s, p, j),
            None => forall|j: int| !occurs_at(s, p, j),
        },
{
    reveal(find);
    if exists|i: int| occurs_at(s, p, i) {
        let w = choose|i: int| occurs_at(s, p, i);
        // the least occurrence exists
        lemma_least_occurrence(s, p, w);
    }
}

proof fn lemma_least_occurrence(s: Seq<char>, p: Seq<char>, w: int)
    requires
        occurs_at(s, p, w),
    ensures
        exists|i: int| occurs_at(s, p, i) && forall|j: int| 0 <= j < i ==> !occurs_at(s, p, j),
    decreases w,
{
    if exists|j: int| 0 <= j < w && occurs_at(s, p, j) {
        let j = choose|j: int| 0 <= j < w && occurs_at(s, p, j);
        lemma_least_occurrence(s, p, j);
    } else {
        assert(occurs_at(s, p, w) && forall|j: int| 0 <= j < w ==> !occurs_at(s, p, j));
    }
}

fn occurs_at_exec(s: &[char], p: &[char], i: usize) -> (r: bool)
    requires
        i + p.len() <= s.len(),
    ensures
        r == occurs_at(s@, p@, i as int),
{
    let mut k: usize = 0;
    while k < p.len()
        invariant
            i + p.len() <= s.len(),
            k <= p.len(),
            forall|j: int| 0 <= j < k ==> s@[i + j] == p@[j],
        decreases p.len() - k,
    {
        if s[i + k] != p[k] {
            assert(s@.subrange(i as int, i + p.len())[k as int] != p@[k as int]);
            return false;
        }
        k = k + 1;
    }
    assert(s@.subrange(i as int, i + p.len()) =~= p@);
    true
}

/// Index of the first occurrence of `p` in `s`.
pub fn find_chars(s: &[char], p: &[char]) -> (r: Option<usize>)
    ensures
        match r {
            Some(i) => find(s@, p@) == Some(i as int),
            None => find(s@, p@) is None,
        },
{
    if p.len() > s.len() {
        proof {
            lemma_find_is(s@, p@, None);
        }
        return None;
    }
    let last = s.len() - p.len();
    let mut i: usize = 0;
    while i < last
        invariant
            last == s.len() - p.len(),
            p.len() <= s.len(),
            i <= last,
            forall|j: int| 0 <= j < i ==> !occurs_at(s@, p@, j),
        decreases last - i,
    {
        if occurs_at_exec(s, p, i) {
            proof {
                lemma_find_is(s@, p@, Some(i as int));
            }
            return Some(i);
        }
        i = i + 1;
    }
    if occurs_at_exec(s, p, last) {
        proof {
            lemma_find_is(s@, p@, Some(last as int));
        }
        return Some(last);
    }
    proof {
        lemma_find_is(s@, p@, None);
    }
    None
}

/// Whether `s` begins with `p`.
pub fn starts_with_chars(s: &[char], p: &[char]) -> (r: bool)
    ensures
        r == starts_with(s@, p@),
{
    if p.len() > s.len() {
        false
    } else {
        occurs_at_exec(s, p, 0)
    }
}

/// Number of occurrences of `c` in `s`.
pub open spec fn count_char(s: Seq<char>, c: char) -> nat
    decreases s.len(),
{
    if s.len() == 0 {
        0
    } else {
        count_char(s.drop_last(), c) + if s.last() == c { 1nat } else { 0nat }
    }
}

/// Number of occurrences of `c` in `s`.
pub fn count_char_exec(s: &[char], c: char) -> (n: usize)
    ensures
        n == count_char(s@, c),
{
    let mut n: usize = 0;
    let mut i: usize = 0;
    while i < s.len()
        invariant
            i <= s.len(),
            n == count_char(s@.take(i as int), c),
            n <= i,
        decreases s.len() - i,
    {
        assert(s@.take(i + 1).drop_last() =~= s@.take(i as int));
        if s[i] == c {
            n = n + 1;
        }
        i = i + 1;
    }
    assert(s@.take(s.len() as int) =~= s@);
    n
}

// ---------------------------------------------------------------------------
// Fixed-capacity text
// ---------------------------------------------------------------------------

/// Appends `x` to `acc` when the result stays within `cap` bytes; otherwise leaves `acc` as is.
pub open spec fn bpush(acc: Seq<char>, x: Seq<char>, cap: nat) -> Seq<char> {
    if utf8_len(acc) + utf8_len(x) <= cap {
        acc + x
    } else {
        acc
    }
}

/// Appends pieces in order while each fits within `cap` bytes, stopping at the first that does not.
pub open spec fn fmt_pieces(acc: Seq<char>, pieces: Seq<Seq<char>>, cap: nat) -> Seq<char>
    decreases pieces.len(),
{
    if pieces.len() == 0 {
        acc
    } else if utf8_len(acc) + utf8_len(pieces[0]) <= cap {
        fmt_pieces(acc + pieces[0], pieces.drop_first(), cap)
    } else {
        acc
    }
}

/// Formatting pieces into a buffer never removes what the buffer already held.
pub proof fn lemma_fmt_pieces_grows(acc: Seq<char>, pieces: Seq<Seq<char>>, cap: nat)
    ensures
        fmt_pieces(acc, pieces, cap).len() >= acc.len(),
    decreases pieces.len(),
{
    if pieces.len() > 0 && utf8_len(acc) + utf8_len(pieces[0]) <= cap {
        lemma_fmt_pieces_grows(acc + pieces[0], pieces.drop_first(), cap);
    }
}

/// A bounded append keeps a text that fits its buffer within the buffer.
pub proof fn lemma_bpush_bounded(acc: Seq<char>, x: Seq<char>, cap: nat)
    requires
        utf8_len(acc) <= cap,
    ensures
        utf8_len(bpush(acc, x, cap)) <= cap,
{
    lemma_utf8_len_append(acc, x);
}

/// `x` when it fits within `cap` bytes, otherwise the empty text.
pub open spec fn fit(x: Seq<char>, cap: nat) -> Seq<char> {
    bpush(Seq::empty(), x, cap)
}

/// Appends `x` to `acc` when the result stays within `cap` bytes.
pub fn bpush_exec(acc: &mut Vec<char>, x: &[char], cap: usize) -> (ok: bool)
    requires
        cap < usize::MAX,
    ensures
        final(acc)@ == bpush(old(acc)@, x@, cap as nat),
        ok == (utf8_len(old(acc)@) + utf8_len(x@) <= cap),
{
    let a = utf8_len_of(acc.as_slice());
    let b = utf8_len_of(x);
    if a <= cap && b <= cap - a {
        let mut i: usize = 0;
        let ghost a0 = acc@;
        while i < x.len()
            invariant
                i <= x.len(),
                acc@ == a0 + x@.take(i as int),
            decreases x.len() - i,
        {
            acc.push(x[i]);
            assert(x@.take(i + 1) =~= x@.take(i as int).push(x@[i as int]));
            i = i + 1;
        }
        assert(x@.take(x.len() as int) =~= x@);
        true
    } else {
        false
    }
}


/// `v` when it fits within `cap` bytes, otherwise the empty text.
pub fn fit_chars(v: &[char], cap: usize) -> (r: Vec<char>)
    requires
        cap < usize::MAX,
    ensures
        r@ == fit(v@, cap as nat),
{
    let mut r: Vec<char> = Vec::new();
    bpush_exec(&mut r, v, cap);
    assert(Seq::<char>::empty() + v@ =~= v@);
    r
}

// ---------------------------------------------------------------------------
// Splitting
// ---------------------------------------------------------------------------

/// Maximal runs of non-whitespace characters of `s`, in order.
pub open spec fn tokens(s: Seq<char>) -> Seq<Seq<char>>
    decreases s.len(),
{
    if s.len() == 0 {
        Seq::empty()
    } else {
        let t = tokens(s.drop_last());
        let c = s.last();
        if is_ws(c) {
            t
        } else if s.len() >= 2 && !is_ws(s[s.len() - 2]) {
            t.update(t.len() - 1, t.last().push(c))
        } else {
            t.push(seq![c])
        }
    }
}

pub proof fn lemma_tokens_nonempty(s: Seq<char>)
    requires
        s.len() > 0,
        !is_ws(s.last()),
    ensures
        tokens(s).len() > 0,
    decreases s.len(),
{
    if s.len() >= 2 && !is_ws(s[s.len() - 2]) {
        assert(s.drop_last().last() == s[s.len() - 2]);
        lemma_tokens_nonempty(s.drop_last());
    }
}

/// Pieces of `s` separated by `sep`; empty pieces are kept.
pub open spec fn split_char(s: Seq<char>, sep: char) -> Seq<Seq<char>>
    decreases s.len(),
{
    if s.len() == 0 {
        seq![Seq::<char>::empty()]
    } else {
        let t = split_char(s.drop_last(), sep);
        if s.last() == sep {
            t.push(Seq::<char>::empty())
        } else {
            t.update(t.len() - 1, t.last().push(s.last()))
        }
    }
}

pub proof fn lemma_split_char_nonempty(s: Seq<char>, sep: char)
    ensures
        split_char(s, sep).len() >= 1,
    decreases s.len(),
{
    if s.len() > 0 {
        lemma_split_char_nonempty(s.drop_last(), sep);
    }
}

/// The whitespace-separated words of `v`.
pub fn tokens_exec(v: &[char]) -> (r: Vec<Vec<char>>)
    ensures
        r.deep_view() == tokens(v@),
{
    let mut toks: Vec<Vec<char>> = Vec::new();
    let mut cur: Vec<char> = Vec::new();
    let mut in_word = false;
    let mut i: usize = 0;
    while i < v.len()
        invariant
            i <= v.len(),
            in_word == (i > 0 && !is_ws(v@[i - 1])),
            in_word ==> tokens(v@.take(i as int)) == toks.deep_view().push(cur@),
            !in_word ==> tokens(v@.take(i as int)) == toks.deep_view(),
        decreases v.len() - i,
    {
        let c = v[i];
        let ghost pre = v@.take(i as int);
        assert(v@.take(i + 1).drop_last() =~= pre);
        assert(v@.take(i + 1).last() == c);
        if is_whitespace(c) {
            if in_word {
                let ghost old_dv = toks.deep_view();
                let ghost cv = cur@;
                let ghost old_toks = toks@;
                toks.push(cur);
                assert(toks.deep_view() =~= old_dv.push(cv)) by {
                    assert forall|k: int| 0 <= k < toks.len() implies #[trigger] toks.deep_view()[k]
                        == old_dv.push(cv)[k] by {
                        if k < toks.len() - 1 {
                            assert(toks@[k] == old_toks[k]);
                        }
                    }
                }
                cur = Vec::new();
                assert(toks.deep_view() =~= tokens(v@.take(i + 1)));
            }
            in_word = false;
        } else {
            if in_word {
                assert(v@.take(i + 1)[i - 1] == v@[i - 1]);
                cur.push(c);
                assert(tokens(v@.take(i + 1)) =~= toks.deep_view().push(cur@));
            } else {
                cur = Vec::new();
                cur.push(c);
                assert(i >= 1 ==> v@.take(i + 1)[i - 1] == v@[i - 1]);
                assert(cur@ =~= seq![c]);
            }
            in_word = true;
        }
        i = i + 1;
    }
    assert(v@.take(v.len() as int) =~= v@);
    if in_word {
        let ghost old_dv = toks.deep_view();
        let ghost cv = cur@;
        let ghost old_toks = toks@;
        toks.push(cur);
        assert(toks.deep_view() =~= old_dv.push(cv)) by {
            assert forall|k: int| 0 <= k < toks.len() implies #[trigger] toks.deep_view()[k]
                == old_dv.push(cv)[k] by {
                if k < toks.len() - 1 {
                    assert(toks@[k] == old_toks[k]);
                }
            }
        }
    }
    proof {
        assert(toks.deep_view() =~= tokens(v@));
    }
    toks
}


// ---------------------------------------------------------------------------
// Bytes
// ---------------------------------------------------------------------------

/// `core::str::from_utf8`.  Claimed: it succeeds exactly on valid UTF-8 (as vstd's
/// `valid_utf8` defines it) and then yields the characters that vstd's `decode_utf8` gives.
#[verifier::external_body]
pub(crate) fn utf8_str(b: &[u8]) -> (r: Option<&str>)
    ensures
        r is Some <==> valid_utf8(b@),
        r matches Some(s) ==> s@ == decode_utf8(b@),
{
    core::str::from_utf8(b).ok()
}

/// The characters encoded by `b` when it is valid UTF-8.
pub fn decode_chars(b: &[u8]) -> (r: Option<Vec<char>>)
    ensures
        r is Some <==> valid_utf8(b@),
        r matches Some(v) ==> v@ == decode_utf8(b@),
{
    match utf8_str(b) {
        Some(s) => Some(chars_of(s)),
        None => None,
    }
}

/// The UTF-8 encoding of the characters.
pub fn encode_chars(v: &[char]) -> (b: Vec<u8>)
    ensures
        b@ == encode_utf8(v@),
        b.len() == utf8_len(v@),
{
    let s = string_of(v);
    let bytes = s.as_str().as_bytes();
    let out = vstd::slice::slice_to_vec(bytes);
    proof {
        lemma_encode_len(v@);
    }
    out
}

proof fn lemma_lead_stop(s: Seq<char>, nul: bool)
    ensures
        lead_count(s, nul) <= s.len(),
        lead_count(s, nul) < s.len() ==> !(if nul {
            s[lead_count(s, nul) as int] == '\0'
        } else {
            is_ws(s[lead_count(s, nul) as int])
        }),
    decreases s.len(),
{
    if s.len() > 0 && (if nul { s[0] == '\0' } else { is_ws(s[0]) }) {
        lemma_lead_stop(s.drop_first(), nul);
        let k = lead_count(s.drop_first(), nul) as int;
        if k < s.drop_first().len() {
            assert(s.drop_first()[k] == s[k + 1]);
        }
    }
}

proof fn lemma_trail_stop(t: Seq<char>, nul: bool)
    ensures
        trail_count(t, nul) <= t.len(),
        trail_count(t, nul) < t.len() ==> !(if nul {
            t[t.len() - 1 - trail_count(t, nul)] == '\0'
        } else {
            is_ws(t[t.len() - 1 - trail_count(t, nul)])
        }),
    decreases t.len(),
{
    if t.len() > 0 && (if nul { t.last() == '\0' } else { is_ws(t.last()) }) {
        lemma_trail_stop(t.drop_last(), nul);
        let k = trail_count(t.drop_last(), nul) as int;
        if k < t.drop_last().len() {
            assert(t.drop_last()[t.drop_last().len() - 1 - k] == t[t.len() - 1 - (k + 1)]);
        }
    }
}

/// Trimming is the subrange between the leading and the trailing run.
proof fn lemma_trim_is_subrange(s: Seq<char>)
    ensures
        ({
            let a = lead_count(s, false) as int;
            let t = s.skip(a);
            let b = t.len() - trail_count(t, false);
            &&& 0 <= a <= s.len()
            &&& 0 <= b <= t.len()
            &&& trim(s) == s.subrange(a, a + b)
            &&& trim(s).len() > 0 ==> !is_ws(trim(s)[0]) && !is_ws(trim(s).last())
        }),
{
    lemma_lead_stop(s, false);
    let a = lead_count(s, false) as int;
    let t = s.skip(a);
    lemma_trail_stop(t, false);
    let b = t.len() - trail_count(t, false);
    assert(trim(s) =~= s.subrange(a, a + b));
    if trim(s).len() > 0 {
        assert(trim(s)[0] == s[a]);
        assert(t[0] == s[a]);
        assert(trim(s).last() == t[t.len() - 1 - trail_count(t, false)]);
    }
}

/// Trimming twice is trimming once.
pub proof fn lemma_trim_idempotent(s: Seq<char>)
    ensures
        trim(trim(s)) == trim(s),
{
    lemma_trim_is_subrange(s);
    lemma_trim_id(trim(s));
}

/// Trimming keeps no character that the text did not hold.
pub proof fn lemma_trim_lacks(s: Seq<char>, c: char)
    requires
        !s.contains(c),
    ensures
        !trim(s).contains(c),
{
    lemma_trim_is_subrange(s);
    let a = lead_count(s, false) as int;
    if trim(s).contains(c) {
        let i = choose|i: int| 0 <= i < trim(s).len() && trim(s)[i] == c;
        assert(s[a + i] == c);
    }
}

/// A text with no occurrence of `c` does not contain it.
pub proof fn lemma_count_char_zero(a: Seq<char>, c: char)
    requires
        count_char(a, c) == 0,
    ensures
        !a.contains(c),
    decreases a.len(),
{
    if a.len() > 0 {
        lemma_count_char_zero(a.drop_last(), c);
        if a.contains(c) {
            let k = choose|k: int| 0 <= k < a.len() && a[k] == c;
            if k < a.len() - 1 {
                assert(a.drop_last()[k] == c);
            }
        }
    }
}

/// `s` is its own trim when it starts and ends with non-whitespace (or is empty).
pub proof fn lemma_trim_id(s: Seq<char>)
    requires
        s.len() > 0 ==> !is_ws(s[0]) && !is_ws(s.last()),
    ensures
        trim(s) == s,
{
    assert(lead_count(s, false) == 0);
    assert(s.skip(0) =~= s);
    assert(trail_count(s, false) == 0);
    assert(s.take(s.len() as int) =~= s);
}

/// Trimming never lengthens text.
pub proof fn lemma_trim_shorter(s: Seq<char>)
    ensures
        utf8_len(trim(s)) <= utf8_len(s),
{
    lemma_lead_count_bound(s, false);
    let a = lead_count(s, false) as int;
    let t = s.skip(a);
    lemma_trail_count_bound(t, false);
    let b = t.len() - trail_count(t, false);
    assert(s =~= s.take(a) + t);
    lemma_utf8_len_append(s.take(a), t);
    assert(t =~= t.take(b) + t.skip(b));
    lemma_utf8_len_append(t.take(b), t.skip(b));
}

pub proof fn lemma_count_char_append(a: Seq<char>, b: Seq<char>, c: char)
    ensures
        count_char(a + b, c) == count_char(a, c) + count_char(b, c),
    decreases b.len(),
{
    if b.len() == 0 {
        assert(a + b =~= a);
    } else {
        lemma_count_char_append(a, b.drop_last(), c);
        assert((a + b).drop_last() =~= a + b.drop_last());
    }
}

pub proof fn lemma_count_char_absent(a: Seq<char>, c: char)
    requires
        !a.contains(c),
    ensures
        count_char(a, c) == 0,
    decreases a.len(),
{
    if a.len() > 0 {
        assert(!a.drop_last().contains(c)) by {
            if a.drop_last().contains(c) {
                let k = choose|k: int| 0 <= k < a.drop_last().len() && a.drop_last()[k] == c;
                assert(a[k] == c);
            }
        }
        lemma_count_char_absent(a.drop_last(), c);
        assert(a[a.len() - 1] == a.last());
    }
}


/// The characters of `v` from `lo` up to `hi`.
pub fn subrange_chars(v: &[char], lo: usize, hi: usize) -> (r: Vec<char>)
    requires
        lo <= hi <= v.len(),
    ensures
        r@ == v@.subrange(lo as int, hi as int),
{
    let mut r: Vec<char> = Vec::new();
    let mut i: usize = lo;
    while i < hi
        invariant
            lo <= i <= hi <= v.len(),
            r@ == v@.subrange(lo as int, i as int),
        decreases hi - i,
    {
        r.push(v[i]);
        assert(v@.subrange(lo as int, i + 1) =~= v@.subrange(lo as int, i as int).push(v@[i as int]));
        i = i + 1;
    }
    r
}

/// Writing three pieces into an empty buffer.
pub proof fn lemma_fmt_pieces3(a: Seq<char>, b: Seq<char>, c: Seq<char>, cap: nat)
    ensures
        fmt_pieces(Seq::empty(), seq![a, b, c], cap) == if utf8_len(a) <= cap {
            if utf8_len(a) + utf8_len(b) <= cap {
                bpush(a + b, c, cap)
            } else {
                a
            }
        } else {
            Seq::<char>::empty()
        },
{
    let e = Seq::<char>::empty();
    let p = seq![a, b, c];
    assert(utf8_len(e) == 0);
    assert(e + a =~= a);
    assert(p.drop_first() =~= seq![b, c]);
    assert(p.drop_first().drop_first() =~= seq![c]);
    assert(seq![c].drop_first() =~= Seq::<Seq<char>>::empty());
    lemma_utf8_len_append(a, b);
    lemma_utf8_len_append(a + b, c);
    let f0 = fmt_pieces(e, p, cap);
    if utf8_len(a) <= cap {
        assert(f0 == fmt_pieces(a, seq![b, c], cap));
        if utf8_len(a) + utf8_len(b) <= cap {
            assert(fmt_pieces(a, seq![b, c], cap) == fmt_pieces(a + b, seq![c], cap));
            if utf8_len(a + b) + utf8_len(c) <= cap {
                assert(fmt_pieces(a + b, seq![c], cap) == fmt_pieces(a + b + c, Seq::<Seq<char>>::empty(), cap));
            }
        }
    }
}

pub proof fn lemma_count_char_single(c: char)
    ensures
        count_char(seq![c], c) == 1,
{
    assert(seq![c].drop_last() =~= Seq::<char>::empty());
    assert(count_char(Seq::<char>::empty(), c) == 0);
}


/// A `String` holding the characters of a string slice.
pub fn text(t: &str) -> (r: String)
    ensures
        r@ == t@,
{
    let mut s = String::new();
    push_str(&mut s, t);
    assert(Seq::<char>::empty() + t@ =~= t@);
    s
}

/// The characters of `u` that make up its last `n` bytes, taken one whole character at a
/// time from the end.
pub open spec fn byte_suffix(u: Seq<char>, n: nat) -> Seq<char>
    decreases u.len(),
{
    if u.len() == 0 || n == 0 {
        Seq::empty()
    } else if char_width(u.last()) <= n {
        byte_suffix(u.drop_last(), (n - char_width(u.last())) as nat).push(u.last())
    } else {
        Seq::empty()
    }
}

/// Cutting `u` `n` bytes before its end falls between two characters (or `u` is shorter).
pub open spec fn suffix_on_boundary(u: Seq<char>, n: nat) -> bool {
    utf8_len(u) < n || utf8_len(byte_suffix(u, n)) == n
}

/// The last `n` bytes of `u` when it has at least `n`, otherwise all of `u`.
pub open spec fn last_bytes(u: Seq<char>, n: nat) -> Seq<char> {
    if utf8_len(u) >= n {
        byte_suffix(u, n)
    } else {
        u
    }
}

proof fn lemma_byte_suffix_len(u: Seq<char>, n: nat)
    ensures
        utf8_len(byte_suffix(u, n)) <= n,
    decreases u.len(),
{
    if u.len() > 0 && n > 0 && char_width(u.last()) <= n {
        lemma_byte_suffix_len(u.drop_last(), (n - char_width(u.last())) as nat);
        lemma_utf8_len_push(byte_suffix(u.drop_last(), (n - char_width(u.last())) as nat), u.last());
    }
    if u.len() == 0 || n == 0 {
        assert(utf8_len(Seq::<char>::empty()) == 0);
    }
}

/// The last `n` bytes of a string (all of it when shorter).
pub fn last_bytes_of(u: &[char], n: usize) -> (r: Vec<char>)
    requires
        suffix_on_boundary(u@, n as nat),
    ensures
        r@ == last_bytes(u@, n as nat),
{
    let mut i: usize = u.len();
    let mut acc: usize = 0;
    assert(u@.take(u.len() as int) =~= u@);
    assert(u@.skip(u.len() as int) =~= Seq::<char>::empty());
    assert(utf8_len(Seq::<char>::empty()) == 0);
    while i > 0 && acc < n
        invariant
            i <= u.len(),
            acc <= n,
            suffix_on_boundary(u@, n as nat),
            acc == utf8_len(u@.skip(i as int)),
            byte_suffix(u@, n as nat) == byte_suffix(u@.take(i as int), (n - acc) as nat) + u@.skip(
                i as int,
            ),
        decreases i,
    {
        let w = char_utf8_width(u[i - 1]);
        let ghost t = u@.take(i as int);
        proof {
            assert(t.last() == u@[i - 1]);
            assert(t.drop_last() =~= u@.take(i - 1));
            assert(u@.skip(i - 1) =~= seq![u@[i - 1]] + u@.skip(i as int));
            lemma_utf8_len_append(seq![u@[i - 1]], u@.skip(i as int));
            lemma_utf8_len_single(u@[i - 1]);
        }
        if w > n - acc {
            proof {
                assert(byte_suffix(t, (n - acc) as nat) =~= Seq::<char>::empty());
                assert(byte_suffix(u@, n as nat) =~= u@.skip(i as int));
                assert(u@ =~= t + u@.skip(i as int));
                lemma_utf8_len_append(t, u@.skip(i as int));
                assert(utf8_len(t) >= utf8_len(seq![u@[i - 1]])) by {
                    assert(t =~= t.drop_last() + seq![u@[i - 1]]);
                    lemma_utf8_len_append(t.drop_last(), seq![u@[i - 1]]);
                }
                assert(w == char_width(u@[i - 1]));
                assert(utf8_len(u@) >= n);
                assert(utf8_len(byte_suffix(u@, n as nat)) == n);
                assert(utf8_len(u@.skip(i as int)) == acc);
                assert(false);
            }
            return Vec::new();
        }
        proof {
            assert(byte_suffix(t, (n - acc) as nat) == byte_suffix(u@.take(i - 1), (n - acc - w) as nat).push(u@[i - 1]));
            assert(byte_suffix(u@.take(i - 1), (n - acc - w) as nat).push(u@[i - 1]) + u@.skip(i as int)
                =~= byte_suffix(u@.take(i - 1), (n - acc - w) as nat) + u@.skip(i - 1));
        }
        acc = acc + w;
        i = i - 1;
    }
    proof {
        if acc == n {
            assert(byte_suffix(u@.take(i as int), 0) =~= Seq::<char>::empty());
            assert(byte_suffix(u@, n as nat) =~= u@.skip(i as int));
            assert(u@ =~= u@.take(i as int) + u@.skip(i as int));
            lemma_utf8_len_append(u@.take(i as int), u@.skip(i as int));
        } else if i == 0 {
            assert(u@.skip(0) =~= u@);
        }
    }
    subrange_chars(u, i, u.len())
}


/// Whether cutting `u` `n` bytes before its end falls between two characters (or `u` is
/// shorter than `n` bytes).
pub fn suffix_on_boundary_exec(u: &[char], n: usize) -> (r: bool)
    ensures
        r == suffix_on_boundary(u@, n as nat),
{
    let mut i: usize = u.len();
    let mut acc: usize = 0;
    assert(u@.take(u.len() as int) =~= u@);
    assert(u@.skip(u.len() as int) =~= Seq::<char>::empty());
    assert(utf8_len(Seq::<char>::empty()) == 0);
    while i > 0 && acc < n
        invariant
            i <= u.len(),
            acc <= n,
            acc == utf8_len(u@.skip(i as int)),
            byte_suffix(u@, n as nat) == byte_suffix(u@.take(i as int), (n - acc) as nat) + u@.skip(
                i as int,
            ),
        decreases i,
    {
        let w = char_utf8_width(u[i - 1]);
        let ghost t = u@.take(i as int);
        proof {
            assert(t.last() == u@[i - 1]);
            assert(t.drop_last() =~= u@.take(i - 1));
            assert(u@.skip(i - 1) =~= seq![u@[i - 1]] + u@.skip(i as int));
            lemma_utf8_len_append(seq![u@[i - 1]], u@.skip(i as int));
            lemma_utf8_len_single(u@[i - 1]);
        }
        if w > n - acc {
            proof {
                assert(byte_suffix(t, (n - acc) as nat) =~= Seq::<char>::empty());
                assert(byte_suffix(u@, n as nat) =~= u@.skip(i as int));
                assert(u@ =~= t + u@.skip(i as int));
                lemma_utf8_len_append(t, u@.skip(i as int));
                assert(utf8_len(t) >= utf8_len(seq![u@[i - 1]])) by {
                    assert(t =~= t.drop_last() + seq![u@[i - 1]]);
                    lemma_utf8_len_append(t.drop_last(), seq![u@[i - 1]]);
                }
            }
            return false;
        }
        proof {
            assert(byte_suffix(t, (n - acc) as nat) == byte_suffix(u@.take(i - 1), (n - acc - w) as nat).push(u@[i - 1]));
            assert(byte_suffix(u@.take(i - 1), (n - acc - w) as nat).push(u@[i - 1]) + u@.skip(i as int)
                =~= byte_suffix(u@.take(i - 1), (n - acc - w) as nat) + u@.skip(i - 1));
        }
        acc = acc + w;
        i = i - 1;
    }
    proof {
        if acc == n {
            assert(byte_suffix(u@.take(i as int), 0) =~= Seq::<char>::empty());
            assert(byte_suffix(u@, n as nat) =~= u@.skip(i as int));
        } else {
            assert(u@.skip(0) =~= u@);
        }
    }
    true
}

/// In an ASCII text of at least `n` characters, the last `n` bytes are the last `n`
/// characters.
pub proof fn lemma_ascii_byte_suffix(u: Seq<char>, n: nat)
    requires
        all_ascii(u),
        n <= u.len(),
    ensures
        byte_suffix(u, n) == u.subrange(u.len() - n, u.len() as int),
        suffix_on_boundary(u, n),
        last_bytes(u, n) == u.subrange(u.len() - n, u.len() as int),
    decreases u.len(),
{
    lemma_ascii_len(u);
    if u.len() == 0 || n == 0 {
        assert(u.subrange(u.len() - n, u.len() as int) =~= Seq::<char>::empty());
        assert(utf8_len(Seq::<char>::empty()) == 0);
    } else {
        let init = u.drop_last();
        assert(u[u.len() - 1] as u32 == u.last() as u32);
        assert forall|i: int| 0 <= i < init.len() implies (#[trigger] init[i] as u32) < 0x80 by {
            assert(init[i] == u[i]);
        }
        lemma_ascii_byte_suffix(init, (n - 1) as nat);
        assert(init.subrange(init.len() - (n - 1), init.len() as int).push(u.last()) =~= u.subrange(
            u.len() - n,
            u.len() as int,
        ));
        let sfx = u.subrange(u.len() - n, u.len() as int);
        assert forall|i: int| 0 <= i < sfx.len() implies (#[trigger] sfx[i] as u32) < 0x80 by {
            assert(sfx[i] == u[u.len() - n + i]);
        }
        lemma_ascii_len(sfx);
    }
}

/// Appends characters.
pub fn append_chars(out: &mut Vec<char>, v: &[char])
    ensures
        final(out)@ == old(out)@ + v@,
{
    let mut i: usize = 0;
    while i < v.len()
        invariant
            i <= v.len(),
            out@ == old(out)@ + v@.take(i as int),
        decreases v.len() - i,
    {
        out.push(v[i]);
        assert(v@.take(i + 1) =~= v@.take(i as int).push(v@[i as int]));
        i = i + 1;
    }
    assert(v@.take(v.len() as int) =~= v@);
}

/// Appends the characters of a string slice.
pub fn push_lit(out: &mut Vec<char>, t: &str)
    ensures
        final(out)@ == old(out)@ + t@,
{
    let v = chars_of(t);
    append_chars(out, v.as_slice());
}

/// The character views of a sequence of character vectors.
pub open spec fn views(v: Seq<Vec<char>>) -> Seq<Seq<char>> {
    Seq::new(v.len(), |i: int| v[i]@)
}

/// Writes pieces in order into an empty buffer of `cap` bytes, stopping at the first piece
/// that does not fit.
pub fn fmt_concat(pieces: &Vec<Vec<char>>, cap: usize) -> (r: Vec<char>)
    requires
        cap < usize::MAX,
    ensures
        r@ == fmt_pieces(Seq::empty(), views(pieces@), cap as nat),
{
    let mut acc: Vec<char> = Vec::new();
    let mut i: usize = 0;
    let ghost all = views(pieces@);
    assert(all.skip(0) =~= all);
    while i < pieces.len()
        invariant
            i <= pieces.len(),
            cap < usize::MAX,
            all == views(pieces@),
            fmt_pieces(Seq::empty(), all, cap as nat) == fmt_pieces(acc@, all.skip(i as int), cap as nat),
        decreases pieces.len() - i,
    {
        let ghost rest = all.skip(i as int);
        assert(rest[0] =~= pieces@[i as int]@);
        assert(rest.drop_first() =~= all.skip(i + 1));
        let ok = bpush_exec(&mut acc, pieces[i].as_slice(), cap);
        if !ok {
            return acc;
        }
        i = i + 1;
    }
    acc
}

} // verus!
