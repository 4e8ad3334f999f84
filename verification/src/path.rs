//! Resolution of shell paths against a working directory.
//!
//! Paths are held in buffers of at most 256 bytes with at most 32 components; text that
//! does not fit a buffer is left out, exactly as the bounded buffers behave.

use vstd::prelude::*;
use crate::text::{
    bpush, bpush_exec, fit, split_char, lemma_split_char_nonempty, utf8_len, utf8_len_of,
    chars_of, chars_eq, string_of, lemma_utf8_len_append,
};

verus! {

broadcast use vstd::seq::group_seq_axioms;

/// Capacity in bytes of a path buffer.
pub const PATH_CAP: usize = 256;

/// Most components kept while normalising a path.
pub const MAX_PARTS: usize = 32;

/// The path text to normalise: `path` when absolute, otherwise `cwd`, a `/` unless `cwd`
/// already ends with one, and `path`, each appended only when it fits the buffer.
pub open spec fn full_path(cwd: Seq<char>, path: Seq<char>) -> Seq<char> {
    if path.len() > 0 && path[0] == '/' {
        fit(path, 256)
    } else {
        let s0 = fit(cwd, 256);
        let s1 = if s0.len() > 0 && s0.last() == '/' {
            s0
        } else {
            bpush(s0, seq!['/'], 256)
        };
        bpush(s1, path, 256)
    }
}

/// One step of normalisation: empty and `.` components are skipped, `..` removes the last
/// kept component, any other component is kept while fewer than 32 are kept.
pub open spec fn norm_step(stack: Seq<Seq<char>>, c: Seq<char>) -> Seq<Seq<char>> {
    if c.len() == 0 || c == seq!['.'] {
        stack
    } else if c == seq!['.', '.'] {
        if stack.len() > 0 {
            stack.drop_last()
        } else {
            stack
        }
    } else if stack.len() < 32 {
        stack.push(c)
    } else {
        stack
    }
}

/// The components kept after normalising `comps` from left to right.
pub open spec fn normalize(comps: Seq<Seq<char>>) -> Seq<Seq<char>>
    decreases comps.len(),
{
    if comps.len() == 0 {
        Seq::empty()
    } else {
        norm_step(normalize(comps.drop_last()), comps.last())
    }
}

/// `/` followed by the parts separated by `/`, each piece appended only when it fits.
pub open spec fn join_bounded(parts: Seq<Seq<char>>) -> Seq<char>
    decreases parts.len(),
{
    if parts.len() == 0 {
        seq!['/']
    } else if parts.len() == 1 {
        bpush(seq!['/'], parts[0], 256)
    } else {
        bpush(bpush(join_bounded(parts.drop_last()), seq!['/'], 256), parts.last(), 256)
    }
}

/// The resolved form of a path text: its normalised components joined, without a trailing
/// `/` (unless the result is `/` itself).
pub open spec fn resolve_text(full: Seq<char>) -> Seq<char> {
    let j = join_bounded(normalize(split_char(full, '/')));
    if utf8_len(j) > 1 && j.len() > 0 && j.last() == '/' {
        j.drop_last()
    } else {
        j
    }
}

/// The resolved absolute path.
pub open spec fn resolve_path(cwd: Seq<char>, path: Seq<char>) -> Seq<char> {
    resolve_text(full_path(cwd, path))
}

fn is_dot(c: &[char]) -> (r: bool)
    ensures
        r == (c@ == seq!['.']),
{
    let d = ['.'];
    let r = chars_eq(c, &d);
    assert(d@ =~= seq!['.']);
    r
}

fn is_dot_dot(c: &[char]) -> (r: bool)
    ensures
        r == (c@ == seq!['.', '.']),
{
    let d = ['.', '.'];
    let r = chars_eq(c, &d);
    assert(d@ =~= seq!['.', '.']);
    r
}

/// Applies one normalisation step to a stack of components (`model` is its content).
fn norm_step_exec(stack: &mut Vec<Vec<char>>, cur: Vec<char>, Ghost(model): Ghost<Seq<Seq<char>>>) -> (r: Ghost<Seq<Seq<char>>>)
    requires
        old(stack).len() == model.len(),
        forall|k: int| 0 <= k < model.len() ==> (#[trigger] old(stack)@[k])@ == model[k],
    ensures
        r@ == norm_step(model, cur@),
        final(stack).len() == r@.len(),
        forall|k: int| 0 <= k < r@.len() ==> (#[trigger] final(stack)@[k])@ == r@[k],
{
    let ghost c = cur@;
    if cur.len() == 0 || is_dot(cur.as_slice()) {
        Ghost(model)
    } else if is_dot_dot(cur.as_slice()) {
        if stack.len() > 0 {
            stack.pop();
            Ghost(model.drop_last())
        } else {
            Ghost(model)
        }
    } else if stack.len() < MAX_PARTS {
        stack.push(cur);
        Ghost(model.push(c))
    } else {
        Ghost(model)
    }
}

/// The normalised form of `cwd` joined with `path`: an absolute path starting with `/`.
pub fn resolve_path_str(cwd: &str, path: &str) -> (r: String)
    ensures
        r@ == resolve_path(cwd@, path@),
        r@.len() > 0 && r@[0] == '/',
{
    let cwd_v = chars_of(cwd);
    let path_v = chars_of(path);
    let ghost fullp = full_path(cwd@, path@);

    // The text to split.
    let mut full: Vec<char> = Vec::new();
    if path_v.len() > 0 && path_v[0] == '/' {
        bpush_exec(&mut full, path_v.as_slice(), PATH_CAP);
        assert(full@ =~= fullp);
    } else {
        bpush_exec(&mut full, cwd_v.as_slice(), PATH_CAP);
        if !(full.len() > 0 && full[full.len() - 1] == '/') {
            let slash = ['/'];
            assert(slash@ =~= seq!['/']);
            bpush_exec(&mut full, &slash, PATH_CAP);
        }
        bpush_exec(&mut full, path_v.as_slice(), PATH_CAP);
        assert(full@ =~= fullp);
    }

    // Split on '/' and normalise on the fly.
    let mut stack: Vec<Vec<char>> = Vec::new();
    let ghost mut model: Seq<Seq<char>> = Seq::empty();
    let mut cur: Vec<char> = Vec::new();
    let mut i: usize = 0;
    assert(full@.take(0) =~= Seq::<char>::empty());
    assert(split_char(Seq::<char>::empty(), '/').drop_last() =~= Seq::<Seq<char>>::empty());
    while i < full.len()
        invariant
            i <= full.len(),
            stack.len() == model.len(),
            forall|k: int| 0 <= k < model.len() ==> (#[trigger] stack@[k])@ == model[k],
            split_char(full@.take(i as int), '/').len() >= 1,
            normalize(split_char(full@.take(i as int), '/').drop_last()) == model,
            split_char(full@.take(i as int), '/').last() == cur@,
        decreases full.len() - i,
    {
        let c = full[i];
        let ghost pre = full@.take(i as int);
        let ghost sp = split_char(pre, '/');
        assert(full@.take(i + 1).drop_last() =~= pre);
        assert(full@.take(i + 1).last() == c);
        if c == '/' {
            let taken = cur;
            cur = Vec::new();
            let g = norm_step_exec(&mut stack, taken, Ghost(model));
            proof {
                assert(split_char(full@.take(i + 1), '/') == sp.push(Seq::<char>::empty()));
                assert(split_char(full@.take(i + 1), '/').drop_last() =~= sp);
                assert(sp =~= sp.drop_last().push(sp.last()));
                model = g@;
            }
        } else {
            cur.push(c);
            proof {
                let sp2 = split_char(full@.take(i + 1), '/');
                assert(sp2 == sp.update(sp.len() - 1, sp.last().push(c)));
                assert(sp2.drop_last() =~= sp.drop_last());
            }
        }
        proof {
            lemma_split_char_nonempty(full@.take(i + 1), '/');
        }
        i = i + 1;
    }
    assert(full@.take(full.len() as int) =~= full@);
    let ghost sp = split_char(full@, '/');
    assert(sp =~= sp.drop_last().push(sp.last()));
    let g = norm_step_exec(&mut stack, cur, Ghost(model));
    proof {
        model = g@;
    }
    assert(model == normalize(sp));

    // Join.
    let mut result: Vec<char> = Vec::new();
    result.push('/');
    let n = stack.len();
    let mut k: usize = 0;
    assert(model.take(0) =~= Seq::<Seq<char>>::empty());
    while k < n
        invariant
            n == stack.len(),
            n == model.len(),
            k <= n,
            forall|m: int| 0 <= m < model.len() ==> (#[trigger] stack@[m])@ == model[m],
            k == 0 ==> result@ == seq!['/'],
            0 < k < n ==> result@ == bpush(join_bounded(model.take(k as int)), seq!['/'], 256),
            k == n && k > 0 ==> result@ == join_bounded(model.take(k as int)),
        decreases n - k,
    {
        let ghost prev = result@;
        assert(stack@[k as int]@ == model[k as int]);
        bpush_exec(&mut result, stack[k].as_slice(), PATH_CAP);
        proof {
            let t = model.take(k + 1);
            assert(t.drop_last() =~= model.take(k as int));
            assert(t.last() == model[k as int]);
            if k == 0 {
                assert(t.len() == 1);
                assert(t[0] == model[0]);
            }
            assert(result@ == join_bounded(t));
        }
        if k + 1 < n {
            let slash = ['/'];
            assert(slash@ =~= seq!['/']);
            bpush_exec(&mut result, &slash, PATH_CAP);
        }
        k = k + 1;
    }
    assert(model.take(n as int) =~= model);
    let ghost j = result@;
    assert(j == join_bounded(model));
    let total = utf8_len_of(result.as_slice());
    if total > 1 && result.len() > 0 && result[result.len() - 1] == '/' {
        result.pop();
        assert(result@ =~= j.drop_last());
    }
    proof {
        let q = lemma_resolve_shape(cwd@, path@);
        lemma_join_abs_head(q);
    }
    string_of(result.as_slice())
}


// ---------------------------------------------------------------------------
// Canonical paths
// ---------------------------------------------------------------------------

/// `/` followed by the parts separated by `/`.
pub open spec fn join_abs(parts: Seq<Seq<char>>) -> Seq<char>
    decreases parts.len(),
{
    if parts.len() == 0 {
        seq!['/']
    } else if parts.len() == 1 {
        seq!['/'] + parts[0]
    } else {
        join_abs(parts.drop_last()) + seq!['/'] + parts.last()
    }
}

/// A component that names a directory entry: not empty, not `.` or `..`, without `/`.
pub open spec fn is_name(c: Seq<char>) -> bool {
    c.len() > 0 && c != seq!['.'] && c != seq!['.', '.'] && !c.contains('/')
}

/// Bytes taken by the parts when joined: a `/` and the part, for each part.
pub open spec fn parts_cost(parts: Seq<Seq<char>>) -> nat
    decreases parts.len(),
{
    if parts.len() == 0 {
        0
    } else {
        parts_cost(parts.drop_last()) + 1 + utf8_len(parts.last())
    }
}

/// A canonical absolute path: at most 32 names, within 256 bytes.
pub open spec fn canonical_parts(parts: Seq<Seq<char>>) -> bool {
    &&& parts.len() <= 32
    &&& forall|i: int| 0 <= i < parts.len() ==> is_name(#[trigger] parts[i])
    &&& parts_cost(parts) <= 256
}

/// The components kept when resolving `path` against `cwd`.
pub open spec fn resolved_parts(cwd: Seq<char>, path: Seq<char>) -> Seq<Seq<char>> {
    normalize(split_char(full_path(cwd, path), '/'))
}

proof fn lemma_bpush_bound(acc: Seq<char>, x: Seq<char>, cap: nat)
    requires
        utf8_len(acc) <= cap,
    ensures
        utf8_len(bpush(acc, x, cap)) <= cap,
        acc.len() > 0 ==> bpush(acc, x, cap).len() > 0 && bpush(acc, x, cap)[0] == acc[0],
{
    if utf8_len(acc) + utf8_len(x) <= cap {
        lemma_utf8_len_append(acc, x);
    }
}

proof fn lemma_slash_len()
    ensures
        utf8_len(seq!['/']) == 1,
        utf8_len(Seq::<char>::empty()) == 0,
{
    crate::text::lemma_utf8_len_single('/');
}

/// The text to split fits the buffer and, when `cwd` or `path` is absolute, is empty or
/// starts with `/`.
proof fn lemma_full_path_shape(cwd: Seq<char>, path: Seq<char>)
    requires
        (cwd.len() > 0 && cwd[0] == '/') || (path.len() > 0 && path[0] == '/'),
    ensures
        utf8_len(full_path(cwd, path)) <= 256,
        full_path(cwd, path).len() == 0 || full_path(cwd, path)[0] == '/',
{
    lemma_slash_len();
    assert(utf8_len(Seq::<char>::empty()) == 0);
    let e = Seq::<char>::empty();
    if path.len() > 0 && path[0] == '/' {
        lemma_bpush_bound(e, path, 256);
        if utf8_len(path) <= 256 {
            assert(e + path =~= path);
        }
    } else {
        lemma_bpush_bound(e, cwd, 256);
        let s0 = fit(cwd, 256);
        if utf8_len(cwd) <= 256 {
            assert(e + cwd =~= cwd);
        }
        let s1 = if s0.len() > 0 && s0.last() == '/' {
            s0
        } else {
            bpush(s0, seq!['/'], 256)
        };
        lemma_bpush_bound(s0, seq!['/'], 256);
        if s0.len() == 0 {
            assert(e + seq!['/'] =~= seq!['/']);
        }
        assert(s1.len() > 0 && s1[0] == '/');
        lemma_bpush_bound(s1, path, 256);
    }
}

proof fn lemma_cost_step(stack: Seq<Seq<char>>, c: Seq<char>)
    ensures
        parts_cost(norm_step(stack, c)) <= parts_cost(stack) + 1 + utf8_len(c),
{
    if c.len() == 0 || c == seq!['.'] {
    } else if c == seq!['.', '.'] {
        if stack.len() > 0 {
        }
    } else if stack.len() < 32 {
        assert(stack.push(c).drop_last() =~= stack);
    }
}

proof fn lemma_split_no_sep(s: Seq<char>)
    ensures
        forall|i: int|
            0 <= i < split_char(s, '/').len() ==> !(#[trigger] split_char(s, '/')[i]).contains(
                '/',
            ),
    decreases s.len(),
{
    if s.len() > 0 {
        lemma_split_no_sep(s.drop_last());
        lemma_split_char_nonempty(s.drop_last(), '/');
        let t = split_char(s.drop_last(), '/');
        if s.last() != '/' {
            assert forall|i: int| 0 <= i < split_char(s, '/').len() implies !(
            #[trigger] split_char(s, '/')[i]).contains('/') by {
                if i == t.len() - 1 {
                    let l = t.last().push(s.last());
                    if l.contains('/') {
                        let k = choose|k: int| 0 <= k < l.len() && l[k] == '/';
                        if k < l.len() - 1 {
                            assert(t.last()[k] == '/');
                            assert(t.last().contains('/'));
                        }
                    }
                } else {
                    assert(split_char(s, '/')[i] == t[i]);
                }
            }
        } else {
            assert forall|i: int| 0 <= i < split_char(s, '/').len() implies !(
            #[trigger] split_char(s, '/')[i]).contains('/') by {
                if i < t.len() {
                    assert(split_char(s, '/')[i] == t[i]);
                }
            }
        }
    }
}

/// Normalising keeps only names, at most 32 of them.
proof fn lemma_normalize_names(comps: Seq<Seq<char>>)
    requires
        forall|i: int| 0 <= i < comps.len() ==> !(#[trigger] comps[i]).contains('/'),
    ensures
        normalize(comps).len() <= 32,
        forall|i: int| 0 <= i < normalize(comps).len() ==> is_name(#[trigger] normalize(comps)[i]),
    decreases comps.len(),
{
    if comps.len() > 0 {
        assert forall|i: int| 0 <= i < comps.drop_last().len() implies !(
        #[trigger] comps.drop_last()[i]).contains('/') by {
            assert(comps.drop_last()[i] == comps[i]);
        }
        lemma_normalize_names(comps.drop_last());
        let n = normalize(comps.drop_last());
        let c = comps.last();
        assert(!comps[comps.len() - 1].contains('/'));
        assert forall|i: int| 0 <= i < normalize(comps).len() implies is_name(
            #[trigger] normalize(comps)[i],
        ) by {
            if i < n.len() {
                assert(normalize(comps)[i] == n[i]);
            }
        }
    }
}

/// The potential argument: the kept components never take more bytes than the text.
proof fn lemma_cost_bound(s: Seq<char>)
    requires
        s.len() > 0,
        s[0] == '/',
    ensures
        normalize(split_char(s, '/').drop_last()).len() >= 0,
        parts_cost(normalize(split_char(s, '/').drop_last())) + 1 + utf8_len(
            split_char(s, '/').last(),
        ) <= utf8_len(s),
    decreases s.len(),
{
    lemma_slash_len();
    if s.len() == 1 {
        assert(s =~= seq!['/']);
        assert(s.drop_last() =~= Seq::<char>::empty());
        let sp = split_char(s, '/');
        assert(sp =~= seq![Seq::<char>::empty(), Seq::<char>::empty()]);
        assert(sp.drop_last() =~= seq![Seq::<char>::empty()]);
        assert(seq![Seq::<char>::empty()].drop_last() =~= Seq::<Seq<char>>::empty());
        assert(utf8_len(Seq::<char>::empty()) == 0);
    } else {
        let p = s.drop_last();
        assert(p[0] == '/');
        lemma_cost_bound(p);
        lemma_split_char_nonempty(p, '/');
        lemma_utf8_len_append(p, seq![s.last()]);
        assert(s =~= p + seq![s.last()]);
        crate::text::lemma_utf8_len_single(s.last());
        let t = split_char(p, '/');
        if s.last() == '/' {
            assert(split_char(s, '/').drop_last() =~= t);
            assert(t =~= t.drop_last().push(t.last()));
            lemma_cost_step(normalize(t.drop_last()), t.last());
            assert(utf8_len(Seq::<char>::empty()) == 0);
        } else {
            assert(split_char(s, '/').drop_last() =~= t.drop_last());
            crate::text::lemma_utf8_len_push(t.last(), s.last());
        }
    }
}

proof fn lemma_parts_cost_ge(parts: Seq<Seq<char>>)
    ensures
        parts_cost(parts) >= parts.len(),
    decreases parts.len(),
{
    if parts.len() > 0 {
        lemma_parts_cost_ge(parts.drop_last());
    }
}

/// Within 256 bytes, bounded joining is plain joining.
proof fn lemma_join_fits(parts: Seq<Seq<char>>)
    requires
        parts_cost(parts) <= 256,
    ensures
        join_bounded(parts) == join_abs(parts),
        utf8_len(join_abs(parts)) == if parts.len() == 0 { 1 } else { parts_cost(parts) },
    decreases parts.len(),
{
    lemma_slash_len();
    if parts.len() == 0 {
    } else if parts.len() == 1 {
        assert(parts.drop_last() =~= Seq::<Seq<char>>::empty());
        assert(parts.last() == parts[0]);
        lemma_utf8_len_append(seq!['/'], parts[0]);
        assert(parts_cost(parts) == parts_cost(parts.drop_last()) + 1 + utf8_len(parts.last()));
    } else {
        let xs = parts.drop_last();
        lemma_join_fits(xs);
        lemma_utf8_len_append(join_abs(xs), seq!['/']);
        lemma_utf8_len_append(join_abs(xs) + seq!['/'], parts.last());
    }
}

/// A path text within 256 bytes that is empty or starts with `/` resolves to the plain join
/// of its normalised components, which are at most 32 names within 256 bytes.
proof fn lemma_text_canonical(full: Seq<char>)
    requires
        utf8_len(full) <= 256,
        full.len() == 0 || full[0] == '/',
    ensures
        canonical_parts(normalize(split_char(full, '/'))),
        resolve_text(full) == join_abs(normalize(split_char(full, '/'))),
{
    let sp = split_char(full, '/');
    lemma_split_char_nonempty(full, '/');
    lemma_split_no_sep(full);
    lemma_normalize_names(sp);
    assert(sp =~= sp.drop_last().push(sp.last()));
    let parts = normalize(sp);
    if full.len() == 0 {
        assert(sp =~= seq![Seq::<char>::empty()]);
        assert(sp.drop_last() =~= Seq::<Seq<char>>::empty());
        assert(sp.last() =~= Seq::<char>::empty());
        assert(normalize(Seq::<Seq<char>>::empty()) =~= Seq::<Seq<char>>::empty());
        assert(parts =~= Seq::<Seq<char>>::empty());
    } else {
        lemma_cost_bound(full);
        lemma_cost_step(normalize(sp.drop_last()), sp.last());
    }
    lemma_join_fits(parts);
    let j = join_abs(parts);
    if parts.len() > 0 {
        let l = parts.last();
        assert(is_name(parts[parts.len() - 1]));
        if parts.len() == 1 {
            assert(j.last() == l.last());
        } else {
            assert(j.last() == l.last());
        }
        assert(l.contains(l.last()) ==> l.last() != '/');
        assert(l[l.len() - 1] == l.last());
    }
}


/// Resolving against an absolute working directory (or resolving an absolute path) gives
/// the plain join of at most 32 names, within 256 bytes, with no trailing `/`.
pub proof fn lemma_resolve_canonical(cwd: Seq<char>, path: Seq<char>)
    requires
        (cwd.len() > 0 && cwd[0] == '/') || (path.len() > 0 && path[0] == '/'),
    ensures
        canonical_parts(resolved_parts(cwd, path)),
        resolve_path(cwd, path) == join_abs(resolved_parts(cwd, path)),
{
    lemma_full_path_shape(cwd, path);
    lemma_text_canonical(full_path(cwd, path));
}

proof fn lemma_split_join_step(a: Seq<char>, p: Seq<char>)
    requires
        !p.contains('/'),
    ensures
        split_char(a + seq!['/'] + p, '/') == split_char(a, '/').push(p),
    decreases p.len(),
{
    if p.len() == 0 {
        assert(a + seq!['/'] + p =~= a.push('/'));
        assert((a.push('/')).drop_last() =~= a);
        assert(p =~= Seq::<char>::empty());
    } else {
        let q = p.drop_last();
        assert(!q.contains('/')) by {
            if q.contains('/') {
                let k = choose|k: int| 0 <= k < q.len() && q[k] == '/';
                assert(p[k] == '/');
            }
        }
        lemma_split_join_step(a, q);
        let s = a + seq!['/'] + p;
        assert(s.drop_last() =~= a + seq!['/'] + q);
        assert(s.last() == p.last());
        assert(p[p.len() - 1] == p.last());
        assert(p.last() != '/');
        assert(q.push(p.last()) =~= p);
        let t = split_char(a, '/').push(q);
        assert(t.last() == q);
        assert(t.update(t.len() - 1, t.last().push(p.last())) =~= split_char(a, '/').push(p));
    }
}

proof fn lemma_split_join_abs(parts: Seq<Seq<char>>)
    requires
        parts.len() > 0,
        forall|i: int| 0 <= i < parts.len() ==> is_name(#[trigger] parts[i]),
    ensures
        split_char(join_abs(parts), '/') == seq![Seq::<char>::empty()] + parts,
    decreases parts.len(),
{
    let e = Seq::<char>::empty();
    if parts.len() == 1 {
        assert(is_name(parts[0]));
        lemma_split_join_step(e, parts[0]);
        assert(e + seq!['/'] + parts[0] =~= seq!['/'] + parts[0]);
        assert(split_char(e, '/') =~= seq![e]);
        assert(seq![e].push(parts[0]) =~= seq![e] + parts);
    } else {
        let xs = parts.drop_last();
        assert forall|i: int| 0 <= i < xs.len() implies is_name(#[trigger] xs[i]) by {
            assert(xs[i] == parts[i]);
        }
        lemma_split_join_abs(xs);
        assert(is_name(parts[parts.len() - 1]));
        lemma_split_join_step(join_abs(xs), parts.last());
        assert((seq![e] + xs).push(parts.last()) =~= seq![e] + parts);
    }
}

proof fn lemma_normalize_names_kept(parts: Seq<Seq<char>>)
    requires
        parts.len() <= 32,
        forall|i: int| 0 <= i < parts.len() ==> is_name(#[trigger] parts[i]),
    ensures
        normalize(seq![Seq::<char>::empty()] + parts) == parts,
    decreases parts.len(),
{
    let e = Seq::<char>::empty();
    if parts.len() == 0 {
        assert(seq![e] + parts =~= seq![e]);
        assert(seq![e].drop_last() =~= Seq::<Seq<char>>::empty());
        assert(seq![e].last() =~= e);
        assert(normalize(Seq::<Seq<char>>::empty()) =~= Seq::<Seq<char>>::empty());
        assert(normalize(seq![e]) =~= Seq::<Seq<char>>::empty());
    } else {
        let xs = parts.drop_last();
        assert forall|i: int| 0 <= i < xs.len() implies is_name(#[trigger] xs[i]) by {
            assert(xs[i] == parts[i]);
        }
        lemma_normalize_names_kept(xs);
        assert((seq![e] + parts).drop_last() =~= seq![e] + xs);
        assert((seq![e] + parts).last() == parts.last());
        assert(is_name(parts[parts.len() - 1]));
        assert(xs.push(parts.last()) =~= parts);
    }
}

/// The text to split always fits its 256-byte buffer.
proof fn lemma_full_fits(cwd: Seq<char>, path: Seq<char>)
    ensures
        utf8_len(full_path(cwd, path)) <= 256,
{
    lemma_slash_len();
    let e = Seq::<char>::empty();
    if path.len() > 0 && path[0] == '/' {
        lemma_bpush_bound(e, path, 256);
    } else {
        lemma_bpush_bound(e, cwd, 256);
        let s0 = fit(cwd, 256);
        lemma_bpush_bound(s0, seq!['/'], 256);
        let s1 = if s0.len() > 0 && s0.last() == '/' {
            s0
        } else {
            bpush(s0, seq!['/'], 256)
        };
        lemma_bpush_bound(s1, path, 256);
    }
}

proof fn lemma_split_slash_prefix(s: Seq<char>)
    ensures
        split_char(seq!['/'] + s, '/') == seq![Seq::<char>::empty()] + split_char(s, '/'),
    decreases s.len(),
{
    let e = Seq::<char>::empty();
    if s.len() == 0 {
        assert(seq!['/'] + s =~= seq!['/']);
        assert(seq!['/'].drop_last() =~= e);
        assert(split_char(e, '/') =~= seq![e]);
        assert(split_char(seq!['/'], '/') =~= seq![e, e]);
        assert(seq![e] + seq![e] =~= seq![e, e]);
    } else {
        let p = s.drop_last();
        lemma_split_slash_prefix(p);
        lemma_split_char_nonempty(p, '/');
        let t = split_char(p, '/');
        assert((seq!['/'] + s).drop_last() =~= seq!['/'] + p);
        assert((seq!['/'] + s).last() == s.last());
        if s.last() == '/' {
            assert((seq![e] + t).push(e) =~= seq![e] + t.push(e));
        } else {
            let u = seq![e] + t;
            assert(u.last() == t.last());
            assert(u.update(u.len() - 1, u.last().push(s.last())) =~= seq![e] + t.update(
                t.len() - 1,
                t.last().push(s.last()),
            ));
        }
    }
}

proof fn lemma_normalize_skip_empty(xs: Seq<Seq<char>>)
    ensures
        normalize(seq![Seq::<char>::empty()] + xs) == normalize(xs),
    decreases xs.len(),
{
    let e = Seq::<char>::empty();
    if xs.len() == 0 {
        assert(seq![e] + xs =~= seq![e]);
        assert(seq![e].drop_last() =~= Seq::<Seq<char>>::empty());
        assert(seq![e].last() =~= e);
        assert(normalize(Seq::<Seq<char>>::empty()) =~= Seq::<Seq<char>>::empty());
        assert(normalize(seq![e]) == norm_step(Seq::<Seq<char>>::empty(), e));
        assert(normalize(xs) =~= Seq::<Seq<char>>::empty());
    } else {
        lemma_normalize_skip_empty(xs.drop_last());
        let ys = seq![e] + xs;
        assert(ys.drop_last() =~= seq![e] + xs.drop_last());
        assert(ys.last() == xs.last());
        assert(normalize(ys) == norm_step(normalize(ys.drop_last()), ys.last()));
        assert(normalize(xs) == norm_step(normalize(xs.drop_last()), xs.last()));
    }
}

proof fn lemma_canonical_prefix(parts: Seq<Seq<char>>)
    requires
        parts.len() > 0,
        parts.len() <= 32,
        forall|i: int| 0 <= i < parts.len() ==> is_name(#[trigger] parts[i]),
        parts_cost(parts.drop_last()) <= 255,
    ensures
        canonical_parts(parts.drop_last()),
{
    let q = parts.drop_last();
    assert forall|i: int| 0 <= i < q.len() implies is_name(#[trigger] q[i]) by {
        assert(q[i] == parts[i]);
    }
}

/// A relative path text within 256 bytes resolves to the plain join of at most 32 names
/// within 256 bytes: all its components, or all but the last when that one does not fit.
proof fn lemma_text_relative(full: Seq<char>) -> (q: Seq<Seq<char>>)
    requires
        utf8_len(full) <= 256,
        full.len() > 0,
        full[0] != '/',
    ensures
        canonical_parts(q),
        resolve_text(full) == join_abs(q),
{
    let e = Seq::<char>::empty();
    let sp = split_char(full, '/');
    let ab = seq!['/'] + full;
    lemma_split_slash_prefix(full);
    lemma_normalize_skip_empty(sp);
    lemma_split_char_nonempty(full, '/');
    lemma_split_no_sep(full);
    lemma_normalize_names(sp);
    let parts = normalize(sp);
    let sp2 = split_char(ab, '/');
    lemma_split_char_nonempty(ab, '/');
    assert(sp2 =~= sp2.drop_last().push(sp2.last()));
    lemma_slash_len();
    lemma_utf8_len_append(seq!['/'], full);
    lemma_cost_bound(ab);
    lemma_cost_step(normalize(sp2.drop_last()), sp2.last());
    assert(parts_cost(parts) <= 257);
    if parts_cost(parts) <= 256 {
        lemma_join_fits(parts);
        let j = join_abs(parts);
        if parts.len() > 0 {
            let l = parts.last();
            assert(is_name(parts[parts.len() - 1]));
            assert(j.last() == l.last());
            assert(l.contains(l.last()) ==> l.last() != '/');
            assert(l[l.len() - 1] == l.last());
        }
        parts
    } else {
        lemma_parts_cost_ge(parts);
        let q = parts.drop_last();
        let l = parts.last();
        assert(is_name(parts[parts.len() - 1]));
        assert(l.len() > 0);
        crate::text::lemma_utf8_len_ge_len(l);
        assert(parts_cost(parts) == parts_cost(q) + 1 + utf8_len(l));
        lemma_canonical_prefix(parts);
        lemma_join_fits(q);
        if parts.len() == 1 {
            assert(q =~= Seq::<Seq<char>>::empty());
            assert(parts[0] == l);
            assert(join_bounded(parts) == bpush(seq!['/'], parts[0], 256));
            assert(join_bounded(parts) == seq!['/']);
        } else {
            lemma_join_abs_head(q);
            let jq = join_abs(q);
            lemma_utf8_len_append(jq, seq!['/']);
            assert(bpush(jq, seq!['/'], 256) == jq + seq!['/']);
            assert(join_bounded(parts) == jq + seq!['/']);
            assert((jq + seq!['/']).drop_last() =~= jq);
        }
        q
    }
}

/// Every resolved path is the plain join of at most 32 names within 256 bytes: it starts
/// with `/`, has no empty, `.` or `..` component and no trailing `/` (unless it is `/`).
pub proof fn lemma_resolve_shape(cwd: Seq<char>, path: Seq<char>) -> (q: Seq<Seq<char>>)
    ensures
        canonical_parts(q),
        resolve_path(cwd, path) == join_abs(q),
{
    let full = full_path(cwd, path);
    lemma_full_fits(cwd, path);
    if full.len() == 0 || full[0] == '/' {
        lemma_text_canonical(full);
        normalize(split_char(full, '/'))
    } else {
        lemma_text_relative(full)
    }
}

/// A path made of at most 32 names within 256 bytes resolves to itself, whatever the
/// working directory.
pub proof fn lemma_canonical_fixed(parts: Seq<Seq<char>>, cwd2: Seq<char>)
    requires
        canonical_parts(parts),
    ensures
        resolve_path(cwd2, join_abs(parts)) == join_abs(parts),
{
    let r = join_abs(parts);
    lemma_join_fits(parts);
    lemma_slash_len();
    lemma_join_abs_head(parts);
    let e = Seq::<char>::empty();
    assert(fit(r, 256) == r) by {
        assert(e + r =~= r);
    }
    assert(full_path(cwd2, r) == r);
    lemma_resolve_canonical(cwd2, r);
    if parts.len() == 0 {
        assert(r =~= seq!['/']);
        let sp = split_char(r, '/');
        assert(r.drop_last() =~= e);
        assert(split_char(e, '/') =~= seq![e]);
        assert(sp =~= seq![e, e]);
        assert(sp.drop_last() =~= seq![e]);
        assert(seq![e].drop_last() =~= Seq::<Seq<char>>::empty());
        assert(normalize(Seq::<Seq<char>>::empty()) =~= Seq::<Seq<char>>::empty());
        assert(normalize(seq![e]) =~= Seq::<Seq<char>>::empty());
        assert(sp.last() =~= e);
        assert(resolved_parts(cwd2, r) =~= Seq::<Seq<char>>::empty());
    } else {
        lemma_split_join_abs(parts);
        lemma_normalize_names_kept(parts);
        assert(resolved_parts(cwd2, r) == parts);
    }
}

/// Resolution is idempotent: a resolved path resolves to itself, whatever the working
/// directory.
pub proof fn lemma_resolve_idempotent(cwd: Seq<char>, path: Seq<char>, cwd2: Seq<char>)
    ensures
        resolve_path(cwd2, resolve_path(cwd, path)) == resolve_path(cwd, path),
{
    let q = lemma_resolve_shape(cwd, path);
    lemma_canonical_fixed(q, cwd2);
}

proof fn lemma_join_abs_head(parts: Seq<Seq<char>>)
    ensures
        join_abs(parts).len() > 0,
        join_abs(parts)[0] == '/',
    decreases parts.len(),
{
    if parts.len() > 1 {
        lemma_join_abs_head(parts.drop_last());
    }
    if parts.len() == 1 {
        assert((seq!['/'] + parts[0])[0] == '/');
    }
}

/// An absolute path resolves the same way whatever the working directory.
pub proof fn lemma_absolute_ignores_cwd(cwd1: Seq<char>, cwd2: Seq<char>, path: Seq<char>)
    requires
        path.len() > 0 && path[0] == '/',
    ensures
        resolve_path(cwd1, path) == resolve_path(cwd2, path),
{
}

} // verus!
