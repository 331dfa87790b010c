//! The path canonicalizer: resolves `.` and `..` segments out of a
//! client-supplied path into a relative path that can never escape the
//! served root directory, and joins it onto that root.

use vstd::prelude::*;
use crate::text::{chars_to_string, str_chars};

verus! {

/// The number of characters before the first occurrence of `stop` (the
/// whole length when `stop` does not occur).
pub open spec fn len_until(s: Seq<char>, stop: char) -> int
    decreases s.len(),
{
    if s.len() == 0 {
        0
    } else if s[0] == stop {
        0
    } else {
        1 + len_until(s.drop_first(), stop)
    }
}

pub proof fn lemma_len_until(s: Seq<char>, stop: char)
    ensures
        0 <= len_until(s, stop) <= s.len(),
        forall|j: int| 0 <= j < len_until(s, stop) ==> s[j] != stop,
        len_until(s, stop) < s.len() ==> s[len_until(s, stop)] == stop,
    decreases s.len(),
{
    if s.len() > 0 && s[0] != stop {
        lemma_len_until(s.drop_first(), stop);
        assert forall|j: int| 0 <= j < len_until(s, stop) implies s[j] != stop by {
            if j > 0 {
                assert(s.drop_first()[j - 1] == s[j]);
            }
        }
    }
}

pub proof fn lemma_len_until_is(s: Seq<char>, stop: char, k: int)
    requires
        0 <= k <= s.len(),
        forall|j: int| 0 <= j < k ==> s[j] != stop,
        k < s.len() ==> s[k] == stop,
    ensures
        len_until(s, stop) == k,
    decreases s.len(),
{
    if s.len() == 0 {
    } else if s[0] == stop {
        assert(k == 0);
    } else {
        assert(k != 0);
        lemma_len_until_is(s.drop_first(), stop, k - 1);
    }
}

/// The pieces of a string, split on a separator. Splitting the empty
/// string gives one empty piece, and every separator bounds two pieces, so
/// the result is never empty and a doubled separator holds an empty middle
/// piece.
pub open spec fn split_on(s: Seq<char>, sep: char) -> Seq<Seq<char>>
    decreases s.len(),
{
    let k = len_until(s, sep);
    if 0 <= k < s.len() {
        seq![s.take(k)] + split_on(s.skip(k + 1), sep)
    } else {
        seq![s]
    }
}

/// The segments of a path: split on `/`.
pub open spec fn split_slash(s: Seq<char>) -> Seq<Seq<char>> {
    split_on(s, '/')
}

/// The pieces of a vector of character vectors.
pub open spec fn segs_view(v: Seq<Vec<char>>) -> Seq<Seq<char>> {
    v.map_values(|x: Vec<char>| x@)
}

/// Splits a character vector on a separator, one piece per stretch between
/// separators.
pub fn split_chars(chars: &Vec<char>, sep: char) -> (r: Vec<Vec<char>>)
    ensures
        segs_view(r@) =~~= split_on(chars@, sep),
{
    let ghost s = chars@;
    let n = chars.len();
    let mut segs: Vec<Vec<char>> = Vec::new();
    let mut cur: Vec<char> = Vec::new();
    let mut start: usize = 0;
    let mut i: usize = 0;
    proof {
        assert(s.skip(0) =~= s);
        assert(segs_view(segs@) =~~= Seq::<Seq<char>>::empty());
        assert(Seq::<Seq<char>>::empty() + split_on(s, sep) =~~= split_on(s, sep));
    }
    while i < n
        invariant
            chars@ == s,
            n == s.len(),
            0 <= start <= i <= n,
            cur@ =~= s.subrange(start as int, i as int),
            forall|j: int| start <= j < i ==> s[j] != sep,
            split_on(s, sep) =~~= segs_view(segs@) + split_on(s.skip(start as int), sep),
        decreases n - i,
    {
        let c = chars[i];
        if c == sep {
            proof {
                let tail = s.skip(start as int);
                lemma_len_until_is(tail, sep, i - start);
                assert(tail.take(i - start) =~= cur@);
                assert(tail.skip(i - start + 1) =~= s.skip(i + 1));
                assert(split_on(tail, sep) =~~= seq![cur@] + split_on(s.skip(i + 1), sep));
                assert(segs_view(segs@.push(cur)) =~~= segs_view(segs@) + seq![cur@]);
            }
            segs.push(cur);
            cur = Vec::new();
            start = i + 1;
        } else {
            cur.push(c);
            assert(cur@ =~= s.subrange(start as int, i + 1));
        }
        i += 1;
    }
    proof {
        let tail = s.skip(start as int);
        lemma_len_until_is(tail, sep, tail.len() as int);
        assert(tail =~= cur@);
        assert(split_on(tail, sep) =~~= seq![cur@]);
        assert(segs_view(segs@.push(cur)) =~~= segs_view(segs@) + seq![cur@]);
    }
    segs.push(cur);
    segs
}

/// Segments produced by `split_slash` never contain a slash.
pub proof fn lemma_split_slash_wf(s: Seq<char>)
    ensures
        split_slash(s).len() >= 1,
        forall|i: int, j: int|
            0 <= i < split_slash(s).len() && 0 <= j < split_slash(s)[i].len()
                ==> #[trigger] split_slash(s)[i][j] != '/',
    decreases s.len(),
{
    lemma_len_until(s, '/');
    let k = len_until(s, '/');
    if 0 <= k < s.len() {
        lemma_split_slash_wf(s.skip(k + 1));
    }
}

/// The segments joined back with `/` between each pair.
pub open spec fn join_slash(segs: Seq<Seq<char>>) -> Seq<char>
    decreases segs.len(),
{
    if segs.len() == 0 {
        Seq::empty()
    } else if segs.len() == 1 {
        segs[0]
    } else {
        segs[0] + seq!['/'] + join_slash(segs.drop_first())
    }
}

/// Splitting a join of slash-free segments returns the same segments.
pub proof fn lemma_split_join(segs: Seq<Seq<char>>)
    requires
        segs.len() >= 1,
        forall|i: int, j: int|
            0 <= i < segs.len() && 0 <= j < segs[i].len() ==> #[trigger] segs[i][j] != '/',
    ensures
        split_slash(join_slash(segs)) =~~= segs,
    decreases segs.len(),
{
    let s = join_slash(segs);
    if segs.len() == 1 {
        lemma_len_until_is(s, '/', s.len() as int);
        assert(split_slash(s) =~~= segs);
    } else {
        let rest = join_slash(segs.drop_first());
        assert(s == segs[0] + seq!['/'] + rest);
        assert(forall|j: int| 0 <= j < segs[0].len() ==> s[j] != '/');
        assert(s[segs[0].len() as int] == '/');
        lemma_len_until_is(s, '/', segs[0].len() as int);
        assert(s.take(segs[0].len() as int) =~= segs[0]);
        assert(s.skip(segs[0].len() as int + 1) =~= rest);
        lemma_split_join(segs.drop_first());
        assert(split_slash(s) =~~= seq![segs[0]] + segs.drop_first());
        assert(seq![segs[0]] + segs.drop_first() =~~= segs);
    }
}

/// Splitting around an explicit separator splits each side on its own.
pub proof fn lemma_split_concat(a: Seq<char>, b: Seq<char>)
    ensures
        split_slash(a + seq!['/'] + b) =~~= split_slash(a) + split_slash(b),
    decreases a.len(),
{
    let s = a + seq!['/'] + b;
    lemma_len_until(a, '/');
    let k = len_until(a, '/');
    if 0 <= k < a.len() {
        // `a` itself holds a slash: both sides peel the same first segment.
        lemma_len_until_is(s, '/', k);
        assert(s.take(k) =~= a.take(k));
        assert(s.skip(k + 1) =~= a.skip(k + 1) + seq!['/'] + b);
        lemma_split_concat(a.skip(k + 1), b);
    } else {
        // `a` is slash-free: the first slash of `s` is the separator.
        assert(k == a.len());
        lemma_len_until_is(s, '/', a.len() as int);
        assert(s.take(a.len() as int) =~= a);
        assert(s.skip(a.len() as int + 1) =~= b);
        lemma_split_slash_wf(b);
        lemma_len_until_is(a, '/', a.len() as int);
        assert(split_slash(a) =~~= seq![a]);
    }
}

/// One step of canonicalization: empty and `.` segments vanish, `..` pops
/// the last kept segment (silently, when there is none), anything else is
/// kept.
pub open spec fn flatten_step(acc: Seq<Seq<char>>, seg: Seq<char>) -> Seq<Seq<char>> {
    if seg.len() == 0 || seg == seq!['.'] {
        acc
    } else if seg == seq!['.', '.'] {
        if acc.len() == 0 {
            acc
        } else {
            acc.drop_last()
        }
    } else {
        acc.push(seg)
    }
}

/// The canonical segments of a path: `flatten_step` folded over the split
/// segments, left to right.
pub open spec fn flatten_segs(segs: Seq<Seq<char>>) -> Seq<Seq<char>>
    decreases segs.len(),
{
    if segs.len() == 0 {
        Seq::empty()
    } else {
        flatten_step(flatten_segs(segs.drop_last()), segs.last())
    }
}

/// Canonical segments are nonempty, never `.` or `..`, and stay slash-free
/// when the inputs were.
pub proof fn lemma_flatten_segs_wf(segs: Seq<Seq<char>>)
    requires
        forall|i: int, j: int|
            0 <= i < segs.len() && 0 <= j < segs[i].len() ==> #[trigger] segs[i][j] != '/',
    ensures
        forall|i: int|
            0 <= i < flatten_segs(segs).len() ==> {
                let out = #[trigger] flatten_segs(segs)[i];
                &&& out.len() > 0
                &&& out != seq!['.']
                &&& out != seq!['.', '.']
                &&& forall|j: int| 0 <= j < out.len() ==> out[j] != '/'
            },
    decreases segs.len(),
{
    if segs.len() > 0 {
        assert(forall|i: int, j: int|
            0 <= i < segs.drop_last().len() && 0 <= j < segs.drop_last()[i].len()
                ==> #[trigger] segs.drop_last()[i][j] != '/');
        lemma_flatten_segs_wf(segs.drop_last());
        let prev = flatten_segs(segs.drop_last());
        let last = segs.last();
        let out = flatten_segs(segs);
        assert(out == flatten_step(prev, last));
        if last.len() == 0 || last == seq!['.'] {
        } else if last == seq!['.', '.'] {
            assert(forall|i: int| 0 <= i < out.len() ==> out[i] == prev[i]);
        } else {
            assert(forall|j: int| 0 <= j < last.len() ==> last[j] != '/');
            assert(forall|i: int| 0 <= i < out.len() - 1 ==> out[i] == prev[i]);
            assert(out.last() == last);
        }
    }
}

/// The canonical form of a raw path: split, fold, and rejoin.
pub open spec fn spec_flatten_path(s: Seq<char>) -> Seq<char> {
    join_slash(flatten_segs(split_slash(s)))
}

/// A relative path joined under a base directory. An empty relative path
/// names the base itself.
pub open spec fn join_under(base: Seq<char>, rel: Seq<char>) -> Seq<char> {
    if rel.len() == 0 {
        base
    } else {
        base + seq!['/'] + rel
    }
}

/// Canonicalization is safe: for every raw path, the canonical form has no
/// `..` segment and does not begin with a slash, and joining it under any
/// base directory yields exactly the base's segments followed by the
/// canonical segments - never a path outside the base.
pub proof fn lemma_flatten_path_stays_inside(path: Seq<char>, base: Seq<char>)
    ensures
        forall|i: int|
            0 <= i < split_slash(spec_flatten_path(path)).len() ==> (
            #[trigger] split_slash(spec_flatten_path(path))[i]) != seq!['.', '.'],
        spec_flatten_path(path).len() > 0 ==> spec_flatten_path(path)[0] != '/',
        split_slash(join_under(base, spec_flatten_path(path))) =~~= split_slash(base)
            + flatten_segs(split_slash(path)),
{
    let segs = split_slash(path);
    let flat = flatten_segs(segs);
    let joined = join_slash(flat);
    lemma_split_slash_wf(path);
    lemma_flatten_segs_wf(segs);
    if flat.len() == 0 {
        assert(joined.len() == 0);
        assert(split_slash(join_under(base, joined)) =~~= split_slash(base) + flat);
        lemma_split_slash_wf(joined);
        lemma_len_until_is(joined, '/', 0);
        assert(split_slash(joined) =~~= seq![joined]);
    } else {
        lemma_split_join(flat);
        assert(split_slash(joined) =~~= flat);
        lemma_split_concat(base, joined);
        assert(joined[0] == flat[0][0]);
        assert(flat[0].len() > 0);
    }
}

/// The segment list grown by one more segment joins as the old text plus a
/// separator and the new segment.
pub proof fn lemma_join_push(segs: Seq<Seq<char>>, x: Seq<char>)
    ensures
        segs.len() == 0 ==> join_slash(segs.push(x)) == x,
        segs.len() > 0 ==> join_slash(segs.push(x)) =~= join_slash(segs) + seq!['/'] + x,
    decreases segs.len(),
{
    if segs.len() == 0 {
        assert(segs.push(x) =~~= seq![x]);
        assert(join_slash(seq![x]) == x);
    } else if segs.len() == 1 {
        assert(segs.push(x).drop_first() =~~= seq![x]);
        assert(segs.push(x)[0] == segs[0]);
        assert(seq![x].len() == 1 && seq![x][0] == x);
        assert(join_slash(seq![x]) == x);
        assert(segs.push(x).len() == 2);
        assert(join_slash(segs.push(x)) == segs.push(x)[0] + seq!['/'] + join_slash(
            segs.push(x).drop_first(),
        ));
    } else {
        lemma_join_push(segs.drop_first(), x);
        assert(segs.push(x).drop_first() =~~= segs.drop_first().push(x));
        assert(segs.push(x)[0] == segs[0]);
        assert(join_slash(segs.push(x)) == segs[0] + seq!['/'] + join_slash(
            segs.drop_first().push(x),
        ));
    }
}

/// What percent-decoding yields for a given string: `None` when the decoded
/// bytes are not valid text. The result is a pure function of the input.
pub uninterp spec fn percent_decoded(s: Seq<char>) -> Option<Seq<char>>;

/// Relies on `urlencoding::decode`: `%`-escapes are decoded, the result
/// depends on the input alone, decoding fails only when the decoded bytes
/// are not valid UTF-8, and a string without `%` decodes to itself.
#[verifier::external_body]
pub fn percent_decode(s: &str) -> (r: Option<String>)
    ensures
        r is Some <==> percent_decoded(s@) is Some,
        r matches Some(t) ==> percent_decoded(s@) == Some(t@),
        r is Some || s@.contains('%'),
        r matches Some(t) ==> (s@.contains('%') || t@ == s@),
{
    match urlencoding::decode(s) {
        Ok(t) => Some(t.into_owned()),
        Err(_) => None,
    }
}

/// A filesystem path built by joining the served root directory with a
/// canonicalized relative path: by construction it never holds a `..`
/// segment after the root, so it stays inside the root's subtree.
pub struct ResolvedPath {
    pub full: String,
}

/// Where a decoded client path is served from: its canonical form joined
/// under the root directory.
pub open spec fn spec_resolved(root: Seq<char>, decoded: Seq<char>) -> Seq<char> {
    join_under(root, spec_flatten_path(decoded))
}

/// Percent-decodes the path part of a request-target, canonicalizes it and
/// joins it under the root directory. `None` exactly when decoding fails;
/// the connection boundary surfaces that as a 500, never as a 400.
pub fn resolve_path(root: &str, path_part: &str) -> (r: Option<ResolvedPath>)
    ensures
        r is Some <==> percent_decoded(path_part@) is Some,
        r matches Some(rp) ==> (percent_decoded(path_part@) matches Some(d) && rp.full@
            == spec_resolved(root@, d)),
{
    match percent_decode(path_part) {
        None => None,
        Some(decoded) => {
            let rel = flatten_path(decoded.as_str());
            let mut full = String::from_str(root);
            if !rel.as_str().is_empty() {
                full.append("/");
                full.append(rel.as_str());
                proof {
                    reveal_strlit("/");
                    assert("/"@ =~= seq!['/']);
                }
            }
            Some(ResolvedPath { full })
        },
    }
}

/// Resolves `.` and `..` out of a path. The root marker and `.` segments
/// are dropped; a `..` segment removes the segment before it, silently
/// doing nothing when there is none, so excess `..` segments are absorbed
/// rather than allowed to escape. The result is relative and `..`-free.
pub fn flatten_path(path: &str) -> (r: String)
    ensures
        r@ == spec_flatten_path(path@),
{
    let chars = str_chars(path);
    let ghost s = path@;
    let segs = split_chars(&chars, '/');
    assert(segs_view(segs@) =~~= split_slash(s));

    // Fold: drop empty and `.`, pop on `..`, keep the rest.
    let m = segs.len();
    let mut stack: Vec<Vec<char>> = Vec::new();
    let mut k: usize = 0;
    proof {
        assert(segs_view(segs@).take(0) =~~= Seq::<Seq<char>>::empty());
        assert(segs_view(stack@) =~~= Seq::<Seq<char>>::empty());
    }
    while k < m
        invariant
            m == segs@.len(),
            0 <= k <= m,
            segs_view(segs@) =~~= split_slash(s),
            segs_view(stack@) =~~= flatten_segs(segs_view(segs@).take(k as int)),
        decreases m - k,
    {
        let seg = &segs[k];
        proof {
            assert(segs_view(segs@).take(k + 1).drop_last() =~~= segs_view(segs@).take(k as int));
            assert(segs_view(segs@).take(k + 1).last() == seg@);
        }
        let ghost acc = segs_view(stack@);
        let is_dot = seg.len() == 1 && seg[0] == '.';
        let is_dotdot = seg.len() == 2 && seg[0] == '.' && seg[1] == '.';
        if seg.len() == 0 || is_dot {
            proof {
                if is_dot {
                    assert(seg@ =~= seq!['.']);
                }
                assert(flatten_step(acc, seg@) == acc);
            }
        } else if is_dotdot {
            proof {
                assert(seg@ =~= seq!['.', '.']);
            }
            if stack.len() > 0 {
                stack.pop();
                proof {
                    assert(segs_view(stack@) =~~= acc.drop_last());
                }
            } else {
                proof {
                    assert(acc.len() == 0);
                }
            }
        } else {
            proof {
                assert(seg@.len() > 0);
                assert(seg@ != seq!['.']);
                assert(seg@ != seq!['.', '.']);
            }
            stack.push(seg.clone());
            proof {
                assert(segs_view(stack@) =~~= acc.push(seg@));
            }
        }
        proof {
            assert(segs_view(stack@) =~~= flatten_step(acc, seg@));
            assert(segs_view(stack@) =~~= flatten_segs(segs_view(segs@).take(k + 1)));
        }
        k += 1;
    }
    assert(segs_view(segs@).take(m as int) =~~= segs_view(segs@));

    // Join with '/'.
    let p = stack.len();
    let mut out: Vec<char> = Vec::new();
    let mut t: usize = 0;
    proof {
        assert(segs_view(stack@).take(0) =~~= Seq::<Seq<char>>::empty());
        assert(out@ =~= join_slash(Seq::<Seq<char>>::empty()));
    }
    while t < p
        invariant
            p == stack@.len(),
            0 <= t <= p,
            segs_view(stack@) =~~= flatten_segs(split_slash(s)),
            out@ =~= join_slash(segs_view(stack@).take(t as int)),
        decreases p - t,
    {
        proof {
            lemma_join_push(segs_view(stack@).take(t as int), stack@[t as int]@);
            assert(segs_view(stack@).take(t + 1) =~~= segs_view(stack@).take(t as int).push(
                stack@[t as int]@,
            ));
        }
        if t > 0 {
            out.push('/');
        }
        let seg = &stack[t];
        let w = seg.len();
        let mut j: usize = 0;
        let ghost before = out@;
        while j < w
            invariant
                w == seg@.len(),
                0 <= j <= w,
                out@ =~= before + seg@.take(j as int),
            decreases w - j,
        {
            out.push(seg[j]);
            j += 1;
        }
        assert(seg@.take(w as int) =~= seg@);
        t += 1;
    }
    assert(segs_view(stack@).take(p as int) =~~= segs_view(stack@));
    chars_to_string(&out)
}

} // verus!
