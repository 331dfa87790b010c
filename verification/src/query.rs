//! The request-target's query component: splitting the target into path
//! and query, and reading the query as a key/value map where the last pair
//! with a given key wins.

use vstd::prelude::*;
use crate::path::{len_until, lemma_len_until, lemma_len_until_is, split_on, split_chars, segs_view};
use crate::text::{chars_to_string, chars_range, str_chars, str_eq};

verus! {

/// The path part of a request-target: everything before the first `?`.
pub open spec fn spec_target_path(t: Seq<char>) -> Seq<char> {
    t.take(len_until(t, '?'))
}

/// The query part of a request-target: everything after the first `?`, or
/// nothing when the target has no `?`.
pub open spec fn spec_target_query(t: Seq<char>) -> Option<Seq<char>> {
    if len_until(t, '?') == t.len() {
        None
    } else {
        Some(t.skip(len_until(t, '?') + 1))
    }
}

/// Splits a request-target into its path part and its optional query part
/// at the first `?`.
pub fn split_target(target: &str) -> (r: (String, Option<String>))
    ensures
        r.0@ == spec_target_path(target@),
        match r.1 {
            Some(q) => spec_target_query(target@) == Some(q@),
            None => spec_target_query(target@) is None,
        },
{
    let chars = str_chars(target);
    let n = chars.len();
    let mut i: usize = 0;
    while i < n
        invariant
            chars@ == target@,
            n == target@.len(),
            0 <= i <= n,
            forall|j: int| 0 <= j < i ==> target@[j] != '?',
        decreases n - i,
    {
        if chars[i] == '?' {
            proof {
                lemma_len_until_is(target@, '?', i as int);
            }
            let path_chars = chars_range(&chars, 0, i);
            let query_chars = chars_range(&chars, i + 1, n);
            return (chars_to_string(&path_chars), Some(chars_to_string(&query_chars)));
        }
        i += 1;
    }
    proof {
        lemma_len_until_is(target@, '?', n as int);
        assert(target@.take(n as int) =~= target@);
    }
    (String::from_str(target), None)
}

/// The pairs of a query string: split on `&`.
pub open spec fn split_amp(q: Seq<char>) -> Seq<Seq<char>> {
    split_on(q, '&')
}

/// The key of one query pair: everything before the first `=`.
pub open spec fn pair_key(p: Seq<char>) -> Seq<char> {
    p.take(len_until(p, '='))
}

/// The value of one query pair: the piece between the first and second `=`
/// if the pair has one, nothing when the pair has no `=` at all.
pub open spec fn pair_value(p: Seq<char>) -> Option<Seq<char>> {
    if len_until(p, '=') == p.len() {
        None
    } else {
        let rest = p.skip(len_until(p, '=') + 1);
        Some(rest.take(len_until(rest, '=')))
    }
}

/// What the query map holds for a key: the value of the last pair with that
/// key, or nothing when no pair has it.
pub open spec fn spec_query_lookup(pairs: Seq<Seq<char>>, k: Seq<char>) -> Option<
    Option<Seq<char>>,
>
    decreases pairs.len(),
{
    if pairs.len() == 0 {
        None
    } else {
        match spec_query_lookup(pairs.drop_first(), k) {
            Some(v) => Some(v),
            None => if pair_key(pairs.first()) == k {
                Some(pair_value(pairs.first()))
            } else {
                None
            },
        }
    }
}

/// One entry of a parsed query: a key and its optional value.
#[derive(Debug, Clone)]
pub struct QueryParam {
    pub key: String,
    pub value: Option<String>,
}

impl View for QueryParam {
    type V = (Seq<char>, Option<Seq<char>>);

    open spec fn view(&self) -> (Seq<char>, Option<Seq<char>>) {
        (
            self.key@,
            match self.value {
                Some(v) => Some(v@),
                None => None,
            },
        )
    }
}

/// Whether some entry holds the given key.
pub fn has_query_key(params: &Vec<QueryParam>, key: &str) -> (r: bool)
    ensures
        r == exists|i: int| 0 <= i < params@.len() && (#[trigger] params@[i]@).0 == key@,
{
    let n = params.len();
    let mut i: usize = 0;
    while i < n
        invariant
            n == params@.len(),
            0 <= i <= n,
            forall|j: int| 0 <= j < i ==> (#[trigger] params@[j]@).0 != key@,
        decreases n - i,
    {
        if str_eq(params[i].key.as_str(), key) {
            assert((params@[i as int]@).0 == key@);
            return true;
        }
        i += 1;
    }
    false
}

/// Splits one query pair into key and optional value, mirroring
/// `pair_key` and `pair_value`.
fn split_pair(pair: &Vec<char>) -> (r: QueryParam)
    ensures
        r@.0 == pair_key(pair@),
        r@.1 == pair_value(pair@),
{
    let n = pair.len();
    let mut i: usize = 0;
    while i < n
        invariant
            n == pair@.len(),
            0 <= i <= n,
            forall|j: int| 0 <= j < i ==> pair@[j] != '=',
        decreases n - i,
    {
        if pair[i] == '=' {
            proof {
                lemma_len_until_is(pair@, '=', i as int);
            }
            let key_chars = chars_range(pair, 0, i);
            let rest = chars_range(pair, i + 1, n);
            // The value is the piece before any second `=`.
            let m = rest.len();
            let mut t: usize = 0;
            while t < m
                invariant
                    m == rest@.len(),
                    0 <= t <= m,
                    forall|j: int| 0 <= j < t ==> rest@[j] != '=',
                    len_until(pair@, '=') == i as int,
                    i < n == pair@.len(),
                    key_chars@ == pair@.take(i as int),
                    rest@ == pair@.skip(i as int + 1),
                decreases m - t,
            {
                if rest[t] == '=' {
                    proof {
                        lemma_len_until_is(rest@, '=', t as int);
                    }
                    let value_chars = chars_range(&rest, 0, t);
                    return QueryParam {
                        key: chars_to_string(&key_chars),
                        value: Some(chars_to_string(&value_chars)),
                    };
                }
                t += 1;
            }
            proof {
                lemma_len_until_is(rest@, '=', m as int);
                assert(rest@.take(m as int) =~= rest@);
            }
            return QueryParam {
                key: chars_to_string(&key_chars),
                value: Some(chars_to_string(&rest)),
            };
        }
        i += 1;
    }
    proof {
        lemma_len_until_is(pair@, '=', n as int);
        assert(pair@.take(n as int) =~= pair@);
    }
    QueryParam { key: chars_to_string(pair), value: None }
}

/// Parses a query string into its key/value map. Pairs are split on `&`,
/// keys from values on `=`; when a key repeats, the last pair wins, as a
/// map built by inserting each pair in order would have it.
pub fn parse_query(query: &str) -> (r: Vec<QueryParam>)
    ensures
        forall|i: int, j: int| 0 <= i < j < r@.len() ==> (#[trigger] r@[i]@).0 != (
        #[trigger] r@[j]@).0,
        forall|i: int|
            0 <= i < r@.len() ==> spec_query_lookup(split_amp(query@), (#[trigger] r@[i]@).0)
                == Some(r@[i]@.1),
        forall|k: Seq<char>|
            (#[trigger] spec_query_lookup(split_amp(query@), k)) is Some ==> exists|i: int|
                0 <= i < r@.len() && (#[trigger] r@[i]@).0 == k,
{
    let chars = str_chars(query);
    let pairs = split_chars(&chars, '&');
    let ghost ps = segs_view(pairs@);
    assert(ps =~~= split_amp(query@));

    let n = pairs.len();
    let mut out: Vec<QueryParam> = Vec::new();
    let mut t: usize = n;
    proof {
        assert(ps.skip(n as int) =~~= Seq::<Seq<char>>::empty());
    }
    while t > 0
        invariant
            n == ps.len(),
            n == pairs@.len(),
            segs_view(pairs@) == ps,
            0 <= t <= n,
            forall|i: int, j: int| 0 <= i < j < out@.len() ==> (#[trigger] out@[i]@).0 != (
            #[trigger] out@[j]@).0,
            forall|i: int|
                0 <= i < out@.len() ==> spec_query_lookup(ps.skip(t as int), (#[trigger] out@[i]@).0)
                    == Some(out@[i]@.1),
            forall|k: Seq<char>|
                (#[trigger] spec_query_lookup(ps.skip(t as int), k)) is Some ==> exists|i: int|
                    0 <= i < out@.len() && (#[trigger] out@[i]@).0 == k,
        decreases t,
    {
        t -= 1;
        let ghost old_out = out@;
        let ghost suffix = ps.skip(t as int);
        let ghost rest_suffix = ps.skip(t as int + 1);
        let param = split_pair(&pairs[t]);
        proof {
            assert(pairs@[t as int]@ == ps[t as int]);
            assert(suffix.len() > 0);
            assert(suffix.first() == ps[t as int]);
            assert(suffix.drop_first() =~~= rest_suffix);
            assert(pair_key(suffix.first()) == param@.0);
            assert(pair_value(suffix.first()) == param@.1);
        }
        let mut seen = false;
        let m = out.len();
        let mut i: usize = 0;
        while i < m
            invariant
                m == out@.len(),
                out@ == old_out,
                param@.0 == pair_key(ps[t as int]),
                0 <= i <= m,
                seen == exists|j: int| 0 <= j < i && (#[trigger] out@[j]@).0 == param@.0,
            decreases m - i,
        {
            if str_eq(out[i].key.as_str(), param.key.as_str()) {
                assert((out@[i as int]@).0 == param@.0);
                seen = true;
            }
            i += 1;
        }
        if !seen {
            out.push(param);
        }
        proof {
            // Unfold one lookup step: the pair just handled is the first of
            // the suffix, and the rest of the suffix decides first.
            assert forall|k: Seq<char>|
                #[trigger] spec_query_lookup(suffix, k) == (match spec_query_lookup(
                rest_suffix,
                k,
            ) {
                Some(v) => Some(v),
                None => if pair_key(suffix.first()) == k {
                    Some(pair_value(suffix.first()))
                } else {
                    None
                },
            }) by {
                assert(spec_query_lookup(suffix.drop_first(), k) == spec_query_lookup(
                    rest_suffix,
                    k,
                ));
            }
            if seen {
                assert(out@ == old_out);
                assert(exists|j: int|
                    0 <= j < old_out.len() && (#[trigger] old_out[j]@).0 == param@.0);
                assert forall|i2: int| 0 <= i2 < out@.len() implies spec_query_lookup(
                    suffix,
                    (#[trigger] out@[i2]@).0,
                ) == Some(out@[i2]@.1) by {
                    assert(spec_query_lookup(rest_suffix, (out@[i2]@).0) == Some(out@[i2]@.1));
                }
                assert forall|k: Seq<char>|
                    (#[trigger] spec_query_lookup(suffix, k)) is Some implies exists|i2: int|
                    0 <= i2 < out@.len() && (#[trigger] out@[i2]@).0 == k by {
                    if spec_query_lookup(rest_suffix, k) is Some {
                    } else {
                        assert(k == param@.0);
                        let j = choose|j: int|
                            0 <= j < old_out.len() && (#[trigger] old_out[j]@).0 == param@.0;
                        assert((out@[j]@).0 == k);
                    }
                }
            } else {
                assert(out@ == old_out.push(param));
                // No earlier entry holds the new key, so the rest of the
                // suffix holds nothing for it either.
                assert(spec_query_lookup(rest_suffix, param@.0) is None) by {
                    if spec_query_lookup(rest_suffix, param@.0) is Some {
                        let j = choose|j: int|
                            0 <= j < old_out.len() && (#[trigger] old_out[j]@).0 == param@.0;
                        assert(false);
                    }
                }
                assert forall|i2: int| 0 <= i2 < out@.len() implies spec_query_lookup(
                    suffix,
                    (#[trigger] out@[i2]@).0,
                ) == Some(out@[i2]@.1) by {
                    if i2 < old_out.len() {
                        assert(out@[i2] == old_out[i2]);
                        assert(spec_query_lookup(rest_suffix, (out@[i2]@).0) == Some(
                            out@[i2]@.1,
                        ));
                    } else {
                        assert(out@[i2] == param);
                        assert(spec_query_lookup(suffix, param@.0) == Some(param@.1));
                    }
                }
                assert forall|k: Seq<char>|
                    (#[trigger] spec_query_lookup(suffix, k)) is Some implies exists|i2: int|
                    0 <= i2 < out@.len() && (#[trigger] out@[i2]@).0 == k by {
                    if spec_query_lookup(rest_suffix, k) is Some {
                        let j = choose|j: int|
                            0 <= j < old_out.len() && (#[trigger] old_out[j]@).0 == k;
                        assert((out@[j]@).0 == k);
                    } else {
                        assert(k == param@.0);
                        assert((out@[old_out.len() as int]@).0 == k);
                    }
                }
            }
        }
    }
    proof {
        assert(ps.skip(0) =~~= ps);
    }
    out
}

} // verus!
