//! Character-level string utilities: lexicographic order, conversions
//! between `&str` and `Vec<char>`, and equality helpers.

use vstd::prelude::*;

verus! {

use vstd::string::StrSliceExecFns;

/// Strict lexicographic order on character sequences, by Unicode code point.
pub open spec fn lex_lt(a: Seq<char>, b: Seq<char>) -> bool
    decreases a.len(),
{
    if b.len() == 0 {
        false
    } else if a.len() == 0 {
        true
    } else if a[0] != b[0] {
        a[0] < b[0]
    } else {
        lex_lt(a.drop_first(), b.drop_first())
    }
}

/// Dropping equal first characters preserves the order either way.
proof fn lemma_lex_lt_unfold(a: Seq<char>, b: Seq<char>)
    requires
        a.len() > 0,
        b.len() > 0,
        a[0] == b[0],
    ensures
        lex_lt(a, b) == lex_lt(a.drop_first(), b.drop_first()),
{
}

/// The order is total: of two distinct sequences one is smaller.
pub proof fn lemma_lex_total(a: Seq<char>, b: Seq<char>)
    ensures
        a == b || lex_lt(a, b) || lex_lt(b, a),
    decreases a.len(),
{
    if a.len() == 0 && b.len() == 0 {
        assert(a =~= b);
    } else if a.len() > 0 && b.len() > 0 {
        if a[0] == b[0] {
            lemma_lex_total(a.drop_first(), b.drop_first());
            if a.drop_first() == b.drop_first() {
                assert(a.drop_first().len() == b.drop_first().len());
                assert(a.len() == b.len());
                assert forall|i: int| 0 <= i < a.len() implies a[i] == b[i] by {
                    if i > 0 {
                        assert(a[i] == a.drop_first()[i - 1]);
                        assert(b[i] == b.drop_first()[i - 1]);
                    }
                }
                assert(a =~= b);
            }
        }
    }
}

/// The order is irreflexive.
pub proof fn lemma_lex_irrefl(a: Seq<char>)
    ensures
        !lex_lt(a, a),
    decreases a.len(),
{
    if a.len() > 0 {
        lemma_lex_irrefl(a.drop_first());
    }
}

/// The order is transitive.
pub proof fn lemma_lex_trans(a: Seq<char>, b: Seq<char>, c: Seq<char>)
    requires
        lex_lt(a, b),
        lex_lt(b, c),
    ensures
        lex_lt(a, c),
    decreases a.len(),
{
    if b.len() > 0 && c.len() > 0 && a.len() > 0 {
        if a[0] == b[0] && b[0] == c[0] {
            lemma_lex_trans(a.drop_first(), b.drop_first(), c.drop_first());
        }
    }
}

/// The characters of `s`, as a vector.
pub fn str_chars(s: &str) -> (v: Vec<char>)
    ensures
        v@ == s@,
{
    let n = s.unicode_len();
    let mut v: Vec<char> = Vec::new();
    let mut i: usize = 0;
    while i < n
        invariant
            n == s@.len(),
            i <= n,
            v@ == s@.take(i as int),
        decreases n - i,
    {
        let c = s.get_char(i);
        v.push(c);
        proof {
            assert(s@.take(i + 1 as int) =~= s@.take(i as int).push(s@[i as int]));
        }
        i += 1;
    }
    proof {
        assert(s@.take(n as int) =~= s@);
    }
    v
}

/// Builds a string from a vector of characters.
///
/// Relies on `String`'s `FromIterator<&char>`: collecting an iterator of
/// characters yields the string holding exactly those characters in order.
#[verifier::external_body]
pub fn chars_to_string(v: &Vec<char>) -> (s: String)
    ensures
        s@ == v@,
{
    v.iter().collect()
}

/// String equality, decided at character level.
pub fn str_eq(a: &str, b: &str) -> (r: bool)
    ensures
        r == (a@ == b@),
{
    let oa = a.to_owned();
    let ob = b.to_owned();
    oa == ob
}

/// Whether `a` comes strictly before `b` in lexicographic order.
pub fn str_lt(a: &str, b: &str) -> (r: bool)
    ensures
        r == lex_lt(a@, b@),
{
    let alen = a.unicode_len();
    let blen = b.unicode_len();
    let mut i: usize = 0;
    proof {
        assert(a@.skip(0) =~= a@);
        assert(b@.skip(0) =~= b@);
    }
    loop
        invariant
            alen == a@.len(),
            blen == b@.len(),
            i <= alen,
            i <= blen,
            forall|j: int| 0 <= j < i ==> a@[j] == b@[j],
            lex_lt(a@, b@) == lex_lt(a@.skip(i as int), b@.skip(i as int)),
        decreases alen - i,
    {
        if i >= alen || i >= blen {
            proof {
                if i >= alen {
                    assert(a@.skip(i as int).len() == 0);
                } else {
                    assert(b@.skip(i as int).len() == 0);
                }
            }
            return alen < blen;
        }
        let ca = a.get_char(i);
        let cb = b.get_char(i);
        if ca != cb {
            proof {
                assert(a@.skip(i as int)[0] == a@[i as int]);
                assert(b@.skip(i as int)[0] == b@[i as int]);
            }
            return ca < cb;
        }
        proof {
            let sa = a@.skip(i as int);
            let sb = b@.skip(i as int);
            assert(sa[0] == sb[0]);
            lemma_lex_lt_unfold(sa, sb);
            assert(sa.drop_first() =~= a@.skip(i + 1 as int));
            assert(sb.drop_first() =~= b@.skip(i + 1 as int));
        }
        i += 1;
    }
}

/// Whether the characters of `p` equal `v[start..end]`.
pub fn str_eq_chars_range(p: &str, v: &Vec<char>, start: usize, end: usize) -> (r: bool)
    requires
        start <= end <= v@.len(),
    ensures
        r == (p@ == v@.subrange(start as int, end as int)),
{
    let plen = p.unicode_len();
    if plen != end - start {
        return false;
    }
    let mut j: usize = 0;
    while j < plen
        invariant
            plen == p@.len(),
            plen == end - start,
            start <= end <= v@.len(),
            j <= plen,
            forall|k: int| 0 <= k < j ==> p@[k] == v@[start + k],
        decreases plen - j,
    {
        if p.get_char(j) != v[start + j] {
            proof {
                assert(v@.subrange(start as int, end as int)[j as int] == v@[start + j]);
            }
            return false;
        }
        j += 1;
    }
    proof {
        assert(p@ =~= v@.subrange(start as int, end as int));
    }
    true
}

/// Appends `cs[start..end]` to `out`.
pub(crate) fn push_range(out: &mut Vec<char>, cs: &Vec<char>, start: usize, end: usize)
    requires
        start <= end <= cs@.len(),
    ensures
        final(out)@ == old(out)@ + cs@.subrange(start as int, end as int),
{
    let mut t: usize = start;
    while t < end
        invariant
            start <= t <= end <= cs@.len(),
            out@ == old(out)@ + cs@.subrange(start as int, t as int),
        decreases end - t,
    {
        out.push(cs[t]);
        proof {
            assert(cs@.subrange(start as int, t + 1 as int) =~= cs@.subrange(
                start as int,
                t as int,
            ).push(cs@[t as int]));
            assert(old(out)@ + cs@.subrange(start as int, t + 1 as int) =~= (old(out)@
                + cs@.subrange(start as int, t as int)).push(cs@[t as int]));
        }
        t += 1;
    }
    proof {
        if start == end {
            assert(out@ =~= old(out)@ + cs@.subrange(start as int, start as int));
        }
    }
}

/// Appends the characters of `s` to `out`.
pub(crate) fn push_str_chars(out: &mut Vec<char>, s: &str)
    ensures
        final(out)@ == old(out)@ + s@,
{
    let vs = str_chars(s);
    let n = vs.len();
    let mut t: usize = 0;
    while t < n
        invariant
            n == vs@.len(),
            vs@ == s@,
            t <= n,
            out@ == old(out)@ + vs@.take(t as int),
        decreases n - t,
    {
        out.push(vs[t]);
        proof {
            assert(vs@.take(t + 1 as int) =~= vs@.take(t as int).push(vs@[t as int]));
            assert(old(out)@ + vs@.take(t + 1 as int) =~= (old(out)@ + vs@.take(t as int)).push(
                vs@[t as int]));
        }
        t += 1;
    }
    proof {
        assert(out@ =~= old(out)@ + s@);
    }
}

/// The dot-joined text of the keys from `i` on, skipping empty ones;
/// `started` says whether anything was already emitted.
pub open spec fn join_keys_from(keys: Seq<Seq<char>>, i: int, started: bool) -> Seq<char>
    decreases keys.len() - i,
{
    if i < 0 || i >= keys.len() {
        Seq::empty()
    } else if keys[i].len() == 0 {
        join_keys_from(keys, i + 1, started)
    } else if started {
        seq!['.'] + keys[i] + join_keys_from(keys, i + 1, true)
    } else {
        keys[i] + join_keys_from(keys, i + 1, true)
    }
}

/// The keys joined with `.`, empty ones omitted.
pub open spec fn join_keys(keys: Seq<Seq<char>>) -> Seq<char> {
    join_keys_from(keys, 0, false)
}

/// Joins the keys with a dot; an empty key is omitted entirely.
pub fn format_keys(keys: &[&str]) -> (r: String)
    ensures
        r@ == join_keys(keys.deep_view()),
{
    let ghost keysv = keys.deep_view();
    let mut out: Vec<char> = Vec::new();
    let mut started = false;
    let n = keys.len();
    let mut i: usize = 0;
    while i < n
        invariant
            n == keys@.len(),
            keysv == keys.deep_view(),
            i <= n,
            join_keys(keysv) == out@ + join_keys_from(keysv, i as int, started),
        decreases n - i,
    {
        proof {
            assert(keysv[i as int] == keys@[i as int]@);
        }
        if !keys[i].is_empty() {
            let ghost outv = out@;
            if started {
                out.push('.');
                push_str_chars(&mut out, keys[i]);
                proof {
                    assert(out@ =~= outv.push('.') + keysv[i as int]);
                    assert(out@ + join_keys_from(keysv, i + 1 as int, true) =~= outv + (seq![
                        '.',
                    ] + keysv[i as int] + join_keys_from(keysv, i + 1 as int, true)));
                }
            } else {
                push_str_chars(&mut out, keys[i]);
                proof {
                    assert(out@ + join_keys_from(keysv, i + 1 as int, true) =~= outv
                        + (keysv[i as int] + join_keys_from(keysv, i + 1 as int, true)));
                }
            }
            started = true;
        }
        i += 1;
    }
    proof {
        assert(out@ + Seq::<char>::empty() =~= out@);
    }
    chars_to_string(&out)
}

} // verus!
