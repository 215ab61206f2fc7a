//! Locale fallback resolution: the exact locale first, then ever shorter
//! tag prefixes (the rightmost `-` subtag stripped, a dangling `-x`
//! private-use marker trimmed), then a configured fallback chain.

use vstd::prelude::*;

verus! {

use crate::backend::Backend;
use crate::strutil::str_chars;
use crate::strutil::chars_to_string;

/// Position of the last `-` strictly before `k`, if any.
pub open spec fn last_dash_before(s: Seq<char>, k: int) -> Option<int>
    decreases k,
{
    if k <= 0 || k > s.len() {
        None
    } else if s[k - 1] == '-' {
        Some(k - 1)
    } else {
        last_dash_before(s, k - 1)
    }
}

/// Drops every trailing `-x` pair: what remains of a truncated tag once
/// dangling private-use markers are trimmed.
pub open spec fn trim_x(s: Seq<char>) -> Seq<char>
    decreases s.len(),
{
    if s.len() >= 2 && s[s.len() - 2] == '-' && s[s.len() - 1] == 'x' {
        trim_x(s.take(s.len() - 2))
    } else {
        s
    }
}

/// The parent of a locale tag: the tag cut at its last `-`, trimmed of a
/// dangling `-x`; a tag without `-` has no parent.
pub open spec fn parent_locale(s: Seq<char>) -> Option<Seq<char>> {
    match last_dash_before(s, s.len() as int) {
        Some(i) => Some(trim_x(s.take(i))),
        None => None,
    }
}

/// Trimming never lengthens a sequence.
proof fn lemma_trim_x_len(s: Seq<char>)
    ensures
        trim_x(s).len() <= s.len(),
    decreases s.len(),
{
    if s.len() >= 2 && s[s.len() - 2] == '-' && s[s.len() - 1] == 'x' {
        lemma_trim_x_len(s.take(s.len() - 2));
    }
}

/// A found dash lies inside the searched range.
proof fn lemma_last_dash_bounds(s: Seq<char>, k: int)
    ensures
        last_dash_before(s, k) matches Some(i) ==> 0 <= i < k <= s.len(),
    decreases k,
{
    if 0 < k <= s.len() && s[k - 1] != '-' {
        lemma_last_dash_bounds(s, k - 1);
    }
}

/// A parent tag is strictly shorter than its child.
pub proof fn lemma_parent_shorter(s: Seq<char>)
    ensures
        parent_locale(s) matches Some(p) ==> p.len() < s.len(),
{
    lemma_last_dash_bounds(s, s.len() as int);
    match last_dash_before(s, s.len() as int) {
        Some(i) => {
            lemma_trim_x_len(s.take(i));
        },
        None => {
        },
    }
}

/// First hit along the configured fallback chain, from `idx` on.
pub open spec fn chain_lookup<B: Backend>(
    b: &B,
    chain: Seq<Seq<char>>,
    idx: int,
    key: Seq<char>,
) -> Option<Seq<char>>
    decreases chain.len() - idx,
{
    if idx < 0 || idx >= chain.len() {
        None
    } else if b.spec_translate(chain[idx], key) is Some {
        b.spec_translate(chain[idx], key)
    } else {
        chain_lookup(b, chain, idx + 1, key)
    }
}

/// What fallback resolution returns: the exact locale's text, else the
/// nearest ancestor tag's, else the first hit along the chain.
pub open spec fn resolve_spec<B: Backend>(
    b: &B,
    locale: Seq<char>,
    key: Seq<char>,
    chain: Seq<Seq<char>>,
) -> Option<Seq<char>>
    decreases locale.len(),
    via resolve_spec_dec::<B>
{
    if b.spec_translate(locale, key) is Some {
        b.spec_translate(locale, key)
    } else {
        match parent_locale(locale) {
            Some(p) => resolve_spec(b, p, key, chain),
            None => chain_lookup(b, chain, 0, key),
        }
    }
}

#[via_fn]
proof fn resolve_spec_dec<B: Backend>(b: &B, locale: Seq<char>, key: Seq<char>, chain: Seq<
    Seq<char>,
>) {
    lemma_parent_shorter(locale);
}

/// The parent of a locale tag, as a new string: `"zh-Hant-CN"` becomes
/// `"zh-Hant"`, `"zh-Hant-CN-x-private"` becomes `"zh-Hant-CN"`, and a tag
/// without `-` has none.
pub fn lookup_fallback(locale: &str) -> (r: Option<String>)
    ensures
        r.deep_view() == parent_locale(locale@),
{
    let mut cs = str_chars(locale);
    let n = cs.len();
    let mut k: usize = n;
    while k > 0
        invariant
            n == cs@.len(),
            cs@ == locale@,
            k <= n,
            last_dash_before(locale@, n as int) == last_dash_before(locale@, k as int),
        decreases k,
    {
        if cs[k - 1] == '-' {
            cs.truncate(k - 1);
            proof {
                assert(cs@ == locale@.take(k - 1));
            }
            let mut len = cs.len();
            while len >= 2 && cs[len - 2] == '-' && cs[len - 1] == 'x'
                invariant
                    len == cs@.len(),
                    trim_x(cs@) == trim_x(locale@.take(k - 1)),
                decreases len,
            {
                let ghost prev = cs@;
                cs.truncate(len - 2);
                proof {
                    assert(cs@ == prev.take(len - 2));
                    assert(trim_x(prev) == trim_x(cs@));
                }
                len = cs.len();
            }
            proof {
                assert(trim_x(cs@) == cs@);
            }
            return Some(chars_to_string(&cs));
        }
        k -= 1;
    }
    None
}

/// Resolves `key` for `locale` against `backend`: the exact locale first,
/// then each ancestor tag, then the locales of `fallbacks` in order; the
/// first hit wins.
pub fn try_translate<B: Backend>(
    backend: &B,
    locale: &str,
    key: &str,
    fallbacks: &Vec<String>,
) -> (r: Option<String>)
    ensures
        r.deep_view() == resolve_spec(backend, locale@, key@, fallbacks.deep_view()),
{
    let ghost chainv = fallbacks.deep_view();
    let direct = backend.translate(locale, key);
    if direct.is_some() {
        return direct;
    }
    let mut current: String = locale.to_owned();
    loop
        invariant
            chainv == fallbacks.deep_view(),
            backend.spec_translate(current@, key@) is None,
            resolve_spec(backend, locale@, key@, chainv) == resolve_spec(
                backend,
                current@,
                key@,
                chainv,
            ),
        ensures
            parent_locale(current@) is None,
            backend.spec_translate(current@, key@) is None,
            resolve_spec(backend, locale@, key@, chainv) == resolve_spec(
                backend,
                current@,
                key@,
                chainv,
            ),
        decreases current@.len(),
    {
        match lookup_fallback(current.as_str()) {
            Some(p) => {
                let hit = backend.translate(p.as_str(), key);
                if hit.is_some() {
                    proof {
                        assert(parent_locale(current@) == Some(p@));
                        assert(resolve_spec(backend, current@, key@, chainv) == resolve_spec(
                            backend,
                            p@,
                            key@,
                            chainv,
                        ));
                        assert(resolve_spec(backend, p@, key@, chainv)
                            == backend.spec_translate(p@, key@));
                    }
                    return hit;
                }
                proof {
                    lemma_parent_shorter(current@);
                }
                current = p;
            },
            None => {
                break ;
            },
        }
    }
    let n = fallbacks.len();
    let mut i: usize = 0;
    while i < n
        invariant
            n == fallbacks@.len(),
            n == chainv.len(),
            chainv == fallbacks.deep_view(),
            i <= n,
            resolve_spec(backend, locale@, key@, chainv) == chain_lookup(
                backend,
                chainv,
                i as int,
                key@,
            ),
        decreases n - i,
    {
        proof {
            assert(chainv[i as int] == fallbacks@[i as int]@);
        }
        let hit = backend.translate(fallbacks[i].as_str(), key);
        if hit.is_some() {
            return hit;
        }
        i += 1;
    }
    None
}

/// What `translate` returns: the resolved text, or, where nothing matched
/// at any tier, the key itself - a missing translation is no error, the
/// caller sees the source text unchanged.
pub open spec fn translate_spec<B: Backend>(
    b: &B,
    locale: Seq<char>,
    key: Seq<char>,
    chain: Seq<Seq<char>>,
) -> Seq<char> {
    match resolve_spec(b, locale, key, chain) {
        Some(t) => t,
        None => key,
    }
}

/// Resolves `key` with fallback; where nothing matches, degrades to the
/// key unchanged.
pub fn translate<B: Backend>(
    backend: &B,
    locale: &str,
    key: &str,
    fallbacks: &Vec<String>,
) -> (r: String)
    ensures
        r@ == translate_spec(backend, locale@, key@, fallbacks.deep_view()),
{
    match try_translate(backend, locale, key, fallbacks) {
        Some(t) => t,
        None => key.to_owned(),
    }
}


/// Fallback order: where the exact locale or one of its ancestor tags has
/// the key, the statically configured chain is never consulted - the
/// result is the same whatever the chain holds.
pub proof fn lemma_fallback_order<B: Backend>(
    b: &B,
    locale: Seq<char>,
    key: Seq<char>,
    chain: Seq<Seq<char>>,
)
    requires
        resolve_spec(b, locale, key, Seq::<Seq<char>>::empty()) is Some,
    ensures
        resolve_spec(b, locale, key, chain) == resolve_spec(
            b,
            locale,
            key,
            Seq::<Seq<char>>::empty(),
        ),
    decreases locale.len(),
{
    if b.spec_translate(locale, key) is Some {
    } else {
        match parent_locale(locale) {
            Some(p) => {
                lemma_parent_shorter(locale);
                lemma_fallback_order(b, p, key, chain);
            },
            None => {
                assert(chain_lookup(b, Seq::<Seq<char>>::empty(), 0, key) is None);
            },
        }
    }
}
} // verus!
