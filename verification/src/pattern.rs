//! Placeholder substitution: a single pass over the template replaces each
//! `%{name}` span whose name is known with the caller's value, leaves
//! unknown placeholders untouched, and copies everything else verbatim.
//! An unterminated `%{` is literal text from the `%` onward.

use vstd::prelude::*;

verus! {

use crate::strutil::str_chars;
use crate::strutil::chars_to_string;
use crate::strutil::str_eq_chars_range;
use crate::strutil::push_range;
use crate::strutil::push_str_chars;

/// Position of the first `}` at or after `from`.
pub open spec fn find_close(s: Seq<char>, from: int) -> Option<int>
    decreases s.len() - from,
{
    if from < 0 || from >= s.len() {
        None
    } else if s[from] == '}' {
        Some(from)
    } else {
        find_close(s, from + 1)
    }
}

/// A found closing brace lies inside the scanned range.
proof fn lemma_find_close_bounds(s: Seq<char>, from: int)
    ensures
        find_close(s, from) matches Some(j) ==> from <= j < s.len() && s[j] == '}',
    decreases s.len() - from,
{
    if 0 <= from < s.len() && s[from] != '}' {
        lemma_find_close_bounds(s, from + 1);
    }
}

/// The value paired with the first name equal to `name`, from `m` on;
/// names and values are matched by position, the shorter list decides.
pub open spec fn lookup_from(
    names: Seq<Seq<char>>,
    values: Seq<Seq<char>>,
    name: Seq<char>,
    m: int,
) -> Option<Seq<char>>
    decreases names.len() - m,
{
    if m < 0 || m >= names.len() || m >= values.len() {
        None
    } else if names[m] == name {
        Some(values[m])
    } else {
        lookup_from(names, values, name, m + 1)
    }
}

/// The value paired with the first name equal to `name`, if any.
pub open spec fn lookup_value(
    names: Seq<Seq<char>>,
    values: Seq<Seq<char>>,
    name: Seq<char>,
) -> Option<Seq<char>> {
    lookup_from(names, values, name, 0)
}

/// The substituted text of `tpl` from position `i` on.
pub open spec fn subst_from(
    tpl: Seq<char>,
    i: int,
    names: Seq<Seq<char>>,
    values: Seq<Seq<char>>,
) -> Seq<char>
    decreases tpl.len() - i,
    via subst_from_dec
{
    if i < 0 || i >= tpl.len() {
        Seq::empty()
    } else if tpl[i] == '%' && i + 1 < tpl.len() && tpl[i + 1] == '{' {
        match find_close(tpl, i + 2) {
            None => tpl.subrange(i, tpl.len() as int),
            Some(j) => (match lookup_value(names, values, tpl.subrange(i + 2, j)) {
                Some(v) => v,
                None => tpl.subrange(i, j + 1),
            }) + subst_from(tpl, j + 1, names, values),
        }
    } else {
        seq![tpl[i]] + subst_from(tpl, i + 1, names, values)
    }
}

#[via_fn]
proof fn subst_from_dec(tpl: Seq<char>, i: int, names: Seq<Seq<char>>, values: Seq<Seq<char>>) {
    lemma_find_close_bounds(tpl, i + 2);
}

/// The substituted text of the whole template.
pub open spec fn subst(tpl: Seq<char>, names: Seq<Seq<char>>, values: Seq<Seq<char>>) -> Seq<
    char,
> {
    subst_from(tpl, 0, names, values)
}

/// Index of the first `}` at or after `from`, if any.
fn find_close_at(cs: &Vec<char>, from: usize) -> (r: Option<usize>)
    requires
        from <= cs@.len(),
    ensures
        match r {
            Some(j) => from <= j < cs@.len() && find_close(cs@, from as int) == Some(j as int),
            None => find_close(cs@, from as int) is None,
        },
{
    let n = cs.len();
    let mut j: usize = from;
    while j < n
        invariant
            n == cs@.len(),
            from <= j <= n,
            find_close(cs@, from as int) == find_close(cs@, j as int),
        decreases n - j,
    {
        if cs[j] == '}' {
            return Some(j);
        }
        j += 1;
    }
    None
}

/// The value whose name equals `cs[start..end]`, by first match.
fn lookup_exec(
    patterns: &[&str],
    values: &[String],
    cs: &Vec<char>,
    start: usize,
    end: usize,
) -> (r: Option<String>)
    requires
        start <= end <= cs@.len(),
    ensures
        r.deep_view() == lookup_value(
            patterns.deep_view(),
            values.deep_view(),
            cs@.subrange(start as int, end as int),
        ),
{
    let ghost namesv = patterns.deep_view();
    let ghost valuesv = values.deep_view();
    let ghost name = cs@.subrange(start as int, end as int);
    let limit: usize = if patterns.len() < values.len() {
        patterns.len()
    } else {
        values.len()
    };
    let mut m: usize = 0;
    while m < limit
        invariant
            start <= end <= cs@.len(),
            namesv == patterns.deep_view(),
            valuesv == values.deep_view(),
            name == cs@.subrange(start as int, end as int),
            limit <= patterns@.len(),
            limit <= values@.len(),
            limit == if patterns@.len() < values@.len() {
                patterns@.len()
            } else {
                values@.len()
            },
            m <= limit,
            lookup_value(namesv, valuesv, name) == lookup_from(namesv, valuesv, name, m as int),
        decreases limit - m,
    {
        proof {
            assert(namesv[m as int] == patterns@[m as int]@);
        }
        if str_eq_chars_range(patterns[m], cs, start, end) {
            proof {
                assert(valuesv[m as int] == values@[m as int]@);
            }
            return Some(values[m].clone());
        }
        m += 1;
    }
    None
}

/// Replaces each `%{name}` span of `input` whose name stands in `patterns`
/// with the value of the same position; an unknown placeholder stays as it
/// is, an unterminated `%{` is literal text from the `%` onward, and all
/// other text is copied verbatim.
pub fn replace_patterns(input: &str, patterns: &[&str], values: &[String]) -> (r: String)
    ensures
        r@ == subst(input@, patterns.deep_view(), values.deep_view()),
{
    let cs = str_chars(input);
    let n = cs.len();
    let ghost namesv = patterns.deep_view();
    let ghost valuesv = values.deep_view();
    let mut out: Vec<char> = Vec::new();
    let mut i: usize = 0;
    while i < n
        invariant
            n == cs@.len(),
            cs@ == input@,
            namesv == patterns.deep_view(),
            valuesv == values.deep_view(),
            i <= n,
            subst(cs@, namesv, valuesv) == out@ + subst_from(cs@, i as int, namesv, valuesv),
        decreases n - i,
    {
        let ghost outv = out@;
        if cs[i] == '%' && i + 1 < n && cs[i + 1] == '{' {
            match find_close_at(&cs, i + 2) {
                Some(j) => {
                    proof {
                        lemma_find_close_bounds(cs@, i + 2 as int);
                    }
                    match lookup_exec(patterns, values, &cs, i + 2, j) {
                        Some(v) => {
                            push_str_chars(&mut out, v.as_str());
                            proof {
                                assert(out@ + subst_from(cs@, j + 1 as int, namesv, valuesv)
                                    =~= outv + (v@ + subst_from(
                                    cs@,
                                    j + 1 as int,
                                    namesv,
                                    valuesv,
                                )));
                            }
                        },
                        None => {
                            push_range(&mut out, &cs, i, j + 1);
                            proof {
                                assert(out@ + subst_from(cs@, j + 1 as int, namesv, valuesv)
                                    =~= outv + (cs@.subrange(i as int, j + 1 as int)
                                    + subst_from(cs@, j + 1 as int, namesv, valuesv)));
                            }
                        },
                    }
                    i = j + 1;
                },
                None => {
                    push_range(&mut out, &cs, i, n);
                    proof {
                        assert(subst_from(cs@, i as int, namesv, valuesv) == cs@.subrange(
                            i as int,
                            n as int,
                        ));
                        assert(out@ + subst_from(cs@, n as int, namesv, valuesv) =~= outv
                            + subst_from(cs@, i as int, namesv, valuesv));
                    }
                    i = n;
                },
            }
        } else {
            out.push(cs[i]);
            proof {
                assert(out@ =~= outv.push(cs@[i as int]));
                assert(out@ + subst_from(cs@, i + 1 as int, namesv, valuesv) =~= outv + (seq![
                    cs@[i as int],
                ] + subst_from(cs@, i + 1 as int, namesv, valuesv)));
            }
            i += 1;
        }
    }
    proof {
        assert(subst_from(cs@, n as int, namesv, valuesv) == Seq::<char>::empty());
        assert(out@ + Seq::<char>::empty() =~= out@);
    }
    chars_to_string(&out)
}

} // verus!
