//! Translation storage: the `Backend` capability trait, a simple in-memory
//! two-level table, and a combinator that layers one backend over another.

use vstd::prelude::*;

verus! {

use crate::strutil::lex_lt;
use crate::strutil::lemma_lex_total;
use crate::strutil::str_eq;
use crate::strutil::str_lt;

/// First match of `key` in an association list of translations.
pub open spec fn table_lookup(entries: Seq<(String, String)>, key: Seq<char>) -> Option<Seq<char>>
    decreases entries.len(),
{
    if entries.len() == 0 {
        None
    } else if entries[0].0@ == key {
        Some(entries[0].1@)
    } else {
        table_lookup(entries.drop_first(), key)
    }
}

/// No two entries of the table share a key.
pub open spec fn table_unique(entries: Seq<(String, String)>) -> bool {
    forall|i: int, j: int| 0 <= i < j < entries.len() ==> entries[i].0@ != entries[j].0@
}

/// Last match of `key` in a batch of incoming pairs: later pairs win.
pub open spec fn batch_lookup(data: Seq<(String, String)>, key: Seq<char>) -> Option<Seq<char>>
    decreases data.len(),
{
    if data.len() == 0 {
        None
    } else if data.last().0@ == key {
        Some(data.last().1@)
    } else {
        batch_lookup(data.drop_last(), key)
    }
}

/// What a table holds for `key` after merging a batch into it.
pub open spec fn merged_lookup(
    orig: Option<Seq<char>>,
    data: Seq<(String, String)>,
    key: Seq<char>,
) -> Option<Seq<char>> {
    match batch_lookup(data, key) {
        Some(v) => Some(v),
        None => orig,
    }
}

/// A lookup hits at the head when the first entry has the key.
proof fn lemma_table_lookup_head(entries: Seq<(String, String)>, key: Seq<char>)
    requires
        entries.len() > 0,
        entries[0].0@ == key,
    ensures
        table_lookup(entries, key) == Some(entries[0].1@),
{
}

/// A lookup misses exactly when no entry has the key.
proof fn lemma_table_lookup_none(entries: Seq<(String, String)>, key: Seq<char>)
    ensures
        (table_lookup(entries, key) is None) <==> (forall|i: int|
            0 <= i < entries.len() ==> entries[i].0@ != key),
    decreases entries.len(),
{
    if entries.len() > 0 {
        lemma_table_lookup_none(entries.drop_first(), key);
        if entries[0].0@ != key {
            if table_lookup(entries, key) is None {
                assert forall|i: int| 0 <= i < entries.len() implies entries[i].0@ != key by {
                    if i > 0 {
                        assert(entries.drop_first()[i - 1] == entries[i]);
                    }
                }
            } else {
                let w = choose|i: int|
                    !(0 <= i < entries.drop_first().len() ==> entries.drop_first()[i].0@ != key);
                assert(entries.drop_first()[w] == entries[w + 1]);
                assert(entries[w + 1].0@ == key);
            }
        }
    }
}

/// Appending a pair changes only a missing key's lookup.
proof fn lemma_table_lookup_push(
    entries: Seq<(String, String)>,
    p: (String, String),
    key: Seq<char>,
)
    ensures
        table_lookup(entries, key) is Some ==> table_lookup(entries.push(p), key)
            == table_lookup(entries, key),
        table_lookup(entries, key) is None && p.0@ == key ==> table_lookup(
            entries.push(p),
            key,
        ) == Some(p.1@),
        table_lookup(entries, key) is None && p.0@ != key ==> table_lookup(
            entries.push(p),
            key,
        ) is None,
    decreases entries.len(),
{
    if entries.len() == 0 {
        assert(entries.push(p)[0] == p);
        assert(entries.push(p).drop_first() =~= Seq::<(String, String)>::empty());
        assert(table_lookup(Seq::<(String, String)>::empty(), key) is None);
    } else {
        assert(entries.push(p)[0] == entries[0]);
        assert(entries.push(p).drop_first() =~= entries.drop_first().push(p));
        lemma_table_lookup_push(entries.drop_first(), p, key);
    }
}

/// Removing the only entry with a key makes it miss; others are untouched.
proof fn lemma_table_lookup_remove(entries: Seq<(String, String)>, idx: int, key: Seq<char>)
    requires
        table_unique(entries),
        0 <= idx < entries.len(),
    ensures
        entries[idx].0@ == key ==> table_lookup(entries.remove(idx), key) is None,
        entries[idx].0@ != key ==> table_lookup(entries.remove(idx), key) == table_lookup(
            entries,
            key,
        ),
    decreases entries.len(),
{
    if idx == 0 {
        assert(entries.remove(0) =~= entries.drop_first());
        if entries[0].0@ == key {
            lemma_table_lookup_none(entries.drop_first(), key);
            assert forall|i: int|
                0 <= i < entries.drop_first().len() implies entries.drop_first()[i].0@ != key by {
                assert(entries.drop_first()[i] == entries[i + 1]);
            }
        }
    } else {
        assert(entries.remove(idx)[0] == entries[0]);
        assert(entries.remove(idx).drop_first() =~= entries.drop_first().remove(idx - 1));
        assert forall|i: int, j: int|
            0 <= i < j < entries.drop_first().len() implies entries.drop_first()[i].0@
            != entries.drop_first()[j].0@ by {
            assert(entries.drop_first()[i] == entries[i + 1]);
            assert(entries.drop_first()[j] == entries[j + 1]);
        }
        assert(entries.drop_first()[idx - 1] == entries[idx]);
        lemma_table_lookup_remove(entries.drop_first(), idx - 1, key);
    }
}

/// Removing an entry keeps the keys pairwise distinct.
proof fn lemma_unique_remove(entries: Seq<(String, String)>, idx: int)
    requires
        table_unique(entries),
        0 <= idx < entries.len(),
    ensures
        table_unique(entries.remove(idx)),
{
    let r = entries.remove(idx);
    assert forall|i: int, j: int| 0 <= i < j < r.len() implies r[i].0@ != r[j].0@ by {
        let oi = if i < idx {
            i
        } else {
            i + 1
        };
        let oj = if j < idx {
            j
        } else {
            j + 1
        };
        assert(r[i] == entries[oi]);
        assert(r[j] == entries[oj]);
    }
}

/// Appending a fresh key keeps the keys pairwise distinct.
proof fn lemma_unique_push(entries: Seq<(String, String)>, p: (String, String))
    requires
        table_unique(entries),
        forall|t: int| 0 <= t < entries.len() ==> entries[t].0@ != p.0@,
    ensures
        table_unique(entries.push(p)),
{
    let r = entries.push(p);
    assert forall|i: int, j: int| 0 <= i < j < r.len() implies r[i].0@ != r[j].0@ by {
        assert(r[i] == entries[i]);
        if j < entries.len() {
            assert(r[j] == entries[j]);
        } else {
            assert(r[j] == p);
        }
    }
}

/// The index of the first entry with `key`, if any.
fn find_key(inner: &Vec<(String, String)>, key: &str) -> (r: Option<usize>)
    ensures
        match r {
            Some(i) => i < inner@.len() && inner@[i as int].0@ == key@,
            None => forall|t: int| 0 <= t < inner@.len() ==> inner@[t].0@ != key@,
        },
{
    let m = inner.len();
    let mut j: usize = 0;
    while j < m
        invariant
            m == inner@.len(),
            j <= m,
            forall|t: int| 0 <= t < j ==> inner@[t].0@ != key@,
        decreases m - j,
    {
        if str_eq(inner[j].0.as_str(), key) {
            return Some(j);
        }
        j += 1;
    }
    None
}

/// Merges a batch of pairs into a table: a pair with a known key replaces
/// its text, a fresh key is appended, later pairs win over earlier ones.
fn merge_into(inner: &mut Vec<(String, String)>, data: &Vec<(String, String)>)
    requires
        table_unique(old(inner)@),
    ensures
        table_unique(final(inner)@),
        forall|k: Seq<char>| #![auto]
            table_lookup(final(inner)@, k) == merged_lookup(
                table_lookup(old(inner)@, k),
                data@,
                k,
            ),
{
    let n = data.len();
    let mut d: usize = 0;
    proof {
        assert(data@.take(0) =~= Seq::<(String, String)>::empty());
    }
    while d < n
        invariant
            n == data@.len(),
            d <= n,
            table_unique(inner@),
            forall|k: Seq<char>| #![auto]
                table_lookup(inner@, k) == merged_lookup(
                    table_lookup(old(inner)@, k),
                    data@.take(d as int),
                    k,
                ),
        decreases n - d,
    {
        let ghost before = inner@;
        let pair = (data[d].0.clone(), data[d].1.clone());
        let ghost dk = pair.0@;
        proof {
            assert(dk == data@[d as int].0@);
        }
        match find_key(inner, data[d].0.as_str()) {
            Some(i) => {
                inner.remove(i);
                proof {
                    lemma_table_lookup_remove(before, i as int, dk);
                    assert forall|k: Seq<char>|
                        k != dk implies #[trigger] table_lookup(before.remove(i as int), k)
                        == table_lookup(before, k) by {
                        lemma_table_lookup_remove(before, i as int, k);
                    }
                    lemma_unique_remove(before, i as int);
                    lemma_table_lookup_none(before.remove(i as int), dk);
                    lemma_unique_push(before.remove(i as int), pair);
                    assert forall|k: Seq<char>| #![auto]
                        table_lookup(before.remove(i as int).push(pair), k) == (if k == dk {
                            Some(pair.1@)
                        } else {
                            table_lookup(before, k)
                        }) by {
                        lemma_table_lookup_push(before.remove(i as int), pair, k);
                    }
                }
                inner.push(pair);
            },
            None => {
                proof {
                    lemma_table_lookup_none(before, dk);
                    lemma_unique_push(before, pair);
                    assert forall|k: Seq<char>| #![auto]
                        table_lookup(before.push(pair), k) == (if k == dk {
                            Some(pair.1@)
                        } else {
                            table_lookup(before, k)
                        }) by {
                        lemma_table_lookup_push(before, pair, k);
                        if k == dk {
                        } else {
                            lemma_table_lookup_none(before, k);
                        }
                    }
                }
                inner.push(pair);
            },
        }
        proof {
            assert(data@.take(d + 1 as int).last() == data@[d as int]);
            assert(data@.take(d + 1 as int).drop_last() =~= data@.take(d as int));
            assert forall|k: Seq<char>| #![auto]
                table_lookup(inner@, k) == merged_lookup(
                    table_lookup(old(inner)@, k),
                    data@.take(d + 1 as int),
                    k,
                ) by {
                assert(batch_lookup(data@.take(d + 1 as int), k) == (if k == dk {
                    Some(data@[d as int].1@)
                } else {
                    batch_lookup(data@.take(d as int), k)
                }));
            }
        }
        d += 1;
    }
    proof {
        assert(data@.take(n as int) =~= data@);
    }
}

/// First matching locale in the outer list of tables.
pub open spec fn locale_table(
    entries: Seq<(String, Vec<(String, String)>)>,
    locale: Seq<char>,
) -> Option<Seq<(String, String)>>
    decreases entries.len(),
{
    if entries.len() == 0 {
        None
    } else if entries[0].0@ == locale {
        Some(entries[0].1@)
    } else {
        locale_table(entries.drop_first(), locale)
    }
}

/// The first matching entry decides the table of a locale.
proof fn lemma_locale_table_first(
    entries: Seq<(String, Vec<(String, String)>)>,
    locale: Seq<char>,
    w: int,
)
    requires
        0 <= w < entries.len(),
        entries[w].0@ == locale,
        forall|t: int| 0 <= t < w ==> entries[t].0@ != locale,
    ensures
        locale_table(entries, locale) == Some(entries[w].1@),
    decreases w,
{
    if w > 0 {
        assert forall|t: int| 0 <= t < w - 1 implies entries.drop_first()[t].0@ != locale by {
            assert(entries.drop_first()[t] == entries[t + 1]);
        }
        assert(entries.drop_first()[w - 1] == entries[w]);
        lemma_locale_table_first(entries.drop_first(), locale, w - 1);
    }
}

/// A locale no entry has gets no table.
proof fn lemma_locale_table_none(
    entries: Seq<(String, Vec<(String, String)>)>,
    locale: Seq<char>,
)
    requires
        forall|t: int| 0 <= t < entries.len() ==> entries[t].0@ != locale,
    ensures
        locale_table(entries, locale) is None,
    decreases entries.len(),
{
    if entries.len() > 0 {
        assert forall|t: int|
            0 <= t < entries.drop_first().len() implies entries.drop_first()[t].0@ != locale by {
            assert(entries.drop_first()[t] == entries[t + 1]);
        }
        lemma_locale_table_none(entries.drop_first(), locale);
    }
}

/// A source of translations: text for a (locale, key) pair, and the list of
/// locales it has data for.
pub trait Backend: Sized {
    /// The text this backend holds for a locale and key, if any.
    spec fn spec_translate(&self, locale: Seq<char>, key: Seq<char>) -> Option<Seq<char>>;

    /// The locales this backend has data for, in the order it reports them.
    spec fn spec_locales(&self) -> Seq<Seq<char>>;

    /// Exact-match lookup; no fallback logic lives here.
    fn translate(&self, locale: &str, key: &str) -> (r: Option<String>)
        ensures
            r.deep_view() == self.spec_translate(locale@, key@),
    ;

    /// Every locale this backend has any data for.
    fn available_locales(&self) -> (r: Vec<String>)
        ensures
            r.deep_view() == self.spec_locales(),
    ;
}

/// In-memory storage: locales in strictly ascending order, each with an
/// association table of unique keys.
pub struct SimpleBackend {
    entries: Vec<(String, Vec<(String, String)>)>,
}

impl SimpleBackend {
    /// Locales strictly sorted (hence unique), inner keys unique.
    #[verifier::type_invariant]
    spec fn wf(&self) -> bool {
        &&& forall|i: int, j: int|
            0 <= i < j < self.entries@.len() ==> lex_lt(
                #[trigger] self.entries@[i].0@,
                #[trigger] self.entries@[j].0@,
            )
        &&& forall|i: int|
            0 <= i < self.entries@.len() ==> table_unique(#[trigger] self.entries@[i].1@)
    }

    /// The table stored for a locale, if any: the first entry that matches.
    pub closed spec fn spec_table(&self, locale: Seq<char>) -> Option<Seq<(String, String)>> {
        locale_table(self.entries@, locale)
    }

    /// An empty backend: no locale, no translation.
    pub fn new() -> (r: SimpleBackend)
        ensures
            forall|l: Seq<char>, k: Seq<char>| r.spec_translate(l, k) is None,
            r.spec_locales() == Seq::<Seq<char>>::empty(),
    {
        let r = SimpleBackend { entries: Vec::new() };
        proof {
            assert(r.spec_locales() =~= Seq::<Seq<char>>::empty());
        }
        r
    }
}

impl Default for SimpleBackend {
    fn default() -> (r: SimpleBackend)
        ensures
            forall|l: Seq<char>, k: Seq<char>| r.spec_translate(l, k) is None,
            r.spec_locales() == Seq::<Seq<char>>::empty(),
    {
        SimpleBackend::new()
    }
}

impl Backend for SimpleBackend {
    closed spec fn spec_translate(&self, locale: Seq<char>, key: Seq<char>) -> Option<Seq<char>> {
        match self.spec_table(locale) {
            Some(t) => table_lookup(t, key),
            None => None,
        }
    }

    closed spec fn spec_locales(&self) -> Seq<Seq<char>> {
        self.entries@.map_values(|e: (String, Vec<(String, String)>)| e.0@)
    }

    fn translate(&self, locale: &str, key: &str) -> (r: Option<String>) {
        proof {
            use_type_invariant(self);
        }
        let n = self.entries.len();
        let mut i: usize = 0;
        while i < n
            invariant
                n == self.entries@.len(),
                i <= n,
                forall|t: int| 0 <= t < i ==> self.entries@[t].0@ != locale@,
            decreases n - i,
        {
            if str_eq(self.entries[i].0.as_str(), locale) {
                proof {
                    assert(self.entries@[i as int].0@ == locale@);
                    lemma_locale_table_first(self.entries@, locale@, i as int);
                    assert(self.spec_table(locale@) == Some(self.entries@[i as int].1@));
                }
                let inner = &self.entries[i].1;
                let m = inner.len();
                proof {
                    assert(inner@.skip(0) =~= inner@);
                }
                let mut j: usize = 0;
                while j < m
                    invariant
                        m == inner@.len(),
                        j <= m,
                        forall|t: int| 0 <= t < j ==> inner@[t].0@ != key@,
                        self.spec_translate(locale@, key@) == table_lookup(inner@, key@),
                        table_lookup(inner@, key@) == table_lookup(
                            inner@.skip(j as int),
                            key@,
                        ),
                    decreases m - j,
                {
                    if str_eq(inner[j].0.as_str(), key) {
                        proof {
                            assert(inner@.skip(j as int)[0] == inner@[j as int]);
                            assert(inner@.skip(j as int)[0].0@ == key@);
                            assert(inner@.skip(j as int).len() > 0);
                            lemma_table_lookup_head(inner@.skip(j as int), key@);
                            assert(table_lookup(inner@.skip(j as int), key@) == Some(
                                inner@[j as int].1@));
                            assert(table_lookup(inner@, key@) == table_lookup(
                                inner@.skip(j as int),
                                key@,
                            ));
                            assert(table_lookup(inner@, key@) == Some(inner@[j as int].1@));
                            assert(self.spec_translate(locale@, key@) == Some(
                                inner@[j as int].1@));
                        }
                        return Some(inner[j].1.clone());
                    }
                    proof {
                        assert(inner@.skip(j as int)[0] == inner@[j as int]);
                        assert(inner@.skip(j as int).drop_first() =~= inner@.skip(j + 1 as int));
                    }
                    j += 1;
                }
                proof {
                    assert(inner@.skip(m as int).len() == 0);
                }
                return None;
            }
            i += 1;
        }
        proof {
            lemma_locale_table_none(self.entries@, locale@);
        }
        None
    }

    fn available_locales(&self) -> (r: Vec<String>)
        // strictly ascending: the list is sorted and free of duplicates
        ensures
            forall|i: int, j: int|
                0 <= i < j < r.deep_view().len() ==> lex_lt(
                    #[trigger] r.deep_view()[i],
                    #[trigger] r.deep_view()[j],
                ),
    {
        proof {
            use_type_invariant(self);
        }
        let n = self.entries.len();
        let mut r: Vec<String> = Vec::new();
        let mut i: usize = 0;
        while i < n
            invariant
                n == self.entries@.len(),
                i <= n,
                r@.len() == i,
                forall|t: int| 0 <= t < i ==> r@[t]@ == self.entries@[t].0@,
            decreases n - i,
        {
            r.push(self.entries[i].0.clone());
            i += 1;
        }
        proof {
            assert(r.deep_view() =~= self.spec_locales());
        }
        r
    }
}


impl SimpleBackend {
    /// The first position whose locale is not below `locale`.
    fn locate(entries: &Vec<(String, Vec<(String, String)>)>, locale: &str) -> (pos: usize)
        ensures
            pos <= entries@.len(),
            forall|t: int| 0 <= t < pos ==> lex_lt(#[trigger] entries@[t].0@, locale@),
            pos < entries@.len() ==> !lex_lt(entries@[pos as int].0@, locale@),
    {
        let n = entries.len();
        let mut pos: usize = 0;
        while pos < n
            invariant
                n == entries@.len(),
                pos <= n,
                forall|t: int| 0 <= t < pos ==> lex_lt(#[trigger] entries@[t].0@, locale@),
            decreases n - pos,
        {
            if !str_lt(entries[pos].0.as_str(), locale) {
                return pos;
            }
            pos += 1;
        }
        pos
    }

    /// Merges a batch of key/text pairs into the table of `locale`; later
    /// pairs win over earlier ones and over what was already stored, and
    /// every other locale's table is untouched.
    #[verifier::spinoff_prover]
    pub fn add_translations(&mut self, locale: &str, data: &Vec<(String, String)>)
        ensures
            forall|l: Seq<char>, k: Seq<char>|
                l != locale@ ==> #[trigger] final(self).spec_translate(l, k) == old(
                    self,
                ).spec_translate(l, k),
            forall|k: Seq<char>| #![auto]
                final(self).spec_translate(locale@, k) == merged_lookup(
                    old(self).spec_translate(locale@, k),
                    data@,
                    k,
                ),
            forall|l: Seq<char>|
                #[trigger] final(self).spec_locales().contains(l) <==> (old(
                    self,
                ).spec_locales().contains(l) || l == locale@),
    {
        proof {
            use_type_invariant(&*self);
        }
        let ghost oldself = *self;
        let mut entries: Vec<(String, Vec<(String, String)>)> = Vec::new();
        core::mem::swap(&mut self.entries, &mut entries);
        let ghost oldv = entries@;
        let pos = Self::locate(&entries, locale);
        if pos < entries.len() && str_eq(entries[pos].0.as_str(), locale) {
            let mut entry = entries.remove(pos);
            merge_into(&mut entry.1, data);
            entries.insert(pos, entry);
            proof {
                assert(entries@ =~= oldv.update(pos as int, entry));
                let ghost post = SimpleBackend { entries };
                assert forall|t: int| 0 <= t < oldv.len() implies #[trigger] entries@[t].0@
                    == oldv[t].0@ by {}
                assert(post.wf());
                lemma_add_existing(oldself, post, pos as int, locale@, data@);
            }
        } else {
            let mut table: Vec<(String, String)> = Vec::new();
            merge_into(&mut table, data);
            let entry = (locale.to_owned(), table);
            entries.insert(pos, entry);
            proof {
                let ghost post = SimpleBackend { entries };
                assert forall|t: int| 0 <= t < oldv.len() implies #[trigger] oldv[t].0@
                    != locale@ by {
                    if t < pos {
                        if oldv[t].0@ == locale@ {
                            crate::strutil::lemma_lex_irrefl(locale@);
                        }
                    } else {
                        assert(!lex_lt(oldv[pos as int].0@, locale@));
                        assert(oldv[pos as int].0@ != locale@);
                        lemma_lex_total(oldv[pos as int].0@, locale@);
                        if t > pos && oldv[t].0@ == locale@ {
                            assert(lex_lt(oldv[pos as int].0@, oldv[t].0@));
                            crate::strutil::lemma_lex_trans(
                                locale@,
                                oldv[pos as int].0@,
                                oldv[t].0@,
                            );
                            crate::strutil::lemma_lex_irrefl(locale@);
                        }
                    }
                }
                assert forall|i: int, j: int| 0 <= i < j < entries@.len() implies lex_lt(
                    #[trigger] entries@[i].0@,
                    #[trigger] entries@[j].0@,
                ) by {
                    let pi = if i < pos {
                        i
                    } else {
                        i - 1
                    };
                    let pj = if j < pos {
                        j
                    } else {
                        j - 1
                    };
                    if i == pos {
                        assert(entries@[j].0@ == oldv[pj].0@);
                        assert(pos <= pj < oldv.len());
                        assert(!lex_lt(oldv[pos as int].0@, locale@));
                        assert(oldv[pos as int].0@ != locale@);
                        lemma_lex_total(oldv[pos as int].0@, locale@);
                        if pj > pos {
                            assert(lex_lt(oldv[pos as int].0@, oldv[pj].0@));
                            crate::strutil::lemma_lex_trans(
                                locale@,
                                oldv[pos as int].0@,
                                oldv[pj].0@,
                            );
                        }
                    } else if j == pos {
                        assert(entries@[i].0@ == oldv[i].0@);
                    } else {
                        assert(entries@[i].0@ == oldv[pi].0@);
                        assert(entries@[j].0@ == oldv[pj].0@);
                        assert(0 <= pi < pj < oldv.len());
                        assert(lex_lt(oldv[pi].0@, oldv[pj].0@));
                    }
                }
                assert(post.wf());
                lemma_add_new(oldself, post, pos as int, locale@, data@);
            }
        }
        proof {
            assert(SimpleBackend { entries }.wf());
        }
        *self = SimpleBackend { entries };
    }
}

/// `spec_table` at a stored locale is that locale's table.
proof fn lemma_spec_table_at(b: SimpleBackend, w: int)
    requires
        b.wf(),
        0 <= w < b.entries@.len(),
    ensures
        b.spec_table(b.entries@[w].0@) == Some(b.entries@[w].1@),
{
    let l = b.entries@[w].0@;
    assert forall|t: int| 0 <= t < w implies b.entries@[t].0@ != l by {
        assert(lex_lt(b.entries@[t].0@, b.entries@[w].0@));
        if b.entries@[t].0@ == l {
            crate::strutil::lemma_lex_irrefl(l);
        }
    }
    lemma_locale_table_first(b.entries@, l, w);
}

/// `spec_table` misses at a locale no entry has.
proof fn lemma_spec_table_none(b: SimpleBackend, l: Seq<char>)
    requires
        forall|t: int| 0 <= t < b.entries@.len() ==> b.entries@[t].0@ != l,
    ensures
        b.spec_table(l) is None,
{
    lemma_locale_table_none(b.entries@, l);
}

/// Replacing one locale's table changes no other locale's translations.
proof fn lemma_add_existing(
    pre: SimpleBackend,
    post: SimpleBackend,
    pos: int,
    locale: Seq<char>,
    data: Seq<(String, String)>,
)
    requires
        pre.wf(),
        post.wf(),
        0 <= pos < pre.entries@.len(),
        pre.entries@[pos].0@ == locale,
        post.entries@.len() == pre.entries@.len(),
        forall|t: int|
            0 <= t < pre.entries@.len() ==> #[trigger] post.entries@[t].0@ == pre.entries@[t].0@,
        forall|t: int|
            0 <= t < pre.entries@.len() && t != pos ==> #[trigger] post.entries@[t].1@
                == pre.entries@[t].1@,
        forall|k: Seq<char>| #![auto]
            table_lookup(post.entries@[pos].1@, k) == merged_lookup(
                table_lookup(pre.entries@[pos].1@, k),
                data,
                k,
            ),
    ensures
        forall|l: Seq<char>, k: Seq<char>|
            l != locale ==> #[trigger] post.spec_translate(l, k) == pre.spec_translate(l, k),
        forall|k: Seq<char>| #![auto]
            post.spec_translate(locale, k) == merged_lookup(
                pre.spec_translate(locale, k),
                data,
                k,
            ),
        forall|l: Seq<char>|
            #[trigger] post.spec_locales().contains(l) <==> (pre.spec_locales().contains(l) || l
                == locale),
{
    assert forall|l: Seq<char>, k: Seq<char>|
        l != locale implies #[trigger] post.spec_translate(l, k) == pre.spec_translate(l, k) by {
        if exists|i: int| 0 <= i < pre.entries@.len() && pre.entries@[i].0@ == l {
            let w = choose|i: int| 0 <= i < pre.entries@.len() && pre.entries@[i].0@ == l;
            lemma_spec_table_at(pre, w);
            lemma_spec_table_at(post, w);
            assert(w != pos);
        } else {
            lemma_spec_table_none(pre, l);
            lemma_spec_table_none(post, l);
        }
    }
    assert forall|k: Seq<char>| #![auto]
        post.spec_translate(locale, k) == merged_lookup(
            pre.spec_translate(locale, k),
            data,
            k,
        ) by {
        lemma_spec_table_at(pre, pos);
        lemma_spec_table_at(post, pos);
    }
    assert forall|l: Seq<char>|
        #[trigger] post.spec_locales().contains(l) <==> (pre.spec_locales().contains(l) || l
            == locale) by {
        if post.spec_locales().contains(l) {
            let w = choose|i: int| 0 <= i < post.spec_locales().len() && post.spec_locales()[i] == l;
            assert(pre.spec_locales()[w] == l);
        }
        if pre.spec_locales().contains(l) {
            let w = choose|i: int| 0 <= i < pre.spec_locales().len() && pre.spec_locales()[i] == l;
            assert(post.spec_locales()[w] == l);
        }
        if l == locale {
            assert(pre.spec_locales()[pos] == l);
        }
    }
}

/// Inserting a fresh locale adds its table and changes nothing else.
proof fn lemma_add_new(
    pre: SimpleBackend,
    post: SimpleBackend,
    pos: int,
    locale: Seq<char>,
    data: Seq<(String, String)>,
)
    requires
        pre.wf(),
        post.wf(),
        0 <= pos <= pre.entries@.len(),
        forall|t: int| 0 <= t < pre.entries@.len() ==> #[trigger] pre.entries@[t].0@ != locale,
        post.entries@.len() == pre.entries@.len() + 1,
        post.entries@[pos].0@ == locale,
        forall|t: int| 0 <= t < pos ==> #[trigger] post.entries@[t] == pre.entries@[t],
        forall|t: int|
            pos < t < post.entries@.len() ==> #[trigger] post.entries@[t] == pre.entries@[t - 1],
        forall|k: Seq<char>| #![auto]
            table_lookup(post.entries@[pos].1@, k) == merged_lookup(
                None::<Seq<char>>,
                data,
                k,
            ),
    ensures
        forall|l: Seq<char>, k: Seq<char>|
            l != locale ==> #[trigger] post.spec_translate(l, k) == pre.spec_translate(l, k),
        forall|k: Seq<char>| #![auto]
            post.spec_translate(locale, k) == merged_lookup(
                pre.spec_translate(locale, k),
                data,
                k,
            ),
        forall|l: Seq<char>|
            #[trigger] post.spec_locales().contains(l) <==> (pre.spec_locales().contains(l) || l
                == locale),
{
    assert forall|l: Seq<char>, k: Seq<char>|
        l != locale implies #[trigger] post.spec_translate(l, k) == pre.spec_translate(l, k) by {
        if exists|i: int| 0 <= i < pre.entries@.len() && pre.entries@[i].0@ == l {
            let w = choose|i: int| 0 <= i < pre.entries@.len() && pre.entries@[i].0@ == l;
            lemma_spec_table_at(pre, w);
            if w < pos {
                lemma_spec_table_at(post, w);
            } else {
                assert(post.entries@[w + 1] == pre.entries@[w]);
                lemma_spec_table_at(post, w + 1);
            }
        } else {
            lemma_spec_table_none(pre, l);
            assert forall|t: int| 0 <= t < post.entries@.len() implies post.entries@[t].0@
                != l by {
                if t < pos {
                } else if t == pos {
                } else {
                    assert(post.entries@[t] == pre.entries@[t - 1]);
                }
            }
            lemma_spec_table_none(post, l);
        }
    }
    assert forall|k: Seq<char>| #![auto]
        post.spec_translate(locale, k) == merged_lookup(
            pre.spec_translate(locale, k),
            data,
            k,
        ) by {
        lemma_spec_table_at(post, pos);
        lemma_spec_table_none(pre, locale);
    }
    assert forall|l: Seq<char>|
        #[trigger] post.spec_locales().contains(l) <==> (pre.spec_locales().contains(l) || l
            == locale) by {
        if post.spec_locales().contains(l) {
            let w = choose|i: int| 0 <= i < post.spec_locales().len() && post.spec_locales()[i] == l;
            if w < pos {
                assert(pre.spec_locales()[w] == l);
            } else if w > pos {
                assert(post.entries@[w] == pre.entries@[w - 1]);
                assert(pre.spec_locales()[w - 1] == l);
            }
        }
        if pre.spec_locales().contains(l) {
            let w = choose|i: int| 0 <= i < pre.spec_locales().len() && pre.spec_locales()[i] == l;
            if w < pos {
                assert(post.spec_locales()[w] == l);
            } else {
                assert(post.entries@[w + 1] == pre.entries@[w]);
                assert(post.spec_locales()[w + 1] == l);
            }
        }
        if l == locale {
            assert(post.spec_locales()[pos] == l);
        }
    }
}

/// A strictly ascending list with `l` put in its place: an already
/// present value changes nothing.
pub open spec fn sorted_insert(acc: Seq<Seq<char>>, l: Seq<char>) -> Seq<Seq<char>>
    decreases acc.len(),
{
    if acc.len() == 0 {
        seq![l]
    } else if lex_lt(acc[0], l) {
        seq![acc[0]] + sorted_insert(acc.drop_first(), l)
    } else if acc[0] == l {
        acc
    } else {
        seq![l] + acc
    }
}

/// The locales of `rest` folded one by one into a sorted list.
pub open spec fn sorted_merge(acc: Seq<Seq<char>>, rest: Seq<Seq<char>>) -> Seq<Seq<char>>
    decreases rest.len(),
{
    if rest.len() == 0 {
        acc
    } else {
        sorted_merge(sorted_insert(acc, rest[0]), rest.drop_first())
    }
}

/// Where the first position not below `l` is known, the insertion is the
/// list unchanged (same value there) or the value put at that position.
proof fn lemma_sorted_insert_at(acc: Seq<Seq<char>>, l: Seq<char>, pos: int)
    requires
        0 <= pos <= acc.len(),
        forall|t: int| 0 <= t < pos ==> lex_lt(#[trigger] acc[t], l),
        pos < acc.len() ==> !lex_lt(acc[pos], l),
    ensures
        pos < acc.len() && acc[pos] == l ==> sorted_insert(acc, l) == acc,
        !(pos < acc.len() && acc[pos] == l) ==> sorted_insert(acc, l) =~= acc.insert(pos, l),
    decreases pos,
{
    if pos == 0 {
        if acc.len() == 0 {
            assert(sorted_insert(acc, l) =~= acc.insert(0, l));
        } else if acc[0] == l {
        } else {
            assert(seq![l] + acc =~= acc.insert(0, l));
        }
    } else {
        assert(lex_lt(acc[0], l));
        let rest = acc.drop_first();
        assert forall|t: int| 0 <= t < pos - 1 implies lex_lt(#[trigger] rest[t], l) by {
            assert(rest[t] == acc[t + 1]);
        }
        if pos - 1 < rest.len() {
            assert(rest[pos - 1] == acc[pos]);
        }
        lemma_sorted_insert_at(rest, l, pos - 1);
        if pos < acc.len() && acc[pos] == l {
            assert(seq![acc[0]] + rest =~= acc);
        } else {
            assert(seq![acc[0]] + rest.insert(pos - 1, l) =~= acc.insert(pos, l));
        }
    }
}

/// Whether some element of `v` holds the characters `s`.
pub(crate) fn vec_contains_str(v: &Vec<String>, s: &str) -> (r: bool)
    ensures
        r == v.deep_view().contains(s@),
{
    let n = v.len();
    let mut i: usize = 0;
    while i < n
        invariant
            n == v@.len(),
            i <= n,
            forall|t: int| 0 <= t < i ==> v@[t]@ != s@,
        decreases n - i,
    {
        if str_eq(v[i].as_str(), s) {
            proof {
                assert(v.deep_view()[i as int] == s@);
            }
            return true;
        }
        i += 1;
    }
    proof {
        assert forall|t: int| 0 <= t < v.deep_view().len() implies v.deep_view()[t] != s@ by {
            assert(v.deep_view()[t] == v@[t]@);
        }
    }
    false
}

/// Two backends layered: the second one's translations win.
pub struct CombinedBackend<A, B>(pub A, pub B);

impl<A: Backend, B: Backend> Backend for CombinedBackend<A, B> {
    open spec fn spec_translate(&self, locale: Seq<char>, key: Seq<char>) -> Option<Seq<char>> {
        match self.1.spec_translate(locale, key) {
            Some(v) => Some(v),
            None => self.0.spec_translate(locale, key),
        }
    }

    open spec fn spec_locales(&self) -> Seq<Seq<char>> {
        sorted_merge(Seq::empty(), self.0.spec_locales() + self.1.spec_locales())
    }

    fn translate(&self, locale: &str, key: &str) -> (r: Option<String>) {
        let over = self.1.translate(locale, key);
        if over.is_some() {
            over
        } else {
            self.0.translate(locale, key)
        }
    }

    fn available_locales(&self) -> (r: Vec<String>)
        // the union of both layers' locales, sorted for determinism,
        // without duplicates
        ensures
            strictly_sorted(r.deep_view()),
            forall|l: Seq<char>|
                #[trigger] r.deep_view().contains(l) <==> (self.0.spec_locales().contains(l)
                    || self.1.spec_locales().contains(l)),
    {
        let mut list = self.0.available_locales();
        let mut more = self.1.available_locales();
        let ghost av = self.0.spec_locales();
        let ghost bv = self.1.spec_locales();
        list.append(&mut more);
        let ghost all = list.deep_view();
        proof {
            assert(all =~= av + bv);
        }
        let mut out: Vec<String> = Vec::new();
        let n = list.len();
        let mut k: usize = 0;
        proof {
            assert(all.skip(0) =~= all);
        }
        while k < n
            invariant
                n == list@.len(),
                n == all.len(),
                all == list.deep_view(),
                k <= n,
                strictly_sorted(out.deep_view()),
                sorted_merge(out.deep_view(), all.skip(k as int)) == sorted_merge(
                    Seq::empty(),
                    all,
                ),
                forall|l: Seq<char>|
                    #[trigger] out.deep_view().contains(l) <==> all.take(k as int).contains(l),
            decreases n - k,
        {
            let ghost prev = out.deep_view();
            let ghost rest = all.skip(k as int);
            proof {
                assert(rest[0] == all[k as int]);
                assert(all[k as int] == list@[k as int]@);
                assert(rest.drop_first() =~= all.skip(k + 1 as int));
            }
            insert_sorted_unique(&mut out, list[k].as_str());
            proof {
                assert(sorted_merge(prev, rest) == sorted_merge(
                    sorted_insert(prev, all[k as int]),
                    all.skip(k + 1 as int),
                ));
                let upto = all.take(k + 1 as int);
                let below = all.take(k as int);
                assert forall|l: Seq<char>|
                    #[trigger] out.deep_view().contains(l) <==> upto.contains(l) by {
                    if out.deep_view().contains(l) {
                        if prev.contains(l) {
                            let w = choose|t: int| 0 <= t < below.len() && below[t] == l;
                            assert(upto[w] == l);
                        } else {
                            assert(upto[k as int] == l);
                        }
                    }
                    if upto.contains(l) {
                        let w = choose|t: int| 0 <= t < upto.len() && upto[t] == l;
                        if w < k {
                            assert(below[w] == l);
                        } else {
                            assert(l == all[k as int]);
                        }
                    }
                }
            }
            k += 1;
        }
        proof {
            assert(all.skip(n as int) =~= Seq::<Seq<char>>::empty());
            assert(all.take(n as int) =~= all);
            assert forall|l: Seq<char>|
                #[trigger] out.deep_view().contains(l) <==> (av.contains(l) || bv.contains(
                l,
            )) by {
                if out.deep_view().contains(l) {
                    let w = choose|t: int| 0 <= t < all.len() && all[t] == l;
                    if w < av.len() {
                        assert(av[w] == l);
                    } else {
                        assert(bv[w - av.len()] == l);
                    }
                }
                if av.contains(l) {
                    let w = choose|t: int| 0 <= t < av.len() && av[t] == l;
                    assert(all[w] == l);
                }
                if bv.contains(l) {
                    let w = choose|t: int| 0 <= t < bv.len() && bv[t] == l;
                    assert(all[av.len() + w] == l);
                }
            }
        }
        out
    }
}

/// Layering law: the overlay's translation wins where it has one, and the
/// base backend shows through everywhere else.
pub proof fn lemma_combined_override<A: Backend, B: Backend>(
    c: &CombinedBackend<A, B>,
    locale: Seq<char>,
    key: Seq<char>,
)
    ensures
        c.1.spec_translate(locale, key) is Some ==> c.spec_translate(locale, key) == c
            .1.spec_translate(locale, key),
        c.1.spec_translate(locale, key) is None ==> c.spec_translate(locale, key) == c
            .0.spec_translate(locale, key),
{
}

/// Extending a backend with another, which takes precedence.
pub trait BackendExt: Backend {
    /// Layers `other` over `self`.
    fn extend<T: Backend>(self, other: T) -> (r: CombinedBackend<Self, T>)
        ensures
            r.0 == self,
            r.1 == other,
    {
        CombinedBackend(self, other)
    }
}

impl BackendExt for SimpleBackend {

}


/// Strictly ascending: sorted with no duplicates.
pub open spec fn strictly_sorted(s: Seq<Seq<char>>) -> bool {
    forall|i: int, j: int| 0 <= i < j < s.len() ==> lex_lt(#[trigger] s[i], #[trigger] s[j])
}

/// Inserts `s` into a strictly ascending list, keeping it so; a value
/// already present is left alone.
fn insert_sorted_unique(out: &mut Vec<String>, s: &str)
    requires
        strictly_sorted(old(out).deep_view()),
    ensures
        final(out).deep_view() == sorted_insert(old(out).deep_view(), s@),
        strictly_sorted(final(out).deep_view()),
        forall|l: Seq<char>|
            #[trigger] final(out).deep_view().contains(l) <==> (old(
                out,
            ).deep_view().contains(l) || l == s@),
{
    let ghost oldv = out.deep_view();
    let n = out.len();
    let mut pos: usize = 0;
    while pos < n
        invariant
            n == out@.len(),
            pos <= n,
            oldv == out.deep_view(),
            forall|t: int| 0 <= t < pos ==> lex_lt(#[trigger] oldv[t], s@),
        ensures
            n == out@.len(),
            pos <= n,
            oldv == out.deep_view(),
            forall|t: int| 0 <= t < pos ==> lex_lt(#[trigger] oldv[t], s@),
            pos < n ==> !lex_lt(oldv[pos as int], s@),
        decreases n - pos,
    {
        if !str_lt(out[pos].as_str(), s) {
            proof {
                assert(oldv[pos as int] == out@[pos as int]@);
            }
            break ;
        }
        proof {
            assert(oldv[pos as int] == out@[pos as int]@);
        }
        pos += 1;
    }
    proof {
        assert(oldv == out.deep_view());
        assert(pos < n ==> oldv[pos as int] == out@[pos as int]@);
    }
    if pos < n && str_eq(out[pos].as_str(), s) {
        proof {
            assert(oldv[pos as int] == s@);
            assert(oldv.contains(s@));
            lemma_sorted_insert_at(oldv, s@, pos as int);
        }
        return ;
    }
    proof {
        if pos < n {
            lemma_lex_total(oldv[pos as int], s@);
        }
    }
    out.insert(pos, s.to_owned());
    proof {
        let newv = out.deep_view();
        assert forall|t: int| 0 <= t < newv.len() implies newv[t] == (if t < pos {
            oldv[t]
        } else if t == pos {
            s@
        } else {
            oldv[t - 1]
        }) by {
            assert(newv[t] == out@[t]@);
            if t < pos {
                assert(out@[t] == old(out)@[t]);
            } else if t > pos {
                assert(out@[t] == old(out)@[t - 1]);
            }
        }
        assert forall|t: int| 0 <= t < oldv.len() implies #[trigger] oldv[t] != s@ by {
            if t >= pos {
                assert(!lex_lt(oldv[pos as int], s@));
                if t > pos {
                    assert(lex_lt(oldv[pos as int], oldv[t]));
                }
                if oldv[t] == s@ {
                    crate::strutil::lemma_lex_irrefl(s@);
                    crate::strutil::lemma_lex_trans(s@, oldv[pos as int], oldv[t]);
                }
            } else {
                if oldv[t] == s@ {
                    crate::strutil::lemma_lex_irrefl(s@);
                }
            }
        }
        assert forall|i: int, j: int| 0 <= i < j < newv.len() implies lex_lt(
            #[trigger] newv[i],
            #[trigger] newv[j],
        ) by {
            if i == pos {
                assert(newv[j] == oldv[j - 1]);
                assert(!lex_lt(oldv[pos as int], s@));
                assert(oldv[pos as int] != s@);
                lemma_lex_total(oldv[pos as int], s@);
                if j - 1 > pos {
                    assert(lex_lt(oldv[pos as int], oldv[j - 1]));
                    crate::strutil::lemma_lex_trans(s@, oldv[pos as int], oldv[j - 1]);
                }
            } else if j == pos {
                assert(newv[i] == oldv[i]);
            } else if i < pos && j > pos {
                assert(lex_lt(oldv[i], s@));
                if j - 1 == pos {
                } else {
                }
                if j - 1 > pos || j - 1 == pos {
                    if j - 1 == pos {
                        assert(!lex_lt(oldv[pos as int], s@));
                        lemma_lex_total(oldv[pos as int], s@);
                        crate::strutil::lemma_lex_trans(oldv[i], s@, oldv[pos as int]);
                    } else {
                        assert(lex_lt(oldv[i], oldv[j - 1]));
                    }
                }
            } else {
                let pi: int = if i < pos {
                    i
                } else {
                    i - 1
                };
                let pj: int = if j < pos {
                    j
                } else {
                    j - 1
                };
                assert(newv[i] == oldv[pi]);
                assert(newv[j] == oldv[pj]);
                assert(0 <= pi < pj < oldv.len());
                assert(lex_lt(oldv[pi], oldv[pj]));
            }
        }
        assert forall|l: Seq<char>|
            #[trigger] newv.contains(l) <==> (oldv.contains(l) || l == s@) by {
            if newv.contains(l) {
                let w = choose|t: int| 0 <= t < newv.len() && newv[t] == l;
                if w < pos {
                    assert(oldv[w] == l);
                } else if w > pos {
                    assert(oldv[w - 1] == l);
                }
            }
            if oldv.contains(l) {
                let w = choose|t: int| 0 <= t < oldv.len() && oldv[t] == l;
                if w < pos {
                    assert(newv[w] == l);
                } else {
                    assert(newv[w + 1] == l);
                }
            }
            if l == s@ {
                assert(newv[pos as int] == l);
            }
        }
        lemma_sorted_insert_at(oldv, s@, pos as int);
        assert(newv =~= oldv.insert(pos as int, s@));
    }
}

/// The locales of a backend, sorted and de-duplicated: strictly ascending
/// and holding exactly the locales the backend reports.
pub fn available_locales_sorted<B: Backend>(backend: &B) -> (r: Vec<String>)
    ensures
        strictly_sorted(r.deep_view()),
        forall|i: int, j: int|
            0 <= i < j < r.deep_view().len() ==> #[trigger] r.deep_view()[i]
                != #[trigger] r.deep_view()[j],
        forall|l: Seq<char>|
            #[trigger] r.deep_view().contains(l) <==> backend.spec_locales().contains(l),
{
    let locs = backend.available_locales();
    let ghost locsv = locs.deep_view();
    let mut out: Vec<String> = Vec::new();
    let n = locs.len();
    let mut i: usize = 0;
    proof {
        assert(out.deep_view().len() == 0);
    }
    while i < n
        invariant
            n == locs@.len(),
            n == locsv.len(),
            locsv == locs.deep_view(),
            i <= n,
            strictly_sorted(out.deep_view()),
            forall|l: Seq<char>|
                #[trigger] out.deep_view().contains(l) <==> locsv.take(i as int).contains(l),
        decreases n - i,
    {
        let ghost prev = out.deep_view();
        proof {
            assert(locsv[i as int] == locs@[i as int]@);
        }
        insert_sorted_unique(&mut out, locs[i].as_str());
        proof {
            let upto = locsv.take(i + 1 as int);
            let below = locsv.take(i as int);
            assert forall|l: Seq<char>|
                #[trigger] out.deep_view().contains(l) <==> upto.contains(l) by {
                if out.deep_view().contains(l) {
                    if prev.contains(l) {
                        let w = choose|t: int| 0 <= t < below.len() && below[t] == l;
                        assert(upto[w] == l);
                    } else {
                        assert(upto[i as int] == l);
                    }
                }
                if upto.contains(l) {
                    let w = choose|t: int| 0 <= t < upto.len() && upto[t] == l;
                    if w < i {
                        assert(below[w] == l);
                    } else {
                        assert(l == locsv[i as int]);
                    }
                }
            }
        }
        i += 1;
    }
    proof {
        assert(locsv.take(n as int) =~= locsv);
        assert forall|a: int, b: int|
            0 <= a < b < out.deep_view().len() implies #[trigger] out.deep_view()[a]
            != #[trigger] out.deep_view()[b] by {
            if out.deep_view()[a] == out.deep_view()[b] {
                crate::strutil::lemma_lex_irrefl(out.deep_view()[a]);
            }
        }
    }
    out
}

} // verus!
