//! The translation call surface: a message is resolved to a template via
//! the backend and the fallback chain, the template's placeholders are
//! substituted, and a missing translation degrades to the original text.

use vstd::prelude::*;

verus! {

use vstd::string::StringExecFns;
use crate::backend::Backend;
use crate::config::I18nAttrs;
use crate::minify::minify_key;
use crate::minify::minified_key;
use crate::pattern::replace_patterns;
use crate::pattern::subst;
use crate::resolver::try_translate;
use crate::resolver::resolve_spec;
use crate::resolver::parent_locale;
use crate::resolver::chain_lookup;
use crate::resolver::lemma_parent_shorter;

/// What rendering returns: the resolved template substituted, or, where
/// no translation exists, the message itself substituted.
pub open spec fn render_spec<B: Backend>(
    b: &B,
    locale: Seq<char>,
    key: Seq<char>,
    msg: Seq<char>,
    chain: Seq<Seq<char>>,
    names: Seq<Seq<char>>,
    values: Seq<Seq<char>>,
) -> Seq<char> {
    match resolve_spec(b, locale, key, chain) {
        Some(t) => subst(t, names, values),
        None => subst(msg, names, values),
    }
}

/// Renders a message whose key is already known: the key is resolved with
/// fallback, and the resolved template - or the message itself, where
/// nothing matched - has its placeholders substituted.
pub fn render_with_key<B: Backend>(
    backend: &B,
    locale: &str,
    key: &str,
    msg: &str,
    fallbacks: &Vec<String>,
    patterns: &[&str],
    values: &[String],
) -> (r: String)
    ensures
        r@ == render_spec(
            backend,
            locale@,
            key@,
            msg@,
            fallbacks.deep_view(),
            patterns.deep_view(),
            values.deep_view(),
        ),
{
    match try_translate(backend, locale, key, fallbacks) {
        Some(t) => replace_patterns(t.as_str(), patterns, values),
        None => replace_patterns(msg, patterns, values),
    }
}

/// The key a message is looked up under: the message itself, or its
/// minified form when minification is on.
pub open spec fn message_key(msg: &str, attrs: &I18nAttrs) -> Seq<char> {
    if attrs.minify_key {
        minified_key(
            msg,
            attrs.minify_key_len as int,
            attrs.minify_key_prefix@,
            attrs.minify_key_thresh as int,
        )
    } else {
        msg@
    }
}

/// Renders a message: its key is derived per the minification attributes,
/// resolved with fallback, and the result substituted; a missing
/// translation degrades to the message itself.
pub fn render<B: Backend>(
    backend: &B,
    locale: &str,
    msg: &str,
    fallbacks: &Vec<String>,
    patterns: &[&str],
    values: &[String],
    attrs: &I18nAttrs,
) -> (r: String)
    ensures
        r@ == render_spec(
            backend,
            locale@,
            message_key(msg, attrs),
            msg@,
            fallbacks.deep_view(),
            patterns.deep_view(),
            values.deep_view(),
        ),
{
    let key: String = if attrs.minify_key {
        minify_key(msg, attrs.minify_key_len, attrs.minify_key_prefix.as_str(), attrs.minify_key_thresh)
    } else {
        msg.to_owned()
    };
    render_with_key(backend, locale, key.as_str(), msg, fallbacks, patterns, values)
}

/// Against a backend that translates nothing, the whole chain misses.
proof fn lemma_chain_lookup_none<B: Backend>(
    b: &B,
    chain: Seq<Seq<char>>,
    idx: int,
    key: Seq<char>,
)
    requires
        forall|l: Seq<char>, k: Seq<char>| #[trigger] b.spec_translate(l, k) is None,
    ensures
        chain_lookup(b, chain, idx, key) is None,
    decreases chain.len() - idx,
{
    if 0 <= idx < chain.len() {
        lemma_chain_lookup_none(b, chain, idx + 1, key);
    }
}

/// Against a backend that translates nothing, resolution misses for every
/// locale, key and chain.
pub proof fn lemma_resolve_none<B: Backend>(
    b: &B,
    locale: Seq<char>,
    key: Seq<char>,
    chain: Seq<Seq<char>>,
)
    requires
        forall|l: Seq<char>, k: Seq<char>| #[trigger] b.spec_translate(l, k) is None,
    ensures
        resolve_spec(b, locale, key, chain) is None,
    decreases locale.len(),
{
    match parent_locale(locale) {
        Some(p) => {
            lemma_parent_shorter(locale);
            lemma_resolve_none(b, p, key, chain);
        },
        None => {
            lemma_chain_lookup_none(b, chain, 0, key);
        },
    }
}

/// Literal fallback round trip: rendering against a backend without any
/// translation is exactly substitution into the message itself, whatever
/// the locale, key, chain and arguments.
pub proof fn lemma_render_literal_fallback<B: Backend>(
    b: &B,
    locale: Seq<char>,
    key: Seq<char>,
    msg: Seq<char>,
    chain: Seq<Seq<char>>,
    names: Seq<Seq<char>>,
    values: Seq<Seq<char>>,
)
    requires
        forall|l: Seq<char>, k: Seq<char>| #[trigger] b.spec_translate(l, k) is None,
    ensures
        render_spec(b, locale, key, msg, chain, names, values) == subst(msg, names, values),
{
    lemma_resolve_none(b, locale, key, chain);
}

} // verus!
