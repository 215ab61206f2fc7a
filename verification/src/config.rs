//! Plain configuration values consumed by the engine: minification
//! attributes and the project-level settings, with their defaults.

use vstd::prelude::*;

verus! {

use vstd::string::StringExecFns;
use crate::backend::vec_contains_str;

/// Whether keys are minified unless configured otherwise.
pub const DEFAULT_MINIFY_KEY: bool = false;

/// The length of an auto-generated translation key.
pub const DEFAULT_MINIFY_KEY_LEN: usize = 24;

/// The byte length up to which a value is its own key.
pub const DEFAULT_MINIFY_KEY_THRESH: usize = 127;

/// The minification attributes a call site works under.
pub struct I18nAttrs {
    /// Whether long messages are replaced by hashed keys.
    pub minify_key: bool,
    /// How many characters of the encoded hash the key keeps.
    pub minify_key_len: usize,
    /// What is prepended to the encoded hash.
    pub minify_key_prefix: String,
    /// The byte length up to which a message is its own key.
    pub minify_key_thresh: usize,
}

impl I18nAttrs {
    /// The default attributes: no minification, length 24, empty prefix,
    /// threshold 127.
    pub fn new() -> (r: I18nAttrs)
        ensures
            r.minify_key == DEFAULT_MINIFY_KEY,
            r.minify_key_len == DEFAULT_MINIFY_KEY_LEN,
            r.minify_key_prefix@ == Seq::<char>::empty(),
            r.minify_key_thresh == DEFAULT_MINIFY_KEY_THRESH,
    {
        I18nAttrs {
            minify_key: DEFAULT_MINIFY_KEY,
            minify_key_len: DEFAULT_MINIFY_KEY_LEN,
            minify_key_prefix: String::new(),
            minify_key_thresh: DEFAULT_MINIFY_KEY_THRESH,
        }
    }
}

impl Default for I18nAttrs {
    fn default() -> (r: I18nAttrs)
        ensures
            r.minify_key == DEFAULT_MINIFY_KEY,
            r.minify_key_len == DEFAULT_MINIFY_KEY_LEN,
            r.minify_key_prefix@ == Seq::<char>::empty(),
            r.minify_key_thresh == DEFAULT_MINIFY_KEY_THRESH,
    {
        I18nAttrs::new()
    }
}

/// The project-level settings the engine consumes as plain values.
pub struct I18nConfig {
    /// The locale used when none is set.
    pub default_locale: String,
    /// Every locale the project ships, default first, no duplicates.
    pub available_locales: Vec<String>,
    /// Where the locale files live.
    pub load_path: String,
    /// The statically configured fallback chain.
    pub fallback: Vec<String>,
    /// Whether keys are minified.
    pub minify_key: bool,
    /// How many characters of the encoded hash a key keeps.
    pub minify_key_len: usize,
    /// What is prepended to the encoded hash.
    pub minify_key_prefix: String,
    /// The byte length up to which a message is its own key.
    pub minify_key_thresh: usize,
}

impl I18nConfig {
    /// The default settings: locale `en`, locales `["en"]`, path
    /// `./locales`, no fallback chain, default minification attributes.
    pub fn new() -> (r: I18nConfig)
        ensures
            r.default_locale@ == "en"@,
            r.available_locales.deep_view() =~= seq!["en"@],
            r.load_path@ == "./locales"@,
            r.fallback@.len() == 0,
            r.minify_key == DEFAULT_MINIFY_KEY,
            r.minify_key_len == DEFAULT_MINIFY_KEY_LEN,
            r.minify_key_prefix@ == Seq::<char>::empty(),
            r.minify_key_thresh == DEFAULT_MINIFY_KEY_THRESH,
    {
        let mut locales: Vec<String> = Vec::new();
        locales.push(String::from_str("en"));
        let r = I18nConfig {
            default_locale: String::from_str("en"),
            available_locales: locales,
            load_path: String::from_str("./locales"),
            fallback: Vec::new(),
            minify_key: DEFAULT_MINIFY_KEY,
            minify_key_len: DEFAULT_MINIFY_KEY_LEN,
            minify_key_prefix: String::new(),
            minify_key_thresh: DEFAULT_MINIFY_KEY_THRESH,
        };
        proof {
            assert(r.available_locales.deep_view() =~= seq!["en"@]);
        }
        r
    }
}

impl Default for I18nConfig {
    fn default() -> (r: I18nConfig)
        ensures
            r.default_locale@ == "en"@,
            r.available_locales.deep_view() =~= seq!["en"@],
            r.load_path@ == "./locales"@,
            r.fallback@.len() == 0,
            r.minify_key == DEFAULT_MINIFY_KEY,
            r.minify_key_len == DEFAULT_MINIFY_KEY_LEN,
            r.minify_key_prefix@ == Seq::<char>::empty(),
            r.minify_key_thresh == DEFAULT_MINIFY_KEY_THRESH,
    {
        I18nConfig::new()
    }
}

/// A whole settings file: the engine reads its `i18n` section.
pub struct MainConfig {
    /// The engine's settings.
    pub i18n: I18nConfig,
}

/// The default locale, `en`.
pub fn default_locale() -> (r: String)
    ensures
        r@ == "en"@,
{
    String::from_str("en")
}

/// The default locale list: just `en`.
pub fn available_locales() -> (r: Vec<String>)
    ensures
        r.deep_view() =~= seq!["en"@],
{
    let mut locales: Vec<String> = Vec::new();
    locales.push(String::from_str("en"));
    proof {
        assert(locales.deep_view() =~= seq!["en"@]);
    }
    locales
}

/// The default load path, `./locales`.
pub fn load_path() -> (r: String)
    ensures
        r@ == "./locales"@,
{
    String::from_str("./locales")
}

/// The default fallback chain: empty.
pub fn fallback() -> (r: Vec<String>)
    ensures
        r@.len() == 0,
{
    Vec::new()
}

/// The default minification switch.
pub fn minify_key() -> (r: bool)
    ensures
        r == DEFAULT_MINIFY_KEY,
{
    DEFAULT_MINIFY_KEY
}

/// The default minified-key length.
pub fn minify_key_len() -> (r: usize)
    ensures
        r == DEFAULT_MINIFY_KEY_LEN,
{
    DEFAULT_MINIFY_KEY_LEN
}

/// The default minified-key prefix: empty.
pub fn minify_key_prefix() -> (r: String)
    ensures
        r@ == Seq::<char>::empty(),
{
    String::new()
}

/// The default minification threshold.
pub fn minify_key_thresh() -> (r: usize)
    ensures
        r == DEFAULT_MINIFY_KEY_THRESH,
{
    DEFAULT_MINIFY_KEY_THRESH
}

/// A list with its later duplicates dropped: each element keeps its first
/// occurrence.
pub open spec fn dedup_first(s: Seq<Seq<char>>) -> Seq<Seq<char>>
    decreases s.len(),
{
    if s.len() == 0 {
        Seq::empty()
    } else {
        let d = dedup_first(s.drop_last());
        if d.contains(s.last()) {
            d
        } else {
            d.push(s.last())
        }
    }
}

/// The available-locales list as the settings are normalised: the default
/// locale first, then the listed locales, first occurrences kept.
pub fn normalized_locales(default_locale: &str, locales: &Vec<String>) -> (r: Vec<String>)
    ensures
        r.deep_view() == dedup_first(seq![default_locale@] + locales.deep_view()),
{
    let ghost all = seq![default_locale@] + locales.deep_view();
    let mut out: Vec<String> = Vec::new();
    out.push(default_locale.to_owned());
    proof {
        assert(all.take(1).drop_last() =~= Seq::<Seq<char>>::empty());
        assert(all[0] == default_locale@);
        assert(all.take(1).last() == default_locale@);
        assert(dedup_first(Seq::<Seq<char>>::empty()) =~= Seq::<Seq<char>>::empty());
        assert(dedup_first(all.take(1)) =~= seq![default_locale@]);
        assert(out.deep_view() =~= seq![default_locale@]);
    }
    let n = locales.len();
    let mut i: usize = 0;
    while i < n
        invariant
            n == locales@.len(),
            i <= n,
            all == seq![default_locale@] + locales.deep_view(),
            all.len() == n + 1,
            out.deep_view() == dedup_first(all.take(i + 1 as int)),
        decreases n - i,
    {
        let ghost outv = out.deep_view();
        proof {
            assert(all.take(i + 2 as int).drop_last() =~= all.take(i + 1 as int));
            assert(all.take(i + 2 as int).last() == all[i + 1 as int]);
            assert(all[i + 1 as int] == locales.deep_view()[i as int]);
            assert(locales.deep_view()[i as int] == locales@[i as int]@);
        }
        if !vec_contains_str(&out, locales[i].as_str()) {
            out.push(locales[i].clone());
            proof {
                assert(out.deep_view() =~= outv.push(locales@[i as int]@));
            }
        }
        i += 1;
    }
    proof {
        assert(all.take(n + 1 as int) =~= all);
    }
    out
}

} // verus!
