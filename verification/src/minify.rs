//! Key minification: a long message string is replaced by a short stable
//! key, computed as the base62 rendering of a 128-bit SipHash-1-3 digest of
//! its bytes, truncated and prefixed.

use vstd::prelude::*;

verus! {

use vstd::arithmetic::div_mod::lemma_div_is_strictly_smaller;
use vstd::string::StringSliceAdditionalSpecFns;
use vstd::utf8::encode_utf8;
use vstd::string::StringExecFns;
use crate::strutil::str_chars;
use crate::strutil::chars_to_string;
use crate::cow_str::dec_rep;
use crate::cow_str::u128_to_dec;

/// The 128-bit SipHash-1-3 digest (both keys zero) of a byte sequence.
/// Named, not written out: the digest is a function of the bytes alone.
pub uninterp spec fn sip13_of(bytes: Seq<u8>) -> u128;

/// The character standing for one base62 digit, in the standard ordering:
/// `0`-`9`, then `A`-`Z`, then `a`-`z`.
pub open spec fn b62_digit(d: nat) -> char {
    if d < 10 {
        (d + 48) as char
    } else if d < 36 {
        (d + 55) as char
    } else {
        (d + 61) as char
    }
}

/// The base62 digits of `n`, most significant first, empty for zero.
pub open spec fn b62_rep_aux(n: nat) -> Seq<char>
    decreases n,
    via b62_rep_aux_dec
{
    if n == 0 {
        Seq::empty()
    } else {
        b62_rep_aux(n / 62).push(b62_digit(n % 62))
    }
}

#[via_fn]
proof fn b62_rep_aux_dec(n: nat) {
    if n != 0 {
        lemma_div_is_strictly_smaller(n as int, 62);
    }
}

/// The base62 rendering of `n`: its digits, or `"0"` for zero.
pub open spec fn b62_rep(n: nat) -> Seq<char> {
    if n == 0 {
        seq!['0']
    } else {
        b62_rep_aux(n)
    }
}

/// Relies on siphasher's `SipHasher13::new` and `hash`: SipHash-1-3 with
/// both keys zero, a 128-bit digest determined by the input bytes alone.
#[verifier::external_body]
pub fn hash128(value: &[u8]) -> (r: u128)
    ensures
        r == sip13_of(value@),
{
    u128::from(siphasher::sip128::SipHasher13::new().hash(value))
}

/// Relies on base62's `encode`: the base62 rendering of `n` in the standard
/// digit ordering (`0`-`9`, `A`-`Z`, `a`-`z`), most significant digit first,
/// `"0"` for zero.
#[verifier::external_body]
fn base62_encode(n: u128) -> (r: String)
    ensures
        r@ == b62_rep(n as nat),
{
    base62::encode(n)
}

/// What minification makes of a text: the text itself when its encoded
/// byte length is at most `threshold`, else `prefix` followed by the first
/// `len` characters of the base62 rendering of its digest.
pub open spec fn minified_key_of(
    chars: Seq<char>,
    len: int,
    prefix: Seq<char>,
    threshold: int,
) -> Seq<char> {
    if encode_utf8(chars).len() <= threshold {
        chars
    } else {
        let encoded = b62_rep(sip13_of(encode_utf8(chars)) as nat);
        if len < encoded.len() {
            prefix + encoded.take(len)
        } else {
            prefix + encoded
        }
    }
}

/// What `minify_key` returns for a string slice.
pub open spec fn minified_key(value: &str, len: int, prefix: Seq<char>, threshold: int) -> Seq<char> {
    minified_key_of(value@, len, prefix, threshold)
}

/// Derives a translation key from a value.
///
/// A value no longer than `threshold` bytes is its own key; a longer one is
/// hashed, and the key is `prefix` followed by at most `len` characters of
/// the base62 rendering of the hash.
pub fn minify_key(value: &str, len: usize, prefix: &str, threshold: usize) -> (r: String)
    ensures
        r@ == minified_key(value, len as int, prefix@, threshold as int),
{
    let bytes = value.as_bytes();
    if bytes.len() <= threshold {
        return value.to_owned();
    }
    let hash = hash128(bytes);
    let encoded = base62_encode(hash);
    let cs = str_chars(encoded.as_str());
    let keep: usize = if len < cs.len() {
        len
    } else {
        cs.len()
    };
    let mut out = str_chars(prefix);
    let mut i: usize = 0;
    while i < keep
        invariant
            keep <= cs.len(),
            i <= keep,
            cs@ == b62_rep(sip13_of(value.spec_bytes()) as nat),
            out@ == prefix@ + cs@.take(i as int),
        decreases keep - i,
    {
        out.push(cs[i]);
        proof {
            assert(cs@.take(i + 1 as int) =~= cs@.take(i as int).push(cs@[i as int]));
            assert(prefix@ + cs@.take(i + 1 as int) =~= (prefix@ + cs@.take(i as int)).push(
                cs@[i as int]));
        }
        i += 1;
    }
    proof {
        if keep == cs@.len() {
            assert(cs@.take(keep as int) =~= cs@);
        }
    }
    chars_to_string(&out)
}

/// Threshold short-circuit: a value whose byte length is at most the
/// threshold is its own key, whatever the length and prefix arguments.
pub proof fn lemma_minify_threshold(value: &str, len: int, prefix: Seq<char>, threshold: int)
    requires
        value.spec_bytes().len() <= threshold,
    ensures
        minified_key(value, len, prefix, threshold) == value@,
{
}

/// Derives the key standing for a dynamic message: `"tr_"` followed by the
/// full base62 rendering of the message's digest.
pub fn tr_key(value: &str) -> (r: String)
    ensures
        r@ == "tr_"@ + b62_rep(sip13_of(value.spec_bytes()) as nat),
{
    let hash = hash128(value.as_bytes());
    let encoded = base62_encode(hash);
    let out = String::from_str("tr_");
    out.concat(encoded.as_str())
}

/// Derives the key standing for a numeric value: `"tr_N_"` followed by its
/// decimal form. A signed value is cast to `u128` by the caller first.
pub fn tr_key_numeric(n: u128) -> (r: String)
    ensures
        r@ == "tr_N_"@ + dec_rep(n as nat),
{
    let out = String::from_str("tr_N_");
    out.concat(u128_to_dec(n).as_str())
}

/// Key derivation as a method on the value itself.
pub trait MinifyKey {
    /// Derives this value's translation key.
    fn minify_key(&self, len: usize, prefix: &str, threshold: usize) -> String;
}

impl MinifyKey for str {
    fn minify_key(&self, len: usize, prefix: &str, threshold: usize) -> (r: String)
        ensures
            r@ == minified_key_of(self@, len as int, prefix@, threshold as int),
    {
        minify_key(self, len, prefix, threshold)
    }
}

impl MinifyKey for String {
    fn minify_key(&self, len: usize, prefix: &str, threshold: usize) -> (r: String)
        ensures
            r@ == minified_key_of(self@, len as int, prefix@, threshold as int),
    {
        minify_key(self.as_str(), len, prefix, threshold)
    }
}

/// Literal-key derivation as a method on the value itself.
pub trait TrKey {
    /// Derives this value's literal translation key.
    fn tr_key(&self) -> String;
}

impl TrKey for str {
    fn tr_key(&self) -> (r: String)
        ensures
            r@ == "tr_"@ + b62_rep(sip13_of(encode_utf8(self@)) as nat),
    {
        tr_key(self)
    }
}

impl TrKey for String {
    fn tr_key(&self) -> (r: String)
        ensures
            r@ == "tr_"@ + b62_rep(sip13_of(encode_utf8(self@)) as nat),
    {
        tr_key(self.as_str())
    }
}
} // verus!
