//! Argument values for substitution: text held as a string, with numeric
//! values rendered to their decimal form.

use vstd::prelude::*;

verus! {

use vstd::arithmetic::div_mod::lemma_div_is_strictly_smaller;
use vstd::string::StringExecFns;
use crate::strutil::chars_to_string;

/// The character of one decimal digit.
pub open spec fn dec_digit(d: nat) -> char {
    if d == 0 {
        '0'
    } else if d == 1 {
        '1'
    } else if d == 2 {
        '2'
    } else if d == 3 {
        '3'
    } else if d == 4 {
        '4'
    } else if d == 5 {
        '5'
    } else if d == 6 {
        '6'
    } else if d == 7 {
        '7'
    } else if d == 8 {
        '8'
    } else {
        '9'
    }
}

/// The decimal digits of `n`, most significant first, empty for zero.
pub open spec fn dec_rep_aux(n: nat) -> Seq<char>
    decreases n,
    via dec_rep_aux_dec
{
    if n == 0 {
        Seq::empty()
    } else {
        dec_rep_aux(n / 10).push(dec_digit(n % 10))
    }
}

#[via_fn]
proof fn dec_rep_aux_dec(n: nat) {
    if n != 0 {
        lemma_div_is_strictly_smaller(n as int, 10);
    }
}

/// The decimal rendering of `n`: its digits, or `"0"` for zero.
pub open spec fn dec_rep(n: nat) -> Seq<char> {
    if n == 0 {
        seq!['0']
    } else {
        dec_rep_aux(n)
    }
}

/// The decimal rendering of a signed number: a `-` before the magnitude
/// where it is negative.
pub open spec fn dec_rep_signed(i: int) -> Seq<char> {
    if i >= 0 {
        dec_rep(i as nat)
    } else {
        seq!['-'] + dec_rep((-i) as nat)
    }
}

/// The character of the digit `d`.
fn dec_digit_exec(d: u128) -> (c: char)
    requires
        d < 10,
    ensures
        c == dec_digit(d as nat),
{
    if d == 0 {
        '0'
    } else if d == 1 {
        '1'
    } else if d == 2 {
        '2'
    } else if d == 3 {
        '3'
    } else if d == 4 {
        '4'
    } else if d == 5 {
        '5'
    } else if d == 6 {
        '6'
    } else if d == 7 {
        '7'
    } else if d == 8 {
        '8'
    } else {
        '9'
    }
}

/// Renders `n` in decimal.
pub fn u128_to_dec(n: u128) -> (r: String)
    ensures
        r@ == dec_rep(n as nat),
{
    if n == 0 {
        let v: Vec<char> = vec!['0'];
        proof {
            assert(v@ =~= seq!['0']);
        }
        return chars_to_string(&v);
    }
    let mut out: Vec<char> = Vec::new();
    let mut m = n;
    proof {
        assert(dec_rep_aux(n as nat) =~= dec_rep_aux(m as nat) + out@);
    }
    while m > 0
        invariant
            dec_rep_aux(n as nat) == dec_rep_aux(m as nat) + out@,
        decreases m,
    {
        let ghost outv = out@;
        let d = dec_digit_exec(m % 10);
        out.insert(0, d);
        proof {
            assert(out@ =~= seq![dec_digit((m % 10) as nat)] + outv);
            assert(dec_rep_aux(m as nat) == dec_rep_aux((m / 10) as nat).push(
                dec_digit((m % 10) as nat),
            ));
            assert(dec_rep_aux((m / 10) as nat) + out@ =~= (dec_rep_aux((m / 10) as nat).push(
                dec_digit((m % 10) as nat),
            )) + outv);
            lemma_div_is_strictly_smaller(m as int, 10);
        }
        m = m / 10;
    }
    proof {
        assert(dec_rep_aux(0) =~= Seq::<char>::empty());
        assert(Seq::<char>::empty() + out@ =~= out@);
    }
    chars_to_string(&out)
}

/// Renders `i` in decimal, with a leading `-` where it is negative.
pub fn i128_to_dec(i: i128) -> (r: String)
    ensures
        r@ == dec_rep_signed(i as int),
{
    if i >= 0 {
        u128_to_dec(i as u128)
    } else {
        let magnitude: u128 = ((-(i + 1)) as u128) + 1;
        proof {
            assert(magnitude as nat == (-(i as int)) as nat);
        }
        let digits = u128_to_dec(magnitude);
        let sign = String::from_str("-");
        let r = sign.concat(digits.as_str());
        proof {
            reveal_strlit("-");
            assert("-"@ =~= seq!['-']);
            assert(r@ =~= seq!['-'] + dec_rep((-(i as int)) as nat));
        }
        r
    }
}

/// A substitution value: text, either borrowed from the call site or
/// rendered from a number.
pub struct CowStr {
    text: String,
}

impl View for CowStr {
    type V = Seq<char>;

    closed spec fn view(&self) -> Seq<char> {
        self.text@
    }
}

impl CowStr {
    /// The value's text.
    pub fn as_str(&self) -> (r: &str)
        ensures
            r@ == self@,
    {
        self.text.as_str()
    }

    /// The value's text, owned.
    pub fn into_inner(self) -> (r: String)
        ensures
            r@ == self@,
    {
        self.text
    }

    /// A value holding the given text.
    pub fn from_text(s: &str) -> (r: CowStr)
        ensures
            r@ == s@,
    {
        CowStr { text: s.to_owned() }
    }

    /// A value taking ownership of the given text.
    pub fn from_string(s: String) -> (r: CowStr)
        ensures
            r@ == s@,
    {
        CowStr { text: s }
    }

    /// A value rendering an unsigned number in decimal.
    pub fn from_unsigned(n: u128) -> (r: CowStr)
        ensures
            r@ == dec_rep(n as nat),
    {
        CowStr { text: u128_to_dec(n) }
    }

    /// A value rendering a signed number in decimal.
    pub fn from_signed(i: i128) -> (r: CowStr)
        ensures
            r@ == dec_rep_signed(i as int),
    {
        CowStr { text: i128_to_dec(i) }
    }
}

} // verus!
