//! The syntax of floating-point text, as `f64::from_str` documents it:
//!
//! ```text
//! Float  ::= Sign? ( 'inf' | 'infinity' | 'nan' | Number )
//! Number ::= ( Digit+ | Digit+ '.' Digit* | Digit* '.' Digit+ ) Exp?
//! Exp    ::= 'e' Sign? Digit+
//! Sign   ::= [+-]
//! Digit  ::= [0-9]
//! ```
//!
//! Letters are matched without regard to case. A literal's number is kept as
//! this text; reading its value is left to the caller.
use vstd::prelude::*;
use crate::text::{all_digits, find, find_in, is_digit_char};

verus! {

pub open spec fn is_sign(c: char) -> bool {
    c == '+' || c == '-'
}

pub open spec fn is_exp_mark(c: char) -> bool {
    c == 'e' || c == 'E'
}

/// The text without one leading sign, if it has one.
pub open spec fn unsigned_part(s: Seq<char>) -> Seq<char> {
    if s.len() > 0 && is_sign(s[0]) {
        s.drop_first()
    } else {
        s
    }
}

/// `s` spells the word whose lower-case letters are `lw` and upper-case
/// letters are `uw`, in any mix of cases.
pub open spec fn spells(s: Seq<char>, lw: Seq<char>, uw: Seq<char>) -> bool {
    s.len() == lw.len() && forall|i: int| 0 <= i < s.len() ==> s[i] == lw[i] || s[i] == uw[i]
}

pub open spec fn is_special_word(s: Seq<char>) -> bool {
    ||| spells(s, seq!['i', 'n', 'f'], seq!['I', 'N', 'F'])
    ||| spells(
        s,
        seq!['i', 'n', 'f', 'i', 'n', 'i', 't', 'y'],
        seq!['I', 'N', 'F', 'I', 'N', 'I', 'T', 'Y'],
    )
    ||| spells(s, seq!['n', 'a', 'n'], seq!['N', 'A', 'N'])
}

/// Digits with at most one decimal point, and at least one digit.
pub open spec fn is_mantissa(m: Seq<char>) -> bool {
    let p = find(m, '.');
    if p < 0 {
        m.len() > 0 && all_digits(m)
    } else {
        &&& m.len() > 1
        &&& all_digits(m.subrange(0, p))
        &&& all_digits(m.subrange(p + 1, m.len() as int))
    }
}

pub open spec fn is_exponent(x: Seq<char>) -> bool {
    unsigned_part(x).len() > 0 && all_digits(unsigned_part(x))
}

/// Index of the first exponent mark at or after `i`, or -1.
pub open spec fn find_exp_from(s: Seq<char>, i: int) -> int
    decreases s.len() - i,
{
    if i < 0 || i >= s.len() {
        -1
    } else if is_exp_mark(s[i]) {
        i
    } else {
        find_exp_from(s, i + 1)
    }
}

pub open spec fn is_number(s: Seq<char>) -> bool {
    let k = find_exp_from(s, 0);
    if k < 0 {
        is_mantissa(s)
    } else {
        is_mantissa(s.subrange(0, k)) && is_exponent(s.subrange(k + 1, s.len() as int))
    }
}

/// The text is one that `f64::from_str` accepts.
pub open spec fn is_float_text(s: Seq<char>) -> bool {
    is_special_word(unsigned_part(s)) || is_number(unsigned_part(s))
}

fn all_digits_in(v: &Vec<char>, lo: usize, hi: usize) -> (r: bool)
    requires
        lo <= hi <= v.len(),
    ensures
        r == all_digits(v@.subrange(lo as int, hi as int)),
{
    let mut i: usize = lo;
    while i < hi
        invariant
            lo <= i <= hi <= v.len(),
            all_digits(v@.subrange(lo as int, i as int)),
        decreases hi - i,
    {
        if !is_digit_char(v[i]) {
            assert(v@.subrange(lo as int, hi as int)[i - lo] == v@[i as int]);
            return false;
        }
        assert(all_digits(v@.subrange(lo as int, i + 1)));
        i = i + 1;
    }
    true
}

fn spells_in(v: &Vec<char>, lo: usize, hi: usize, lw: &Vec<char>, uw: &Vec<char>) -> (r: bool)
    requires
        lo <= hi <= v.len(),
        lw.len() == uw.len(),
    ensures
        r == spells(v@.subrange(lo as int, hi as int), lw@, uw@),
{
    if hi - lo != lw.len() {
        return false;
    }
    let mut i: usize = 0;
    while i < lw.len()
        invariant
            lo <= hi <= v.len(),
            hi - lo == lw.len() == uw.len(),
            i <= lw.len(),
            forall|k: int| 0 <= k < i ==> v@[lo + k] == lw@[k] || v@[lo + k] == uw@[k],
        decreases lw.len() - i,
    {
        if v[lo + i] != lw[i] && v[lo + i] != uw[i] {
            assert(v@.subrange(lo as int, hi as int)[i as int] == v@[lo + i]);
            return false;
        }
        i = i + 1;
    }
    true
}

fn is_special_word_in(v: &Vec<char>, lo: usize, hi: usize) -> (r: bool)
    requires
        lo <= hi <= v.len(),
    ensures
        r == is_special_word(v@.subrange(lo as int, hi as int)),
{
    let inf_l = vec!['i', 'n', 'f'];
    let inf_u = vec!['I', 'N', 'F'];
    let infinity_l = vec!['i', 'n', 'f', 'i', 'n', 'i', 't', 'y'];
    let infinity_u = vec!['I', 'N', 'F', 'I', 'N', 'I', 'T', 'Y'];
    let nan_l = vec!['n', 'a', 'n'];
    let nan_u = vec!['N', 'A', 'N'];
    proof {
        assert(inf_l@ =~= seq!['i', 'n', 'f']);
        assert(inf_u@ =~= seq!['I', 'N', 'F']);
        assert(infinity_l@ =~= seq!['i', 'n', 'f', 'i', 'n', 'i', 't', 'y']);
        assert(infinity_u@ =~= seq!['I', 'N', 'F', 'I', 'N', 'I', 'T', 'Y']);
        assert(nan_l@ =~= seq!['n', 'a', 'n']);
        assert(nan_u@ =~= seq!['N', 'A', 'N']);
    }
    spells_in(v, lo, hi, &inf_l, &inf_u) || spells_in(v, lo, hi, &infinity_l, &infinity_u)
        || spells_in(v, lo, hi, &nan_l, &nan_u)
}

fn is_mantissa_in(v: &Vec<char>, lo: usize, hi: usize) -> (r: bool)
    requires
        lo <= hi <= v.len(),
    ensures
        r == is_mantissa(v@.subrange(lo as int, hi as int)),
{
    let ghost m = v@.subrange(lo as int, hi as int);
    let p = find_in(v, lo, hi, '.');
    if p == hi {
        hi > lo && all_digits_in(v, lo, hi)
    } else {
        assert(m.subrange(0, p - lo) =~= v@.subrange(lo as int, p as int));
        assert(m.subrange(p - lo + 1, m.len() as int) =~= v@.subrange(p + 1, hi as int));
        hi - lo > 1 && all_digits_in(v, lo, p) && all_digits_in(v, p + 1, hi)
    }
}

fn is_exponent_in(v: &Vec<char>, lo: usize, hi: usize) -> (r: bool)
    requires
        lo <= hi <= v.len(),
    ensures
        r == is_exponent(v@.subrange(lo as int, hi as int)),
{
    let a = if lo < hi && (v[lo] == '+' || v[lo] == '-') {
        lo + 1
    } else {
        lo
    };
    assert(unsigned_part(v@.subrange(lo as int, hi as int)) =~= v@.subrange(a as int, hi as int));
    a < hi && all_digits_in(v, a, hi)
}

fn is_number_in(v: &Vec<char>, lo: usize, hi: usize) -> (r: bool)
    requires
        lo <= hi <= v.len(),
    ensures
        r == is_number(v@.subrange(lo as int, hi as int)),
{
    let ghost s = v@.subrange(lo as int, hi as int);
    let mut k: usize = lo;
    while k < hi && v[k] != 'e' && v[k] != 'E'
        invariant
            lo <= k <= hi <= v.len(),
            s == v@.subrange(lo as int, hi as int),
            find_exp_from(s, 0) == find_exp_from(s, k - lo),
        decreases hi - k,
    {
        k = k + 1;
    }
    if k == hi {
        is_mantissa_in(v, lo, hi)
    } else {
        assert(s.subrange(0, k - lo) =~= v@.subrange(lo as int, k as int));
        assert(s.subrange(k - lo + 1, s.len() as int) =~= v@.subrange(k + 1, hi as int));
        is_mantissa_in(v, lo, k) && is_exponent_in(v, k + 1, hi)
    }
}

/// Whether `v[lo..hi]` is floating-point text.
pub fn is_float_text_in(v: &Vec<char>, lo: usize, hi: usize) -> (r: bool)
    requires
        lo <= hi <= v.len(),
    ensures
        r == is_float_text(v@.subrange(lo as int, hi as int)),
{
    let a = if lo < hi && (v[lo] == '+' || v[lo] == '-') {
        lo + 1
    } else {
        lo
    };
    assert(unsigned_part(v@.subrange(lo as int, hi as int)) =~= v@.subrange(a as int, hi as int));
    is_special_word_in(v, a, hi) || is_number_in(v, a, hi)
}

} // verus!
