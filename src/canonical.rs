//! The canonical text of a value, and what decoding does with it: digit text
//! gives its integer, `f` and floating-point text its float, quoted text its
//! string, and the canonical text of any value gives that value back.
use vstd::prelude::*;
use crate::error::ErrorModel;
use crate::float::{
    find_exp_from, is_exp_mark, is_float_text, is_mantissa, is_special_word, spells, unsigned_part,
};
use crate::text::{
    all_digits, digit_value, digits_value, find, is_digit, is_ws, lemma_find_from_bounds,
    lemma_trim_unchanged, rfind, trim, trim_end, trim_start,
};
use crate::value::{Literal, decode, decode_elems, elem_end, lemma_elem_end_bounds};

verus! {

pub open spec fn digit_char(d: nat) -> char {
    seq!['0', '1', '2', '3', '4', '5', '6', '7', '8', '9'][d as int]
}

/// The decimal digits of `n`, without leading zeros.
pub open spec fn decimal(n: nat) -> Seq<char>
    decreases n,
{
    if n < 10 {
        seq![digit_char(n)]
    } else {
        decimal(n / 10) + seq![digit_char(n % 10)]
    }
}

/// A value that has a canonical text: integers that fit a `usize`, floats
/// whose text `f64::from_str` accepts, and strings without a quote.
pub open spec fn well_formed(v: Literal) -> bool
    decreases v,
{
    match v {
        Literal::Integer(n) => n <= usize::MAX,
        Literal::Float(s) => is_float_text(s),
        Literal::Str(s) => forall|i: int| 0 <= i < s.len() ==> s[i] != '"',
        Literal::Array(vs) => forall|i: int| 0 <= i < vs.len() ==> well_formed(#[trigger] vs[i]),
    }
}

/// The canonical text of a value: decimal digits, `f` before the float's
/// text, a string in quotes, an array's elements in brackets and separated by
/// commas.
pub open spec fn render(v: Literal) -> Seq<char>
    decreases v, 0nat,
{
    match v {
        Literal::Integer(n) => decimal(n),
        Literal::Float(s) => seq!['f'] + s,
        Literal::Str(s) => seq!['"'] + s + seq!['"'],
        Literal::Array(vs) => seq!['['] + join(vs) + seq![']'],
    }
}

/// The canonical texts of `vs`, separated by commas.
pub open spec fn join(vs: Seq<Literal>) -> Seq<char>
    decreases vs, vs.len(),
{
    if vs.len() == 0 {
        Seq::empty()
    } else if vs.len() == 1 {
        render(vs[0])
    } else {
        render(vs[0]) + seq![','] + join(vs.subrange(1, vs.len() as int))
    }
}

proof fn lemma_decimal(n: nat)
    ensures
        decimal(n).len() > 0,
        all_digits(decimal(n)),
        digits_value(decimal(n)) == n,
    decreases n,
{
    let ds = seq!['0', '1', '2', '3', '4', '5', '6', '7', '8', '9'];
    assert(forall|d: nat| d < 10 ==> is_digit(#[trigger] digit_char(d)) && digit_value(digit_char(d)) == d) by {
        assert forall|d: nat| d < 10 implies is_digit(#[trigger] digit_char(d)) && digit_value(
            digit_char(d),
        ) == d by {
            assert(digit_char(d) == ds[d as int]);
        }
    }
    if n < 10 {
        assert(decimal(n).drop_last() =~= Seq::<char>::empty());
        assert(digit_value(digit_char(n)) == n);
        assert(digits_value(Seq::<char>::empty()) == 0);
        assert(decimal(n).last() == digit_char(n));
        assert(digits_value(decimal(n)) == n);
    } else {
        lemma_decimal(n / 10);
        let d = (n % 10) as nat;
        assert(decimal(n).drop_last() =~= decimal(n / 10));
        assert(decimal(n).last() == digit_char(d));
        assert(digit_value(digit_char(d)) == d);
        assert(n / 10 * 10 + n % 10 == n) by (nonlinear_arith);
        assert(digits_value(decimal(n)) == digits_value(decimal(n / 10)) * 10 + d);
        let q = digits_value(decimal(n / 10));
        assert(q == n / 10);
        assert(q * 10 == (n / 10) * 10);
        assert(digits_value(decimal(n)) == n);
    }
}

/// Every character of floating-point text, at its ends, is not whitespace.
proof fn lemma_float_text_ends(s: Seq<char>)
    requires
        is_float_text(s),
    ensures
        s.len() > 0,
        !is_ws(s[0]),
        !is_ws(s.last()),
{
    let u = unsigned_part(s);
    assert(u.len() > 0 && !is_ws(u[0]) && !is_ws(u.last())) by {
        if is_special_word(u) {
        } else {
            let k = find_exp_from(u, 0);
            lemma_find_exp_bounds(u, 0);
            if k < 0 {
                lemma_mantissa_ends(u);
            } else {
                let m = u.subrange(0, k);
                let x = u.subrange(k + 1, u.len() as int);
                lemma_mantissa_ends(m);
                assert(u[0] == m[0]);
                let y = unsigned_part(x);
                assert(y.last() == u.last());
                assert(is_digit(y[y.len() - 1]));
            }
        }
    }
}

proof fn lemma_find_exp_bounds(s: Seq<char>, i: int)
    requires
        0 <= i <= s.len(),
    ensures
        -1 <= find_exp_from(s, i) < s.len(),
        find_exp_from(s, i) >= 0 ==> i <= find_exp_from(s, i),
        find_exp_from(s, i) >= 0 ==> is_exp_mark(s[find_exp_from(s, i)]),
    decreases s.len() - i,
{
    if i < s.len() && !(s[i] == 'e' || s[i] == 'E') {
        lemma_find_exp_bounds(s, i + 1);
    }
}

proof fn lemma_mantissa_ends(m: Seq<char>)
    requires
        is_mantissa(m),
    ensures
        m.len() > 0,
        is_digit(m[0]) || m[0] == '.',
        is_digit(m.last()) || m.last() == '.',
{
    let p = find(m, '.');
    lemma_find_from_bounds(m, '.', 0);
    if p >= 0 {
        if p > 0 {
            assert(m.subrange(0, p)[0] == m[0]);
        }
        if p < m.len() - 1 {
            let q = m.subrange(p + 1, m.len() as int);
            assert(q[q.len() - 1] == m.last());
        }
    } else {
        assert(is_digit(m[m.len() - 1]));
    }
}

/// Digit text decodes to the integer it writes, where that fits a `usize`.
pub proof fn lemma_decode_integer(n: Seq<char>)
    requires
        n.len() > 0,
        all_digits(n),
        digits_value(n) <= usize::MAX,
    ensures
        decode(n) == Ok::<Literal, ErrorModel>(Literal::Integer(digits_value(n))),
{
    assert(is_digit(n[0]) && is_digit(n[n.len() - 1]));
    lemma_trim_unchanged(n);
}

/// `f` followed by floating-point text decodes to the float that text denotes.
pub proof fn lemma_decode_float(s: Seq<char>)
    requires
        is_float_text(s),
    ensures
        decode(seq!['f'] + s) == Ok::<Literal, ErrorModel>(Literal::Float(s)),
{
    lemma_float_text_ends(s);
    let t = seq!['f'] + s;
    assert(t.last() == s.last());
    lemma_trim_unchanged(t);
    lemma_trim_unchanged(s);
    assert(t.drop_first() =~= s);
}

/// Text in quotes, with no quote inside, decodes to the string between them.
pub proof fn lemma_decode_string(s: Seq<char>)
    requires
        forall|i: int| 0 <= i < s.len() ==> s[i] != '"',
    ensures
        decode(seq!['"'] + s + seq!['"']) == Ok::<Literal, ErrorModel>(
            Literal::Str(s),
        ),
{
    let t = seq!['"'] + s + seq!['"'];
    lemma_trim_unchanged(t);
    assert(rfind(t, '"') == t.len() - 1);
    assert(t.subrange(1, t.len() - 1) =~= s);
}

/// A character that the element scanner passes over with no change of state.
pub open spec fn plain(c: char) -> bool {
    c != '"' && c != '[' && c != ']' && c != ','
}

pub open spec fn all_plain(s: Seq<char>) -> bool {
    forall|k: int| 0 <= k < s.len() ==> #[trigger] plain(s[k])
}

proof fn lemma_digits_plain(s: Seq<char>)
    requires
        all_digits(s),
    ensures
        all_plain(s),
{
    assert forall|k: int| 0 <= k < s.len() implies #[trigger] plain(s[k]) by {
        assert(is_digit(s[k]));
    }
}

proof fn lemma_concat_plain(a: Seq<char>, b: Seq<char>)
    requires
        all_plain(a),
        all_plain(b),
    ensures
        all_plain(a + b),
{
    assert forall|k: int| 0 <= k < (a + b).len() implies #[trigger] plain((a + b)[k]) by {
        if k < a.len() {
            assert((a + b)[k] == a[k]);
        } else {
            assert((a + b)[k] == b[k - a.len()]);
        }
    }
}

proof fn lemma_mantissa_plain(m: Seq<char>)
    requires
        is_mantissa(m),
    ensures
        all_plain(m),
{
    let p = find(m, '.');
    lemma_find_from_bounds(m, '.', 0);
    if p < 0 {
        lemma_digits_plain(m);
    } else {
        let a = m.subrange(0, p);
        let b = m.subrange(p + 1, m.len() as int);
        lemma_digits_plain(a);
        lemma_digits_plain(b);
        lemma_concat_plain(a, seq!['.']);
        lemma_concat_plain(a + seq!['.'], b);
        assert(a + seq!['.'] + b =~= m);
    }
}

proof fn lemma_signed_plain(x: Seq<char>)
    requires
        all_plain(unsigned_part(x)),
    ensures
        all_plain(x),
{
    if x.len() > 0 && (x[0] == '+' || x[0] == '-') {
        lemma_concat_plain(seq![x[0]], x.drop_first());
        assert(seq![x[0]] + x.drop_first() =~= x);
    }
}

proof fn lemma_spells_plain(s: Seq<char>, lw: Seq<char>, uw: Seq<char>)
    requires
        spells(s, lw, uw),
        lw.len() == uw.len(),
        all_plain(lw),
        all_plain(uw),
    ensures
        all_plain(s),
{
    assert forall|k: int| 0 <= k < s.len() implies #[trigger] plain(s[k]) by {
        assert(plain(lw[k]) && plain(uw[k]));
    }
}

/// Floating-point text holds no quote, bracket or comma.
proof fn lemma_float_text_plain(s: Seq<char>)
    requires
        is_float_text(s),
    ensures
        all_plain(s),
{
    let u = unsigned_part(s);
    if is_special_word(u) {
        let w1 = seq!['i', 'n', 'f'];
        let w2 = seq!['I', 'N', 'F'];
        let w3 = seq!['i', 'n', 'f', 'i', 'n', 'i', 't', 'y'];
        let w4 = seq!['I', 'N', 'F', 'I', 'N', 'I', 'T', 'Y'];
        let w5 = seq!['n', 'a', 'n'];
        let w6 = seq!['N', 'A', 'N'];
        assert(all_plain(w1) && all_plain(w2) && all_plain(w3) && all_plain(w4) && all_plain(w5)
            && all_plain(w6)) by {
            assert forall|k: int| 0 <= k < 8 implies plain(#[trigger] w3[k]) && plain(w4[k]) by {}
            assert forall|k: int| 0 <= k < 3 implies plain(#[trigger] w1[k]) && plain(w2[k]) && plain(
                w5[k],
            ) && plain(w6[k]) by {}
        }
        if spells(u, w1, w2) {
            lemma_spells_plain(u, w1, w2);
        } else if spells(u, w3, w4) {
            lemma_spells_plain(u, w3, w4);
        } else {
            lemma_spells_plain(u, w5, w6);
        }
    } else {
        let k = find_exp_from(u, 0);
        lemma_find_exp_bounds(u, 0);
        if k < 0 {
            lemma_mantissa_plain(u);
        } else {
            let m = u.subrange(0, k);
            let x = u.subrange(k + 1, u.len() as int);
            lemma_mantissa_plain(m);
            lemma_digits_plain(unsigned_part(x));
            lemma_signed_plain(x);
            assert(all_plain(seq![u[k]])) by {
                assert(seq![u[k]][0] == u[k]);
            }
            lemma_concat_plain(m, seq![u[k]]);
            lemma_concat_plain(m + seq![u[k]], x);
            assert(m + seq![u[k]] + x =~= u);
        }
    }
    lemma_signed_plain(s);
}

proof fn lemma_scan_plain(s: Seq<char>, i: int, j: int, depth: nat)
    requires
        0 <= i <= j <= s.len(),
        forall|k: int| i <= k < j ==> plain(s[k]),
    ensures
        elem_end(s, i, depth, false) == elem_end(s, j, depth, false),
    decreases j - i,
{
    if i < j {
        lemma_scan_plain(s, i + 1, j, depth);
    }
}

proof fn lemma_scan_quoted(s: Seq<char>, i: int, j: int, depth: nat)
    requires
        0 <= i <= j <= s.len(),
        forall|k: int| i <= k < j ==> s[k] != '"',
    ensures
        elem_end(s, i, depth, true) == elem_end(s, j, depth, true),
    decreases j - i,
{
    if i < j {
        lemma_scan_quoted(s, i + 1, j, depth);
    }
}

/// The scanner passes over the canonical text of a value at any depth.
proof fn lemma_scan_render(s: Seq<char>, i: int, v: Literal, depth: nat)
    requires
        well_formed(v),
        0 <= i,
        i + render(v).len() <= s.len(),
        s.subrange(i, i + render(v).len()) == render(v),
    ensures
        elem_end(s, i, depth, false) == elem_end(s, i + render(v).len(), depth, false),
    decreases v, 0nat,
{
    let r = render(v);
    let n = r.len() as int;
    assert forall|k: int| 0 <= k < n implies s[i + k] == r[k] by {
        assert(s.subrange(i, i + n)[k] == s[i + k]);
    }
    match v {
        Literal::Integer(x) => {
            lemma_decimal(x);
            lemma_digits_plain(r);
            assert forall|k: int| i <= k < i + n implies plain(s[k]) by {
                assert(s[i + (k - i)] == r[k - i]);
            }
            lemma_scan_plain(s, i, i + n, depth);
        },
        Literal::Float(x) => {
            lemma_float_text_plain(x);
            lemma_concat_plain(seq!['f'], x);
            assert forall|k: int| i <= k < i + n implies plain(s[k]) by {
                assert(s[i + (k - i)] == r[k - i]);
            }
            lemma_scan_plain(s, i, i + n, depth);
        },
        Literal::Str(x) => {
            assert(s[i] == r[0]);
            assert forall|k: int| i + 1 <= k < i + n - 1 implies s[k] != '"' by {
                assert(s[i + (k - i)] == r[k - i]);
                assert(r[k - i] == x[k - i - 1]);
            }
            lemma_scan_quoted(s, i + 1, i + n - 1, depth);
            assert(s[i + n - 1] == r[n - 1]);
        },
        Literal::Array(vs) => {
            let j = join(vs);
            assert(s[i] == r[0]);
            assert(s.subrange(i + 1, i + 1 + j.len()) =~= j) by {
                assert forall|k: int| 0 <= k < j.len() implies s.subrange(i + 1, i + 1 + j.len())[k]
                    == j[k] by {
                    assert(s[i + (k + 1)] == r[k + 1]);
                }
            }
            lemma_scan_join(s, i + 1, vs, depth + 1);
            assert(s[i + n - 1] == r[n - 1]);
        },
    }
}

/// The scanner passes over the joined canonical texts of values, inside
/// brackets.
proof fn lemma_scan_join(s: Seq<char>, i: int, vs: Seq<Literal>, depth: nat)
    requires
        depth > 0,
        forall|k: int| 0 <= k < vs.len() ==> well_formed(#[trigger] vs[k]),
        0 <= i,
        i + join(vs).len() <= s.len(),
        s.subrange(i, i + join(vs).len()) == join(vs),
    ensures
        elem_end(s, i, depth, false) == elem_end(s, i + join(vs).len(), depth, false),
    decreases vs, vs.len(),
{
    if vs.len() > 0 {
        let r0 = render(vs[0]);
        let j = join(vs);
        assert(s.subrange(i, i + r0.len()) =~= r0) by {
            assert forall|k: int| 0 <= k < r0.len() implies s.subrange(i, i + r0.len())[k] == r0[k] by {
                assert(s.subrange(i, i + j.len())[k] == s[i + k]);
                assert(j[k] == r0[k]);
            }
        }
        lemma_scan_render(s, i, vs[0], depth);
        if vs.len() > 1 {
            let rest = vs.subrange(1, vs.len() as int);
            let jr = join(rest);
            assert(s[i + r0.len()] == ',') by {
                assert(s.subrange(i, i + j.len())[r0.len() as int] == s[i + r0.len()]);
            }
            assert(s.subrange(i + r0.len() + 1, i + r0.len() + 1 + jr.len()) =~= jr) by {
                assert forall|k: int| 0 <= k < jr.len() implies s.subrange(
                    i + r0.len() + 1,
                    i + r0.len() + 1 + jr.len(),
                )[k] == jr[k] by {
                    assert(s.subrange(i, i + j.len())[r0.len() + 1 + k] == s[i + r0.len() + 1 + k]);
                    assert(j[r0.len() + 1 + k] == jr[k]);
                }
            }
            assert forall|k: int| 0 <= k < rest.len() implies well_formed(#[trigger] rest[k]) by {
                assert(rest[k] == vs[k + 1]);
            }
            lemma_scan_join(s, i + r0.len() + 1, rest, depth);
        }
    }
}

proof fn lemma_elem_end_shift(p: Seq<char>, b: Seq<char>, k: int, depth: nat, quoted: bool)
    requires
        0 <= k <= b.len(),
    ensures
        elem_end(p + b, p.len() + k, depth, quoted) == p.len() + elem_end(b, k, depth, quoted),
    decreases b.len() - k,
{
    if k < b.len() {
        let c = b[k];
        assert((p + b)[p.len() + k] == c);
        if quoted {
            lemma_elem_end_shift(p, b, k + 1, depth, c != '"');
        } else if c == '"' {
            lemma_elem_end_shift(p, b, k + 1, depth, true);
        } else if c == '[' {
            lemma_elem_end_shift(p, b, k + 1, depth + 1, false);
        } else if c == ']' {
            lemma_elem_end_shift(p, b, k + 1, if depth > 0 { (depth - 1) as nat } else { 0 }, false);
        } else if c == ',' && depth == 0 {
        } else {
            lemma_elem_end_shift(p, b, k + 1, depth, false);
        }
    }
}

proof fn lemma_decode_elems_shift(p: Seq<char>, b: Seq<char>, k: int)
    requires
        0 <= k <= b.len(),
    ensures
        decode_elems(p + b, p.len() + k) == decode_elems(b, k),
    decreases b.len() - k,
{
    let e = elem_end(b, k, 0, false);
    lemma_elem_end_shift(p, b, k, 0, false);
    lemma_elem_end_bounds(b, k, 0, false);
    assert((p + b).subrange(p.len() + k, p.len() + e) =~= b.subrange(k, e));
    if e < b.len() {
        lemma_decode_elems_shift(p, b, e + 1);
    }
}

proof fn lemma_render_ends(v: Literal)
    requires
        well_formed(v),
    ensures
        render(v).len() > 0,
        !is_ws(render(v)[0]),
        !is_ws(render(v).last()),
{
    match v {
        Literal::Integer(n) => {
            lemma_decimal(n);
            assert(is_digit(decimal(n)[0]) && is_digit(decimal(n)[decimal(n).len() - 1]));
        },
        Literal::Float(x) => {
            lemma_float_text_ends(x);
            assert(render(v).last() == x.last());
        },
        Literal::Str(x) => {},
        Literal::Array(vs) => {},
    }
}

proof fn lemma_trim_end_keeps(s: Seq<char>)
    requires
        s.len() > 0,
        !is_ws(s[0]),
    ensures
        trim_end(s).len() > 0,
    decreases s.len(),
{
    if s.len() > 1 && is_ws(s.last()) {
        lemma_trim_end_keeps(s.drop_last());
    }
}

proof fn lemma_decode_join(vs: Seq<Literal>)
    requires
        vs.len() > 0,
        forall|k: int| 0 <= k < vs.len() ==> well_formed(#[trigger] vs[k]),
    ensures
        decode_elems(join(vs), 0) == Ok::<Seq<Literal>, ErrorModel>(vs),
    decreases vs, vs.len(),
{
    let s = join(vs);
    let r0 = render(vs[0]);
    lemma_round_trip(vs[0]);
    if vs.len() == 1 {
        assert(s.subrange(0, r0.len() as int) =~= r0);
        lemma_scan_render(s, 0, vs[0], 0);
        assert(seq![vs[0]] =~= vs);
    } else {
        let rest = vs.subrange(1, vs.len() as int);
        let head = r0 + seq![','];
        assert(s =~= head + join(rest));
        assert(s.subrange(0, r0.len() as int) =~= r0);
        lemma_scan_render(s, 0, vs[0], 0);
        assert(s[r0.len() as int] == ',');
        assert forall|k: int| 0 <= k < rest.len() implies well_formed(#[trigger] rest[k]) by {
            assert(rest[k] == vs[k + 1]);
        }
        lemma_decode_join(rest);
        lemma_decode_elems_shift(head, join(rest), 0);
        assert(seq![vs[0]] + rest =~= vs);
    }
}

/// Decoding the canonical text of a value gives the value back, for every
/// value that has a canonical text.
pub proof fn lemma_round_trip(v: Literal)
    requires
        well_formed(v),
    ensures
        decode(render(v)) == Ok::<Literal, ErrorModel>(v),
    decreases v, 0nat,
{
    match v {
        Literal::Integer(n) => {
            lemma_decimal(n);
            lemma_decode_integer(decimal(n));
        },
        Literal::Float(x) => {
            lemma_decode_float(x);
        },
        Literal::Str(x) => {
            lemma_decode_string(x);
        },
        Literal::Array(vs) => {
            let t = render(v);
            lemma_trim_unchanged(t);
            assert(rfind(t, ']') == t.len() - 1);
            let inner = t.subrange(1, t.len() - 1);
            assert(inner =~= join(vs));
            if vs.len() == 0 {
                assert(vs =~= Seq::<Literal>::empty());
                assert(trim(inner).len() == 0);
            } else {
                lemma_render_ends(vs[0]);
                if vs.len() > 1 {
                    assert(join(vs)[0] == render(vs[0])[0]);
                }
                assert(trim_start(inner) == inner);
                lemma_trim_end_keeps(inner);
                lemma_decode_join(vs);
            }
        },
    }
}

} // verus!
