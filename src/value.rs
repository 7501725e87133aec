//! Literal values: integers, floating-point text, quoted strings and nested
//! arrays, and their decoder.
use vstd::prelude::*;
use crate::error::{ErrorKind, ErrorModel, ParseError, failure, fail};
use crate::float::{is_float_text, is_float_text_in};
use crate::text::{
    chars_of, is_digit, is_digit_char, lemma_rfind_before_bounds, lemma_trim_len, parse_usize,
    parse_usize_range, rfind, rfind_in, trim, trim_range,
};

verus! {

broadcast use vstd::std_specs::vec::group_vec_axioms;

/// A decoded literal value.
#[derive(Debug, PartialEq)]
pub enum TypeVar {
    Integer(usize),
    /// A floating-point number, held as the text that denotes it, which
    /// `f64::from_str` accepts.
    Float(String),
    String(String),
    Array(Vec<TypeVar>),
}

/// The mathematical model of a literal value.
pub enum Literal {
    Integer(nat),
    Float(Seq<char>),
    Str(Seq<char>),
    Array(Seq<Literal>),
}

/// The model of a value.
pub open spec fn model(x: TypeVar) -> Literal
    decreases x,
{
    match x {
        TypeVar::Integer(n) => Literal::Integer(n as nat),
        TypeVar::Float(s) => Literal::Float(s@),
        TypeVar::String(s) => Literal::Str(s@),
        TypeVar::Array(v) => Literal::Array(
            Seq::new(v@.len(), |i: int| if 0 <= i < v.len() { model(v[i]) } else { Literal::Integer(0) }),
        ),
    }
}

impl View for TypeVar {
    type V = Literal;

    open spec fn view(&self) -> Literal {
        model(*self)
    }
}

/// The models of a sequence of values.
pub open spec fn literals(v: Seq<TypeVar>) -> Seq<Literal> {
    Seq::new(v.len(), |i: int| v[i]@)
}

pub proof fn lemma_array_view(v: Vec<TypeVar>)
    ensures
        TypeVar::Array(v)@ == Literal::Array(literals(v@)),
{
    let a = TypeVar::Array(v);
    let s = a@->Array_0;
    assert(s.len() == v.len());
    assert forall|i: int| 0 <= i < v.len() implies s[i] == v[i]@ by {}
    assert(s =~= literals(v@));
}

pub open spec fn value_result(r: Result<TypeVar, ParseError>) -> Result<Literal, ErrorModel> {
    match r {
        Ok(v) => Ok(v@),
        Err(e) => Err(e@),
    }
}

pub open spec fn list_result(r: Result<Vec<TypeVar>, ParseError>) -> Result<Seq<Literal>, ErrorModel> {
    match r {
        Ok(v) => Ok(literals(v@)),
        Err(e) => Err(e@),
    }
}

/// Where the element of a list that starts at `i` ends: at the first comma
/// outside quotes and at bracket depth zero, or at the end of the text.
pub open spec fn elem_end(s: Seq<char>, i: int, depth: nat, quoted: bool) -> int
    decreases s.len() - i,
{
    if i < 0 || i >= s.len() {
        s.len() as int
    } else if quoted {
        elem_end(s, i + 1, depth, s[i] != '"')
    } else if s[i] == '"' {
        elem_end(s, i + 1, depth, true)
    } else if s[i] == '[' {
        elem_end(s, i + 1, depth + 1, false)
    } else if s[i] == ']' {
        elem_end(s, i + 1, if depth > 0 { (depth - 1) as nat } else { 0 }, false)
    } else if s[i] == ',' && depth == 0 {
        i
    } else {
        elem_end(s, i + 1, depth, false)
    }
}

pub proof fn lemma_elem_end_bounds(s: Seq<char>, i: int, depth: nat, quoted: bool)
    requires
        0 <= i <= s.len(),
    ensures
        i <= elem_end(s, i, depth, quoted) <= s.len(),
        elem_end(s, i, depth, quoted) < s.len() ==> s[elem_end(s, i, depth, quoted)] == ',',
    decreases s.len() - i,
{
    if i < s.len() {
        if quoted {
            lemma_elem_end_bounds(s, i + 1, depth, s[i] != '"');
        } else if s[i] == '"' {
            lemma_elem_end_bounds(s, i + 1, depth, true);
        } else if s[i] == '[' {
            lemma_elem_end_bounds(s, i + 1, depth + 1, false);
        } else if s[i] == ']' {
            lemma_elem_end_bounds(s, i + 1, if depth > 0 { (depth - 1) as nat } else { 0 }, false);
        } else if s[i] == ',' && depth == 0 {
        } else {
            lemma_elem_end_bounds(s, i + 1, depth, false);
        }
    }
}

/// The value that `s` denotes, or why it denotes none.
///
/// The text is trimmed; its first character picks the grammar: `"` a string
/// up to the last quote, `f` floating-point text, `[` an array up to the last
/// closing bracket whose elements are split at top-level commas, a digit an
/// unsigned number.
pub open spec fn decode(s: Seq<char>) -> Result<Literal, ErrorModel>
    decreases s.len(), 0int,
{
    let t = trim(s);
    if t.len() == 0 {
        Err(failure(ErrorKind::EmptyInput, t))
    } else if t[0] == '"' {
        let q = rfind(t, '"');
        if q <= 0 {
            Err(failure(ErrorKind::UnterminatedString, t))
        } else {
            Ok(Literal::Str(t.subrange(1, q)))
        }
    } else if t[0] == 'f' {
        let x = trim(t.drop_first());
        if is_float_text(x) {
            Ok(Literal::Float(x))
        } else {
            Err(failure(ErrorKind::MalformedFloat, t))
        }
    } else if t[0] == '[' {
        let b = rfind(t, ']');
        if b <= 0 {
            Err(failure(ErrorKind::UnterminatedArray, t))
        } else {
            let inner = t.subrange(1, b);
            if trim(inner).len() == 0 {
                Ok(Literal::Array(Seq::empty()))
            } else {
                proof {
                    lemma_trim_len(s);
                    lemma_rfind_before_bounds(t, ']', t.len() as int);
                }
                match decode_elems(inner, 0) {
                    Ok(vs) => Ok(Literal::Array(vs)),
                    Err(e) => Err(e),
                }
            }
        }
    } else if is_digit(t[0]) {
        match parse_usize(t) {
            Some(n) => Ok(Literal::Integer(n)),
            None => Err(failure(ErrorKind::MalformedInteger, t)),
        }
    } else {
        Err(failure(ErrorKind::UnrecognizedLiteral, t))
    }
}

/// The values of the elements of `s` from position `i` on; the first element
/// that fails decides the error.
pub open spec fn decode_elems(s: Seq<char>, i: int) -> Result<Seq<Literal>, ErrorModel>
    decreases s.len(), s.len() - i + 1,
{
    if i < 0 || i > s.len() {
        Ok(Seq::empty())
    } else {
        let e = elem_end(s, i, 0, false);
        proof {
            lemma_elem_end_bounds(s, i, 0, false);
        }
        match decode(s.subrange(i, e)) {
            Err(x) => Err(x),
            Ok(v) => if e >= s.len() {
                Ok(seq![v])
            } else {
                match decode_elems(s, e + 1) {
                    Ok(vs) => Ok(seq![v] + vs),
                    Err(x) => Err(x),
                }
            },
        }
    }
}

/// The values of the elements of a list, split at top-level commas, as
/// `decode_elems`; an empty or blank list has none.
pub open spec fn decode_list(s: Seq<char>) -> Result<Seq<Literal>, ErrorModel> {
    if trim(s).len() == 0 {
        Ok(Seq::empty())
    } else {
        decode_elems(s, 0)
    }
}

pub open spec fn prepend(p: Seq<Literal>, r: Result<Seq<Literal>, ErrorModel>) -> Result<
    Seq<Literal>,
    ErrorModel,
> {
    match r {
        Ok(vs) => Ok(p + vs),
        Err(x) => Err(x),
    }
}

/// The end of the element of `v` that starts at `i`.
fn elem_end_in(v: &Vec<char>, i: usize) -> (e: usize)
    requires
        i <= v.len(),
    ensures
        e == elem_end(v@, i as int, 0, false),
{
    let mut j: usize = i;
    let mut depth: usize = 0;
    let mut quoted: bool = false;
    while j < v.len()
        invariant
            i <= j <= v.len(),
            depth <= j - i,
            elem_end(v@, i as int, 0, false) == elem_end(v@, j as int, depth as nat, quoted),
        decreases v.len() - j,
    {
        let c = v[j];
        if quoted {
            quoted = c != '"';
        } else if c == '"' {
            quoted = true;
        } else if c == '[' {
            depth = depth + 1;
        } else if c == ']' {
            if depth > 0 {
                depth = depth - 1;
            }
        } else if c == ',' && depth == 0 {
            return j;
        }
        j = j + 1;
    }
    j
}

/// Decodes the elements of a list; see `decode_elems`.
fn decode_elements(s: &str) -> (r: Result<Vec<TypeVar>, ParseError>)
    ensures
        list_result(r) == decode_elems(s@, 0),
    decreases s@.len(), 1int,
{
    let v = chars_of(s);
    let n = v.len();
    let mut out: Vec<TypeVar> = Vec::new();
    let mut i: usize = 0;
    loop
        invariant
            i <= n == v.len(),
            v@ == s@,
            decode_elems(s@, 0) == prepend(literals(out@), decode_elems(s@, i as int)),
        decreases n - i,
    {
        let e = elem_end_in(&v, i);
        proof {
            lemma_elem_end_bounds(v@, i as int, 0, false);
        }
        let piece = s.substring_char(i, e);
        match decode_text(piece) {
            Err(x) => {
                return Err(x);
            },
            Ok(val) => {
                let ghost before = out@;
                out.push(val);
                assert(literals(out@) =~= literals(before) + seq![val@]);
                if e >= n {
                    return Ok(out);
                }
                assert(prepend(literals(before), decode_elems(s@, i as int)) == prepend(
                    literals(out@),
                    decode_elems(s@, e + 1),
                )) by {
                    match decode_elems(s@, e + 1) {
                        Ok(vs) => {
                            assert(literals(before) + (seq![val@] + vs) =~= literals(out@) + vs);
                        },
                        Err(_) => {},
                    }
                }
                i = e + 1;
            },
        }
    }
}

/// Decodes the value that `s` denotes; see `decode`.
pub fn decode_text(s: &str) -> (r: Result<TypeVar, ParseError>)
    ensures
        value_result(r) == decode(s@),
    decreases s@.len(), 0int,
{
    let v = chars_of(s);
    let n = v.len();
    let (a, b) = trim_range(&v, 0, n);
    let ghost t = trim(s@);
    assert(v@.subrange(0, n as int) =~= v@);
    assert(t == v@.subrange(a as int, b as int));
    let whole = s.substring_char(a, b);
    if a == b {
        return Err(fail(ErrorKind::EmptyInput, whole));
    }
    let first = v[a];
    assert(t[0] == first);
    proof {
        lemma_rfind_before_bounds(t, '"', t.len() as int);
        lemma_rfind_before_bounds(t, ']', t.len() as int);
    }
    if first == '"' {
        let q = rfind_in(&v, a, b, '"');
        if q == a {
            Err(fail(ErrorKind::UnterminatedString, whole))
        } else {
            assert(t.subrange(1, q - a) =~= v@.subrange(a + 1, q as int));
            Ok(TypeVar::String(s.substring_char(a + 1, q).to_owned()))
        }
    } else if first == 'f' {
        let (c, d) = trim_range(&v, a + 1, b);
        assert(t.drop_first() =~= v@.subrange(a + 1, b as int));
        if is_float_text_in(&v, c, d) {
            Ok(TypeVar::Float(s.substring_char(c, d).to_owned()))
        } else {
            Err(fail(ErrorKind::MalformedFloat, whole))
        }
    } else if first == '[' {
        let q = rfind_in(&v, a, b, ']');
        if q == b {
            Err(fail(ErrorKind::UnterminatedArray, whole))
        } else {
            let (c, d) = trim_range(&v, a + 1, q);
            assert(t.subrange(1, q - a) =~= v@.subrange(a + 1, q as int));
            if c == d {
                let empty: Vec<TypeVar> = Vec::new();
                proof {
                    lemma_array_view(empty);
                }
                assert(literals(empty@) =~= Seq::<Literal>::empty());
                Ok(TypeVar::Array(empty))
            } else {
                let inner = s.substring_char(a + 1, q);
                match decode_elements(inner) {
                    Ok(items) => {
                        let r = TypeVar::Array(items);
                        proof {
                            lemma_array_view(items);
                        }
                        Ok(r)
                    },
                    Err(x) => Err(x),
                }
            }
        }
    } else if is_digit_char(first) {
        match parse_usize_range(&v, a, b) {
            Some(k) => Ok(TypeVar::Integer(k)),
            None => Err(fail(ErrorKind::MalformedInteger, whole)),
        }
    } else {
        Err(fail(ErrorKind::UnrecognizedLiteral, whole))
    }
}

/// Decodes the elements of a list; see `decode_list`.
pub fn decode_list_text(s: &str) -> (r: Result<Vec<TypeVar>, ParseError>)
    ensures
        list_result(r) == decode_list(s@),
{
    let v = chars_of(s);
    let (c, d) = trim_range(&v, 0, v.len());
    assert(v@.subrange(0, v@.len() as int) =~= s@);
    if c == d {
        let empty: Vec<TypeVar> = Vec::new();
        assert(literals(empty@) =~= Seq::<Literal>::empty());
        Ok(empty)
    } else {
        decode_elements(s)
    }
}

impl TypeVar {
    /// Decodes a literal value from its text.
    pub fn parse_type_var(content: String) -> (r: Result<TypeVar, ParseError>)
        ensures
            value_result(r) == decode(content@),
    {
        decode_text(content.as_str())
    }
}

} // verus!
