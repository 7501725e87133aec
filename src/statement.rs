//! Statements: comments, assignments and method calls, and the classifier
//! that tells them apart.
//!
//! The grammar, over the trimmed statement text:
//!
//! ```text
//! Comment    ::= '#' Text
//! Call       ::= Name '(' Args ')'
//! Statement  ::= Comment | Call | Ident '=' Call | Ident '=' Value
//! ```
//!
//! A text is taken as a call when the part before its first `(` is an
//! identifier or blank; `Args` is a list of values split at top-level commas,
//! with no parenthesis outside quotes.
use vstd::prelude::*;
use crate::error::{ErrorKind, ErrorModel, ParseError, failure, fail};
use crate::text::{
    chars_of, find, find_in, is_digit, is_digit_char, lemma_find_from_bounds, trim, trim_range,
};
use crate::value::{
    Literal, TypeVar, decode, decode_list, decode_list_text, decode_text,
    literals,
};

verus! {

/// A value bound to a variable.
#[derive(Debug, PartialEq)]
pub struct Assignment {
    pub var_name: String,
    pub value: TypeVar,
}

/// A call of a method on values, its result bound to `ret` where given (the
/// bound variable's name, held as a string value).
#[derive(Debug, PartialEq)]
pub struct MethodCall {
    pub method_name: String,
    pub args: Vec<TypeVar>,
    pub ret: Option<TypeVar>,
}

/// What a line says.
#[derive(Debug, PartialEq)]
pub enum LineContent {
    Comment(String),
    Assignment(Assignment),
    MethodCall(MethodCall),
}

pub struct AssignmentModel {
    pub name: Seq<char>,
    pub value: Literal,
}

pub struct CallModel {
    pub name: Seq<char>,
    pub args: Seq<Literal>,
    pub ret: Option<Literal>,
}

pub enum ContentModel {
    Comment(Seq<char>),
    Assignment(AssignmentModel),
    MethodCall(CallModel),
}

impl View for Assignment {
    type V = AssignmentModel;

    open spec fn view(&self) -> AssignmentModel {
        AssignmentModel { name: self.var_name@, value: self.value@ }
    }
}

impl View for MethodCall {
    type V = CallModel;

    open spec fn view(&self) -> CallModel {
        CallModel {
            name: self.method_name@,
            args: literals(self.args@),
            ret: match self.ret {
                Some(v) => Some(v@),
                None => None,
            },
        }
    }
}

impl View for LineContent {
    type V = ContentModel;

    open spec fn view(&self) -> ContentModel {
        match self {
            LineContent::Comment(s) => ContentModel::Comment(s@),
            LineContent::Assignment(a) => ContentModel::Assignment(a@),
            LineContent::MethodCall(m) => ContentModel::MethodCall(m@),
        }
    }
}

pub open spec fn assignment_result(r: Result<Assignment, ParseError>) -> Result<
    AssignmentModel,
    ErrorModel,
> {
    match r {
        Ok(a) => Ok(a@),
        Err(e) => Err(e@),
    }
}

pub open spec fn call_result(r: Result<MethodCall, ParseError>) -> Result<CallModel, ErrorModel> {
    match r {
        Ok(m) => Ok(m@),
        Err(e) => Err(e@),
    }
}

pub open spec fn content_result(r: Result<LineContent, ParseError>) -> Result<
    ContentModel,
    ErrorModel,
> {
    match r {
        Ok(c) => Ok(c@),
        Err(e) => Err(e@),
    }
}

pub open spec fn is_ident_start(c: char) -> bool {
    ('a' <= c && c <= 'z') || ('A' <= c && c <= 'Z') || c == '_'
}

pub open spec fn is_ident_char(c: char) -> bool {
    is_ident_start(c) || is_digit(c)
}

/// A letter or underscore, then letters, digits and underscores.
pub open spec fn is_identifier(s: Seq<char>) -> bool {
    &&& s.len() > 0
    &&& is_ident_start(s[0])
    &&& forall|i: int| 1 <= i < s.len() ==> #[trigger] is_ident_char(s[i])
}

/// The text has an opening parenthesis, and before the first one stands an
/// identifier or nothing but whitespace.
pub open spec fn is_call_shaped(u: Seq<char>) -> bool {
    let p = find(u, '(');
    p >= 0 && (trim(u.subrange(0, p)).len() == 0 || is_identifier(trim(u.subrange(0, p))))
}

/// Some parenthesis stands in `s` from position `i` on outside quotes, where
/// `quoted` says whether a quote is open at `i`.
pub open spec fn bare_paren_from(s: Seq<char>, i: int, quoted: bool) -> bool
    decreases s.len() - i,
{
    if i < 0 || i >= s.len() {
        false
    } else if quoted {
        bare_paren_from(s, i + 1, s[i] != '"')
    } else if s[i] == '"' {
        bare_paren_from(s, i + 1, true)
    } else if s[i] == '(' || s[i] == ')' {
        true
    } else {
        bare_paren_from(s, i + 1, false)
    }
}

/// The call that the trimmed text `u` writes, with the result bound to `ret`:
/// a name, then arguments between the first `(` and a final `)` with no other
/// parenthesis outside quotes.
pub open spec fn decode_call(u: Seq<char>, ret: Option<Literal>) -> Result<CallModel, ErrorModel> {
    let p = find(u, '(');
    let name = trim(u.subrange(0, p));
    if name.len() == 0 || u.len() == 0 || u.last() != ')' || bare_paren_from(
        u.subrange(p + 1, u.len() - 1),
        0,
        false,
    ) {
        Err(failure(ErrorKind::MalformedMethodCall, u))
    } else {
        match decode_list(u.subrange(p + 1, u.len() - 1)) {
            Ok(args) => Ok(CallModel { name, args, ret }),
            Err(e) => Err(e),
        }
    }
}

/// The assignment `name = value` that `s` writes.
pub open spec fn decode_assignment(s: Seq<char>) -> Result<AssignmentModel, ErrorModel> {
    let t = trim(s);
    let e = find(t, '=');
    if e < 0 || !is_identifier(trim(t.subrange(0, e))) {
        Err(failure(ErrorKind::MalformedAssignment, t))
    } else {
        match decode(t.subrange(e + 1, t.len() as int)) {
            Ok(v) => Ok(AssignmentModel { name: trim(t.subrange(0, e)), value: v }),
            Err(x) => Err(x),
        }
    }
}

/// The method call, bound to a variable or not, that `s` writes.
pub open spec fn decode_method_call(s: Seq<char>) -> Result<CallModel, ErrorModel> {
    let t = trim(s);
    let e = find(t, '=');
    if is_call_shaped(t) {
        decode_call(t, None)
    } else if e < 0 {
        Err(failure(ErrorKind::MalformedMethodCall, t))
    } else {
        let lhs = trim(t.subrange(0, e));
        let rhs = trim(t.subrange(e + 1, t.len() as int));
        if !is_call_shaped(rhs) || !is_identifier(lhs) {
            Err(failure(ErrorKind::MalformedMethodCall, t))
        } else {
            decode_call(rhs, Some(Literal::Str(lhs)))
        }
    }
}

/// What the statement text `s` says: a comment after `#`; a call when the
/// text, or the text after its first `=`, is call-shaped; an assignment when
/// it has an `=`; else nothing known.
pub open spec fn classify(s: Seq<char>) -> Result<ContentModel, ErrorModel> {
    let t = trim(s);
    let e = find(t, '=');
    if t.len() > 0 && t[0] == '#' {
        Ok(ContentModel::Comment(t.drop_first()))
    } else if is_call_shaped(t) || (e >= 0 && is_call_shaped(
        trim(t.subrange(e + 1, t.len() as int)),
    )) {
        match decode_method_call(s) {
            Ok(m) => Ok(ContentModel::MethodCall(m)),
            Err(x) => Err(x),
        }
    } else if e >= 0 {
        match decode_assignment(s) {
            Ok(a) => Ok(ContentModel::Assignment(a)),
            Err(x) => Err(x),
        }
    } else {
        Err(failure(ErrorKind::UnrecognizedStatement, t))
    }
}

fn is_identifier_in(v: &Vec<char>, lo: usize, hi: usize) -> (r: bool)
    requires
        lo <= hi <= v.len(),
    ensures
        r == is_identifier(v@.subrange(lo as int, hi as int)),
{
    let ghost s = v@.subrange(lo as int, hi as int);
    if lo == hi {
        return false;
    }
    let c = v[lo];
    if !(('a' <= c && c <= 'z') || ('A' <= c && c <= 'Z') || c == '_') {
        return false;
    }
    let mut i: usize = lo + 1;
    while i < hi
        invariant
            lo < i <= hi <= v.len(),
            s == v@.subrange(lo as int, hi as int),
            forall|k: int| 1 <= k < i - lo ==> #[trigger] is_ident_char(s[k]),
        decreases hi - i,
    {
        let c = v[i];
        if !(('a' <= c && c <= 'z') || ('A' <= c && c <= 'Z') || c == '_' || is_digit_char(c)) {
            assert(s[i - lo] == c && !is_ident_char(s[i - lo]));
            return false;
        }
        i = i + 1;
    }
    true
}

/// Where the opening parenthesis of the call-shaped text `v[lo..hi]` stands.
fn call_paren_in(v: &Vec<char>, lo: usize, hi: usize) -> (r: Option<usize>)
    requires
        lo <= hi <= v.len(),
    ensures
        r is Some <==> is_call_shaped(v@.subrange(lo as int, hi as int)),
        r matches Some(p) ==> lo <= p < hi && find(v@.subrange(lo as int, hi as int), '(') == p
            - lo,
{
    let ghost u = v@.subrange(lo as int, hi as int);
    let p = find_in(v, lo, hi, '(');
    if p == hi {
        return None;
    }
    let (c, d) = trim_range(v, lo, p);
    assert(u.subrange(0, p - lo) =~= v@.subrange(lo as int, p as int));
    if c == d || is_identifier_in(v, c, d) {
        Some(p)
    } else {
        None
    }
}

/// Whether a parenthesis stands in `v[lo..hi]` outside quotes.
fn bare_paren_in(v: &Vec<char>, lo: usize, hi: usize) -> (r: bool)
    requires
        lo <= hi <= v.len(),
    ensures
        r == bare_paren_from(v@.subrange(lo as int, hi as int), 0, false),
{
    let ghost s = v@.subrange(lo as int, hi as int);
    let mut i: usize = lo;
    let mut quoted: bool = false;
    while i < hi
        invariant
            lo <= i <= hi <= v.len(),
            s == v@.subrange(lo as int, hi as int),
            bare_paren_from(s, 0, false) == bare_paren_from(s, i - lo, quoted),
        decreases hi - i,
    {
        let c = v[i];
        assert(s[i - lo] == c);
        if quoted {
            quoted = c != '"';
        } else if c == '"' {
            quoted = true;
        } else if c == '(' || c == ')' {
            return true;
        }
        i = i + 1;
    }
    false
}

/// Decodes the call-shaped text `s[lo..hi]`; see `decode_call`.
fn decode_call_in(
    s: &str,
    v: &Vec<char>,
    lo: usize,
    hi: usize,
    p: usize,
    ret: Option<TypeVar>,
) -> (r: Result<MethodCall, ParseError>)
    requires
        v@ == s@,
        lo <= p < hi <= v.len(),
        find(v@.subrange(lo as int, hi as int), '(') == p - lo,
    ensures
        call_result(r) == decode_call(
            v@.subrange(lo as int, hi as int),
            match ret {
                Some(x) => Some(x@),
                None => None,
            },
        ),
{
    let ghost u = v@.subrange(lo as int, hi as int);
    let (c, d) = trim_range(v, lo, p);
    assert(u.subrange(0, p - lo) =~= v@.subrange(lo as int, p as int));
    if c == d || v[hi - 1] != ')' {
        return Err(fail(ErrorKind::MalformedMethodCall, s.substring_char(lo, hi)));
    }
    proof {
        lemma_find_from_bounds(u, '(', 0);
    }
    assert(u.subrange(p - lo + 1, u.len() - 1) =~= v@.subrange(p + 1, hi - 1));
    if bare_paren_in(v, p + 1, hi - 1) {
        return Err(fail(ErrorKind::MalformedMethodCall, s.substring_char(lo, hi)));
    }
    match decode_list_text(s.substring_char(p + 1, hi - 1)) {
        Ok(args) => Ok(MethodCall { method_name: s.substring_char(c, d).to_owned(), args, ret }),
        Err(e) => Err(e),
    }
}

/// Decodes a method call; see `decode_method_call`.
fn method_call_of(s: &str) -> (r: Result<MethodCall, ParseError>)
    ensures
        call_result(r) == decode_method_call(s@),
{
    let v = chars_of(s);
    let (a, b) = trim_range(&v, 0, v.len());
    assert(v@.subrange(0, v@.len() as int) =~= s@);
    let ghost t = v@.subrange(a as int, b as int);
    if let Some(p) = call_paren_in(&v, a, b) {
        return decode_call_in(s, &v, a, b, p, None);
    }
    let e = find_in(&v, a, b, '=');
    if e == b {
        return Err(fail(ErrorKind::MalformedMethodCall, s.substring_char(a, b)));
    }
    let (x, y) = trim_range(&v, a, e);
    let (c, d) = trim_range(&v, e + 1, b);
    assert(t.subrange(0, e - a) =~= v@.subrange(a as int, e as int));
    assert(t.subrange(e - a + 1, t.len() as int) =~= v@.subrange(e + 1, b as int));
    match call_paren_in(&v, c, d) {
        Some(p) => {
            if !is_identifier_in(&v, x, y) {
                return Err(fail(ErrorKind::MalformedMethodCall, s.substring_char(a, b)));
            }
            let name = s.substring_char(x, y).to_owned();
            decode_call_in(s, &v, c, d, p, Some(TypeVar::String(name)))
        },
        None => Err(fail(ErrorKind::MalformedMethodCall, s.substring_char(a, b))),
    }
}

/// Decodes an assignment; see `decode_assignment`.
fn assignment_of(s: &str) -> (r: Result<Assignment, ParseError>)
    ensures
        assignment_result(r) == decode_assignment(s@),
{
    let v = chars_of(s);
    let (a, b) = trim_range(&v, 0, v.len());
    assert(v@.subrange(0, v@.len() as int) =~= s@);
    let ghost t = v@.subrange(a as int, b as int);
    let e = find_in(&v, a, b, '=');
    if e == b {
        return Err(fail(ErrorKind::MalformedAssignment, s.substring_char(a, b)));
    }
    let (x, y) = trim_range(&v, a, e);
    assert(t.subrange(0, e - a) =~= v@.subrange(a as int, e as int));
    if !is_identifier_in(&v, x, y) {
        return Err(fail(ErrorKind::MalformedAssignment, s.substring_char(a, b)));
    }
    assert(t.subrange(e - a + 1, t.len() as int) =~= v@.subrange(e + 1, b as int));
    match decode_text(s.substring_char(e + 1, b)) {
        Ok(value) => Ok(Assignment { var_name: s.substring_char(x, y).to_owned(), value }),
        Err(x) => Err(x),
    }
}

/// Classifies a statement; see `classify`.
pub fn classify_text(s: &str) -> (r: Result<LineContent, ParseError>)
    ensures
        content_result(r) == classify(s@),
{
    let v = chars_of(s);
    let (a, b) = trim_range(&v, 0, v.len());
    assert(v@.subrange(0, v@.len() as int) =~= s@);
    let ghost t = v@.subrange(a as int, b as int);
    if a < b && v[a] == '#' {
        assert(t.drop_first() =~= v@.subrange(a + 1, b as int));
        return Ok(LineContent::Comment(s.substring_char(a + 1, b).to_owned()));
    }
    let e = find_in(&v, a, b, '=');
    let mut call = call_paren_in(&v, a, b).is_some();
    if !call && e < b {
        let (c, d) = trim_range(&v, e + 1, b);
        assert(t.subrange(e - a + 1, t.len() as int) =~= v@.subrange(e + 1, b as int));
        call = call_paren_in(&v, c, d).is_some();
    }
    if call {
        match method_call_of(s) {
            Ok(m) => Ok(LineContent::MethodCall(m)),
            Err(x) => Err(x),
        }
    } else if e < b {
        match assignment_of(s) {
            Ok(m) => Ok(LineContent::Assignment(m)),
            Err(x) => Err(x),
        }
    } else {
        Err(fail(ErrorKind::UnrecognizedStatement, s.substring_char(a, b)))
    }
}

impl Assignment {
    /// Decodes an assignment `name = value`.
    pub fn parse_assignment(content: String) -> (r: Result<Assignment, ParseError>)
        ensures
            assignment_result(r) == decode_assignment(content@),
    {
        assignment_of(content.as_str())
    }
}

impl MethodCall {
    /// Decodes a method call `name(args)` or `var = name(args)`.
    pub fn parse_method_call(content: String) -> (r: Result<MethodCall, ParseError>)
        ensures
            call_result(r) == decode_method_call(content@),
    {
        method_call_of(content.as_str())
    }
}

impl LineContent {
    /// Decodes the statement of a line.
    pub fn parse_content(content: &str) -> (r: Result<LineContent, ParseError>)
        ensures
            content_result(r) == classify(content@),
    {
        classify_text(content)
    }
}

} // verus!
