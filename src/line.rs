//! Numbered lines: `<number> <statement>`.
use vstd::prelude::*;
use crate::error::{ErrorKind, ErrorModel, ParseError, failure, fail};
use crate::statement::{ContentModel, LineContent, classify, classify_text};
use crate::text::{chars_of, find_ws_from, find_ws_in, parse_usize, parse_usize_range};

verus! {

/// A decoded line: its number and what it says.
#[derive(Debug, PartialEq)]
pub struct Line {
    pub number: usize,
    pub content: LineContent,
}

pub struct LineModel {
    pub number: nat,
    pub content: ContentModel,
}

impl View for Line {
    type V = LineModel;

    open spec fn view(&self) -> LineModel {
        LineModel { number: self.number as nat, content: self.content@ }
    }
}

pub open spec fn line_result(r: Result<Line, ParseError>) -> Result<LineModel, ErrorModel> {
    match r {
        Ok(l) => Ok(l@),
        Err(e) => Err(e@),
    }
}

/// The line that `s` writes: the number before its first whitespace, then
/// the statement from there on. A statement's failure carries the number.
pub open spec fn decode_line(s: Seq<char>) -> Result<LineModel, ErrorModel> {
    let k = find_ws_from(s, 0);
    if k < 0 {
        Err(failure(ErrorKind::MissingLineNumber, s))
    } else {
        match parse_usize(s.subrange(0, k)) {
            None => Err(failure(ErrorKind::InvalidLineNumber, s.subrange(0, k))),
            Some(n) => match classify(s.subrange(k, s.len() as int)) {
                Ok(c) => Ok(LineModel { number: n, content: c }),
                Err(e) => Err(ErrorModel { kind: e.kind, text: e.text, line: Some(n) }),
            },
        }
    }
}

impl Line {
    /// Decodes a numbered line.
    pub fn parse_line(line: String) -> (r: Result<Line, ParseError>)
        ensures
            line_result(r) == decode_line(line@),
    {
        let s = line.as_str();
        let v = chars_of(s);
        let k = find_ws_in(&v);
        if k == v.len() {
            return Err(fail(ErrorKind::MissingLineNumber, s));
        }
        let number = match parse_usize_range(&v, 0, k) {
            Some(n) => n,
            None => {
                return Err(fail(ErrorKind::InvalidLineNumber, s.substring_char(0, k)));
            },
        };
        match classify_text(s.substring_char(k, v.len())) {
            Ok(content) => Ok(Line { number, content }),
            Err(e) => Err(ParseError { kind: e.kind, text: e.text, line: Some(number) }),
        }
    }
}

} // verus!
