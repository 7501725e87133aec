use line_decoder::{Assignment, ErrorKind, Line, LineContent, MethodCall, TypeVar};

fn line(s: &str) -> Result<Line, line_decoder::ParseError> {
    Line::parse_line(s.to_string())
}

#[test]
fn assignment_line_decodes() {
    let l = line("12 x = 5").unwrap();
    assert_eq!(l.number, 12);
    assert_eq!(
        l.content,
        LineContent::Assignment(Assignment { var_name: "x".to_string(), value: TypeVar::Integer(5) })
    );
}

#[test]
fn method_call_line_decodes() {
    let l = line("3 foo(1, 2)").unwrap();
    assert_eq!(l.number, 3);
    match l.content {
        LineContent::MethodCall(m) => {
            assert_eq!(m.method_name, "foo");
            assert_eq!(m.args, vec![TypeVar::Integer(1), TypeVar::Integer(2)]);
            assert_eq!(m.ret, None);
        }
        other => panic!("not a call: {:?}", other),
    }
}

#[test]
fn invalid_line_number_fails() {
    let e = line("abc x = 5").unwrap_err();
    assert_eq!(e.kind, ErrorKind::InvalidLineNumber);
    assert_eq!(e.text, "abc");
}

#[test]
fn missing_line_number_fails() {
    assert_eq!(line("12").unwrap_err().kind, ErrorKind::MissingLineNumber);
}

#[test]
fn empty_argument_list_decodes() {
    let l = line("1 foo()").unwrap();
    assert_eq!(
        l.content,
        LineContent::MethodCall(MethodCall {
            method_name: "foo".to_string(),
            args: vec![],
            ret: None
        })
    );
}

#[test]
fn bound_method_call_decodes() {
    let l = line("4 r = bar([1,2], \"a=b\")").unwrap();
    assert_eq!(
        l.content,
        LineContent::MethodCall(MethodCall {
            method_name: "bar".to_string(),
            args: vec![
                TypeVar::Array(vec![TypeVar::Integer(1), TypeVar::Integer(2)]),
                TypeVar::String("a=b".to_string()),
            ],
            ret: Some(TypeVar::String("r".to_string())),
        })
    );
}

#[test]
fn comment_line_decodes() {
    let l = line("7 # a note").unwrap();
    assert_eq!(l.content, LineContent::Comment(" a note".to_string()));
}

#[test]
fn statement_error_carries_line_number() {
    let e = line("9 x = [1").unwrap_err();
    assert_eq!(e.kind, ErrorKind::UnterminatedArray);
    assert_eq!(e.line, Some(9));
    assert_eq!(e.text, "[1");
}

#[test]
fn malformed_statements_fail() {
    assert_eq!(line("1 9x = 5").unwrap_err().kind, ErrorKind::MalformedAssignment);
    assert_eq!(line("1 = 5").unwrap_err().kind, ErrorKind::MalformedAssignment);
    assert_eq!(line("1 foo(1").unwrap_err().kind, ErrorKind::MalformedMethodCall);
    assert_eq!(line("1 (1)").unwrap_err().kind, ErrorKind::MalformedMethodCall);
    assert_eq!(line("1 9r = foo()").unwrap_err().kind, ErrorKind::MalformedMethodCall);
    assert_eq!(line("1 hello").unwrap_err().kind, ErrorKind::UnrecognizedStatement);
    assert_eq!(line("1 ").unwrap_err().kind, ErrorKind::UnrecognizedStatement);
}

#[test]
fn parse_assignment_direct() {
    let a = Assignment::parse_assignment("name = \"v\"".to_string()).unwrap();
    assert_eq!(a.var_name, "name");
    assert_eq!(a.value, TypeVar::String("v".to_string()));
    let e = Assignment::parse_assignment("5".to_string()).unwrap_err();
    assert_eq!(e.kind, ErrorKind::MalformedAssignment);
}

#[test]
fn parse_method_call_direct() {
    let m = MethodCall::parse_method_call("y = go(f0.5)".to_string()).unwrap();
    assert_eq!(m.method_name, "go");
    assert_eq!(m.args, vec![TypeVar::Float("0.5".to_string())]);
    assert_eq!(m.ret, Some(TypeVar::String("y".to_string())));
    let e = MethodCall::parse_method_call("y = 5".to_string()).unwrap_err();
    assert_eq!(e.kind, ErrorKind::MalformedMethodCall);
}

#[test]
fn parse_content_direct() {
    let c = LineContent::parse_content(" z = 1").unwrap();
    assert_eq!(
        c,
        LineContent::Assignment(Assignment { var_name: "z".to_string(), value: TypeVar::Integer(1) })
    );
}

#[test]
fn duplicate_lines_decode_independently() {
    let a = line("5 x = 1").unwrap();
    let b = line("5 x = 2").unwrap();
    assert_eq!(a.number, b.number);
    assert_ne!(a.content, b.content);
}

#[test]
fn unbalanced_parentheses_fail() {
    assert_eq!(line("1 foo((1)").unwrap_err().kind, ErrorKind::MalformedMethodCall);
    assert_eq!(line("1 foo(1))").unwrap_err().kind, ErrorKind::MalformedMethodCall);
    let l = line("1 foo(\"(\", \")\")").unwrap();
    match l.content {
        LineContent::MethodCall(m) => assert_eq!(
            m.args,
            vec![TypeVar::String("(".to_string()), TypeVar::String(")".to_string())]
        ),
        other => panic!("not a call: {:?}", other),
    }
}

#[test]
fn call_argument_error_propagates() {
    let e = line("2 foo(1, \"x)").unwrap_err();
    assert_eq!(e.kind, ErrorKind::UnterminatedString);
    assert_eq!(e.text, "\"x");
    let e = line("2 foo(1, zz)").unwrap_err();
    assert_eq!(e.kind, ErrorKind::UnrecognizedLiteral);
    assert_eq!(e.text, "zz");
    assert_eq!(e.line, Some(2));
}
