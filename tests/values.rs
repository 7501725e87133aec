use line_decoder::{ErrorKind, TypeVar};

fn decode(s: &str) -> Result<TypeVar, line_decoder::ParseError> {
    TypeVar::parse_type_var(s.to_string())
}

fn kind_of(s: &str) -> ErrorKind {
    match decode(s) {
        Err(e) => e.kind,
        Ok(v) => panic!("expected an error for {:?}, got {:?}", s, v),
    }
}

#[test]
fn integer_decodes() {
    assert_eq!(decode("42").unwrap(), TypeVar::Integer(42));
    assert_eq!(decode("  7  ").unwrap(), TypeVar::Integer(7));
    assert_eq!(decode("0").unwrap(), TypeVar::Integer(0));
}

#[test]
fn integer_largest_fits() {
    let max = usize::MAX.to_string();
    assert_eq!(decode(&max).unwrap(), TypeVar::Integer(usize::MAX));
}

#[test]
fn integer_overflow_is_malformed() {
    let too_big = format!("{}0", usize::MAX);
    assert_eq!(kind_of(&too_big), ErrorKind::MalformedInteger);
}

#[test]
fn integer_with_letters_is_malformed() {
    assert_eq!(kind_of("12abc"), ErrorKind::MalformedInteger);
    assert_eq!(kind_of("1 2"), ErrorKind::MalformedInteger);
}

#[test]
fn float_decodes_as_text() {
    assert_eq!(decode("f1.5").unwrap(), TypeVar::Float("1.5".to_string()));
    assert_eq!(decode("f  -2e10 ").unwrap(), TypeVar::Float("-2e10".to_string()));
    assert_eq!(decode("f.5").unwrap(), TypeVar::Float(".5".to_string()));
    assert_eq!(decode("f3.").unwrap(), TypeVar::Float("3.".to_string()));
    assert_eq!(decode("fInFiNiTy").unwrap(), TypeVar::Float("InFiNiTy".to_string()));
    assert_eq!(decode("f+NaN").unwrap(), TypeVar::Float("+NaN".to_string()));
}

#[test]
fn float_text_agrees_with_std() {
    for s in ["1.5", "-2e10", ".5", "3.", "inf", "-Infinity", "NaN", "1E+3", "7"] {
        let v = decode(&format!("f{}", s)).unwrap();
        match v {
            TypeVar::Float(t) => {
                assert_eq!(t, s);
                assert!(t.parse::<f64>().is_ok());
            }
            other => panic!("not a float: {:?}", other),
        }
    }
    for s in ["", ".", "1.2.3", "e5", "1e", "1e+", "abc", "--1", "in"] {
        assert!(s.parse::<f64>().is_err());
        assert_eq!(kind_of(&format!("f{}", s)), ErrorKind::MalformedFloat);
    }
}

#[test]
fn string_decodes_between_quotes() {
    assert_eq!(decode("\"hello\"").unwrap(), TypeVar::String("hello".to_string()));
    assert_eq!(decode("\"\"").unwrap(), TypeVar::String(String::new()));
    assert_eq!(decode("  \"a b\"  ").unwrap(), TypeVar::String("a b".to_string()));
    assert_eq!(decode("\"a\"b\"").unwrap(), TypeVar::String("a\"b".to_string()));
}

#[test]
fn nested_array_decodes() {
    let expected = TypeVar::Array(vec![
        TypeVar::Integer(1),
        TypeVar::Array(vec![TypeVar::Integer(2), TypeVar::Integer(3)]),
        TypeVar::Integer(4),
    ]);
    assert_eq!(decode("[1,[2,3],4]").unwrap(), expected);
}

#[test]
fn array_splits_at_top_level_commas_only() {
    let expected = TypeVar::Array(vec![
        TypeVar::Array(vec![TypeVar::Integer(1), TypeVar::Integer(2)]),
        TypeVar::Integer(3),
    ]);
    assert_eq!(decode("[[1,2],3]").unwrap(), expected);
    let quoted = TypeVar::Array(vec![
        TypeVar::String("a,b".to_string()),
        TypeVar::String("[".to_string()),
    ]);
    assert_eq!(decode("[\"a,b\", \"[\"]").unwrap(), quoted);
}

#[test]
fn empty_array_decodes() {
    assert_eq!(decode("[]").unwrap(), TypeVar::Array(vec![]));
    assert_eq!(decode("[  ]").unwrap(), TypeVar::Array(vec![]));
}

#[test]
fn array_of_mixed_values() {
    let expected = TypeVar::Array(vec![
        TypeVar::Integer(1),
        TypeVar::Float("2.5".to_string()),
        TypeVar::String("x".to_string()),
    ]);
    assert_eq!(decode("[ 1 , f2.5 , \"x\" ]").unwrap(), expected);
}

#[test]
fn unterminated_delimiters_fail() {
    assert_eq!(kind_of("[1,2"), ErrorKind::UnterminatedArray);
    assert_eq!(kind_of("\"abc"), ErrorKind::UnterminatedString);
}

#[test]
fn empty_input_fails() {
    assert_eq!(kind_of(""), ErrorKind::EmptyInput);
    assert_eq!(kind_of("   "), ErrorKind::EmptyInput);
}

#[test]
fn unrecognized_literal_fails() {
    assert_eq!(kind_of("x"), ErrorKind::UnrecognizedLiteral);
    assert_eq!(kind_of("-1"), ErrorKind::UnrecognizedLiteral);
}

#[test]
fn first_failing_element_decides() {
    let e = decode("[1, x, \"abc]").unwrap_err();
    assert_eq!(e.kind, ErrorKind::UnrecognizedLiteral);
    assert_eq!(e.text, "x");
    assert_eq!(e.line, None);
    let e = decode("[1,,2]").unwrap_err();
    assert_eq!(e.kind, ErrorKind::EmptyInput);
}

#[test]
fn error_carries_trimmed_text() {
    let e = decode("  12z ").unwrap_err();
    assert_eq!(e.kind, ErrorKind::MalformedInteger);
    assert_eq!(e.text, "12z");
}

#[test]
fn canonical_text_round_trips() {
    let v = TypeVar::Array(vec![
        TypeVar::Integer(10),
        TypeVar::Float("1e3".to_string()),
        TypeVar::String("s p".to_string()),
        TypeVar::Array(vec![TypeVar::Array(vec![]), TypeVar::Integer(0)]),
    ]);
    let text = "[10,f1e3,\"s p\",[[],0]]";
    let once = decode(text).unwrap();
    assert_eq!(once, v);
}
