use minilisp::ast::{Expr, Val};
use minilisp::grammar::ParseError;
use minilisp::parse::{try_parse_atom, try_parse_expr};

use Expr::{Atom, Func, Sym};
use Val::{Float, Int, Str};

#[test]
fn test_parse_atom_number() {
    let input = vec!["1", "99", "39019272", "0", "89328.32378", "0.0"];
    let expected = vec![
        Int(1),
        Int(99),
        Int(39019272),
        Int(0),
        Float(String::from("89328.32378")),
        Float(String::from("0.0")),
    ];

    let result = input
        .iter()
        .map(|s| try_parse_atom(*s).unwrap())
        .collect::<Vec<_>>();

    assert_eq!(expected, result);
}

#[test]
fn test_parse_atom_string() {
    let input = vec![r#""ilahids89090""#, r#""some string \"quoted string\"""#];
    let result = input
        .iter()
        .map(|s| try_parse_atom(*s).unwrap())
        .collect::<Vec<_>>();
    let expected = vec![
        Str(String::from("ilahids89090")),
        Str(String::from(r#"some string \"quoted string\""#)),
    ];
    assert_eq!(result, expected);
}

#[test]
fn test_parse_expr_sym() {
    let input = vec!["AuhLahdsd_93089", "_90380293____dlauhdkS"];
    let result = input
        .iter()
        .map(|s| try_parse_expr(*s).unwrap())
        .collect::<Vec<_>>();
    let expected = vec![
        Sym(String::from("AuhLahdsd_93089")),
        Sym(String::from("_90380293____dlauhdkS")),
    ];
    assert_eq!(result, expected);
}

#[test]
fn test_parse_expr_func() {
    let input = vec![
        "(dlhadk_90898 980890 0.0 jlhdksd)",
        "(___idojldi980_ jkd (defhkh dsakdj))",
    ];
    let result = input
        .iter()
        .map(|s| try_parse_expr(*s).unwrap())
        .collect::<Vec<_>>();
    let expected = vec![
        Func(
            String::from("dlhadk_90898"),
            vec![
                Atom(Int(980890)),
                Atom(Float(String::from("0.0"))),
                Sym(String::from("jlhdksd")),
            ],
        ),
        Func(
            String::from("___idojldi980_"),
            vec![
                Sym(String::from("jkd")),
                Func(String::from("defhkh"), vec![Sym(String::from("dsakdj"))]),
            ],
        ),
    ];
    assert_eq!(result, expected);
}

#[test]
fn test_parse_call_of_flat_atoms() {
    let result = try_parse_expr("(f 1 2 3)").unwrap();
    let expected = Func(
        String::from("f"),
        vec![Atom(Int(1)), Atom(Int(2)), Atom(Int(3))],
    );
    assert_eq!(result, expected);
}

#[test]
fn test_parse_call_with_one_nested_call() {
    let result = try_parse_expr("(f a (g b))").unwrap();
    let expected = Func(
        String::from("f"),
        vec![
            Sym(String::from("a")),
            Func(String::from("g"), vec![Sym(String::from("b"))]),
        ],
    );
    assert_eq!(result, expected);
}

#[test]
fn test_parse_leading_zeros() {
    assert_eq!(try_parse_atom("007").unwrap(), Int(7));
}

#[test]
fn test_parse_int_overflow() {
    let result = try_parse_atom("99999999999999999999999999");
    assert_eq!(
        result,
        Err(ParseError::Overflow(String::from(
            "99999999999999999999999999"
        )))
    );
}

#[test]
fn test_parse_largest_int() {
    assert_eq!(
        try_parse_atom("9223372036854775807").unwrap(),
        Int(9223372036854775807)
    );
    assert!(matches!(
        try_parse_atom("9223372036854775808"),
        Err(ParseError::Overflow(_))
    ));
}

#[test]
fn test_parse_float_with_empty_integer_part() {
    assert_eq!(try_parse_atom(".5").unwrap(), Float(String::from(".5")));
}

#[test]
fn test_parse_empty_string_literal() {
    assert_eq!(try_parse_atom("\"\"").unwrap(), Str(String::from("")));
}

#[test]
fn test_parse_list_literal_not_supported() {
    let result = try_parse_atom("'(1 2)");
    assert_eq!(
        result,
        Err(ParseError::ListNotSupported(String::from("'(1 2)")))
    );
}

#[test]
fn test_parse_malformed_value() {
    assert_eq!(
        try_parse_atom("1a2"),
        Err(ParseError::Malformed(String::from("1a2")))
    );
    assert_eq!(
        try_parse_atom(""),
        Err(ParseError::Malformed(String::from("")))
    );
    assert_eq!(
        try_parse_expr("(9bad x)"),
        Err(ParseError::Malformed(String::from("(9bad x)")))
    );
}

#[test]
fn test_parse_unmatched_parenthesis() {
    let result = try_parse_expr("(f (a)");
    assert_eq!(
        result,
        Err(ParseError::Unmatched(String::from("(f (a)")))
    );
}

#[test]
fn test_parse_same_text_twice_is_equal() {
    let first = try_parse_expr("(f a (g b) 12)");
    let second = try_parse_expr("(f a (g b) 12)");
    assert_eq!(first, second);
}
