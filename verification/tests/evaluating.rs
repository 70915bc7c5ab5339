use minilisp::ast::{Expr, Val};
use minilisp::parse::try_parse_expr;
use minilisp::system::{Error, EvalError, NameError, System, err_to_string};

use Expr::{Atom, Func, Sym};
use Val::{Float, Int, Str};

#[test]
fn test_eval_atom() {
    let input = vec![
        Atom(Int(10)),
        Atom(Float(String::from("0.0"))),
        Atom(Str(String::from("test"))),
    ];
    let mut sys = System::new();
    let result = input
        .iter()
        .map(|val| sys.eval(val).unwrap())
        .collect::<Vec<_>>();
    let expected = vec![Int(10), Float(String::from("0.0")), Str(String::from("test"))];
    assert_eq!(result, expected);
}

#[test]
fn test_eval_sym() {
    let input = vec![
        Sym(String::from("ldaslidhis")),
        Sym(String::from("hdlhahdhiualid")),
    ];
    let mut sys = System::new();
    sys.set(String::from("ldaslidhis"), Int(87973003)).unwrap();
    sys.set(String::from("hdlhahdhiualid"), Str(String::from("hhidy98y")))
        .unwrap();

    let result = input
        .iter()
        .map(|val| sys.eval(val).unwrap())
        .collect::<Vec<_>>();
    let expected = vec![Int(87973003), Str(String::from("hhidy98y"))];
    assert_eq!(result, expected);
}

#[test]
#[should_panic]
fn test_eval_sym_undefined() {
    let input = Sym(String::from("aldsdhasdj"));
    let mut sys = System::new();
    sys.eval(&input).unwrap();
}

#[test]
fn test_rebinding_fails_and_keeps_first_value() {
    let mut sys = System::new();
    sys.set(String::from("x"), Int(1)).unwrap();
    let second = sys.set(String::from("x"), Int(2));
    assert_eq!(
        second,
        Err(NameError::Redefinition(String::from("x")))
    );
    assert_eq!(sys.get(String::from("x")).unwrap(), Int(1));
}

#[test]
fn test_lookup_of_undefined_name() {
    let sys = System::new();
    let result = sys.get(String::from("undefined_name"));
    assert_eq!(
        result,
        Err(NameError::Undefined(String::from("undefined_name")))
    );
}

#[test]
fn test_eval_symbol_bound_to_string() {
    let mut sys = System::new();
    sys.set(String::from("x"), Str(String::from("hi"))).unwrap();
    let result = sys.eval(&Sym(String::from("x"))).unwrap();
    assert_eq!(result, Str(String::from("hi")));
}

#[test]
fn test_eval_same_symbol_twice_is_equal() {
    let mut sys = System::new();
    sys.set(String::from("x"), Int(5)).unwrap();
    let first = sys.eval(&Sym(String::from("x")));
    let second = sys.eval(&Sym(String::from("x")));
    assert_eq!(first, second);
    assert_eq!(first.unwrap(), Int(5));
}

#[test]
fn test_eval_call_is_an_unknown_function() {
    let mut sys = System::new();
    let expr = try_parse_expr("(f 1)").unwrap();
    let result = sys.eval(&expr);
    assert_eq!(
        result,
        Err(EvalError::UnknownFunction(String::from("f")))
    );
}

#[test]
fn test_eval_call_reports_first_failing_argument() {
    let mut sys = System::new();
    let expr = Func(
        String::from("f"),
        vec![Atom(Int(1)), Sym(String::from("missing")), Sym(String::from("also_missing"))],
    );
    let result = sys.eval(&expr);
    assert_eq!(
        result,
        Err(EvalError::Name(NameError::Undefined(String::from(
            "missing"
        ))))
    );
}

#[test]
fn test_error_reports() {
    let undefined = Error::Name(NameError::Undefined(String::from("y")));
    assert_eq!(err_to_string(&undefined), "name `y` is undefined");

    let reassign = Error::Name(NameError::Redefinition(String::from("x")));
    assert_eq!(err_to_string(&reassign), "cannot reassign name `x`");

    let unknown = Error::Eval(EvalError::UnknownFunction(String::from("f")));
    assert_eq!(err_to_string(&unknown), "unknown function `f`");
}

#[test]
fn test_parse_error_reports() {
    let malformed = minilisp::parse::try_parse_atom("oops!").unwrap_err();
    assert_eq!(
        err_to_string(&Error::Parse(malformed)),
        "malformed value: `oops!`"
    );

    let unmatched = try_parse_expr("(f (a)").unwrap_err();
    assert_eq!(
        err_to_string(&Error::Parse(unmatched)),
        "unmatched parentheses in: `(f (a)`"
    );

    let overflow = minilisp::parse::try_parse_atom("99999999999999999999").unwrap_err();
    assert_eq!(
        err_to_string(&Error::Parse(overflow)),
        "numeric overflow in: `99999999999999999999`"
    );

    let list = minilisp::parse::try_parse_atom("'(1 2)").unwrap_err();
    assert_eq!(
        err_to_string(&Error::Parse(list)),
        "list literals are not supported: `'(1 2)`"
    );
}
