use lisp_interpreter::parser::parse_number;
use lisp_interpreter::{parse, tokenize, Expr};

fn strings(v: &[&str]) -> Vec<String> {
    v.iter().map(|s| s.to_string()).collect()
}

#[test]
fn tokenize_splits_parens_and_space() {
    assert_eq!(tokenize("(+ 1 (f x))"), strings(&["(", "+", "1", "(", "f", "x", ")", ")"]));
    assert_eq!(tokenize("  a\tb\nc  "), strings(&["a", "b", "c"]));
    assert_eq!(tokenize("(()"), strings(&["(", "(", ")"]));
    assert_eq!(tokenize(""), Vec::<String>::new());
    assert_eq!(tokenize(" \t "), Vec::<String>::new());
}

#[test]
fn relexing_joined_tokens_is_stable() {
    let t = tokenize("(define  x(+ 2\t3))");
    assert_eq!(tokenize(&t.join(" ")), t);
}

#[test]
fn parse_returns_expression_and_tail() {
    let tokens = tokenize("(1 foo) bar");
    match parse(&tokens) {
        Ok((e, rest)) => {
            assert_eq!(e.to_text(), "(1 foo)");
            assert_eq!(rest, &strings(&["bar"])[..]);
        }
        Err(e) => panic!("parse failed: {}", e.message()),
    }
}

#[test]
fn printed_form_parses_back() {
    let tokens = tokenize("(a (1 -2) () b)");
    let (e, _) = parse(&tokens).ok().unwrap();
    let again = tokenize(&e.to_text());
    let (f, rest) = parse(&again).ok().unwrap();
    assert_eq!(f.to_text(), e.to_text());
    assert!(rest.is_empty());
}

#[test]
fn atoms_are_classified() {
    let tokens = tokenize("12");
    match parse(&tokens).ok().unwrap().0 {
        Expr::Number(n) => assert_eq!(n, 12),
        _ => panic!("expected a number"),
    }
    let tokens = tokenize("1x");
    match parse(&tokens).ok().unwrap().0 {
        Expr::Symbol(s) => assert_eq!(s, "1x"),
        _ => panic!("expected a symbol"),
    }
}

#[test]
fn numbers_in_range() {
    assert_eq!(parse_number("0"), Some(0));
    assert_eq!(parse_number("-12"), Some(-12));
    assert_eq!(parse_number("+12"), Some(12));
    assert_eq!(parse_number("9223372036854775807"), Some(i64::MAX));
    assert_eq!(parse_number("-9223372036854775808"), Some(i64::MIN));
    assert_eq!(parse_number("9223372036854775808"), None);
    assert_eq!(parse_number("-"), None);
    assert_eq!(parse_number("1.5"), None);
    assert_eq!(parse_number(""), None);
}
