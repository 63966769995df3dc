use lisp_interpreter::{eval, parse, tokenize, Environment, Expr, Form, LispError};

fn read(text: &str) -> Expr {
    let tokens = tokenize(text);
    parse(&tokens).ok().unwrap().0
}

#[test]
fn eval_records_printed_values_in_order() {
    let mut env = Environment::new();
    let mut printed: Vec<Expr> = Vec::new();
    let r = eval(&read("((print 1) (print (+ 2 3)))"), &mut env, &mut printed).ok().unwrap();
    assert_eq!(r.to_text(), "(1 5)");
    let texts: Vec<String> = printed.iter().map(|e| e.to_text()).collect();
    assert_eq!(texts, vec!["1".to_string(), "5".to_string()]);
}

#[test]
fn prints_before_an_error_are_kept() {
    let mut env = Environment::new();
    let mut printed: Vec<Expr> = Vec::new();
    let r = eval(&read("(+ (print 7) y)"), &mut env, &mut printed);
    assert!(matches!(r, Err(LispError::UndefinedSymbol(_))));
    assert_eq!(printed.len(), 1);
    assert_eq!(printed[0].to_text(), "7");
}

#[test]
fn environment_binds_and_replaces() {
    let mut env = Environment::new();
    assert!(env.lookup(&"a".to_string()).is_none());
    env.bind("a".to_string(), Expr::Number(1));
    env.bind("b".to_string(), Expr::Number(2));
    env.bind("a".to_string(), Expr::Number(3));
    assert_eq!(env.lookup(&"a".to_string()).unwrap().to_text(), "3");
    assert_eq!(env.lookup(&"b".to_string()).unwrap().to_text(), "2");
}

#[test]
fn builtin_names_cannot_be_evaluated_as_values() {
    let mut env = Environment::new();
    let mut printed: Vec<Expr> = Vec::new();
    let r = eval(&read("car"), &mut env, &mut printed);
    assert!(matches!(r, Err(LispError::UndefinedSymbol(_))));
}

#[test]
fn binding_does_not_shadow_builtin_in_call_position() {
    let mut env = Environment::new();
    let mut printed: Vec<Expr> = Vec::new();
    eval(&read("(define car 5)"), &mut env, &mut printed).ok().unwrap();
    let r = eval(&read("(car (1 2))"), &mut env, &mut printed).ok().unwrap();
    assert_eq!(r.to_text(), "1");
}

#[test]
fn form_names() {
    assert_eq!(Form::Add.name(), "+");
    assert_eq!(Form::Subtract.name(), "-");
    assert_eq!(Form::Car.name(), "car");
    assert_eq!(Form::Cdr.name(), "cdr");
    assert_eq!(Form::Define.name(), "define");
    assert_eq!(Form::Print.name(), "print");
}

#[test]
fn deep_copy_keeps_structure() {
    let e = read("(a (1 2) ())");
    assert_eq!(e.deep_copy().to_text(), "(a (1 2) ())");
}

#[test]
fn clone_and_equality_follow_structure() {
    let e = read("(a (1 2) ())");
    let c = e.clone();
    assert!(c == e);
    assert!(read("(a (1 3) ())") != e);
}

#[test]
fn eval_restores_environment_on_error() {
    let mut env = Environment::new();
    let mut printed: Vec<Expr> = Vec::new();
    let r = eval(&read("(1 (define w 2) (cdr 5))"), &mut env, &mut printed);
    assert!(matches!(r, Err(LispError::WrongType(Form::Cdr))));
    assert!(env.lookup(&"w".to_string()).is_none());
}
