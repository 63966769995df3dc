use lisp_interpreter::{interpret, Environment, Expr, LispError};

fn run(input: &str, env: &mut Environment) -> Result<String, String> {
    let mut printed: Vec<Expr> = Vec::new();
    interpret(input, env, &mut printed).map_err(|e| e.message())
}

fn run_printing(input: &str, env: &mut Environment) -> (Result<String, String>, Vec<String>) {
    let mut printed: Vec<Expr> = Vec::new();
    let r = interpret(input, env, &mut printed).map_err(|e| e.message());
    (r, printed.iter().map(|e| e.to_text()).collect())
}

#[test]
fn sum_of_three() {
    let mut env = Environment::new();
    assert_eq!(run("(+ 1 2 3)", &mut env), Ok("6".to_string()));
}

#[test]
fn difference_folds_left() {
    let mut env = Environment::new();
    assert_eq!(run("(- 10 1 2 3)", &mut env), Ok("4".to_string()));
}

#[test]
fn define_returns_name_then_binds() {
    let mut env = Environment::new();
    assert_eq!(run("(define x (+ 2 3))", &mut env), Ok("x".to_string()));
    assert_eq!(run("x", &mut env), Ok("5".to_string()));
}

#[test]
fn car_of_cdr_of_data_list() {
    let mut env = Environment::new();
    assert_eq!(run("(car (cdr (1 2 3)))", &mut env), Ok("2".to_string()));
}

#[test]
fn print_emits_and_returns() {
    let mut env = Environment::new();
    let (r, printed) = run_printing("(print (+ 1 1))", &mut env);
    assert_eq!(r, Ok("2".to_string()));
    assert_eq!(printed, vec!["2".to_string()]);
}

#[test]
fn unbound_symbol_is_reported() {
    let mut env = Environment::new();
    assert_eq!(run("(+ 1 y)", &mut env), Err("undefined symbol: y".to_string()));
}

#[test]
fn number_evaluates_to_itself() {
    let mut env = Environment::new();
    assert_eq!(run("42", &mut env), Ok("42".to_string()));
    assert_eq!(run("-7", &mut env), Ok("-7".to_string()));
    assert_eq!(run("+7", &mut env), Ok("7".to_string()));
}

#[test]
fn empty_sum_is_zero() {
    let mut env = Environment::new();
    assert_eq!(run("(+)", &mut env), Ok("0".to_string()));
}

#[test]
fn cdr_as_often_as_elements_gives_empty_list() {
    let mut env = Environment::new();
    assert_eq!(run("(cdr (cdr (cdr (1 2 3))))", &mut env), Ok("()".to_string()));
    assert_eq!(run("(cdr (cdr (cdr (cdr (1 2 3)))))", &mut env), Ok("()".to_string()));
}

#[test]
fn failed_define_keeps_environment() {
    let mut env = Environment::new();
    assert_eq!(run("(define x 1)", &mut env), Ok("x".to_string()));
    assert_eq!(run("(define x (+ 1 z))", &mut env), Err("undefined symbol: z".to_string()));
    assert_eq!(run("x", &mut env), Ok("1".to_string()));
}

#[test]
fn redefinition_replaces_value() {
    let mut env = Environment::new();
    assert_eq!(run("(define x 1)", &mut env), Ok("x".to_string()));
    assert_eq!(run("(define x (+ x 1))", &mut env), Ok("x".to_string()));
    assert_eq!(run("x", &mut env), Ok("2".to_string()));
}

#[test]
fn parse_errors() {
    let mut env = Environment::new();
    assert_eq!(run("", &mut env), Err("unexpected end of input".to_string()));
    assert_eq!(run("   ", &mut env), Err("unexpected end of input".to_string()));
    assert_eq!(run(")", &mut env), Err("unexpected close paren".to_string()));
    assert_eq!(run("(+ 1 2", &mut env), Err("unexpected end of input".to_string()));
}

#[test]
fn evaluation_errors() {
    let mut env = Environment::new();
    assert_eq!(run("()", &mut env), Err("cannot evaluate an empty list".to_string()));
    assert_eq!(run("(foo 1)", &mut env), Err("undefined function: foo".to_string()));
    assert_eq!(run("(-)", &mut env), Err("At least one argument is required for subtraction".to_string()));
    assert_eq!(run("(car (1) (2))", &mut env), Err("Expected exactly one argument for car".to_string()));
    assert_eq!(run("(cdr)", &mut env), Err("Expected exactly one argument for cdr".to_string()));
    assert_eq!(run("(define x)", &mut env), Err("Invalid number of arguments for 'define'".to_string()));
    assert_eq!(run("(print 1 2)", &mut env), Err("Invalid number of arguments for 'print'".to_string()));
    assert_eq!(run("(+ 1 (2))", &mut env), Err("Invalid argument type for addition".to_string()));
    assert_eq!(run("(- (2) 1)", &mut env), Err("Invalid argument type for subtraction".to_string()));
    assert_eq!(run("(car 1)", &mut env), Err("Invalid argument type for car".to_string()));
    assert_eq!(run("(car ())", &mut env), Err("cannot evaluate an empty list".to_string()));
    assert_eq!(run("(car (cdr (1)))", &mut env), Err("Invalid argument type for car".to_string()));
    assert_eq!(run("(cdr 1)", &mut env), Err("Invalid argument type for cdr".to_string()));
    assert_eq!(run("(define 1 2)", &mut env), Err("Expected a symbol for the variable name".to_string()));
}

#[test]
fn arithmetic_out_of_range() {
    let mut env = Environment::new();
    assert_eq!(
        run("(+ 9223372036854775807 1)", &mut env),
        Err("number out of range in +".to_string())
    );
    assert_eq!(
        run("(- -9223372036854775808 1)", &mut env),
        Err("number out of range in -".to_string())
    );
    assert_eq!(run("(+ 9223372036854775807 1 -1)", &mut env), Ok("9223372036854775807".to_string()));
    assert_eq!(run("-9223372036854775808", &mut env), Ok("-9223372036854775808".to_string()));
}

#[test]
fn cdr_of_empty_list_is_empty() {
    let mut env = Environment::new();
    assert_eq!(run("(cdr (1))", &mut env), Ok("()".to_string()));
}

#[test]
fn nested_data_lists_print() {
    let mut env = Environment::new();
    assert_eq!(run("(1 (2 3) 4)", &mut env), Ok("(1 (2 3) 4)".to_string()));
}

#[test]
fn trailing_tokens_are_ignored() {
    let mut env = Environment::new();
    assert_eq!(run("(+ 1 2) (+ 3 4)", &mut env), Ok("3".to_string()));
}

#[test]
fn errors_carry_their_kind() {
    let mut env = Environment::new();
    let mut printed: Vec<Expr> = Vec::new();
    match interpret("y", &mut env, &mut printed) {
        Err(LispError::UndefinedSymbol(name)) => assert_eq!(name, "y"),
        other => panic!("unexpected result: {:?}", other),
    }
}

#[test]
fn failure_after_define_restores_environment() {
    let mut env = Environment::new();
    assert_eq!(run("(+ (define x 1) y)", &mut env), Err("undefined symbol: y".to_string()));
    assert_eq!(run("x", &mut env), Err("undefined symbol: x".to_string()));
    assert_eq!(run("(define z 4)", &mut env), Ok("z".to_string()));
    assert_eq!(run("((define z 9) (car 1))", &mut env), Err("Invalid argument type for car".to_string()));
    assert_eq!(run("z", &mut env), Ok("4".to_string()));
}
