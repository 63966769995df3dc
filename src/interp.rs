use vstd::prelude::*;
use crate::env::Environment;
use crate::error::LispError;
use crate::eval::{eval, eval_expr};
use crate::expr::{Expr, show, view_seq};
use crate::lexer::{lex, tokenize};
use crate::parser::{parse, parse_at};

verus! {

/// Reads one expression from a line of input, evaluates it, and returns the
/// printable form of its value; tokens after the first expression are ignored.
pub fn interpret(input: &str, env: &mut Environment, printed: &mut Vec<Expr>) -> (r: Result<
    String,
    LispError,
>)
    requires
        old(env).wf(),
    ensures
        final(env).wf(),
        match parse_at(lex(input@), 0) {
            Err(f) => {
                &&& r matches Err(g) && g@ == f
                &&& final(env)@ == old(env)@
                &&& final(printed)@ == old(printed)@
            },
            Ok((e, _)) => {
                let (res, env1, out) = eval_expr(e, old(env)@);
                &&& final(env)@ == env1
                &&& view_seq(final(printed)@) == view_seq(old(printed)@) + out
                &&& match res {
                    Ok(v) => r matches Ok(t) && t@ == show(v),
                    Err(f) => r matches Err(g) && g@ == f,
                }
            },
        },
{
    let tokens = tokenize(input);
    match parse(tokens.as_slice()) {
        Err(f) => Err(f),
        Ok((e, _)) => match eval(&e, env, printed) {
            Ok(v) => Ok(v.to_text()),
            Err(f) => Err(f),
        },
    }
}

} // verus!
