use vstd::prelude::*;
use crate::error::{Fault, Form};
use crate::eval::{apply, define_word, eval_expr, eval_seq, print_word};
use crate::expr::SExpr;

verus! {

/// A number evaluates to itself, and changes nothing.
pub proof fn law_number_evaluates_to_itself(v: int, env: Map<Seq<char>, SExpr>)
    ensures
        eval_expr(SExpr::Num(v), env) == (
            Ok::<SExpr, Fault>(SExpr::Num(v)),
            env,
            Seq::<SExpr>::empty(),
        ),
{
}

/// `+` applied to no arguments evaluates to zero.
pub proof fn law_empty_sum_is_zero(env: Map<Seq<char>, SExpr>)
    ensures
        eval_expr(SExpr::List(seq![SExpr::Sym(seq!['+'])]), env).0 == Ok::<SExpr, Fault>(
            SExpr::Num(0),
        ),
{
    let items = seq![SExpr::Sym(seq!['+'])];
    assert(items.len() == 1 && items[0] == SExpr::Sym(seq!['+']));
    assert(items.subrange(1, 1) =~= Seq::<SExpr>::empty());
    assert(eval_seq(Seq::<SExpr>::empty(), env).0 == Ok::<Seq<SExpr>, Fault>(Seq::empty()));
    assert(apply(Form::Add, Seq::empty()) == Ok::<SExpr, Fault>(SExpr::Num(0)));
    assert(seq!['+'] != define_word());
    assert(seq!['+'] != print_word());
}

/// `cdr` applied `k` times, starting from `x`.
pub open spec fn cdr_times(x: SExpr, k: nat) -> Result<SExpr, Fault>
    decreases k,
{
    if k == 0 {
        Ok(x)
    } else {
        match cdr_times(x, (k - 1) as nat) {
            Ok(y) => apply(Form::Cdr, seq![y]),
            Err(f) => Err(f),
        }
    }
}

proof fn lemma_cdr_times(l: Seq<SExpr>, k: nat)
    requires
        k <= l.len(),
    ensures
        cdr_times(SExpr::List(l), k) == Ok::<SExpr, Fault>(SExpr::List(l.subrange(k as int, l.len() as int))),
    decreases k,
{
    if k == 0 {
        assert(l.subrange(0, l.len() as int) =~= l);
    } else {
        lemma_cdr_times(l, (k - 1) as nat);
        let m = l.subrange(k - 1, l.len() as int);
        assert(m.drop_first() =~= l.subrange(k as int, l.len() as int));
    }
}

/// Taking `cdr` of a list as many times as it has elements gives the empty list.
pub proof fn law_cdr_exhausts_list(l: Seq<SExpr>)
    ensures
        cdr_times(SExpr::List(l), l.len()) == Ok::<SExpr, Fault>(SExpr::List(Seq::empty())),
{
    lemma_cdr_times(l, l.len());
    assert(l.subrange(l.len() as int, l.len() as int) =~= Seq::<SExpr>::empty());
}

/// After `(define x v)` succeeds, `x` evaluates to the value that `v` evaluated to.
pub proof fn law_define_then_lookup(x: Seq<char>, v: SExpr, env: Map<Seq<char>, SExpr>)
    requires
        eval_expr(SExpr::List(seq![SExpr::Sym(define_word()), SExpr::Sym(x), v]), env).0 is Ok,
    ensures
        ({
            let env1 = eval_expr(SExpr::List(seq![SExpr::Sym(define_word()), SExpr::Sym(x), v]), env).1;
            &&& eval_expr(v, env).0 is Ok
            &&& eval_expr(SExpr::Sym(x), env1).0 == Ok::<SExpr, Fault>(eval_expr(v, env).0->Ok_0)
        }),
{
}

/// A failed evaluation leaves the bindings unchanged.
pub proof fn law_failure_keeps_environment(e: SExpr, env: Map<Seq<char>, SExpr>)
    requires
        eval_expr(e, env).0 is Err,
    ensures
        eval_expr(e, env).1 == env,
{
}

} // verus!
