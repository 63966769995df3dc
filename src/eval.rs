use vstd::prelude::*;
use crate::env::Environment;
use crate::error::{Fault, Form, LispError};
use crate::expr::{Expr, SExpr, view_seq, lemma_view_seq, lemma_list_model};
use crate::parser::fits_i64;

verus! {

pub open spec fn define_word() -> Seq<char> {
    seq!['d', 'e', 'f', 'i', 'n', 'e']
}

pub open spec fn print_word() -> Seq<char> {
    seq!['p', 'r', 'i', 'n', 't']
}

/// The built-in operation that a name calls, if any.
pub open spec fn builtin_of(name: Seq<char>) -> Option<Form> {
    if name == seq!['+'] {
        Some(Form::Add)
    } else if name == seq!['-'] {
        Some(Form::Subtract)
    } else if name == seq!['c', 'a', 'r'] {
        Some(Form::Car)
    } else if name == seq!['c', 'd', 'r'] {
        Some(Form::Cdr)
    } else {
        None
    }
}

/// Every element is a number.
pub open spec fn all_numbers(s: Seq<SExpr>) -> bool {
    forall|i: int| 0 <= i < s.len() ==> #[trigger] s[i] is Num
}

/// The sum of the numbers of a sequence.
pub open spec fn sum_of(s: Seq<SExpr>) -> int
    decreases s.len(),
{
    if s.len() == 0 {
        0
    } else {
        sum_of(s.drop_last()) + s.last()->Num_0
    }
}

/// A number as a result, or the overflow fault of `op` where it does not fit.
pub open spec fn checked(op: Form, v: int) -> Result<SExpr, Fault> {
    if fits_i64(v) {
        Ok(SExpr::Num(v))
    } else {
        Err(Fault::Overflow(op))
    }
}

/// What a built-in operation returns on evaluated arguments.
pub open spec fn apply(op: Form, args: Seq<SExpr>) -> Result<SExpr, Fault> {
    match op {
        Form::Add => if !all_numbers(args) {
            Err(Fault::WrongType(op))
        } else {
            checked(op, sum_of(args))
        },
        Form::Subtract => if args.len() == 0 {
            Err(Fault::WrongArity(op))
        } else if !all_numbers(args) {
            Err(Fault::WrongType(op))
        } else {
            checked(op, args[0]->Num_0 - sum_of(args.drop_first()))
        },
        Form::Car => if args.len() != 1 {
            Err(Fault::WrongArity(op))
        } else {
            match args[0] {
                SExpr::List(l) => if l.len() > 0 {
                    Ok(l[0])
                } else {
                    Err(Fault::WrongType(op))
                },
                _ => Err(Fault::WrongType(op)),
            }
        },
        Form::Cdr => if args.len() != 1 {
            Err(Fault::WrongArity(op))
        } else {
            match args[0] {
                SExpr::List(l) => if l.len() > 0 {
                    Ok(SExpr::List(l.drop_first()))
                } else {
                    Ok(SExpr::List(l))
                },
                _ => Err(Fault::WrongType(op)),
            }
        },
        _ => Err(Fault::WrongArity(op)),
    }
}

/// The outcome of an evaluation: the result, the bindings after it, and the
/// values that `print` emitted, in order.
pub type Outcome<T> = (Result<T, Fault>, Map<Seq<char>, SExpr>, Seq<SExpr>);

/// Evaluates an expression against the bindings `env`, with each fault
/// passed up as it arises: the bindings returned with a fault are those in
/// place when it arose.
pub open spec fn run_expr(e: SExpr, env: Map<Seq<char>, SExpr>) -> Outcome<SExpr>
    decreases e,
{
    match e {
        SExpr::Num(_) => (Ok(e), env, Seq::empty()),
        SExpr::Sym(s) => if env.contains_key(s) {
            (Ok(env[s]), env, Seq::empty())
        } else {
            (Err(Fault::UndefinedSymbol(s)), env, Seq::empty())
        },
        SExpr::List(items) => if items.len() == 0 {
            (Err(Fault::EmptyList), env, Seq::empty())
        } else {
            match items[0] {
                SExpr::Sym(h) => if h == define_word() {
                    if items.len() != 3 {
                        (Err(Fault::WrongArity(Form::Define)), env, Seq::empty())
                    } else {
                        match items[1] {
                            SExpr::Sym(name) => {
                                let (r, env1, out) = run_expr(items[2], env);
                                match r {
                                    Ok(v) => (Ok(SExpr::Sym(name)), env1.insert(name, v), out),
                                    Err(f) => (Err(f), env1, out),
                                }
                            },
                            _ => (Err(Fault::WrongType(Form::Define)), env, Seq::empty()),
                        }
                    }
                } else if h == print_word() {
                    if items.len() != 2 {
                        (Err(Fault::WrongArity(Form::Print)), env, Seq::empty())
                    } else {
                        let (r, env1, out) = run_expr(items[1], env);
                        match r {
                            Ok(v) => (Ok(v), env1, out.push(v)),
                            Err(f) => (Err(f), env1, out),
                        }
                    }
                } else {
                    match builtin_of(h) {
                        Some(op) => {
                            let (r, env1, out) = eval_seq(items.subrange(1, items.len() as int), env);
                            match r {
                                Ok(args) => (apply(op, args), env1, out),
                                Err(f) => (Err(f), env1, out),
                            }
                        },
                        None => (Err(Fault::UndefinedFunction(h)), env, Seq::empty()),
                    }
                },
                _ => {
                    let (r, env1, out) = eval_seq(items, env);
                    match r {
                        Ok(vs) => (Ok(SExpr::List(vs)), env1, out),
                        Err(f) => (Err(f), env1, out),
                    }
                },
            }
        },
    }
}

/// Evaluates an expression against the bindings `env`. A fault leaves the
/// bindings as they were before the evaluation.
pub open spec fn eval_expr(e: SExpr, env: Map<Seq<char>, SExpr>) -> Outcome<SExpr> {
    let (r, env1, out) = run_expr(e, env);
    match r {
        Ok(v) => (Ok(v), env1, out),
        Err(f) => (Err(f), env, out),
    }
}

/// Evaluates a sequence of expressions from left to right, stopping at the
/// first fault.
pub open spec fn eval_seq(es: Seq<SExpr>, env: Map<Seq<char>, SExpr>) -> Outcome<Seq<SExpr>>
    decreases es,
{
    if es.len() == 0 {
        (Ok(Seq::empty()), env, Seq::empty())
    } else {
        let (r, env1, out1) = eval_seq(es.subrange(0, es.len() - 1), env);
        match r {
            Err(f) => (Err(f), env1, out1),
            Ok(vs) => {
                let (r2, env2, out2) = run_expr(es[es.len() - 1], env1);
                match r2 {
                    Ok(v) => (Ok(vs.push(v)), env2, out1 + out2),
                    Err(f) => (Err(f), env2, out1 + out2),
                }
            },
        }
    }
}

/// The model of an evaluation result.
pub open spec fn result_model(r: Result<Expr, LispError>) -> Result<SExpr, Fault> {
    match r {
        Ok(e) => Ok(e@),
        Err(f) => Err(f@),
    }
}

/// Whether the text of `s` is `w`.
fn is_word(s: &String, w: &str) -> (r: bool)
    ensures
        r == (s@ == w@),
{
    let a = s.as_str();
    let n = a.unicode_len();
    if n != w.unicode_len() {
        return false;
    }
    let mut i: usize = 0;
    while i < n
        invariant
            n == a@.len(),
            n == w@.len(),
            a@ == s@,
            i <= n,
            forall|j: int| 0 <= j < i ==> a@[j] == w@[j],
        decreases n - i,
    {
        if a.get_char(i) != w.get_char(i) {
            return false;
        }
        i = i + 1;
    }
    assert(a@ =~= w@);
    true
}

/// The built-in operation that `name` calls, if any.
pub fn builtin(name: &String) -> (r: Option<Form>)
    ensures
        r == builtin_of(name@),
{
    proof {
        reveal_strlit("+");
        reveal_strlit("-");
        reveal_strlit("car");
        reveal_strlit("cdr");
        assert("+"@ =~= seq!['+']);
        assert("-"@ =~= seq!['-']);
        assert("car"@ =~= seq!['c', 'a', 'r']);
        assert("cdr"@ =~= seq!['c', 'd', 'r']);
    }
    if is_word(name, "+") {
        Some(Form::Add)
    } else if is_word(name, "-") {
        Some(Form::Subtract)
    } else if is_word(name, "car") {
        Some(Form::Car)
    } else if is_word(name, "cdr") {
        Some(Form::Cdr)
    } else {
        None
    }
}

const NUMBER_SPAN: i128 = 9223372036854775808;

/// The sum of the arguments from `from` on, or the type fault of `op` where
/// one of them is not a number.
fn sum_from(args: &Vec<Expr>, from: usize, op: Form) -> (r: Result<i128, LispError>)
    requires
        from <= args@.len(),
    ensures
        match r {
            Ok(v) => all_numbers(view_seq(args@).subrange(from as int, args@.len() as int))
                && v == sum_of(view_seq(args@).subrange(from as int, args@.len() as int))
                && -(args@.len() - from) * NUMBER_SPAN <= v <= (args@.len() - from) * NUMBER_SPAN,
            Err(f) => !all_numbers(view_seq(args@).subrange(from as int, args@.len() as int))
                && f@ == Fault::WrongType(op),
        },
{
    let ghost s = view_seq(args@);
    proof {
        lemma_view_seq(args@);
    }
    let mut acc: i128 = 0;
    let mut i: usize = from;
    assert(s.subrange(from as int, from as int) =~= Seq::<SExpr>::empty());
    while i < args.len()
        invariant
            s == view_seq(args@),
            s.len() == args@.len(),
            forall|j: int| 0 <= j < args@.len() ==> #[trigger] s[j] == args@[j]@,
            from <= i <= args@.len(),
            all_numbers(s.subrange(from as int, i as int)),
            acc == sum_of(s.subrange(from as int, i as int)),
            -(i - from) * NUMBER_SPAN <= acc <= (i - from) * NUMBER_SPAN,
        decreases args@.len() - i,
    {
        let ghost pre = s.subrange(from as int, i as int);
        let ghost next = s.subrange(from as int, i + 1);
        assert(next.drop_last() =~= pre);
        assert(next.last() == s[i as int]);
        match &args[i] {
            Expr::Number(n) => {
                acc = acc + *n as i128;
                assert forall|j: int| 0 <= j < next.len() implies #[trigger] next[j] is Num by {
                    if j < pre.len() {
                        assert(next[j] == pre[j]);
                    }
                }
            },
            _ => {
                assert(!(s.subrange(from as int, args@.len() as int)[i - from] is Num));
                return Err(LispError::WrongType(op));
            },
        }
        i = i + 1;
    }
    Ok(acc)
}

/// Applies a built-in operation to evaluated arguments.
pub fn apply_builtin(op: Form, args: Vec<Expr>) -> (r: Result<Expr, LispError>)
    ensures
        result_model(r) == apply(op, view_seq(args@)),
{
    let ghost s = view_seq(args@);
    proof {
        lemma_view_seq(args@);
    }
    match op {
        Form::Add => {
            let total = sum_from(&args, 0, op)?;
            assert(s.subrange(0, s.len() as int) =~= s);
            if total < i64::MIN as i128 || total > i64::MAX as i128 {
                Err(LispError::Overflow(op))
            } else {
                Ok(Expr::Number(total as i64))
            }
        },
        Form::Subtract => {
            if args.len() == 0 {
                return Err(LispError::WrongArity(op));
            }
            let first = match &args[0] {
                Expr::Number(n) => *n,
                _ => {
                    return Err(LispError::WrongType(op));
                },
            };
            assert(s.subrange(1, s.len() as int) =~= s.drop_first());
            let rest = match sum_from(&args, 1, op) {
                Ok(v) => v,
                Err(f) => {
                    assert(!all_numbers(s)) by {
                        let i = choose|i: int| 0 <= i < s.len() - 1 && !(#[trigger] s.drop_first()[i] is Num);
                        assert(s.drop_first()[i] == s[i + 1]);
                    }
                    return Err(f);
                },
            };
            assert(all_numbers(s)) by {
                assert forall|i: int| 0 <= i < s.len() implies #[trigger] s[i] is Num by {
                    if i > 0 {
                        assert(s.drop_first()[i - 1] == s[i]);
                    }
                }
            }
            let d = first as i128 - rest;
            if d < i64::MIN as i128 || d > i64::MAX as i128 {
                Err(LispError::Overflow(op))
            } else {
                Ok(Expr::Number(d as i64))
            }
        },
        Form::Car => {
            if args.len() != 1 {
                return Err(LispError::WrongArity(op));
            }
            match &args[0] {
                Expr::List(l) => {
                    proof {
                        lemma_view_seq(l@);
                    }
                    if l.len() > 0 {
                        Ok(l[0].deep_copy())
                    } else {
                        Err(LispError::WrongType(op))
                    }
                },
                _ => Err(LispError::WrongType(op)),
            }
        },
        Form::Cdr => {
            if args.len() != 1 {
                return Err(LispError::WrongArity(op));
            }
            match &args[0] {
                Expr::List(l) => {
                    proof {
                        lemma_view_seq(l@);
                    }
                    let mut rest: Vec<Expr> = Vec::new();
                    let mut i: usize = 1;
                    while i < l.len()
                        invariant
                            1 <= i,
                            i <= l@.len() || l@.len() == 0,
                            l@.len() == 0 ==> i == 1,
                            rest@.len() == i - 1,
                            forall|j: int| 0 <= j < rest@.len() ==> #[trigger] rest@[j]@ == l@[j + 1]@,
                        decreases l@.len() - i,
                    {
                        rest.push(l[i].deep_copy());
                        i = i + 1;
                    }
                    proof {
                        lemma_view_seq(rest@);
                        lemma_view_seq(l@);
                        lemma_list_model(rest);
                        lemma_list_model(*l);
                        if l@.len() > 0 {
                            assert(view_seq(rest@) =~= view_seq(l@).drop_first());
                        } else {
                            assert(view_seq(rest@) =~= view_seq(l@));
                        }
                    }
                    Ok(Expr::List(rest))
                },
                _ => Err(LispError::WrongType(op)),
            }
        },
        _ => Err(LispError::WrongArity(op)),
    }
}

proof fn lemma_view_seq_push(a: Seq<Expr>, x: Expr)
    ensures
        view_seq(a.push(x)) == view_seq(a).push(x@),
{
    assert(a.push(x).drop_last() =~= a);
}

proof fn lemma_eval_seq_step(s: Seq<SExpr>, from: int, i: int)
    requires
        0 <= from <= i < s.len(),
    ensures
        s.subrange(from, i + 1).subrange(0, i - from) == s.subrange(from, i),
        s.subrange(from, i + 1)[i - from] == s[i],
        s.subrange(from, i + 1).len() == i + 1 - from,
{
    assert(s.subrange(from, i + 1).subrange(0, i - from) =~= s.subrange(from, i));
}

proof fn lemma_eval_seq_err_prefix(s: Seq<SExpr>, k: int, env: Map<Seq<char>, SExpr>)
    requires
        0 <= k <= s.len(),
        eval_seq(s.subrange(0, k), env).0 is Err,
    ensures
        eval_seq(s, env) == eval_seq(s.subrange(0, k), env),
    decreases s.len(),
{
    if k == s.len() {
        assert(s.subrange(0, k) =~= s);
    } else {
        let p = s.subrange(0, s.len() - 1);
        assert(p.subrange(0, k) =~= s.subrange(0, k));
        lemma_eval_seq_err_prefix(p, k, env);
    }
}

/// Evaluates the expressions of `items` from position `from` on, left to
/// right, stopping at the first error.
fn eval_each(
    items: &Vec<Expr>,
    from: usize,
    env: &mut Environment,
    printed: &mut Vec<Expr>,
) -> (r: Result<Vec<Expr>, LispError>)
    requires
        from <= items@.len(),
        old(env).wf(),
    ensures
        final(env).wf(),
        ({
            let (res, env1, out) = eval_seq(
                view_seq(items@).subrange(from as int, items@.len() as int),
                old(env)@,
            );
            &&& final(env)@ == env1
            &&& view_seq(final(printed)@) == view_seq(old(printed)@) + out
            &&& match r {
                Ok(vs) => res == Ok::<Seq<SExpr>, Fault>(view_seq(vs@)),
                Err(f) => res == Err::<Seq<SExpr>, Fault>(f@),
            }
        }),
    decreases items, 0int,
{
    let ghost s = view_seq(items@);
    proof {
        lemma_view_seq(items@);
    }
    let mut vals: Vec<Expr> = Vec::new();
    let mut i: usize = from;
    assert(s.subrange(from as int, from as int) =~= Seq::<SExpr>::empty());
    assert(view_seq(vals@) =~= Seq::<SExpr>::empty());
    assert(view_seq(printed@) + Seq::<SExpr>::empty() =~= view_seq(printed@));
    while i < items.len()
        invariant
            s == view_seq(items@),
            s.len() == items@.len(),
            forall|j: int| 0 <= j < items@.len() ==> #[trigger] s[j] == items@[j]@,
            from <= i <= items@.len(),
            env.wf(),
            ({
                let (res, env1, out) = eval_seq(s.subrange(from as int, i as int), old(env)@);
                &&& res == Ok::<Seq<SExpr>, Fault>(view_seq(vals@))
                &&& env@ == env1
                &&& view_seq(printed@) == view_seq(old(printed)@) + out
            }),
        decreases items@.len() - i,
    {
        proof {
            lemma_eval_seq_step(s, from as int, i as int);
            assert(decreases_to!(*items => items@[i as int]));
        }
        let ghost env_before = env@;
        let ghost out_before = eval_seq(s.subrange(from as int, i as int), old(env)@).2;
        match run(&items[i], env, printed) {
            Ok(v) => {
                proof {
                    lemma_view_seq_push(vals@, v);
                }
                vals.push(v);
                assert(view_seq(printed@) =~= view_seq(old(printed)@) + (out_before + run_expr(
                    s[i as int],
                    env_before,
                ).2));
            },
            Err(f) => {
                assert(view_seq(printed@) =~= view_seq(old(printed)@) + (out_before + run_expr(
                    s[i as int],
                    env_before,
                ).2));
                proof {
                    let t = s.subrange(from as int, items@.len() as int);
                    assert(t.subrange(0, i + 1 - from) =~= s.subrange(from as int, i + 1));
                    lemma_eval_seq_err_prefix(t, i + 1 - from, old(env)@);
                }
                return Err(f);
            },
        }
        i = i + 1;
    }
    Ok(vals)
}

/// Evaluates an expression in place, passing each error up as it arises.
fn run(expr: &Expr, env: &mut Environment, printed: &mut Vec<Expr>) -> (r: Result<
    Expr,
    LispError,
>)
    requires
        old(env).wf(),
    ensures
        final(env).wf(),
        ({
            let (res, env1, out) = run_expr(expr@, old(env)@);
            &&& result_model(r) == res
            &&& final(env)@ == env1
            &&& view_seq(final(printed)@) == view_seq(old(printed)@) + out
        }),
    decreases expr, 1int,
{
    proof {
        assert(view_seq(printed@) + Seq::<SExpr>::empty() =~= view_seq(printed@));
    }
    match expr {
        Expr::Number(n) => Ok(Expr::Number(*n)),
        Expr::Symbol(s) => match env.lookup(s) {
            Some(v) => Ok(v),
            None => Err(LispError::UndefinedSymbol(s.clone())),
        },
        Expr::List(items) => {
            proof {
                lemma_list_model(*items);
                lemma_view_seq(items@);
                assert(decreases_to!(*expr => (*expr)->List_0));
            }
            let ghost s = view_seq(items@);
            if items.len() == 0 {
                return Err(LispError::EmptyList);
            }
            proof {
                assert(decreases_to!(*items => items@[0]));
                reveal_strlit("define");
                reveal_strlit("print");
                assert("define"@ =~= define_word());
                assert("print"@ =~= print_word());
            }
            match &items[0] {
                Expr::Symbol(h) => {
                    if is_word(h, "define") {
                        if items.len() != 3 {
                            return Err(LispError::WrongArity(Form::Define));
                        }
                        match &items[1] {
                            Expr::Symbol(name) => {
                                proof {
                                    assert(decreases_to!(*items => items@[2]));
                                }
                                match run(&items[2], env, printed) {
                                    Ok(v) => {
                                        env.bind(name.clone(), v);
                                        Ok(Expr::Symbol(name.clone()))
                                    },
                                    Err(f) => Err(f),
                                }
                            },
                            _ => Err(LispError::WrongType(Form::Define)),
                        }
                    } else if is_word(h, "print") {
                        if items.len() != 2 {
                            return Err(LispError::WrongArity(Form::Print));
                        }
                        proof {
                            assert(decreases_to!(*items => items@[1]));
                        }
                        match run(&items[1], env, printed) {
                            Ok(v) => {
                                let c = v.deep_copy();
                                proof {
                                    lemma_view_seq_push(printed@, c);
                                }
                                printed.push(c);
                                Ok(v)
                            },
                            Err(f) => Err(f),
                        }
                    } else {
                        match builtin(h) {
                            Some(op) => match eval_each(items, 1, env, printed) {
                                Ok(args) => apply_builtin(op, args),
                                Err(f) => Err(f),
                            },
                            None => Err(LispError::UndefinedFunction(h.clone())),
                        }
                    }
                },
                _ => {
                    assert(s.subrange(0, s.len() as int) =~= s);
                    match eval_each(items, 0, env, printed) {
                        Ok(vs) => {
                            proof {
                                lemma_list_model(vs);
                            }
                            Ok(Expr::List(vs))
                        },
                        Err(f) => Err(f),
                    }
                },
            }
        },
    }
}

/// Evaluates an expression. A successful `define` changes the environment;
/// an error leaves it as it was before the call. `print` appends the printed
/// value to `printed`, also where a later error ends the evaluation.
pub fn eval(expr: &Expr, env: &mut Environment, printed: &mut Vec<Expr>) -> (r: Result<
    Expr,
    LispError,
>)
    requires
        old(env).wf(),
    ensures
        final(env).wf(),
        ({
            let (res, env1, out) = eval_expr(expr@, old(env)@);
            &&& result_model(r) == res
            &&& final(env)@ == env1
            &&& view_seq(final(printed)@) == view_seq(old(printed)@) + out
        }),
        result_model(r) is Err ==> final(env)@ == old(env)@,
{
    let saved = env.snapshot();
    let r = run(expr, env, printed);
    if r.is_err() {
        *env = saved;
    }
    r
}

} // verus!
