use vstd::prelude::*;
use crate::error::{Fault, LispError};
use crate::expr::{Expr, SExpr, view_seq, lemma_view_seq, lemma_list_model};
use crate::lexer::texts;

verus! {

pub open spec fn is_digit(c: char) -> bool {
    '0' <= c && c <= '9'
}

pub open spec fn digit_value(c: char) -> int {
    c as int - '0' as int
}

/// A non-empty run of decimal digits.
pub open spec fn all_digits(t: Seq<char>) -> bool {
    t.len() > 0 && forall|i: int| 0 <= i < t.len() ==> is_digit(#[trigger] t[i])
}

/// The value of a run of decimal digits.
pub open spec fn digits_value(t: Seq<char>) -> int
    decreases t.len(),
{
    if t.len() == 0 {
        0
    } else {
        digits_value(t.drop_last()) * 10 + digit_value(t.last())
    }
}

/// The integer that a token writes: digits with an optional sign.
pub open spec fn numeral_value(t: Seq<char>) -> Option<int> {
    if t.len() > 0 && (t[0] == '-' || t[0] == '+') {
        if all_digits(t.drop_first()) {
            if t[0] == '-' {
                Some(-digits_value(t.drop_first()))
            } else {
                Some(digits_value(t.drop_first()))
            }
        } else {
            None
        }
    } else if all_digits(t) {
        Some(digits_value(t))
    } else {
        None
    }
}

pub open spec fn fits_i64(v: int) -> bool {
    i64::MIN <= v <= i64::MAX
}

/// The number a token stands for, if it writes one that fits the number type.
pub open spec fn number_of(t: Seq<char>) -> Option<int> {
    match numeral_value(t) {
        Some(v) => if fits_i64(v) {
            Some(v)
        } else {
            None
        },
        None => None,
    }
}

/// An atom token read as a number where it writes one, else as a symbol.
pub open spec fn atom_of(t: Seq<char>) -> SExpr {
    match number_of(t) {
        Some(v) => SExpr::Num(v),
        None => SExpr::Sym(t),
    }
}

pub open spec fn open_token() -> Seq<char> {
    seq!['(']
}

pub open spec fn close_token() -> Seq<char> {
    seq![')']
}

/// Parses one expression from `ts` at `pos`: the expression and the position
/// after it, or the fault.
pub open spec fn parse_at(ts: Seq<Seq<char>>, pos: int) -> Result<(SExpr, int), Fault>
    decreases ts.len() - pos, 1int,
{
    if pos < 0 || pos >= ts.len() {
        Err(Fault::UnexpectedEnd)
    } else if ts[pos] == open_token() {
        match parse_items(ts, pos + 1, Seq::empty()) {
            Ok((items, p)) => Ok((SExpr::List(items), p)),
            Err(f) => Err(f),
        }
    } else if ts[pos] == close_token() {
        Err(Fault::UnexpectedClose)
    } else {
        Ok((atom_of(ts[pos]), pos + 1))
    }
}

/// Parses the elements of a list from `pos` through its `)`, after the
/// elements `acc` already read.
pub open spec fn parse_items(ts: Seq<Seq<char>>, pos: int, acc: Seq<SExpr>) -> Result<
    (Seq<SExpr>, int),
    Fault,
>
    decreases ts.len() - pos, 2int,
{
    if pos < 0 || pos >= ts.len() {
        Err(Fault::UnexpectedEnd)
    } else if ts[pos] == close_token() {
        Ok((acc, pos + 1))
    } else {
        match parse_at(ts, pos) {
            Ok((e, p)) => if pos < p <= ts.len() {
                parse_items(ts, p, acc.push(e))
            } else {
                Err(Fault::UnexpectedEnd)
            },
            Err(f) => Err(f),
        }
    }
}

/// Whether a token is the single character `c`.
fn is_token(t: &String, c: char) -> (r: bool)
    ensures
        r == (t@ == seq![c]),
{
    let s = t.as_str();
    if s.unicode_len() == 1 {
        let d = s.get_char(0);
        if d == c {
            assert(s@ =~= seq![c]);
        }
        d == c
    } else {
        false
    }
}

proof fn lemma_digits_prefix(t: Seq<char>, i: int)
    requires
        0 <= i < t.len(),
    ensures
        digits_value(t.subrange(0, i + 1)) == digits_value(t.subrange(0, i)) * 10 + digit_value(
            t[i],
        ),
{
    assert(t.subrange(0, i + 1).drop_last() =~= t.subrange(0, i));
}

proof fn lemma_digits_grow(t: Seq<char>, i: int, j: int)
    requires
        0 <= i <= j <= t.len(),
        forall|k: int| 0 <= k < t.len() ==> is_digit(#[trigger] t[k]),
    ensures
        digits_value(t.subrange(0, i)) <= digits_value(t.subrange(0, j)),
    decreases j - i,
{
    if i < j {
        lemma_digits_grow(t, i, j - 1);
        lemma_digits_prefix(t, j - 1);
        lemma_digits_nonneg(t.subrange(0, j - 1));
    }
}

proof fn lemma_digits_nonneg(t: Seq<char>)
    requires
        forall|k: int| 0 <= k < t.len() ==> is_digit(#[trigger] t[k]),
    ensures
        digits_value(t) >= 0,
    decreases t.len(),
{
    if t.len() > 0 {
        lemma_digits_nonneg(t.drop_last());
    }
}

/// Reads a token as a number: an optional sign and decimal digits, within
/// the range of `i64`.
pub fn parse_number(t: &str) -> (r: Option<i64>)
    ensures
        r matches Some(v) ==> number_of(t@) == Some(v as int),
        r is None ==> number_of(t@) is None,
{
    let ghost s = t@;
    let n = t.unicode_len();
    if n == 0 {
        return None;
    }
    let first = t.get_char(0);
    let negative = first == '-';
    let start: usize = if first == '-' || first == '+' { 1 } else { 0 };
    if start == n {
        return None;
    }
    let ghost ds = s.subrange(start as int, n as int);
    assert(start == 1 ==> ds =~= s.drop_first());
    assert(start == 0 ==> ds =~= s);
    let limit: u64 = 9223372036854775808;
    let mut acc: u64 = 0;
    let mut i: usize = start;
    assert(ds.subrange(0, 0) =~= Seq::<char>::empty());
    while i < n
        invariant
            start <= i <= n,
            n == s.len(),
            s == t@,
            start < n,
            ds == s.subrange(start as int, n as int),
            start == 1 ==> ds == s.drop_first(),
            start == 0 ==> ds == s,
            (start == 1) == (s[0] == '-' || s[0] == '+'),
            negative == (s[0] == '-'),
            start <= 1,
            limit == 9223372036854775808u64,
            acc as int == digits_value(ds.subrange(0, i - start)),
            acc <= limit,
            forall|k: int| 0 <= k < i - start ==> is_digit(#[trigger] ds[k]),
        decreases n - i,
    {
        let c = t.get_char(i);
        assert(ds[i - start] == c);
        if !('0' <= c && c <= '9') {
            assert(!all_digits(ds));
            return None;
        }
        let d = (c as u32 - '0' as u32) as u64;
        proof {
            lemma_digits_prefix(ds, i - start);
        }
        if acc > (limit - d) / 10 {
            proof {
                assert forall|k: int| 0 <= k < i - start + 1 implies is_digit(
                    #[trigger] ds.subrange(0, i - start + 1)[k],
                ) by {
                    assert(ds.subrange(0, i - start + 1)[k] == ds[k]);
                }
                if all_digits(ds) {
                    lemma_digits_grow(ds, i - start + 1, ds.len() as int);
                    assert(ds.subrange(0, ds.len() as int) =~= ds);
                }
                assert(acc * 10 + d > limit) by (nonlinear_arith)
                    requires
                        acc > (limit - d) / 10,
                        d <= 9,
                        limit == 9223372036854775808u64,
                ;
            }
            return None;
        }
        assert(acc * 10 + d <= limit) by (nonlinear_arith)
            requires
                acc <= (limit - d) / 10,
                d <= 9,
                limit == 9223372036854775808u64,
        ;
        acc = acc * 10 + d;
        i = i + 1;
    }
    assert(ds.subrange(0, n - start) =~= ds);
    assert(all_digits(ds));
    if negative {
        if acc == limit {
            Some(i64::MIN)
        } else {
            Some(-(acc as i64))
        }
    } else if acc == limit {
        None
    } else {
        Some(acc as i64)
    }
}

/// Reads an atom token as a number or a symbol.
fn atom(t: &String) -> (r: Expr)
    ensures
        r@ == atom_of(t@),
{
    match parse_number(t.as_str()) {
        Some(v) => Expr::Number(v),
        None => Expr::Symbol(t.clone()),
    }
}

/// Parses one expression from `tokens` at `pos`.
fn parse_from(tokens: &[String], pos: usize) -> (r: Result<(Expr, usize), LispError>)
    requires
        pos <= tokens@.len(),
    ensures
        match r {
            Ok((e, p)) => parse_at(texts(tokens@), pos as int) == Ok::<(SExpr, int), Fault>(
                (e@, p as int),
            ) && pos < p <= tokens@.len(),
            Err(f) => parse_at(texts(tokens@), pos as int) == Err::<(SExpr, int), Fault>(f@),
        },
    decreases tokens@.len() - pos, 1int,
{
    let ghost ts = texts(tokens@);
    if pos >= tokens.len() {
        return Err(LispError::UnexpectedEnd);
    }
    assert(ts[pos as int] == tokens@[pos as int]@);
    if is_token(&tokens[pos], '(') {
        let mut items: Vec<Expr> = Vec::new();
        let mut p: usize = pos + 1;
        assert(view_seq(items@) =~= Seq::<SExpr>::empty());
        loop
            invariant
                pos < p <= tokens@.len(),
                ts == texts(tokens@),
                ts[pos as int] == open_token(),
                parse_items(ts, pos as int + 1, Seq::empty()) == parse_items(
                    ts,
                    p as int,
                    view_seq(items@),
                ),
            decreases tokens@.len() - p,
        {
            if p >= tokens.len() {
                return Err(LispError::UnexpectedEnd);
            }
            assert(ts[p as int] == tokens@[p as int]@);
            if is_token(&tokens[p], ')') {
                proof {
                    lemma_list_model(items);
                }
                return Ok((Expr::List(items), p + 1));
            }
            match parse_from(tokens, p) {
                Ok((e, q)) => {
                    proof {
                        lemma_view_seq(items@);
                    }
                    let ghost before = view_seq(items@);
                    items.push(e);
                    proof {
                        lemma_view_seq(items@);
                        assert(view_seq(items@) =~= before.push(e@));
                    }
                    p = q;
                },
                Err(f) => {
                    return Err(f);
                },
            }
        }
    } else if is_token(&tokens[pos], ')') {
        Err(LispError::UnexpectedClose)
    } else {
        Ok((atom(&tokens[pos]), pos + 1))
    }
}

/// Parses one expression from the front of `tokens`: the expression and the
/// tokens after it.
pub fn parse(tokens: &[String]) -> (r: Result<(Expr, &[String]), LispError>)
    ensures
        match r {
            Ok((e, rest)) => parse_at(texts(tokens@), 0) == Ok::<(SExpr, int), Fault>(
                (e@, tokens@.len() - rest@.len()),
            ) && rest@ == tokens@.subrange(tokens@.len() - rest@.len(), tokens@.len() as int),
            Err(f) => parse_at(texts(tokens@), 0) == Err::<(SExpr, int), Fault>(f@),
        },
{
    match parse_from(tokens, 0) {
        Ok((e, p)) => {
            let (_, rest) = tokens.split_at(p);
            Ok((e, rest))
        },
        Err(f) => Err(f),
    }
}

} // verus!
