use vstd::prelude::*;
use crate::error::Fault;
use crate::expr::{SExpr, digit_char, digits_of, int_text, show, show_all};
use crate::lexer::{flush, is_atom_char, is_paren, is_space, lex, lex_from};
use crate::parser::{
    all_digits, close_token, digit_value, digits_value, fits_i64, number_of, open_token, parse_at,
    parse_items,
};

verus! {

/// An expression that printing and reading reproduce: every symbol is a
/// token of atom characters that does not read as a number, and every number
/// fits the number type.
pub open spec fn well_formed(e: SExpr) -> bool
    decreases e, 1int,
{
    match e {
        SExpr::Sym(s) => s.len() > 0 && (forall|i: int| 0 <= i < s.len() ==> is_atom_char(
            #[trigger] s[i],
        )) && number_of(s) is None,
        SExpr::Num(v) => fits_i64(v),
        SExpr::List(items) => all_well_formed(items),
    }
}

pub open spec fn all_well_formed(items: Seq<SExpr>) -> bool
    decreases items, 0int,
{
    if items.len() == 0 {
        true
    } else {
        all_well_formed(items.subrange(0, items.len() - 1)) && well_formed(items[items.len() - 1])
    }
}

/// The tokens of the printed form of an expression.
pub open spec fn tokens_of(e: SExpr) -> Seq<Seq<char>>
    decreases e, 1int,
{
    match e {
        SExpr::Sym(s) => seq![s],
        SExpr::Num(v) => seq![int_text(v)],
        SExpr::List(items) => seq![open_token()] + tokens_of_all(items) + seq![close_token()],
    }
}

pub open spec fn tokens_of_all(items: Seq<SExpr>) -> Seq<Seq<char>>
    decreases items, 0int,
{
    if items.len() == 0 {
        Seq::empty()
    } else {
        tokens_of_all(items.subrange(0, items.len() - 1)) + tokens_of(items[items.len() - 1])
    }
}

/// Where an atom token may end: at the end of the text, at white space or
/// at a parenthesis.
pub open spec fn at_boundary(r: Seq<char>) -> bool {
    r.len() == 0 || is_space(r[0]) || is_paren(r[0])
}

proof fn lemma_digit_char(d: nat)
    requires
        d < 10,
    ensures
        '0' <= digit_char(d) <= '9',
        digit_value(digit_char(d)) == d,
{
}

proof fn lemma_digits_of(n: nat)
    ensures
        all_digits(digits_of(n)),
        digits_value(digits_of(n)) == n,
    decreases n,
{
    if n < 10 {
        lemma_digit_char(n);
        assert(digits_of(n).drop_last() =~= Seq::<char>::empty());
        assert(digits_value(Seq::<char>::empty()) == 0);
        assert(digits_value(digits_of(n)) == digits_value(digits_of(n).drop_last()) * 10
            + digit_value(digits_of(n).last()));
    } else {
        lemma_digits_of(n / 10);
        lemma_digit_char(n % 10);
        let p = digits_of(n / 10);
        assert(digits_of(n).drop_last() =~= p);
        assert(digits_of(n).last() == digit_char(n % 10));
        assert((n / 10) * 10 + n % 10 == n) by (nonlinear_arith);
        assert(digits_value(digits_of(n)) == digits_value(p) * 10 + digit_value(digit_char(n % 10)));
        assert forall|i: int| 0 <= i < digits_of(n).len() implies ('0' <= #[trigger] digits_of(n)[i]
            && digits_of(n)[i] <= '9') by {
            if i < p.len() {
                assert(digits_of(n)[i] == p[i]);
            }
        }
    }
}

proof fn lemma_int_text(v: int)
    requires
        fits_i64(v),
    ensures
        number_of(int_text(v)) == Some(v),
        int_text(v).len() > 0,
        forall|i: int| 0 <= i < int_text(v).len() ==> is_atom_char(#[trigger] int_text(v)[i]),
{
    let t = int_text(v);
    if v < 0 {
        let d = digits_of((-v) as nat);
        lemma_digits_of((-v) as nat);
        assert(t.drop_first() =~= d);
        assert(t[0] == '-');
        assert forall|i: int| 0 <= i < t.len() implies is_atom_char(#[trigger] t[i]) by {
            if i > 0 {
                assert(t[i] == d[i - 1]);
            }
        }
    } else {
        lemma_digits_of(v as nat);
        assert(t[0] != '-' && t[0] != '+');
    }
}

proof fn lemma_lex_atom_prefix(t: Seq<char>, r: Seq<char>, cur: Seq<char>)
    requires
        forall|i: int| 0 <= i < t.len() ==> is_atom_char(#[trigger] t[i]),
    ensures
        lex_from(t + r, cur) == lex_from(r, cur + t),
    decreases t.len(),
{
    if t.len() == 0 {
        assert(t + r =~= r);
        assert(cur + t =~= cur);
    } else {
        assert((t + r)[0] == t[0]);
        assert((t + r).drop_first() =~= t.drop_first() + r);
        assert(is_atom_char(t[0]));
        assert forall|i: int| 0 <= i < t.drop_first().len() implies is_atom_char(
            #[trigger] t.drop_first()[i],
        ) by {
            assert(t.drop_first()[i] == t[i + 1]);
        }
        lemma_lex_atom_prefix(t.drop_first(), r, cur.push(t[0]));
        assert(cur.push(t[0]) + t.drop_first() =~= cur + t);
    }
}

proof fn lemma_lex_boundary(r: Seq<char>, cur: Seq<char>)
    requires
        cur.len() > 0,
        at_boundary(r),
    ensures
        lex_from(r, cur) == seq![cur] + lex_from(r, Seq::empty()),
{
    if r.len() == 0 {
        assert(seq![cur] + Seq::<Seq<char>>::empty() =~= seq![cur]);
    } else if is_paren(r[0]) {
        assert(flush(Seq::<char>::empty()) =~= Seq::<Seq<char>>::empty());
        let rest = lex_from(r.drop_first(), Seq::empty());
        assert(seq![cur] + seq![seq![r[0]]] + rest =~= seq![cur] + (Seq::<Seq<char>>::empty()
            + seq![seq![r[0]]] + rest));
    } else {
        let rest = lex_from(r.drop_first(), Seq::empty());
        assert(seq![cur] + rest =~= seq![cur] + (Seq::<Seq<char>>::empty() + rest));
    }
}

proof fn lemma_lex_atom(t: Seq<char>, r: Seq<char>)
    requires
        t.len() > 0,
        forall|i: int| 0 <= i < t.len() ==> is_atom_char(#[trigger] t[i]),
        at_boundary(r),
    ensures
        lex_from(t + r, Seq::empty()) == seq![t] + lex_from(r, Seq::empty()),
{
    lemma_lex_atom_prefix(t, r, Seq::empty());
    assert(Seq::<char>::empty() + t =~= t);
    lemma_lex_boundary(r, t);
}

proof fn lemma_lex_show(e: SExpr, r: Seq<char>)
    requires
        well_formed(e),
        at_boundary(r),
    ensures
        lex_from(show(e) + r, Seq::empty()) == tokens_of(e) + lex_from(r, Seq::empty()),
    decreases e, 1int,
{
    match e {
        SExpr::Sym(s) => {
            lemma_lex_atom(s, r);
        },
        SExpr::Num(v) => {
            lemma_int_text(v);
            lemma_lex_atom(int_text(v), r);
        },
        SExpr::List(items) => {
            let inner = show_all(items);
            let tail = seq![')'] + r;
            let s = show(e) + r;
            assert(s =~= seq!['('] + (inner + tail));
            assert(s[0] == '(');
            assert(s.drop_first() =~= inner + tail);
            assert(flush(Seq::<char>::empty()) =~= Seq::<Seq<char>>::empty());
            lemma_lex_show_all(items, tail);
            assert(tail[0] == ')');
            assert(tail.drop_first() =~= r);
            assert(lex_from(tail, Seq::empty()) =~= seq![close_token()] + lex_from(r, Seq::empty()));
            assert(lex_from(s, Seq::empty()) =~= seq![open_token()] + lex_from(inner + tail, Seq::empty()));
            assert(lex_from(s, Seq::empty()) =~= tokens_of(e) + lex_from(r, Seq::empty()));
        },
    }
}

proof fn lemma_lex_show_all(items: Seq<SExpr>, r: Seq<char>)
    requires
        all_well_formed(items),
        at_boundary(r),
    ensures
        lex_from(show_all(items) + r, Seq::empty()) == tokens_of_all(items) + lex_from(
            r,
            Seq::empty(),
        ),
    decreases items, 0int,
{
    if items.len() == 0 {
        assert(show_all(items) + r =~= r);
        assert(tokens_of_all(items) + lex_from(r, Seq::empty()) =~= lex_from(r, Seq::empty()));
    } else {
        let p = items.subrange(0, items.len() - 1);
        let last = items[items.len() - 1];
        lemma_lex_show(last, r);
        if items.len() == 1 {
            assert(p.len() == 0);
            assert(tokens_of_all(p) =~= Seq::<Seq<char>>::empty());
            assert(tokens_of_all(items) =~= tokens_of(last));
        } else {
            let r2 = seq![' '] + show(last) + r;
            lemma_lex_show_all(p, r2);
            assert(show_all(items) + r =~= show_all(p) + r2);
            assert(r2[0] == ' ');
            assert(r2.drop_first() =~= show(last) + r);
            assert(flush(Seq::<char>::empty()) =~= Seq::<Seq<char>>::empty());
            assert(lex_from(r2, Seq::empty()) =~= lex_from(show(last) + r, Seq::empty()));
            assert(tokens_of_all(items) + lex_from(r, Seq::empty()) =~= tokens_of_all(p) + (
            tokens_of(last) + lex_from(r, Seq::empty())));
        }
    }
}

proof fn lemma_well_formed_elems(items: Seq<SExpr>)
    requires
        all_well_formed(items),
    ensures
        forall|k: int| 0 <= k < items.len() ==> well_formed(#[trigger] items[k]),
    decreases items.len(),
{
    if items.len() > 0 {
        let p = items.subrange(0, items.len() - 1);
        lemma_well_formed_elems(p);
        assert forall|k: int| 0 <= k < items.len() implies well_formed(#[trigger] items[k]) by {
            if k < items.len() - 1 {
                assert(p[k] == items[k]);
            }
        }
    }
}

proof fn lemma_well_formed_of_elems(items: Seq<SExpr>)
    requires
        forall|k: int| 0 <= k < items.len() ==> well_formed(#[trigger] items[k]),
    ensures
        all_well_formed(items),
    decreases items.len(),
{
    if items.len() > 0 {
        let p = items.subrange(0, items.len() - 1);
        assert forall|k: int| 0 <= k < p.len() implies well_formed(#[trigger] p[k]) by {
            assert(p[k] == items[k]);
        }
        lemma_well_formed_of_elems(p);
    }
}

proof fn lemma_tokens_of_all_front(items: Seq<SExpr>)
    requires
        items.len() > 0,
    ensures
        tokens_of_all(items) == tokens_of(items[0]) + tokens_of_all(items.drop_first()),
    decreases items.len(),
{
    let p = items.subrange(0, items.len() - 1);
    let d = items.drop_first();
    if items.len() == 1 {
        assert(p.len() == 0);
        assert(tokens_of_all(p) =~= Seq::<Seq<char>>::empty());
        assert(d.len() == 0);
        assert(tokens_of_all(d) =~= Seq::<Seq<char>>::empty());
        assert(tokens_of_all(items) =~= tokens_of(items[0]) + tokens_of_all(d));
    } else {
        lemma_tokens_of_all_front(p);
        assert(p[0] == items[0]);
        assert(d.subrange(0, d.len() - 1) =~= p.drop_first());
        assert(d[d.len() - 1] == items[items.len() - 1]);
        assert(tokens_of_all(items) =~= tokens_of(items[0]) + tokens_of_all(d));
    }
}

proof fn lemma_first_token(e: SExpr)
    requires
        well_formed(e),
    ensures
        tokens_of(e).len() > 0,
        tokens_of(e)[0] != close_token(),
        e is List <==> tokens_of(e)[0] == open_token(),
{
    match e {
        SExpr::Sym(s) => {
            assert(is_atom_char(s[0]));
            assert(s[0] == close_token()[0] ==> false);
            assert(s[0] == open_token()[0] ==> false);
        },
        SExpr::Num(v) => {
            lemma_int_text(v);
            assert(is_atom_char(int_text(v)[0]));
            assert(int_text(v)[0] == close_token()[0] ==> false);
            assert(int_text(v)[0] == open_token()[0] ==> false);
        },
        SExpr::List(items) => {
            assert(tokens_of(e)[0] == open_token());
            assert(open_token()[0] != close_token()[0]);
        },
    }
}

proof fn lemma_parse_tokens(e: SExpr, ts: Seq<Seq<char>>, pos: int)
    requires
        well_formed(e),
        0 <= pos,
        pos + tokens_of(e).len() <= ts.len(),
        ts.subrange(pos, pos + tokens_of(e).len()) == tokens_of(e),
    ensures
        parse_at(ts, pos) == Ok::<(SExpr, int), Fault>((e, pos + tokens_of(e).len())),
    decreases e, 1int,
{
    lemma_first_token(e);
    assert(ts[pos] == ts.subrange(pos, pos + tokens_of(e).len())[0]);
    match e {
        SExpr::Sym(s) => {},
        SExpr::Num(v) => {
            lemma_int_text(v);
        },
        SExpr::List(items) => {
            let inner = tokens_of_all(items);
            let n = tokens_of(e).len();
            assert(ts.subrange(pos + 1, pos + 1 + inner.len() + 1) =~= inner + seq![close_token()]) by {
                assert forall|k: int| 0 <= k < inner.len() + 1 implies #[trigger] ts.subrange(
                    pos + 1,
                    pos + 1 + inner.len() + 1,
                )[k] == (inner + seq![close_token()])[k] by {
                    assert(ts.subrange(pos, pos + n)[k + 1] == tokens_of(e)[k + 1]);
                }
            }
            lemma_parse_items(items, ts, pos + 1, Seq::empty());
            assert(Seq::<SExpr>::empty() + items =~= items);
        },
    }
}

proof fn lemma_parse_items(items: Seq<SExpr>, ts: Seq<Seq<char>>, pos: int, acc: Seq<SExpr>)
    requires
        all_well_formed(items),
        0 <= pos,
        pos + tokens_of_all(items).len() + 1 <= ts.len(),
        ts.subrange(pos, pos + tokens_of_all(items).len() + 1) == tokens_of_all(items) + seq![
            close_token(),
        ],
    ensures
        parse_items(ts, pos, acc) == Ok::<(Seq<SExpr>, int), Fault>(
            (acc + items, pos + tokens_of_all(items).len() + 1),
        ),
    decreases items, 0int,
{
    let all = tokens_of_all(items);
    assert(ts[pos] == ts.subrange(pos, pos + all.len() + 1)[0]);
    if items.len() == 0 {
        assert(all =~= Seq::<Seq<char>>::empty());
        assert(acc + items =~= acc);
    } else {
        let x = items[0];
        let rest = items.drop_first();
        lemma_well_formed_elems(items);
        assert forall|k: int| 0 <= k < rest.len() implies well_formed(#[trigger] rest[k]) by {
            assert(rest[k] == items[k + 1]);
        }
        lemma_well_formed_of_elems(rest);
        lemma_tokens_of_all_front(items);
        lemma_first_token(x);
        let tx = tokens_of(x);
        let tr = tokens_of_all(rest);
        assert(ts.subrange(pos, pos + tx.len()) =~= tx) by {
            assert forall|k: int| 0 <= k < tx.len() implies #[trigger] ts.subrange(pos, pos + tx.len())[k]
                == tx[k] by {
                assert(ts.subrange(pos, pos + all.len() + 1)[k] == (all + seq![close_token()])[k]);
            }
        }
        assert(ts.subrange(pos + tx.len(), pos + tx.len() + tr.len() + 1) =~= tr + seq![close_token()])
            by {
            assert forall|k: int| 0 <= k < tr.len() + 1 implies #[trigger] ts.subrange(
                pos + tx.len(),
                pos + tx.len() + tr.len() + 1,
            )[k] == (tr + seq![close_token()])[k] by {
                assert(ts.subrange(pos, pos + all.len() + 1)[tx.len() + k] == (all + seq![
                    close_token(),
                ])[tx.len() + k]);
            }
        }
        assert(ts[pos] == tx[0]);
        lemma_parse_tokens(x, ts, pos);
        lemma_parse_items(rest, ts, pos + tx.len(), acc.push(x));
        assert(acc.push(x) + rest =~= acc + items);
    }
}

/// Reading the printed form of a well-formed expression gives the expression
/// back and consumes every token.
pub proof fn law_print_then_read(e: SExpr)
    requires
        well_formed(e),
    ensures
        parse_at(lex(show(e)), 0) == Ok::<(SExpr, int), Fault>((e, lex(show(e)).len() as int)),
{
    lemma_lex_show(e, Seq::empty());
    assert(show(e) + Seq::<char>::empty() =~= show(e));
    assert(lex_from(Seq::<char>::empty(), Seq::empty()) =~= Seq::<Seq<char>>::empty());
    assert(tokens_of(e) + Seq::<Seq<char>>::empty() =~= tokens_of(e));
    let ts = tokens_of(e);
    assert(ts.subrange(0, ts.len() as int) =~= ts);
    lemma_parse_tokens(e, ts, 0);
}

} // verus!
