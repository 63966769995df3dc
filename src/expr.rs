use vstd::prelude::*;

verus! {

/// The mathematical model of an expression: symbols are character sequences,
/// numbers are mathematical integers, lists are sequences of models.
pub enum SExpr {
    Sym(Seq<char>),
    Num(int),
    List(Seq<SExpr>),
}

/// An expression of the language: a symbol, a number or a list. Numbers
/// are 64-bit signed integers; a token such as `1.5` reads as a symbol, and
/// arithmetic whose result leaves the range is an error.
#[derive(Debug, PartialEq)]
pub enum Expr {
    Symbol(String),
    Number(i64),
    List(Vec<Expr>),
}

/// The model of an expression.
pub open spec fn model(e: Expr) -> SExpr
    decreases e,
{
    match e {
        Expr::Symbol(s) => SExpr::Sym(s@),
        Expr::Number(n) => SExpr::Num(n as int),
        Expr::List(v) => SExpr::List(view_seq(v@)),
    }
}

/// The models of a sequence of expressions, element by element.
pub open spec fn view_seq(s: Seq<Expr>) -> Seq<SExpr>
    decreases s,
{
    if s.len() == 0 {
        Seq::empty()
    } else {
        view_seq(s.subrange(0, s.len() - 1)).push(model(s[s.len() - 1]))
    }
}

impl View for Expr {
    type V = SExpr;

    open spec fn view(&self) -> SExpr {
        model(*self)
    }
}

pub proof fn lemma_view_seq(s: Seq<Expr>)
    ensures
        view_seq(s).len() == s.len(),
        forall|i: int| 0 <= i < s.len() ==> #[trigger] view_seq(s)[i] == s[i]@,
    decreases s.len(),
{
    if s.len() > 0 {
        let p = s.subrange(0, s.len() - 1);
        lemma_view_seq(p);
        assert forall|i: int| 0 <= i < s.len() implies #[trigger] view_seq(s)[i] == s[i]@ by {
            if i < s.len() - 1 {
                assert(p[i] == s[i]);
            }
        }
    }
}

pub proof fn lemma_list_model(v: Vec<Expr>)
    ensures
        Expr::List(v)@ == SExpr::List(view_seq(v@)),
{
}

pub proof fn lemma_view_seq_ext(a: Seq<Expr>, b: Seq<Expr>)
    requires
        a.len() == b.len(),
        forall|i: int| 0 <= i < a.len() ==> a[i]@ == b[i]@,
    ensures
        view_seq(a) == view_seq(b),
{
    lemma_view_seq(a);
    lemma_view_seq(b);
    assert(view_seq(a) =~= view_seq(b));
}

impl Clone for Expr {
    fn clone(&self) -> (r: Expr)
        ensures
            r@ == self@,
    {
        self.deep_copy()
    }
}

impl Expr {
    /// A copy of the expression with the same model.
    pub fn deep_copy(&self) -> (r: Expr)
        ensures
            r@ == self@,
        decreases self,
    {
        match self {
            Expr::Symbol(s) => Expr::Symbol(s.clone()),
            Expr::Number(n) => Expr::Number(*n),
            Expr::List(v) => {
                let mut out: Vec<Expr> = Vec::new();
                let mut i: usize = 0;
                while i < v.len()
                    invariant
                        i <= v.len(),
                        out.len() == i,
                        *self == Expr::List(*v),
                        forall|j: int| 0 <= j < i ==> out@[j]@ == v@[j]@,
                    decreases v.len() - i,
                {
                    proof {
                        assert(decreases_to!(*v => v@[i as int]));
                        assert(decreases_to!(*self => (*self)->List_0));
                        assert(decreases_to!(*self => v@[i as int]));
                    }
                    out.push(v[i].deep_copy());
                    i = i + 1;
                }
                proof {
                    lemma_view_seq_ext(out@, v@);
                }
                Expr::List(out)
            }
        }
    }
}

pub open spec fn digit_char(d: nat) -> char {
    if d == 0 { '0' } else if d == 1 { '1' } else if d == 2 { '2' } else if d == 3 { '3' }
    else if d == 4 { '4' } else if d == 5 { '5' } else if d == 6 { '6' } else if d == 7 { '7' }
    else if d == 8 { '8' } else { '9' }
}

/// The decimal digits of a natural number, without leading zeros.
pub open spec fn digits_of(n: nat) -> Seq<char>
    decreases n,
{
    if n < 10 {
        seq![digit_char(n)]
    } else {
        digits_of(n / 10).push(digit_char(n % 10))
    }
}

/// The decimal form of an integer, with `-` before a negative one.
pub open spec fn int_text(v: int) -> Seq<char> {
    if v < 0 {
        seq!['-'] + digits_of((-v) as nat)
    } else {
        digits_of(v as nat)
    }
}

/// The printable form of an expression.
pub open spec fn show(e: SExpr) -> Seq<char>
    decreases e, 1int,
{
    match e {
        SExpr::Sym(s) => s,
        SExpr::Num(v) => int_text(v),
        SExpr::List(items) => seq!['('] + show_all(items) + seq![')'],
    }
}

/// The printable forms of a sequence of expressions, separated by single spaces.
pub open spec fn show_all(items: Seq<SExpr>) -> Seq<char>
    decreases items, 0int,
{
    if items.len() == 0 {
        Seq::empty()
    } else if items.len() == 1 {
        show(items[0])
    } else {
        show_all(items.subrange(0, items.len() - 1)) + seq![' '] + show(items[items.len() - 1])
    }
}

fn append_digits(out: &mut String, n: u64)
    ensures
        final(out)@ == old(out)@ + digits_of(n as nat),
    decreases n,
{
    if n >= 10 {
        append_digits(out, n / 10);
    }
    let d = (n % 10) as usize;
    let table = "0123456789";
    proof {
        reveal_strlit("0123456789");
    }
    let digit = table.substring_char(d, d + 1);
    assert(digit@ =~= seq![digit_char(d as nat)]);
    out.append(digit);
    assert(out@ =~= old(out)@ + digits_of(n as nat));
}

fn append_text(e: &Expr, out: &mut String)
    ensures
        final(out)@ == old(out)@ + show(e@),
    decreases e,
{
    match e {
        Expr::Symbol(s) => {
            out.append(s.as_str());
        },
        Expr::Number(n) => {
            if *n < 0 {
                out.append("-");
                proof {
                    reveal_strlit("-");
                }
                let m = (0i128 - *n as i128) as u64;
                append_digits(out, m);
                assert(out@ =~= old(out)@ + show(e@));
            } else {
                append_digits(out, *n as u64);
            }
        },
        Expr::List(items) => {
            proof {
                lemma_list_model(*items);
                lemma_view_seq(items@);
                reveal_strlit("(");
                reveal_strlit(")");
            }
            let ghost s = view_seq(items@);
            let ghost start = old(out)@ + seq!['('];
            out.append("(");
            let mut i: usize = 0;
            assert(s.subrange(0, 0) =~= Seq::<SExpr>::empty());
            assert(out@ =~= start + show_all(s.subrange(0, 0)));
            while i < items.len()
                invariant
                    *e == Expr::List(*items),
                    s == view_seq(items@),
                    s.len() == items@.len(),
                    forall|j: int| 0 <= j < items@.len() ==> #[trigger] s[j] == items@[j]@,
                    i <= items@.len(),
                    out@ == start + show_all(s.subrange(0, i as int)),
                decreases items@.len() - i,
            {
                proof {
                    assert(decreases_to!(*e => (*e)->List_0));
                    assert(decreases_to!(*items => items@[i as int]));
                    assert(s.subrange(0, i + 1).subrange(0, i as int) =~= s.subrange(0, i as int));
                    assert(s.subrange(0, i + 1)[i as int] == s[i as int]);
                    reveal_strlit(" ");
                    assert(" "@ =~= seq![' ']);
                }
                if i > 0 {
                    out.append(" ");
                }
                append_text(&items[i], out);
                assert(out@ =~= start + show_all(s.subrange(0, i + 1)));
                i = i + 1;
            }
            out.append(")");
            assert(s.subrange(0, s.len() as int) =~= s);
            assert(out@ =~= old(out)@ + show(e@));
        },
    }
}

impl Expr {
    /// The printable form of the expression.
    pub fn to_text(&self) -> (r: String)
        ensures
            r@ == show(self@),
    {
        let mut out = String::new();
        append_text(self, &mut out);
        assert(out@ =~= show(self@));
        out
    }
}

} // verus!
