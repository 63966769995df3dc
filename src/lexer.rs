use vstd::prelude::*;

verus! {

/// White space as Unicode's White_Space property lists it.
pub open spec fn is_space(c: char) -> bool {
    ('\u{9}' <= c && c <= '\u{d}') || c == ' ' || c == '\u{85}' || c == '\u{a0}'
        || c == '\u{1680}' || ('\u{2000}' <= c && c <= '\u{200a}') || c == '\u{2028}'
        || c == '\u{2029}' || c == '\u{202f}' || c == '\u{205f}' || c == '\u{3000}'
}

pub open spec fn is_paren(c: char) -> bool {
    c == '(' || c == ')'
}

/// A character that can stand inside an atom token.
pub open spec fn is_atom_char(c: char) -> bool {
    !is_space(c) && !is_paren(c)
}

/// The pending atom, as a token sequence of length zero or one.
pub open spec fn flush(cur: Seq<char>) -> Seq<Seq<char>> {
    if cur.len() == 0 {
        Seq::empty()
    } else {
        seq![cur]
    }
}

/// The tokens of `s`, where `cur` is the part of an atom already read.
/// Each parenthesis is a token of its own, white space separates tokens,
/// and every other character extends the current atom.
pub open spec fn lex_from(s: Seq<char>, cur: Seq<char>) -> Seq<Seq<char>>
    decreases s.len(),
{
    if s.len() == 0 {
        flush(cur)
    } else if is_paren(s[0]) {
        flush(cur) + seq![seq![s[0]]] + lex_from(s.drop_first(), Seq::empty())
    } else if is_space(s[0]) {
        flush(cur) + lex_from(s.drop_first(), Seq::empty())
    } else {
        lex_from(s.drop_first(), cur.push(s[0]))
    }
}

/// The token sequence of a source text.
pub open spec fn lex(s: Seq<char>) -> Seq<Seq<char>> {
    lex_from(s, Seq::empty())
}

/// The texts of a sequence of strings.
pub open spec fn texts(v: Seq<String>) -> Seq<Seq<char>> {
    Seq::new(v.len(), |i: int| v[i]@)
}

/// Whether `c` is white space.
pub fn is_whitespace(c: char) -> (r: bool)
    ensures
        r == is_space(c),
{
    ('\u{9}' <= c && c <= '\u{d}') || c == ' ' || c == '\u{85}' || c == '\u{a0}'
        || c == '\u{1680}' || ('\u{2000}' <= c && c <= '\u{200a}') || c == '\u{2028}'
        || c == '\u{2029}' || c == '\u{202f}' || c == '\u{205f}' || c == '\u{3000}'
}

fn push_piece(out: &mut Vec<String>, input: &str, from: usize, to: usize)
    requires
        from <= to <= input@.len(),
    ensures
        texts(final(out)@) == texts(old(out)@).push(input@.subrange(from as int, to as int)),
{
    let piece = input.substring_char(from, to);
    out.push(String::from_str(piece));
    assert(texts(out@) =~= texts(old(out)@).push(input@.subrange(from as int, to as int)));
}

/// Splits a source text into tokens: `(`, `)`, and the maximal runs of
/// characters that are neither white space nor parentheses.
pub fn tokenize(input: &str) -> (r: Vec<String>)
    ensures
        texts(r@) == lex(input@),
{
    let ghost s = input@;
    let n = input.unicode_len();
    let mut out: Vec<String> = Vec::new();
    let mut start: usize = 0;
    let mut i: usize = 0;
    assert(s.subrange(0, n as int) =~= s);
    assert(s.subrange(0, 0) =~= Seq::<char>::empty());
    assert(texts(out@) =~= Seq::<Seq<char>>::empty());
    assert(texts(out@) + lex(s) =~= lex(s));
    while i < n
        invariant
            n == s.len(),
            s == input@,
            start <= i <= n,
            texts(out@) + lex_from(s.subrange(i as int, n as int), s.subrange(start as int, i as int))
                == lex(s),
        decreases n - i,
    {
        let c = input.get_char(i);
        let ghost rest = s.subrange(i as int, n as int);
        let ghost cur = s.subrange(start as int, i as int);
        assert(rest[0] == c);
        assert(rest.drop_first() =~= s.subrange(i + 1, n as int));
        let ghost old_out = texts(out@);
        if c == '(' || c == ')' {
            if start < i {
                push_piece(&mut out, input, start, i);
            }
            push_piece(&mut out, input, i, i + 1);
            assert(s.subrange(i as int, i + 1) =~= seq![c]);
            assert(s.subrange(i + 1, i + 1) =~= Seq::<char>::empty());
            assert(texts(out@) =~= old_out + flush(cur) + seq![seq![c]]);
            assert(old_out + (flush(cur) + seq![seq![c]] + lex_from(s.subrange(i + 1, n as int), Seq::empty()))
                =~= texts(out@) + lex_from(s.subrange(i + 1, n as int), Seq::empty()));
            start = i + 1;
        } else if is_whitespace(c) {
            if start < i {
                push_piece(&mut out, input, start, i);
            }
            assert(s.subrange(i + 1, i + 1) =~= Seq::<char>::empty());
            assert(texts(out@) =~= old_out + flush(cur));
            assert(old_out + (flush(cur) + lex_from(s.subrange(i + 1, n as int), Seq::empty()))
                =~= texts(out@) + lex_from(s.subrange(i + 1, n as int), Seq::empty()));
            start = i + 1;
        } else {
            assert(cur.push(c) =~= s.subrange(start as int, i + 1));
        }
        i = i + 1;
    }
    assert(s.subrange(n as int, n as int) =~= Seq::<char>::empty());
    if start < n {
        push_piece(&mut out, input, start, n);
    }
    assert(texts(out@) =~= texts(out@) + Seq::<Seq<char>>::empty());
    out
}

/// A token as the lexer makes them: a parenthesis, or a non-empty run of
/// atom characters.
pub open spec fn valid_token(t: Seq<char>) -> bool {
    t == seq!['('] || t == seq![')'] || (t.len() > 0 && forall|i: int|
        0 <= i < t.len() ==> is_atom_char(#[trigger] t[i]))
}

/// Tokens joined with single spaces.
pub open spec fn join_tokens(ts: Seq<Seq<char>>) -> Seq<char>
    decreases ts.len(),
{
    if ts.len() == 0 {
        Seq::empty()
    } else if ts.len() == 1 {
        ts[0]
    } else {
        join_tokens(ts.drop_last()) + seq![' '] + ts.last()
    }
}

proof fn lemma_lex_splits_at_space(a: Seq<char>, b: Seq<char>, cur: Seq<char>)
    ensures
        lex_from(a + seq![' '] + b, cur) == lex_from(a, cur) + lex_from(b, Seq::empty()),
    decreases a.len(),
{
    let s = a + seq![' '] + b;
    if a.len() == 0 {
        assert(s.drop_first() =~= b);
        assert(s[0] == ' ');
    } else {
        assert(s[0] == a[0]);
        assert(s.drop_first() =~= a.drop_first() + seq![' '] + b);
        if is_paren(a[0]) || is_space(a[0]) {
            lemma_lex_splits_at_space(a.drop_first(), b, Seq::empty());
        } else {
            lemma_lex_splits_at_space(a.drop_first(), b, cur.push(a[0]));
        }
    }
}

proof fn lemma_lex_atom_run(t: Seq<char>, cur: Seq<char>)
    requires
        forall|i: int| 0 <= i < t.len() ==> is_atom_char(#[trigger] t[i]),
    ensures
        lex_from(t, cur) == flush(cur + t),
    decreases t.len(),
{
    if t.len() == 0 {
        assert(cur + t =~= cur);
    } else {
        assert forall|i: int| 0 <= i < t.drop_first().len() implies is_atom_char(
            #[trigger] t.drop_first()[i],
        ) by {
            assert(t.drop_first()[i] == t[i + 1]);
        }
        assert(is_atom_char(t[0]));
        lemma_lex_atom_run(t.drop_first(), cur.push(t[0]));
        assert(cur.push(t[0]) + t.drop_first() =~= cur + t);
    }
}

proof fn lemma_lex_token(t: Seq<char>)
    requires
        valid_token(t),
    ensures
        lex(t) == seq![t],
{
    if t == seq!['('] || t == seq![')'] {
        assert(t.drop_first() =~= Seq::<char>::empty());
        assert(seq![t[0]] =~= t);
        assert(lex_from(t.drop_first(), Seq::empty()) == Seq::<Seq<char>>::empty());
        assert(flush(Seq::empty()) + seq![seq![t[0]]] + Seq::<Seq<char>>::empty() =~= seq![t]);
    } else {
        lemma_lex_atom_run(t, Seq::empty());
        assert(Seq::<char>::empty() + t =~= t);
    }
}

proof fn lemma_lex_join(ts: Seq<Seq<char>>)
    requires
        forall|i: int| 0 <= i < ts.len() ==> valid_token(#[trigger] ts[i]),
    ensures
        lex(join_tokens(ts)) == ts,
    decreases ts.len(),
{
    if ts.len() == 1 {
        lemma_lex_token(ts[0]);
        assert(seq![ts[0]] =~= ts);
    } else if ts.len() > 1 {
        let p = ts.drop_last();
        assert forall|i: int| 0 <= i < p.len() implies valid_token(#[trigger] p[i]) by {
            assert(p[i] == ts[i]);
        }
        lemma_lex_join(p);
        lemma_lex_splits_at_space(join_tokens(p), ts.last(), Seq::empty());
        lemma_lex_token(ts.last());
        assert(p + seq![ts.last()] =~= ts);
    } else {
        assert(join_tokens(ts) =~= Seq::<char>::empty());
        assert(ts =~= Seq::<Seq<char>>::empty());
    }
}

proof fn lemma_flush_valid(cur: Seq<char>)
    requires
        forall|i: int| 0 <= i < cur.len() ==> is_atom_char(#[trigger] cur[i]),
    ensures
        forall|i: int| 0 <= i < flush(cur).len() ==> valid_token(#[trigger] flush(cur)[i]),
{
}

proof fn lemma_lex_valid(s: Seq<char>, cur: Seq<char>)
    requires
        forall|i: int| 0 <= i < cur.len() ==> is_atom_char(#[trigger] cur[i]),
    ensures
        forall|i: int| 0 <= i < lex_from(s, cur).len() ==> valid_token(#[trigger] lex_from(s, cur)[i]),
    decreases s.len(),
{
    lemma_flush_valid(cur);
    if s.len() > 0 {
        let f = flush(cur);
        if is_paren(s[0]) {
            let rest = lex_from(s.drop_first(), Seq::empty());
            lemma_lex_valid(s.drop_first(), Seq::empty());
            let mid = seq![seq![s[0]]];
            assert(valid_token(mid[0]));
            let r = f + mid + rest;
            assert(lex_from(s, cur) == r);
            assert forall|i: int| 0 <= i < r.len() implies valid_token(#[trigger] r[i]) by {
                if i < f.len() {
                    assert(r[i] == f[i]);
                } else if i == f.len() {
                    assert(r[i] == mid[0]);
                } else {
                    assert(r[i] == rest[i - f.len() - 1]);
                }
            }
        } else if is_space(s[0]) {
            let rest = lex_from(s.drop_first(), Seq::empty());
            lemma_lex_valid(s.drop_first(), Seq::empty());
            let r = f + rest;
            assert(lex_from(s, cur) == r);
            assert forall|i: int| 0 <= i < r.len() implies valid_token(#[trigger] r[i]) by {
                if i < f.len() {
                    assert(r[i] == f[i]);
                } else {
                    assert(r[i] == rest[i - f.len()]);
                }
            }
        } else {
            let next = cur.push(s[0]);
            assert forall|i: int| 0 <= i < next.len() implies is_atom_char(#[trigger] next[i]) by {
                if i < cur.len() {
                    assert(next[i] == cur[i]);
                }
            }
            lemma_lex_valid(s.drop_first(), next);
            assert(lex_from(s, cur) == lex_from(s.drop_first(), next));
        }
    }
}

/// Joining the tokens of a text with single spaces and lexing again gives the
/// same tokens.
pub proof fn law_relex_joined_tokens(s: Seq<char>)
    ensures
        lex(join_tokens(lex(s))) == lex(s),
{
    lemma_lex_valid(s, Seq::empty());
    lemma_lex_join(lex(s));
}

} // verus!
