use vstd::prelude::*;
use crate::expr::{Expr, SExpr};

verus! {

/// The bindings of a sequence of entries, later entries over earlier ones.
pub open spec fn bindings_of(s: Seq<(String, Expr)>) -> Map<Seq<char>, SExpr>
    decreases s.len(),
{
    if s.len() == 0 {
        Map::empty()
    } else {
        bindings_of(s.drop_last()).insert(s.last().0@, s.last().1@)
    }
}

/// No two entries have the same name.
pub open spec fn keys_unique(s: Seq<(String, Expr)>) -> bool {
    forall|i: int, j: int| 0 <= i < j < s.len() ==> s[i].0@ != s[j].0@
}

proof fn lemma_bindings_lookup(s: Seq<(String, Expr)>, k: Seq<char>)
    requires
        keys_unique(s),
    ensures
        (forall|i: int| 0 <= i < s.len() ==> s[i].0@ != k) ==> !bindings_of(s).contains_key(k),
        forall|i: int|
            0 <= i < s.len() && s[i].0@ == k ==> bindings_of(s).contains_key(k) && bindings_of(
                s,
            )[k] == (#[trigger] s[i]).1@,
    decreases s.len(),
{
    if s.len() > 0 {
        let p = s.drop_last();
        assert(keys_unique(p)) by {
            assert forall|i: int, j: int| 0 <= i < j < p.len() implies p[i].0@ != p[j].0@ by {
                assert(p[i] == s[i] && p[j] == s[j]);
            }
        }
        lemma_bindings_lookup(p, k);
        assert forall|i: int| 0 <= i < s.len() && s[i].0@ == k implies bindings_of(s).contains_key(k)
            && bindings_of(s)[k] == (#[trigger] s[i]).1@ by {
            if i < s.len() - 1 {
                assert(p[i] == s[i]);
                assert(s[i].0@ != s[s.len() - 1].0@);
                assert(bindings_of(p).contains_key(k) && bindings_of(p)[k] == p[i].1@);
            }
        }
        if forall|i: int| 0 <= i < s.len() ==> s[i].0@ != k {
            assert forall|i: int| 0 <= i < p.len() implies p[i].0@ != k by {
                assert(p[i] == s[i]);
            }
        }
    }
}

proof fn lemma_bindings_update(s: Seq<(String, Expr)>, i: int, e: (String, Expr))
    requires
        keys_unique(s),
        0 <= i < s.len(),
        s[i].0@ == e.0@,
    ensures
        bindings_of(s.update(i, e)) == bindings_of(s).insert(e.0@, e.1@),
        keys_unique(s.update(i, e)),
    decreases s.len(),
{
    let t = s.update(i, e);
    if i == s.len() - 1 {
        assert(t.drop_last() =~= s.drop_last());
        assert(bindings_of(t) =~= bindings_of(s).insert(e.0@, e.1@));
    } else {
        lemma_bindings_update(s.drop_last(), i, e);
        assert(t.drop_last() =~= s.drop_last().update(i, e));
        assert(bindings_of(t) =~= bindings_of(s).insert(e.0@, e.1@));
    }
}

proof fn lemma_bindings_same_views(a: Seq<(String, Expr)>, b: Seq<(String, Expr)>)
    requires
        a.len() == b.len(),
        forall|j: int| 0 <= j < a.len() ==> #[trigger] a[j].0@ == b[j].0@ && a[j].1@ == b[j].1@,
    ensures
        bindings_of(a) == bindings_of(b),
        keys_unique(a) == keys_unique(b),
    decreases a.len(),
{
    if a.len() > 0 {
        let pa = a.drop_last();
        let pb = b.drop_last();
        assert forall|j: int| 0 <= j < pa.len() implies #[trigger] pa[j].0@ == pb[j].0@ && pa[j].1@
            == pb[j].1@ by {
            assert(pa[j] == a[j] && pb[j] == b[j]);
        }
        lemma_bindings_same_views(pa, pb);
        assert(a[a.len() - 1].0@ == b[b.len() - 1].0@);
    }
    assert(keys_unique(a) == keys_unique(b)) by {
        if keys_unique(a) {
            assert forall|i: int, j: int| 0 <= i < j < b.len() implies b[i].0@ != b[j].0@ by {
                assert(a[i].0@ == b[i].0@ && a[j].0@ == b[j].0@);
            }
        }
        if keys_unique(b) {
            assert forall|i: int, j: int| 0 <= i < j < a.len() implies a[i].0@ != a[j].0@ by {
                assert(a[i].0@ == b[i].0@ && a[j].0@ == b[j].0@);
            }
        }
    }
}

/// The variables that evaluation has defined.
#[derive(Debug)]
pub struct Environment {
    symbols: Vec<(String, Expr)>,
}

impl View for Environment {
    type V = Map<Seq<char>, SExpr>;

    closed spec fn view(&self) -> Map<Seq<char>, SExpr> {
        bindings_of(self.symbols@)
    }
}

impl Environment {
    /// The environment's internal invariant: each name is bound once.
    pub closed spec fn wf(&self) -> bool {
        keys_unique(self.symbols@)
    }

    /// An environment with no variables defined.
    pub fn new() -> (r: Environment)
        ensures
            r.wf(),
            r@ == Map::<Seq<char>, SExpr>::empty(),
    {
        Environment { symbols: Vec::new() }
    }

    /// A copy of the environment with the same bindings.
    pub fn snapshot(&self) -> (r: Environment)
        requires
            self.wf(),
        ensures
            r.wf(),
            r@ == self@,
    {
        let mut copy: Vec<(String, Expr)> = Vec::new();
        let mut i: usize = 0;
        while i < self.symbols.len()
            invariant
                i <= self.symbols@.len(),
                copy@.len() == i,
                forall|j: int| 0 <= j < i ==> #[trigger] copy@[j].0@ == self.symbols@[j].0@
                    && copy@[j].1@ == self.symbols@[j].1@,
            decreases self.symbols@.len() - i,
        {
            let entry = &self.symbols[i];
            copy.push((entry.0.clone(), entry.1.deep_copy()));
            i = i + 1;
        }
        proof {
            lemma_bindings_same_views(copy@, self.symbols@);
        }
        Environment { symbols: copy }
    }

    /// The value bound to `name`, if any.
    pub fn lookup(&self, name: &String) -> (r: Option<Expr>)
        requires
            self.wf(),
        ensures
            match r {
                Some(v) => self@.contains_key(name@) && v@ == self@[name@],
                None => !self@.contains_key(name@),
            },
    {
        let mut i: usize = 0;
        while i < self.symbols.len()
            invariant
                self.wf(),
                i <= self.symbols@.len(),
                forall|j: int| 0 <= j < i ==> self.symbols@[j].0@ != name@,
            decreases self.symbols@.len() - i,
        {
            if self.symbols[i].0 == *name {
                proof {
                    lemma_bindings_lookup(self.symbols@, name@);
                }
                return Some(self.symbols[i].1.deep_copy());
            }
            i = i + 1;
        }
        proof {
            lemma_bindings_lookup(self.symbols@, name@);
        }
        None
    }

    /// Binds `name` to `value`, replacing an earlier binding of the name.
    pub fn bind(&mut self, name: String, value: Expr)
        requires
            old(self).wf(),
        ensures
            final(self).wf(),
            final(self)@ == old(self)@.insert(name@, value@),
    {
        let mut i: usize = 0;
        while i < self.symbols.len()
            invariant
                self.symbols@ == old(self).symbols@,
                keys_unique(self.symbols@),
                i <= self.symbols@.len(),
                forall|j: int| 0 <= j < i ==> self.symbols@[j].0@ != name@,
            decreases self.symbols@.len() - i,
        {
            if self.symbols[i].0 == name {
                proof {
                    lemma_bindings_update(self.symbols@, i as int, (name, value));
                }
                let ghost e = (name, value);
                self.symbols.set(i, (name, value));
                assert(self.symbols@ == old(self).symbols@.update(i as int, e));
                return;
            }
            i = i + 1;
        }
        let ghost before = self.symbols@;
        self.symbols.push((name, value));
        assert(self.symbols@.drop_last() =~= before);
    }
}

} // verus!
