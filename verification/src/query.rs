//! Queries: ordered conjunctions of lifted facts.

use vstd::prelude::*;
use itertools::Itertools;
use crate::pattern::Sym;

verus! {

/// A query variable.
pub type Var = u16;

/// One position of a lifted fact.
#[derive(PartialEq, Eq, Structural, Copy, Clone, Debug)]
pub enum Atom {
    Var(Var),
    Sym(Sym),
}

/// The elements of `s`, each kept where it first occurs.
pub open spec fn distinct(s: Seq<Var>) -> Seq<Var>
    decreases s.len(),
{
    if s.len() == 0 {
        Seq::empty()
    } else {
        let init = distinct(s.drop_last());
        if init.contains(s.last()) {
            init
        } else {
            init.push(s.last())
        }
    }
}

/// `distinct` keeps exactly the values of its argument, each once.
pub proof fn lemma_distinct(s: Seq<Var>)
    ensures
        distinct(s).no_duplicates(),
        forall|v: Var| #![trigger distinct(s).contains(v)] #![trigger s.contains(v)]
            distinct(s).contains(v) <==> s.contains(v),
    decreases s.len(),
{
    if s.len() > 0 {
        let init = s.drop_last();
        lemma_distinct(init);
        let d = distinct(init);
        assert forall|v: Var| distinct(s).contains(v) <==> s.contains(v) by {
            if s.contains(v) {
                let i = choose|i: int| 0 <= i < s.len() && s[i] == v;
                if i < s.len() - 1 {
                    assert(init[i] == v);
                    assert(init.contains(v));
                    assert(d.contains(v));
                    let j = choose|j: int| 0 <= j < d.len() && d[j] == v;
                    assert(distinct(s)[j] == v);
                } else if !d.contains(s.last()) {
                    assert(distinct(s)[d.len() as int] == v);
                }
            }
            if distinct(s).contains(v) {
                let j = choose|j: int| 0 <= j < distinct(s).len() && distinct(s)[j] == v;
                if j < d.len() {
                    assert(d[j] == v);
                    assert(d.contains(v));
                    assert(init.contains(v));
                    let i = choose|i: int| 0 <= i < init.len() && init[i] == v;
                    assert(s[i] == v);
                } else {
                    assert(s[s.len() - 1] == v);
                }
            }
        }
    }
}

/// Calls `Itertools::unique` on the items of `items`. The adaptor yields an
/// item exactly when it has not been yielded before, so what comes out is the
/// input with every repetition after the first left out, in the input's order.
#[verifier::external_body]
fn unique_vars(items: &Vec<Var>) -> (out: Vec<Var>)
    ensures
        out@ == distinct(items@),
{
    items.iter().copied().unique().collect()
}

/// The variable ids of `atoms`, position by position.
pub open spec fn var_ids(atoms: Seq<Atom>) -> Seq<Var>
    decreases atoms.len(),
{
    if atoms.len() == 0 {
        Seq::empty()
    } else {
        match atoms.last() {
            Atom::Var(v) => var_ids(atoms.drop_last()).push(v),
            Atom::Sym(_) => var_ids(atoms.drop_last()),
        }
    }
}

/// Whether variable `v` stands at some position of `atoms`.
pub open spec fn mentions(atoms: Seq<Atom>, v: Var) -> bool {
    exists|p: int| 0 <= p < atoms.len() && #[trigger] atoms[p] == Atom::Var(v)
}

/// `var_ids` lists exactly the variables that stand in `atoms`.
pub proof fn lemma_var_ids(atoms: Seq<Atom>)
    ensures
        forall|v: Var| #![trigger var_ids(atoms).contains(v)] #![trigger mentions(atoms, v)]
            var_ids(atoms).contains(v) <==> mentions(atoms, v),
    decreases atoms.len(),
{
    if atoms.len() > 0 {
        let init = atoms.drop_last();
        lemma_var_ids(init);
        let ids = var_ids(atoms);
        let prev = var_ids(init);
        assert forall|v: Var| ids.contains(v) <==> mentions(atoms, v) by {
            if ids.contains(v) {
                let j = choose|j: int| 0 <= j < ids.len() && ids[j] == v;
                if j < prev.len() {
                    assert(prev[j] == v);
                    assert(prev.contains(v));
                    assert(mentions(init, v));
                    let p = choose|p: int| 0 <= p < init.len() && init[p] == Atom::Var(v);
                    assert(atoms[p] == Atom::Var(v));
                } else {
                    assert(atoms[atoms.len() - 1] == Atom::Var(v));
                }
            }
            if mentions(atoms, v) {
                let p = choose|p: int| 0 <= p < atoms.len() && atoms[p] == Atom::Var(v);
                if p < atoms.len() - 1 {
                    assert(init[p] == Atom::Var(v));
                    assert(mentions(init, v));
                    assert(prev.contains(v));
                    let j = choose|j: int| 0 <= j < prev.len() && prev[j] == v;
                    assert(ids[j] == v);
                } else {
                    assert(ids[ids.len() - 1] == v);
                }
            }
        }
    }
}

/// A tuple in which each position is a symbol or a variable.
pub struct LiftedFact(Vec<Atom>);

impl View for LiftedFact {
    type V = Seq<Atom>;

    closed spec fn view(&self) -> Seq<Atom> {
        self.0@
    }
}

impl LiftedFact {
    pub fn new(atoms: Vec<Atom>) -> (lf: LiftedFact)
        ensures
            lf@ == atoms@,
    {
        LiftedFact(atoms)
    }

    /// The variables of this fact, each once, in order of first occurrence.
    pub fn vars(&self) -> (out: Vec<Var>)
        ensures
            out@ == distinct(var_ids(self@)),
    {
        let mut ids: Vec<Var> = Vec::new();
        let mut i: usize = 0;
        while i < self.0.len()
            invariant
                i <= self.0@.len(),
                ids@ == var_ids(self.0@.take(i as int)),
            decreases self.0@.len() - i,
        {
            proof {
                assert(self.0@.take(i + 1).drop_last() =~= self.0@.take(i as int));
            }
            match self.0[i] {
                Atom::Var(v) => ids.push(v),
                Atom::Sym(_) => {},
            }
            i += 1;
        }
        proof {
            assert(self.0@.take(i as int) =~= self.0@);
        }
        unique_vars(&ids)
    }

    pub fn atoms(&self) -> (out: &[Atom])
        ensures
            out@ == self@,
    {
        self.0.as_slice()
    }
}

/// The variables of all conjuncts of `q`, one conjunct after the other, each
/// conjunct's variables once.
pub open spec fn conjunct_vars(q: Seq<Seq<Atom>>) -> Seq<Var>
    decreases q.len(),
{
    if q.len() == 0 {
        Seq::empty()
    } else {
        conjunct_vars(q.drop_last()) + distinct(var_ids(q.last()))
    }
}

/// Whether variable `v` stands in some conjunct of `q`.
pub open spec fn uses(q: Seq<Seq<Atom>>, v: Var) -> bool {
    exists|k: int| 0 <= k < q.len() && mentions(#[trigger] q[k], v)
}

/// `conjunct_vars` lists exactly the variables that stand in `q`.
pub proof fn lemma_conjunct_vars(q: Seq<Seq<Atom>>)
    ensures
        forall|v: Var| #![trigger conjunct_vars(q).contains(v)] #![trigger uses(q, v)]
            conjunct_vars(q).contains(v) <==> uses(q, v),
    decreases q.len(),
{
    if q.len() > 0 {
        let init = q.drop_last();
        lemma_conjunct_vars(init);
        lemma_var_ids(q.last());
        lemma_distinct(var_ids(q.last()));
        let all = conjunct_vars(q);
        let prev = conjunct_vars(init);
        let tail = distinct(var_ids(q.last()));
        assert forall|v: Var| all.contains(v) <==> uses(q, v) by {
            if all.contains(v) {
                let j = choose|j: int| 0 <= j < all.len() && all[j] == v;
                if j < prev.len() {
                    assert(prev[j] == v);
                    assert(prev.contains(v));
                    assert(uses(init, v));
                    let k = choose|k: int| 0 <= k < init.len() && mentions(init[k], v);
                    assert(mentions(q[k], v));
                } else {
                    assert(tail[j - prev.len()] == v);
                    assert(tail.contains(v));
                    assert(var_ids(q.last()).contains(v));
                    assert(mentions(q[q.len() - 1], v));
                }
            }
            if uses(q, v) {
                let k = choose|k: int| 0 <= k < q.len() && mentions(q[k], v);
                if k < q.len() - 1 {
                    assert(mentions(init[k], v));
                    assert(uses(init, v));
                    assert(prev.contains(v));
                    let j = choose|j: int| 0 <= j < prev.len() && prev[j] == v;
                    assert(all[j] == v);
                } else {
                    assert(var_ids(q.last()).contains(v));
                    assert(tail.contains(v));
                    let j = choose|j: int| 0 <= j < tail.len() && tail[j] == v;
                    assert(all[prev.len() + j] == v);
                }
            }
        }
    }
}

/// `n` is one more than the largest variable id of `q`, or zero when `q` has
/// no variable.
pub open spec fn declares(q: Seq<Seq<Atom>>, n: nat) -> bool {
    &&& forall|v: Var| uses(q, v) ==> v < n
    &&& n > 0 ==> n - 1 <= Var::MAX && uses(q, (n - 1) as Var)
}

/// At most one number is declared by a query.
pub proof fn lemma_declares_one(q: Seq<Seq<Atom>>, n: nat, m: nat)
    requires
        declares(q, n),
        declares(q, m),
    ensures
        n == m,
{
}

/// An ordered conjunction of lifted facts.
pub struct Query {
    elems: Vec<LiftedFact>,
}

impl View for Query {
    type V = Seq<Seq<Atom>>;

    closed spec fn view(&self) -> Seq<Seq<Atom>> {
        Seq::new(self.elems@.len(), |k: int| self.elems@[k]@)
    }
}

impl Query {
    /// The query of one conjunct.
    pub fn single(elem: &[Atom]) -> (q: Query)
        ensures
            q@ == seq![elem@],
    {
        let mut elems: Vec<LiftedFact> = Vec::new();
        elems.push(LiftedFact::new(vstd::slice::slice_to_vec(elem)));
        let q = Query { elems };
        assert(q@ =~= seq![elem@]);
        q
    }

    /// The query of the given conjuncts, in the given order.
    pub fn from(facts: Vec<Vec<Atom>>) -> (q: Query)
        ensures
            q@.len() == facts@.len(),
            forall|k: int| 0 <= k < facts@.len() ==> #[trigger] q@[k] == facts@[k]@,
    {
        let mut facts = facts;
        let ghost given = facts@;
        let mut rev: Vec<LiftedFact> = Vec::new();
        while facts.len() > 0
            invariant
                facts@.len() + rev@.len() == given.len(),
                facts@ == given.take(facts@.len() as int),
                forall|j: int|
                    0 <= j < rev@.len() ==> (#[trigger] rev@[j])@ == given[given.len() - 1 - j]@,
            decreases facts@.len(),
        {
            let ghost before = facts@;
            let last = facts.pop();
            match last {
                Some(atoms) => {
                    rev.push(LiftedFact::new(atoms));
                },
                None => {},
            }
            assert(facts@ =~= given.take(facts@.len() as int));
        }
        let mut elems: Vec<LiftedFact> = Vec::new();
        while rev.len() > 0
            invariant
                elems@.len() + rev@.len() == given.len(),
                forall|j: int|
                    0 <= j < rev@.len() ==> (#[trigger] rev@[j])@ == given[given.len() - 1 - j]@,
                forall|k: int| 0 <= k < elems@.len() ==> (#[trigger] elems@[k])@ == given[k]@,
            decreases rev@.len(),
        {
            let last = rev.pop();
            match last {
                Some(lf) => {
                    elems.push(lf);
                },
                None => {},
            }
        }
        Query { elems }
    }

    /// Number of conjuncts.
    pub fn len(&self) -> (n: usize)
        ensures
            n == self@.len(),
    {
        self.elems.len()
    }

    /// The atoms of conjunct `k`.
    pub fn conjunct(&self, k: usize) -> (out: &[Atom])
        requires
            k < self@.len(),
        ensures
            out@ == self@[k as int],
    {
        self.elems[k].atoms()
    }

    /// The variables of the query, each once, in order of first occurrence.
    pub fn vars(&self) -> (out: Vec<Var>)
        ensures
            out@ == distinct(conjunct_vars(self@)),
    {
        let mut ids: Vec<Var> = Vec::new();
        let mut k: usize = 0;
        while k < self.elems.len()
            invariant
                k <= self.elems@.len(),
                ids@ == conjunct_vars(self@.take(k as int)),
            decreases self.elems@.len() - k,
        {
            proof {
                assert(self@.take(k + 1).drop_last() =~= self@.take(k as int));
                assert(self@.take(k + 1).last() == self@[k as int]);
            }
            let mut part = self.elems[k].vars();
            ids.append(&mut part);
            k += 1;
        }
        proof {
            assert(self@.take(k as int) =~= self@);
        }
        unique_vars(&ids)
    }

    /// One more than the largest variable id, or zero without variables.
    pub fn num_vars(&self) -> (n: usize)
        ensures
            declares(self@, n as nat),
    {
        let vars = self.vars();
        proof {
            lemma_conjunct_vars(self@);
            lemma_distinct(conjunct_vars(self@));
        }
        let mut n: usize = 0;
        let mut i: usize = 0;
        while i < vars.len()
            invariant
                i <= vars@.len(),
                n <= Var::MAX + 1,
                forall|j: int| 0 <= j < i ==> (#[trigger] vars@[j]) < n,
                n > 0 ==> vars@.contains((n - 1) as Var),
            decreases vars@.len() - i,
        {
            let v: Var = vars[i];
            if v as usize >= n {
                n = v as usize + 1;
                assert(vars@[i as int] == (n - 1) as Var);
            }
            i += 1;
        }
        proof {
            assert forall|v: Var| uses(self@, v) implies v < n by {
                assert(vars@.contains(v));
            }
        }
        n
    }
}

} // verus!
