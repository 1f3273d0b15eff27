//! The frontend over strings: facts of symbol names, and queries in which a
//! name that begins with a question mark is a variable.

use vstd::prelude::*;
use crate::pattern::Sym;
use crate::query::{Atom, Query, Var, declares, mentions, uses};
use crate::store::{Database, Error, supported_arity};
use crate::evaluator::{
    QueryState, atom_reads, next_spec, supported_at, supports, valid, well_formed,
};
use crate::interner::{Interner, intern_one, is_variable, is_variable_name};

verus! {

/// The id that stands for a symbol that was never interned. No stored fact
/// holds it.
pub const NO_SYMBOL: Sym = 0xffff_ffffu32;

/// The strings of a tuple of names.
pub open spec fn texts(names: Seq<&str>) -> Seq<Seq<char>> {
    Seq::new(names.len(), |i: int| names[i]@)
}

/// The table `t` after interning `names` one after the other.
pub open spec fn intern_all(t: Seq<Seq<char>>, names: Seq<Seq<char>>) -> Seq<Seq<char>>
    decreases names.len(),
{
    if names.len() == 0 {
        t
    } else {
        intern_one(intern_all(t, names.drop_last()), names.last())
    }
}

/// The table `w` after interning those of `names` that are variables.
pub open spec fn intern_vars(w: Seq<Seq<char>>, names: Seq<Seq<char>>) -> Seq<Seq<char>>
    decreases names.len(),
{
    if names.len() == 0 {
        w
    } else if is_variable_name(names.last()) {
        intern_one(intern_vars(w, names.drop_last()), names.last())
    } else {
        intern_vars(w, names.drop_last())
    }
}

/// The variables of a query over names, each once, in order of first
/// occurrence.
pub open spec fn query_vars(q: Seq<Seq<Seq<char>>>) -> Seq<Seq<char>>
    decreases q.len(),
{
    if q.len() == 0 {
        Seq::empty()
    } else {
        intern_vars(query_vars(q.drop_last()), q.last())
    }
}

/// `atom` is what the name `s` compiles to: a variable becomes its place in
/// `vars`, a known symbol its place in `symbols`, an unknown one `NO_SYMBOL`.
pub open spec fn atom_compiled(
    s: Seq<char>,
    atom: Atom,
    symbols: Seq<Seq<char>>,
    vars: Seq<Seq<char>>,
) -> bool {
    if is_variable_name(s) {
        atom matches Atom::Var(v) && v < vars.len() && vars[v as int] == s
    } else {
        atom matches Atom::Sym(x) && if symbols.contains(s) {
            x < symbols.len() && symbols[x as int] == s
        } else {
            x == NO_SYMBOL
        }
    }
}

/// `atoms` is what the conjunct `names` compiles to, position by position.
pub open spec fn conjunct_compiled(
    names: Seq<Seq<char>>,
    atoms: Seq<Atom>,
    symbols: Seq<Seq<char>>,
    vars: Seq<Seq<char>>,
) -> bool {
    &&& atoms.len() == names.len()
    &&& forall|p: int|
        0 <= p < names.len() ==> atom_compiled(names[p], #[trigger] atoms[p], symbols, vars)
}

/// `cq` is what the query `q` compiles to, conjunct by conjunct.
pub open spec fn query_compiled(
    q: Seq<Seq<Seq<char>>>,
    cq: Seq<Seq<Atom>>,
    symbols: Seq<Seq<char>>,
    vars: Seq<Seq<char>>,
) -> bool {
    &&& cq.len() == q.len()
    &&& forall|k: int| 0 <= k < q.len() ==> conjunct_compiled(q[k], #[trigger] cq[k], symbols, vars)
}

/// Every symbol of every stored fact is below `n`.
pub open spec fn symbols_below(db: Database, n: nat) -> bool {
    forall|a: int, i: int, p: int|
        0 <= i < db.bucket(a).len() && 0 <= p < db.bucket(a)[i].len() ==> (#[trigger] db.bucket(
            a,
        )[i][p]) < n
}

/// A conjunct that holds a symbol which no stored fact holds has no support,
/// so the query has no valid support.
pub proof fn law_unknown_symbol(db: Database, q: Seq<Seq<Atom>>, k: int, p: int, sym: Sym, n: nat)
    requires
        symbols_below(db, n),
        sym >= n,
        0 <= k < q.len(),
        0 <= p < q[k].len(),
        q[k][p] == Atom::Sym(sym),
    ensures
        forall|s: Seq<int>| !valid(db, q, s),
{
    assert forall|s: Seq<int>| !valid(db, q, s) by {
        if valid(db, q, s) {
            let a = choose|a: Seq<Sym>| supports(db, q, s, a);
            assert(supported_at(db, q, k, s[k], a));
            let f = db.bucket(q[k].len() as int)[s[k]];
            assert(atom_reads(q[k][p], f[p], a));
            assert(db.bucket(q[k].len() as int)[s[k]][p] < n);
        }
    }
}

/// A query over names.
pub struct NamedQuery {
    elems: Vec<Vec<String>>,
}

impl NamedQuery {
    /// The names of each conjunct.
    pub closed spec fn view(&self) -> Seq<Seq<Seq<char>>> {
        Seq::new(
            self.elems@.len(),
            |k: int| Seq::new(self.elems@[k]@.len(), |p: int| self.elems@[k]@[p]@),
        )
    }

    /// The query of no conjuncts.
    pub fn new() -> (q: NamedQuery)
        ensures
            q@ == Seq::<Seq<Seq<char>>>::empty(),
    {
        let q = NamedQuery { elems: Vec::new() };
        assert(q@ =~= Seq::<Seq<Seq<char>>>::empty());
        q
    }

    /// Adds a conjunct after those that the query has.
    pub fn and(&mut self, elem: &[&str])
        ensures
            final(self)@ == old(self)@.push(texts(elem@)),
    {
        let mut names: Vec<String> = Vec::new();
        let mut p: usize = 0;
        while p < elem.len()
            invariant
                p <= elem@.len(),
                names@.len() == p,
                forall|i: int| 0 <= i < p ==> (#[trigger] names@[i])@ == elem@[i]@,
            decreases elem@.len() - p,
        {
            names.push(elem[p].to_owned());
            p += 1;
        }
        self.elems.push(names);
        proof {
            let k = old(self)@.len() as int;
            assert(self@[k] =~= texts(elem@));
            assert(self@ =~= old(self)@.push(texts(elem@)));
        }
    }

    /// The query of one conjunct.
    pub fn single(elem: &[&str]) -> (q: NamedQuery)
        ensures
            q@ == seq![texts(elem@)],
    {
        let mut q = NamedQuery::new();
        q.and(elem);
        assert(q@ =~= seq![texts(elem@)]);
        q
    }
}

/// Some position of `q` holds the variable name `s`.
pub open spec fn names_var(q: Seq<Seq<Seq<char>>>, s: Seq<char>) -> bool {
    exists|k: int, p: int|
        0 <= k < q.len() && 0 <= p < q[k].len() && #[trigger] q[k][p] == s && is_variable_name(s)
}

/// `w` holds every variable name of `q` that stands before position `p` of
/// conjunct `k`.
pub open spec fn covered(q: Seq<Seq<Seq<char>>>, k: int, p: int, w: Seq<Seq<char>>) -> bool {
    forall|i: int, j: int|
        0 <= i < q.len() && 0 <= j < q[i].len() && (i < k || (i == k && j < p)) && is_variable_name(
            #[trigger] q[i][j],
        ) ==> w.contains(q[i][j])
}

/// The most variables that a query can name.
pub const MAX_VARS: usize = 65536;

impl NamedQuery {
    /// The variable names of the query, each once, in order of first
    /// occurrence.
    pub fn vars(&self) -> (w: Interner)
        ensures
            w.wf(),
            w@ == query_vars(self@),
            covered(self@, self@.len() as int, 0, w@),
            forall|i: int| 0 <= i < w@.len() ==> names_var(self@, #[trigger] w@[i]),
    {
        let ghost q = self@;
        let mut w = Interner::new();
        let mut k: usize = 0;
        while k < self.elems.len()
            invariant
                q == self@,
                k <= q.len(),
                q.len() == self.elems@.len(),
                w.wf(),
                w@ == query_vars(q.take(k as int)),
                covered(q, k as int, 0, w@),
                forall|i: int| 0 <= i < w@.len() ==> names_var(q, #[trigger] w@[i]),
            decreases q.len() - k,
        {
            let names = &self.elems[k];
            let mut p: usize = 0;
            proof {
                assert(q.take(k + 1).drop_last() =~= q.take(k as int));
                assert(q[k as int].take(0) =~= Seq::<Seq<char>>::empty());
            }
            while p < names.len()
                invariant
                    q == self@,
                    k < q.len(),
                    names@ == self.elems@[k as int]@,
                    names@.len() == q[k as int].len(),
                    p <= names@.len(),
                    w.wf(),
                    w@ == intern_vars(query_vars(q.take(k as int)), q[k as int].take(p as int)),
                    covered(q, k as int, p as int, w@),
                    forall|i: int| 0 <= i < w@.len() ==> names_var(q, #[trigger] w@[i]),
                decreases names@.len() - p,
            {
                let ghost w0 = w@;
                let s = names[p].as_str();
                proof {
                    assert(q[k as int].take(p + 1).drop_last() =~= q[k as int].take(p as int));
                    assert(q[k as int].take(p + 1).last() == q[k as int][p as int]);
                    assert(s@ == q[k as int][p as int]);
                }
                if is_variable(s) {
                    let id = w.intern(s);
                    proof {
                        assert forall|x: Seq<char>| w0.contains(x) implies w@.contains(x) by {
                            let i = choose|i: int| 0 <= i < w0.len() && w0[i] == x;
                            assert(w@[i] == x);
                        }
                        assert(w@[id as int] == s@);
                        assert(w@.contains(s@));
                        assert forall|i: int| 0 <= i < w@.len() implies names_var(
                            q,
                            #[trigger] w@[i],
                        ) by {
                            if i < w0.len() {
                                assert(w@[i] == w0[i]);
                            }
                        }
                    }
                }
                p += 1;
            }
            proof {
                assert(q[k as int].take(p as int) =~= q[k as int]);
                assert(q.take(k + 1).last() == q[k as int]);
            }
            k += 1;
        }
        proof {
            assert(q.take(k as int) =~= q);
        }
        w
    }

    /// Compiles the query to ids: a variable becomes its place among the
    /// query's variables, a symbol its id in `symbols`, and a symbol that
    /// `symbols` does not hold becomes `NO_SYMBOL`.
    pub fn compile(&self, symbols: &Interner) -> (r: Result<(Query, Interner), Error>)
        requires
            symbols.wf(),
            symbols@.len() <= NO_SYMBOL,
        ensures
            match r {
                Ok((cq, vars)) => {
                    &&& vars.wf()
                    &&& vars@ == query_vars(self@)
                    &&& vars@.len() <= MAX_VARS
                    &&& query_compiled(self@, cq@, symbols@, vars@)
                    &&& declares(cq@, vars@.len())
                },
                Err(e) => e == Error::TooManyVariables && query_vars(self@).len() > MAX_VARS,
            },
    {
        let ghost q = self@;
        let vars = self.vars();
        if vars.len() > MAX_VARS {
            return Err(Error::TooManyVariables);
        }
        let mut facts: Vec<Vec<Atom>> = Vec::new();
        let mut k: usize = 0;
        while k < self.elems.len()
            invariant
                q == self@,
                q.len() == self.elems@.len(),
                k <= q.len(),
                symbols.wf(),
                symbols@.len() <= NO_SYMBOL,
                vars.wf(),
                vars@.len() <= MAX_VARS,
                covered(q, q.len() as int, 0, vars@),
                facts@.len() == k,
                forall|i: int|
                    0 <= i < k ==> conjunct_compiled(q[i], (#[trigger] facts@[i])@, symbols@, vars@),
            decreases q.len() - k,
        {
            let names = &self.elems[k];
            let mut atoms: Vec<Atom> = Vec::new();
            let mut p: usize = 0;
            while p < names.len()
                invariant
                    q == self@,
                    k < q.len(),
                    names@ == self.elems@[k as int]@,
                    names@.len() == q[k as int].len(),
                    p <= names@.len(),
                    symbols.wf(),
                    symbols@.len() <= NO_SYMBOL,
                    vars.wf(),
                    vars@.len() <= MAX_VARS,
                    covered(q, q.len() as int, 0, vars@),
                    atoms@.len() == p,
                    forall|j: int|
                        0 <= j < p ==> atom_compiled(
                            q[k as int][j],
                            #[trigger] atoms@[j],
                            symbols@,
                            vars@,
                        ),
                decreases names@.len() - p,
            {
                let s = names[p].as_str();
                assert(s@ == q[k as int][p as int]);
                let atom = if is_variable(s) {
                    match vars.find(s) {
                        Some(i) => Atom::Var(i as Var),
                        None => Atom::Var(0),
                    }
                } else {
                    match symbols.find(s) {
                        Some(i) => Atom::Sym(i as Sym),
                        None => Atom::Sym(NO_SYMBOL),
                    }
                };
                proof {
                    symbols.lemma_distinct();
                    if !is_variable_name(s@) && symbols@.contains(s@) {
                        let i = choose|i: int| 0 <= i < symbols@.len() && symbols@[i] == s@;
                    }
                }
                atoms.push(atom);
                p += 1;
            }
            facts.push(atoms);
            k += 1;
        }
        let cq = Query::from(facts);
        proof {
            vars.lemma_distinct();
            assert forall|k: int| 0 <= k < q.len() implies conjunct_compiled(
                q[k],
                #[trigger] cq@[k],
                symbols@,
                vars@,
            ) by {
                assert(cq@[k] == facts@[k]@);
            }
            assert forall|v: Var| uses(cq@, v) implies v < vars@.len() by {
                let k = choose|k: int| 0 <= k < cq@.len() && mentions(#[trigger] cq@[k], v);
                let p = choose|p: int| 0 <= p < cq@[k].len() && #[trigger] cq@[k][p] == Atom::Var(v);
                assert(atom_compiled(q[k][p], cq@[k][p], symbols@, vars@));
            }
            if vars@.len() > 0 {
                let last = (vars@.len() - 1) as int;
                assert(names_var(q, vars@[last]));
                let (k, p) = choose|k: int, p: int|
                    0 <= k < q.len() && 0 <= p < q[k].len() && #[trigger] q[k][p] == vars@[last]
                        && is_variable_name(vars@[last]);
                assert(atom_compiled(q[k][p], cq@[k][p], symbols@, vars@));
                assert(cq@[k][p] == Atom::Var(last as Var));
                assert(mentions(cq@[k], last as Var));
                assert(uses(cq@, last as Var));
            }
        }
        Ok((cq, vars))
    }
}

/// `ids` are the places in `table` of the strings `names`.
pub open spec fn fact_ids(table: Seq<Seq<char>>, names: Seq<Seq<char>>, ids: Seq<Sym>) -> bool {
    &&& ids.len() == names.len()
    &&& forall|p: int|
        0 <= p < names.len() ==> (#[trigger] ids[p]) < table.len() && table[ids[p] as int] == names[p]
}

/// `b` gives, for each variable id, the variable's name and the name of the
/// symbol that `a` assigns to it.
pub open spec fn bindings_named(
    b: Seq<(String, String)>,
    a: Seq<Sym>,
    names: Seq<Seq<char>>,
    table: Seq<Seq<char>>,
) -> bool {
    &&& b.len() == a.len()
    &&& a.len() == names.len()
    &&& forall|i: int|
        0 <= i < b.len() ==> {
            &&& (#[trigger] b[i]).0@ == names[i]
            &&& a[i] < table.len()
            &&& b[i].1@ == table[a[i] as int]
        }
}

/// Every symbol of the assignment of a support stands in a stored fact.
pub proof fn lemma_values_stored(db: Database, q: Seq<Seq<Atom>>, s: Seq<int>, a: Seq<Sym>, n: nat)
    requires
        supports(db, q, s, a),
        well_formed(q, a.len()),
        symbols_below(db, n),
    ensures
        forall|i: int| 0 <= i < a.len() ==> (#[trigger] a[i]) < n,
{
    assert forall|i: int| 0 <= i < a.len() implies (#[trigger] a[i]) < n by {
        let v = i as Var;
        assert(uses(q, v));
        let k = choose|k: int| 0 <= k < q.len() && mentions(#[trigger] q[k], v);
        let p = choose|p: int| 0 <= p < q[k].len() && #[trigger] q[k][p] == Atom::Var(v);
        assert(supported_at(db, q, k, s[k], a));
        let f = db.bucket(q[k].len() as int)[s[k]];
        assert(atom_reads(q[k][p], f[p], a));
        assert(db.bucket(q[k].len() as int)[s[k]][p] < n);
    }
}

/// A fact store over symbol names.
pub struct SymbolDatabase {
    symbols: Interner,
    db: Database,
}

/// The solutions of a query over names, one call at a time.
pub struct NamedSolutions<'a> {
    state: QueryState<'a>,
    vars: Interner,
    symbols: &'a Interner,
}

impl SymbolDatabase {
    /// The interned symbol names, by id.
    pub closed spec fn table(&self) -> Seq<Seq<char>> {
        self.symbols@
    }

    /// The facts, over ids.
    pub closed spec fn store(&self) -> Database {
        self.db
    }

    pub closed spec fn wf(&self) -> bool {
        &&& self.symbols.wf()
        &&& self.db.wf()
        &&& self.symbols@.len() <= NO_SYMBOL
        &&& symbols_below(self.db, self.symbols@.len())
    }

    pub fn new() -> (d: SymbolDatabase)
        ensures
            d.wf(),
            d.table() == Seq::<Seq<char>>::empty(),
            forall|n: int| (#[trigger] d.store().bucket(n)) == Seq::<Seq<Sym>>::empty(),
    {
        SymbolDatabase { symbols: Interner::new(), db: Database::new() }
    }

    /// Number of interned symbols.
    pub fn symbol_count(&self) -> (n: usize)
        ensures
            n == self.table().len(),
    {
        self.symbols.len()
    }

    /// Interns the names of `fact` and stores the fact of their ids. A fact
    /// of unsupported arity, or one that names a variable, is refused and
    /// changes nothing.
    pub fn add_fact(&mut self, fact: &[&str]) -> (r: Result<(), Error>)
        requires
            old(self).wf(),
            old(self).table().len() + fact@.len() <= NO_SYMBOL,
        ensures
            final(self).wf(),
            r == if !supported_arity(fact@.len() as int) {
                Err::<(), Error>(Error::InvalidArity)
            } else if exists|p: int| 0 <= p < fact@.len() && is_variable_name(#[trigger] fact@[p]@) {
                Err::<(), Error>(Error::VariableInFact)
            } else {
                Ok::<(), Error>(())
            },
            r is Err ==> final(self).table() == old(self).table() && final(self).store() == old(
                self,
            ).store(),
            old(self).table().len() <= final(self).table().len() <= old(self).table().len()
                + fact@.len(),
            r is Ok ==> final(self).table() == intern_all(old(self).table(), texts(fact@))
                && exists|ids: Seq<Sym>| #[trigger]
                fact_ids(final(self).table(), texts(fact@), ids) && forall|n: int|
                    (#[trigger] final(self).store().bucket(n)) == if n == fact@.len() {
                        old(self).store().bucket(n).push(ids)
                    } else {
                        old(self).store().bucket(n)
                    },
    {
        let n = fact.len();
        if n < 1 || n > 6 {
            return Err(Error::InvalidArity);
        }
        let mut p: usize = 0;
        while p < n
            invariant
                *self == *old(self),
                self.wf(),
                n == fact@.len(),
                1 <= n <= 6,
                p <= n,
                forall|j: int| 0 <= j < p ==> !is_variable_name(#[trigger] fact@[j]@),
            decreases n - p,
        {
            if is_variable(fact[p]) {
                assert(is_variable_name(fact@[p as int]@));
                return Err(Error::VariableInFact);
            }
            p += 1;
        }
        let ghost names = texts(fact@);
        let ghost t0 = self.symbols@;
        let mut ids: Vec<Sym> = Vec::new();
        let mut p: usize = 0;
        proof {
            assert(names.take(0) =~= Seq::<Seq<char>>::empty());
        }
        while p < n
            invariant
                n == fact@.len(),
                p <= n,
                names == texts(fact@),
                self.db == old(self).db,
                self.symbols.wf(),
                t0.len() + n <= NO_SYMBOL,
                t0.len() <= self.symbols@.len() <= t0.len() + p,
                self.symbols@ == intern_all(t0, names.take(p as int)),
                forall|i: int| 0 <= i < t0.len() ==> self.symbols@[i] == #[trigger] t0[i],
                ids@.len() == p,
                forall|j: int|
                    0 <= j < p ==> (#[trigger] ids@[j]) < self.symbols@.len()
                        && self.symbols@[ids@[j] as int] == names[j],
            decreases n - p,
        {
            proof {
                assert(names.take(p + 1).drop_last() =~= names.take(p as int));
                assert(names.take(p + 1).last() == fact@[p as int]@);
            }
            let id = self.symbols.intern(fact[p]);
            ids.push(id as Sym);
            p += 1;
        }
        proof {
            assert(names.take(p as int) =~= names);
            old(self).db.lemma_buckets();
        }
        let r = self.db.add_fact(ids.as_slice());
        proof {
            let t = self.symbols@;
            assert(fact_ids(t, names, ids@));
            assert forall|a: int, i: int, q: int|
                0 <= i < self.db.bucket(a).len() && 0 <= q < self.db.bucket(
                    a,
                )[i].len() implies (#[trigger] self.db.bucket(a)[i][q]) < t.len() by {
                if a == n && i == old(self).db.bucket(a).len() {
                    assert(self.db.bucket(a)[i] == ids@);
                    assert(ids@[q] < t.len());
                } else {
                    assert(self.db.bucket(a)[i] == old(self).db.bucket(a)[i]);
                    assert(old(self).db.bucket(a)[i][q] < t0.len());
                }
            }
        }
        r
    }

    /// A fresh evaluation of `query`, compiled against the symbols interned
    /// so far.
    pub fn run(&self, query: &NamedQuery) -> (r: Result<NamedSolutions<'_>, Error>)
        requires
            self.wf(),
        ensures
            match r {
                Ok(sol) => {
                    &&& sol.wf()
                    &&& sol.table() == self.table()
                    &&& sol.names() == query_vars(query@)
                    &&& sol.inner().store() == self.store()
                    &&& query_compiled(query@, sol.inner().conjuncts(), self.table(), sol.names())
                    &&& sol.inner().depth() == 0
                    &&& !sol.inner().is_exhausted()
                    &&& forall|s: Seq<int>|
                        valid(self.store(), sol.inner().conjuncts(), s) ==> !(
                        #[trigger] sol.inner().passed(s))
                },
                Err(e) => e == Error::TooManyVariables && query_vars(query@).len() > MAX_VARS,
            },
    {
        match query.compile(&self.symbols) {
            Ok((cq, vars)) => {
                let state = self.db.run(cq);
                Ok(NamedSolutions { state, vars, symbols: &self.symbols })
            },
            Err(e) => Err(e),
        }
    }
}

impl<'a> NamedSolutions<'a> {
    /// The evaluator over ids.
    pub closed spec fn inner(&self) -> QueryState<'a> {
        self.state
    }

    /// The variable names, by variable id.
    pub closed spec fn names(&self) -> Seq<Seq<char>> {
        self.vars@
    }

    /// The symbol names, by id.
    pub closed spec fn table(&self) -> Seq<Seq<char>> {
        self.symbols@
    }

    pub closed spec fn wf(&self) -> bool {
        &&& self.state.wf()
        &&& self.vars.wf()
        &&& self.symbols.wf()
        &&& declares(self.state.conjuncts(), self.vars@.len())
        &&& symbols_below(self.state.store(), self.symbols@.len())
    }

    /// The next solution, as pairs of a variable's name and the name of its
    /// symbol, in the order of the variables' first occurrence.
    pub fn next(&mut self) -> (r: Result<Option<Vec<(String, String)>>, Error>)
        requires
            old(self).wf(),
        ensures
            final(self).wf(),
            final(self).names() == old(self).names(),
            final(self).table() == old(self).table(),
            match r {
                Ok(Some(b)) => exists|a: Seq<Sym>| #[trigger]
                    next_spec(old(self).inner(), final(self).inner(), Ok(Some(a)))
                        && bindings_named(b@, a, old(self).names(), old(self).table()),
                Ok(None) => next_spec(old(self).inner(), final(self).inner(), Ok(None)),
                Err(e) => next_spec(old(self).inner(), final(self).inner(), Err(e)),
            },
    {
        let ghost pre = self.state;
        match self.state.next() {
            Err(e) => Err(e),
            Ok(None) => Ok(None),
            Ok(Some(a)) => {
                proof {
                    pre.lemma_wf();
                    let q = pre.conjuncts();
                    if crate::evaluator::arities_ok(q) {
                        crate::query::lemma_declares_one(q, a@.len(), self.vars@.len());
                        lemma_values_stored(
                            pre.store(),
                            q,
                            self.state.cursors(),
                            a@,
                            self.symbols@.len(),
                        );
                    }
                    self.symbols.lemma_distinct();
                }
                let mut b: Vec<(String, String)> = Vec::new();
                let mut i: usize = 0;
                assert(self.wf());
                while i < a.len()
                    invariant
                        self.wf(),
                        self.vars == old(self).vars,
                        self.symbols == old(self).symbols,
                        pre == old(self).state,
                        next_spec(pre, self.state, Ok(Some(a@))),
                        i <= a@.len(),
                        a@.len() == self.vars@.len(),
                        forall|j: int| 0 <= j < a@.len() ==> (#[trigger] a@[j]) < self.symbols@.len(),
                        b@.len() == i,
                        forall|j: int|
                            0 <= j < i ==> {
                                &&& (#[trigger] b@[j]).0@ == self.vars@[j]
                                &&& b@[j].1@ == self.symbols@[a@[j] as int]
                            },
                    decreases a@.len() - i,
                {
                    let var = self.vars.name(i).to_owned();
                    let val = self.symbols.name(a[i] as usize).to_owned();
                    b.push((var, val));
                    i += 1;
                }
                proof {
                    assert(bindings_named(b@, a@, old(self).names(), old(self).table()));
                    assert(next_spec(old(self).inner(), self.inner(), Ok(Some(a@))));
                }
                Ok(Some(b))
            },
        }
    }
}

} // verus!
