//! The fact store: ground facts grouped by arity, each group in insertion order.

use vstd::prelude::*;
use vstd::slice::slice_to_vec;
use crate::pattern::{Pattern, Sym, admits_fact};

verus! {

/// Index of a fact within the group of its arity.
pub type FactID = usize;

/// Smallest supported arity.
pub const MIN_ARITY: usize = 1;

/// Largest supported arity.
pub const MAX_ARITY: usize = 6;

/// What the engine reports instead of a value.
#[derive(PartialEq, Eq, Structural, Copy, Clone, Debug)]
pub enum Error {
    /// A fact or a pattern has fewer than one or more than six positions.
    InvalidArity,
    /// A variable id below the query's largest one occurs in no conjunct.
    MalformedQuery,
    /// A fact names a variable.
    VariableInFact,
    /// A query names more variables than there are variable ids.
    TooManyVariables,
}

/// Facts and patterns have between one and six positions.
pub open spec fn supported_arity(n: int) -> bool {
    MIN_ARITY <= n <= MAX_ARITY
}

/// The first index at or after `from` whose fact `pattern` admits is `i`.
pub open spec fn first_match_from(
    facts: Seq<Seq<Sym>>,
    pattern: Seq<crate::pattern::PatternAtom>,
    from: int,
    i: int,
) -> bool {
    &&& from <= i < facts.len()
    &&& admits_fact(pattern, facts[i])
    &&& forall|j: int| from <= j < i ==> !admits_fact(pattern, #[trigger] facts[j])
}

/// No index at or after `from` holds a fact that `pattern` admits.
pub open spec fn no_match_from(
    facts: Seq<Seq<Sym>>,
    pattern: Seq<crate::pattern::PatternAtom>,
    from: int,
) -> bool {
    forall|j: int| from <= j < facts.len() ==> !admits_fact(pattern, #[trigger] facts[j])
}

/// A set of facts of uniform length `N`.
pub struct Db<const N: usize> {
    facts: Vec<Vec<Sym>>,
}

impl<const N: usize> Db<N> {
    /// The stored facts, oldest first.
    pub closed spec fn view(&self) -> Seq<Seq<Sym>> {
        Seq::new(self.facts@.len(), |i: int| self.facts@[i]@)
    }

    /// Every stored fact has `N` positions.
    pub closed spec fn wf(&self) -> bool {
        forall|i: int| 0 <= i < self.facts@.len() ==> (#[trigger] self.facts@[i])@.len() == N
    }

    pub proof fn lemma_uniform(&self)
        requires
            self.wf(),
        ensures
            forall|i: int| 0 <= i < self@.len() ==> (#[trigger] self@[i]).len() == N,
            self@.len() <= usize::MAX,
    {
        assert(self.facts.len() == self@.len());
    }

    pub fn new() -> (db: Self)
        ensures
            db.wf(),
            db@ == Seq::<Seq<Sym>>::empty(),
    {
        let db = Db { facts: Vec::new() };
        assert(db@ =~= Seq::<Seq<Sym>>::empty());
        db
    }

    pub fn add_fact(&mut self, f: Vec<Sym>)
        requires
            old(self).wf(),
            f@.len() == N,
        ensures
            final(self).wf(),
            final(self)@ == old(self)@.push(f@),
    {
        self.facts.push(f);
        assert(self@ =~= old(self)@.push(f@));
    }

    pub fn add_fact_n(&mut self, f: &[Sym])
        requires
            old(self).wf(),
            f@.len() == N,
        ensures
            final(self).wf(),
            final(self)@ == old(self)@.push(f@),
    {
        self.add_fact(slice_to_vec(f))
    }

    pub fn next_match(&self, pattern: &Pattern, next_index: FactID) -> (r: Option<(FactID, &[Sym])>)
        ensures
            match r {
                Some((i, fact)) => first_match_from(self@, pattern@, next_index as int, i as int)
                    && fact@ == self@[i as int],
                None => no_match_from(self@, pattern@, next_index as int),
            },
    {
        let mut i: usize = next_index;
        while i < self.facts.len()
            invariant
                next_index <= i,
                forall|j: int|
                    next_index <= j < i && j < self@.len() ==> !admits_fact(
                        pattern@,
                        #[trigger] self@[j],
                    ),
            decreases self.facts@.len() - i,
        {
            let fact = self.facts[i].as_slice();
            if pattern.matches(fact) {
                return Some((i, fact));
            }
            i += 1;
        }
        None
    }
}

/// A set of facts.
///
/// Facts are grouped by their length.
pub struct Database {
    db1: Db<1>,
    db2: Db<2>,
    db3: Db<3>,
    db4: Db<4>,
    db5: Db<5>,
    db6: Db<6>,
}

impl Database {
    /// The facts of arity `n`, oldest first; empty for an unsupported arity.
    pub closed spec fn bucket(&self, n: int) -> Seq<Seq<Sym>> {
        if n == 1 {
            self.db1@
        } else if n == 2 {
            self.db2@
        } else if n == 3 {
            self.db3@
        } else if n == 4 {
            self.db4@
        } else if n == 5 {
            self.db5@
        } else if n == 6 {
            self.db6@
        } else {
            Seq::empty()
        }
    }

    pub closed spec fn wf(&self) -> bool {
        &&& self.db1.wf()
        &&& self.db2.wf()
        &&& self.db3.wf()
        &&& self.db4.wf()
        &&& self.db5.wf()
        &&& self.db6.wf()
    }

    /// Every fact of the group of arity `n` has `n` positions, and an
    /// unsupported arity has no facts.
    pub proof fn lemma_buckets(&self)
        requires
            self.wf(),
        ensures
            forall|n: int, i: int|
                0 <= i < self.bucket(n).len() ==> (#[trigger] self.bucket(n)[i]).len() == n,
            forall|n: int| !supported_arity(n) ==> (#[trigger] self.bucket(n)).len() == 0,
            forall|n: int| (#[trigger] self.bucket(n)).len() <= usize::MAX,
    {
        self.db1.lemma_uniform();
        self.db2.lemma_uniform();
        self.db3.lemma_uniform();
        self.db4.lemma_uniform();
        self.db5.lemma_uniform();
        self.db6.lemma_uniform();
    }

    pub fn new() -> (db: Database)
        ensures
            db.wf(),
            forall|n: int| (#[trigger] db.bucket(n)) == Seq::<Seq<Sym>>::empty(),
    {
        Database {
            db1: Db::new(),
            db2: Db::new(),
            db3: Db::new(),
            db4: Db::new(),
            db5: Db::new(),
            db6: Db::new(),
        }
    }

    /// Appends `f` to the group of its arity. Nothing is stored when the arity
    /// is unsupported.
    pub fn add_fact(&mut self, f: &[Sym]) -> (r: Result<(), Error>)
        requires
            old(self).wf(),
        ensures
            final(self).wf(),
            supported_arity(f@.len() as int) ==> r == Ok::<(), Error>(()),
            !supported_arity(f@.len() as int) ==> r == Err::<(), Error>(Error::InvalidArity),
            forall|n: int|
                (#[trigger] final(self).bucket(n)) == if r.is_ok() && n == f@.len() {
                    old(self).bucket(n).push(f@)
                } else {
                    old(self).bucket(n)
                },
    {
        match f.len() {
            1 => self.db1.add_fact_n(f),
            2 => self.db2.add_fact_n(f),
            3 => self.db3.add_fact_n(f),
            4 => self.db4.add_fact_n(f),
            5 => self.db5.add_fact_n(f),
            6 => self.db6.add_fact_n(f),
            _ => {
                return Err(Error::InvalidArity);
            },
        }
        Ok(())
    }

    /// The first fact at or after `next_index`, in the group of the pattern's
    /// arity, that the pattern admits.
    pub fn next_match(&self, pattern: &Pattern, next_index: FactID) -> (r: Result<
        Option<(FactID, &[Sym])>,
        Error,
    >)
        ensures
            supported_arity(pattern@.len() as int) <==> r.is_ok(),
            match r {
                Ok(Some((i, fact))) => first_match_from(
                    self.bucket(pattern@.len() as int),
                    pattern@,
                    next_index as int,
                    i as int,
                ) && fact@ == self.bucket(pattern@.len() as int)[i as int],
                Ok(None) => no_match_from(
                    self.bucket(pattern@.len() as int),
                    pattern@,
                    next_index as int,
                ),
                Err(e) => e == Error::InvalidArity,
            },
    {
        match pattern.len() {
            1 => Ok(self.db1.next_match(pattern, next_index)),
            2 => Ok(self.db2.next_match(pattern, next_index)),
            3 => Ok(self.db3.next_match(pattern, next_index)),
            4 => Ok(self.db4.next_match(pattern, next_index)),
            5 => Ok(self.db5.next_match(pattern, next_index)),
            6 => Ok(self.db6.next_match(pattern, next_index)),
            _ => Err(Error::InvalidArity),
        }
    }
}

impl Default for Database {
    /// The empty store.
    fn default() -> (db: Database)
        ensures
            db.wf(),
            forall|n: int| (#[trigger] db.bucket(n)) == Seq::<Seq<Sym>>::empty(),
    {
        Database::new()
    }
}

} // verus!
