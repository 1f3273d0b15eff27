//! Patterns: tuples of symbols and wildcards that filter stored facts.

use vstd::prelude::*;

verus! {

/// An interned symbol.
pub type Sym = u32;

/// One position of a pattern: anything, or exactly one symbol.
#[derive(PartialEq, Eq, Structural, Copy, Clone, Debug)]
pub enum PatternAtom {
    Wildcard,
    Sym(Sym),
}

impl PatternAtom {
    /// A wildcard admits every symbol, a symbol admits only itself.
    pub open spec fn admits(self, sym: Sym) -> bool {
        match self {
            PatternAtom::Wildcard => true,
            PatternAtom::Sym(s) => s == sym,
        }
    }

    pub fn matches(self, sym: Sym) -> (r: bool)
        ensures
            r == self.admits(sym),
    {
        match self {
            PatternAtom::Wildcard => true,
            PatternAtom::Sym(s) => s == sym,
        }
    }
}

/// An ordered sequence of pattern atoms.
pub struct Pattern(Vec<PatternAtom>);

impl View for Pattern {
    type V = Seq<PatternAtom>;

    closed spec fn view(&self) -> Seq<PatternAtom> {
        self.0@
    }
}

/// Whether every position that `pattern` and `fact` both have is admitted.
pub open spec fn admits_fact(pattern: Seq<PatternAtom>, fact: Seq<Sym>) -> bool {
    forall|i: int|
        0 <= i < pattern.len() && i < fact.len() ==> (#[trigger] pattern[i]).admits(fact[i])
}

impl Pattern {
    pub fn new(elems: Vec<PatternAtom>) -> (p: Pattern)
        ensures
            p@ == elems@,
    {
        Pattern(elems)
    }

    /// Number of positions.
    pub fn len(&self) -> (n: usize)
        ensures
            n == self@.len(),
    {
        self.0.len()
    }

    /// Positions are compared pairwise; a position that only one side has
    /// constrains nothing.
    pub fn matches(&self, fact: &[Sym]) -> (r: bool)
        ensures
            r == admits_fact(self@, fact@),
    {
        let mut i: usize = 0;
        while i < self.0.len() && i < fact.len()
            invariant
                forall|j: int| 0 <= j < i ==> (#[trigger] self@[j]).admits(fact@[j]),
                i <= self@.len(),
                i <= fact@.len(),
            decreases self@.len() - i,
        {
            if !self.0[i].matches(fact[i]) {
                return false;
            }
            i += 1;
        }
        true
    }
}

} // verus!
