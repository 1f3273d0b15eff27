//! Interning: a table that gives each distinct string a dense id.

use vstd::prelude::*;
use vstd::string::*;

verus! {

/// Whether a name denotes a variable: its first character is a question mark.
pub open spec fn is_variable_name(s: Seq<char>) -> bool {
    s.len() > 0 && s[0] == '?'
}

/// Whether `s` names a variable.
pub fn is_variable(s: &str) -> (r: bool)
    ensures
        r == is_variable_name(s@),
{
    if s.is_empty() {
        false
    } else {
        s.get_char(0) == '?'
    }
}

/// The table `t` after interning `s`: unchanged when it holds `s`, else with
/// `s` at the end.
pub open spec fn intern_one(t: Seq<Seq<char>>, s: Seq<char>) -> Seq<Seq<char>> {
    if t.contains(s) {
        t
    } else {
        t.push(s)
    }
}

/// A table of distinct strings; the id of a string is its place.
pub struct Interner {
    names: Vec<String>,
}

impl Interner {
    /// The interned strings, by id.
    pub closed spec fn view(&self) -> Seq<Seq<char>> {
        Seq::new(self.names@.len(), |i: int| self.names@[i]@)
    }

    /// No string is held twice.
    pub closed spec fn wf(&self) -> bool {
        forall|i: int, j: int|
            0 <= i < j < self.names@.len() ==> (#[trigger] self.names@[i])@ != (
            #[trigger] self.names@[j])@
    }

    pub proof fn lemma_distinct(&self)
        requires
            self.wf(),
        ensures
            forall|i: int, j: int|
                0 <= i < self@.len() && 0 <= j < self@.len() && i != j ==> #[trigger] self@[i]
                    != #[trigger] self@[j],
            self@.len() <= usize::MAX,
    {
        assert(self.names.len() == self@.len());
        assert forall|i: int, j: int|
            0 <= i < self@.len() && 0 <= j < self@.len() && i != j implies #[trigger] self@[i]
            != #[trigger] self@[j] by {
            if i < j {
                assert(self.names@[i]@ != self.names@[j]@);
            } else {
                assert(self.names@[j]@ != self.names@[i]@);
            }
        }
    }

    pub fn new() -> (t: Interner)
        ensures
            t.wf(),
            t@ == Seq::<Seq<char>>::empty(),
    {
        let t = Interner { names: Vec::new() };
        assert(t@ =~= Seq::<Seq<char>>::empty());
        t
    }

    /// Number of interned strings.
    pub fn len(&self) -> (n: usize)
        ensures
            n == self@.len(),
    {
        self.names.len()
    }

    /// The place of `s`, if it is interned.
    pub fn find(&self, s: &str) -> (r: Option<usize>)
        ensures
            match r {
                Some(i) => i < self@.len() && self@[i as int] == s@,
                None => !self@.contains(s@),
            },
    {
        let owned = s.to_owned();
        let mut i: usize = 0;
        while i < self.names.len()
            invariant
                i <= self.names@.len(),
                owned@ == s@,
                forall|j: int| 0 <= j < i ==> (#[trigger] self@[j]) != s@,
            decreases self.names@.len() - i,
        {
            if self.names[i] == owned {
                return Some(i);
            }
            i += 1;
        }
        assert(self.names.len() == self@.len());
        None
    }

    /// Interns `s`: its place when it is already held, else the next free
    /// place, which it then takes.
    pub fn intern(&mut self, s: &str) -> (id: usize)
        requires
            old(self).wf(),
        ensures
            final(self).wf(),
            final(self)@ == intern_one(old(self)@, s@),
            id < final(self)@.len(),
            final(self)@[id as int] == s@,
    {
        match self.find(s) {
            Some(i) => i,
            None => {
                let id = self.names.len();
                self.names.push(s.to_owned());
                proof {
                    assert(self@ =~= old(self)@.push(s@));
                    assert forall|i: int, j: int| 0 <= i < j < self.names@.len() implies (
                    #[trigger] self.names@[i])@ != (#[trigger] self.names@[j])@ by {
                        if j == id {
                            assert(old(self)@[i] == self.names@[i]@);
                            assert(old(self)@.contains(old(self)@[i]));
                        } else {
                            assert(old(self).names@[i]@ != old(self).names@[j]@);
                        }
                    }
                }
                id
            },
        }
    }

    /// The string with the given id.
    pub fn name(&self, id: usize) -> (s: &str)
        requires
            id < self@.len(),
        ensures
            s@ == self@[id as int],
    {
        self.names[id].as_str()
    }
}

} // verus!
