//! Running an evaluation to its end.

use vstd::prelude::*;
use crate::pattern::Sym;
use crate::store::Error;
use crate::evaluator::{
    Assignment, QueryState, arities_ok, group_sizes, lemma_rank_bound, lex_lt,
    outcome, precedes_at, rank, satisfies, supports, turned_up, valid, weight, well_formed,
};
use crate::laws::{
    law_complete, law_nothing_skipped, law_one_assignment, law_one_support, law_order,
    lemma_lex_irreflexive, no_repeated_fact, law_conjunct_order, law_supports_satisfy,
    same_conjuncts,
};
use crate::query::declares;

verus! {

/// A support that comes before another has the smaller rank.
pub proof fn lemma_lex_rank(s: Seq<int>, c: Seq<int>, lens: Seq<int>, j: int, w: int)
    requires
        s.len() == lens.len(),
        c.len() == lens.len(),
        forall|i: int| 0 <= i < lens.len() ==> #[trigger] lens[i] >= 0,
        forall|i: int| 0 <= i < lens.len() ==> 0 <= #[trigger] s[i] <= lens[i],
        forall|i: int| 0 <= i < lens.len() ==> 0 <= #[trigger] c[i] <= lens[i],
        0 <= j <= w,
        precedes_at(s, c, w),
    ensures
        rank(s, lens, j) < rank(c, lens, j),
    decreases w - j,
{
    if j == w {
        lemma_rank_bound(s, lens, w + 1);
        lemma_rank_bound(c, lens, w + 1);
        let x = s[w];
        let y = c[w];
        let m = weight(lens, w + 1);
        let rs = rank(s, lens, w + 1);
        let rc = rank(c, lens, w + 1);
        assert(x * m + rs < y * m + rc) by (nonlinear_arith)
            requires
                0 <= x < y,
                0 <= rs < m,
                0 <= rc,
        ;
    } else {
        lemma_lex_rank(s, c, lens, j + 1, w);
        assert(s[j] == c[j]);
    }
}

/// `stood` are the valid supports that `pre` had not passed, in
/// lexicographic order, and `out` are their assignments.
pub open spec fn enumerates(
    pre: QueryState,
    out: Seq<Assignment>,
    stood: Seq<Seq<int>>,
) -> bool {
    let db = pre.store();
    let q = pre.conjuncts();
    &&& stood.len() == out.len()
    &&& forall|i: int|
        0 <= i < stood.len() ==> supports(db, q, #[trigger] stood[i], out[i]@) && !pre.passed(
            stood[i],
        )
    &&& forall|i: int| 0 <= i && i + 1 < stood.len() ==> lex_lt(#[trigger] stood[i], stood[i + 1])
    &&& forall|s: Seq<int>| #[trigger]
        valid(db, q, s) && !pre.passed(s) ==> exists|i: int|
            0 <= i < stood.len() && #[trigger] stood[i] == s
}

impl<'db> QueryState<'db> {
    /// Calls `next` until nothing is left, and hands out the assignments in
    /// the order in which they came: the assignment of every valid support
    /// that was still ahead, each support once, in lexicographic order.
    pub fn collect(&mut self) -> (r: Result<Vec<Assignment>, Error>)
        requires
            old(self).wf(),
        ensures
            final(self).wf(),
            final(self).store() == old(self).store(),
            final(self).conjuncts() == old(self).conjuncts(),
            r is Ok ==> arities_ok(old(self).conjuncts()) && final(self).is_exhausted(),
            r matches Ok(out) ==> (out@.len() > 0 ==> well_formed(
                old(self).conjuncts(),
                old(self).slots().len(),
            )),
            r matches Ok(out) ==> exists|stood: Seq<Seq<int>>| enumerates(*old(self), out@, stood),
            r matches Err(e) ==> e == if arities_ok(old(self).conjuncts()) {
                Error::MalformedQuery
            } else {
                Error::InvalidArity
            },
            r is Err && arities_ok(old(self).conjuncts()) ==> !well_formed(
                old(self).conjuncts(),
                old(self).slots().len(),
            ) && exists|s: Seq<int>| #[trigger]
                valid(old(self).store(), old(self).conjuncts(), s) && !old(self).passed(s),
    {
        let ghost pre = *self;
        let ghost db = self.store();
        let ghost q = self.conjuncts();
        let ghost lens = group_sizes(db, q);
        let ghost mut stood: Seq<Seq<int>> = Seq::empty();
        let mut out: Vec<Assignment> = Vec::new();
        proof {
            pre.lemma_wf();
        }
        loop
            invariant
                self.wf(),
                pre == *old(self),
                pre.wf(),
                self.store() == db,
                self.conjuncts() == q,
                pre.store() == db,
                pre.conjuncts() == q,
                self.slots().len() == pre.slots().len(),
                lens == group_sizes(db, q),
                stood.len() == out@.len(),
                out@.len() > 0 ==> arities_ok(q) && well_formed(q, pre.slots().len()),
                out@.len() > 0 && q.len() > 0 ==> !self.is_exhausted() && self.depth() == q.len()
                    && stood[stood.len() - 1] == self.cursors(),
                out@.len() > 0 && q.len() == 0 ==> self.is_exhausted(),
                forall|i: int|
                    0 <= i < stood.len() ==> supports(db, q, #[trigger] stood[i], out@[i]@)
                        && !pre.passed(stood[i]),
                forall|i: int|
                    0 <= i && i + 1 < stood.len() ==> lex_lt(#[trigger] stood[i], stood[i + 1]),
                forall|s: Seq<int>| #[trigger]
                    valid(db, q, s) && !pre.passed(s) && self.passed(s) ==> exists|i: int|
                        0 <= i < stood.len() && #[trigger] stood[i] == s,
                forall|s: Seq<int>| #[trigger] pre.passed(s) ==> self.passed(s),
            decreases
                    (if self.is_exhausted() {
                        0int
                    } else {
                        1int
                    }),
                    (if self.depth() == q.len() {
                        0int
                    } else {
                        1int
                    }),
                    weight(lens, 0) - rank(self.cursors(), lens, 0),
        {
            let ghost st0 = *self;
            let ghost stood0 = stood;
            let r = self.next();
            proof {
                st0.lemma_wf();
                self.lemma_wf();
                db.lemma_buckets();
            }
            match r {
                Err(e) => {
                    proof {
                        if arities_ok(q) {
                            assert(turned_up(st0, *self));
                            assert(valid(db, q, self.cursors()));
                        }
                    }
                    return Err(e);
                },
                Ok(None) => {
                    proof {
                        assert forall|s: Seq<int>| #[trigger]
                            valid(db, q, s) && !pre.passed(s) implies exists|i: int|
                            0 <= i < stood.len() && #[trigger] stood[i] == s by {
                            assert(st0.passed(s));
                        }
                        assert(arities_ok(q));
                        assert(self.is_exhausted());
                        assert(enumerates(pre, out@, stood));
                    }
                    let res: Result<Vec<Assignment>, Error> = Ok(out);
                    proof {
                        assert(res matches Ok(o) && enumerates(*old(self), o@, stood));
                    }
                    return res;
                },
                Ok(Some(a)) => {
                    let ghost c = self.cursors();
                    proof {
                        assert(turned_up(st0, *self));
                        crate::query::lemma_declares_one(q, a@.len(), pre.slots().len());
                        assert forall|s: Seq<int>| #[trigger]
                            valid(db, q, s) && !pre.passed(s) && self.passed(s) implies exists|
                            i: int,
                        |
                            0 <= i < stood0.push(c).len() && #[trigger] stood0.push(c)[i] == s by {
                            if st0.passed(s) {
                                let i = choose|i: int|
                                    0 <= i < stood0.len() && #[trigger] stood0[i] == s;
                                assert(stood0.push(c)[i] == s);
                            } else {
                                law_nothing_skipped(st0, *self, outcome(r), s);
                                assert(stood0.push(c)[stood0.len() as int] == s);
                            }
                        }
                        assert(!st0.passed(c));
                        assert(!st0.is_exhausted());
                        if st0.depth() == q.len() && q.len() > 0 {
                            law_order(st0, *self, outcome(r));
                            let w = choose|w: int|
                                w <= c.len() && #[trigger] precedes_at(st0.cursors(), c, w);
                            assert forall|i: int| 0 <= i < lens.len() implies 0
                                <= #[trigger] st0.cursors()[i] <= lens[i] by {}
                            assert forall|i: int| 0 <= i < lens.len() implies 0 <= #[trigger] c[i]
                                <= lens[i] by {}
                            lemma_lex_rank(st0.cursors(), c, lens, 0, w);
                            lemma_rank_bound(c, lens, 0);
                        }
                        if q.len() > 0 {
                            assert forall|i: int| 0 <= i < lens.len() implies 0 <= #[trigger] c[i]
                                <= lens[i] by {}
                            lemma_rank_bound(c, lens, 0);
                        }
                    }
                    out.push(a);
                    proof {
                        stood = stood0.push(c);
                        assert forall|i: int| 0 <= i && i + 1 < stood.len() implies lex_lt(
                            #[trigger] stood[i],
                            stood[i + 1],
                        ) by {
                            if i + 1 < stood0.len() {
                                assert(lex_lt(stood0[i], stood0[i + 1]));
                            } else if q.len() > 0 {
                                law_order(st0, *self, outcome(r));
                            } else {
                                assert(st0.passed(c));
                            }
                        }
                    }
                },
            }
        }
    }
}

/// What comes before something that comes before a third comes before the
/// third.
pub proof fn lemma_lex_transitive(a: Seq<int>, b: Seq<int>, c: Seq<int>)
    requires
        lex_lt(a, b),
        lex_lt(b, c),
    ensures
        lex_lt(a, c),
{
    let w1 = choose|w: int| w <= b.len() && #[trigger] precedes_at(a, b, w);
    let w2 = choose|w: int| w <= c.len() && #[trigger] precedes_at(b, c, w);
    let w = if w1 < w2 {
        w1
    } else {
        w2
    };
    assert forall|j: int| 0 <= j < w implies (#[trigger] a[j]) == c[j] by {
        assert(a[j] == b[j]);
        assert(b[j] == c[j]);
    }
    if w1 < w2 {
        assert(b[w1] == c[w1]);
    } else if w2 < w1 {
        assert(a[w2] == b[w2]);
    }
    assert(precedes_at(a, c, w));
}

/// In a list of supports of which each comes before the next, each comes
/// before all later ones.
pub proof fn lemma_increasing(stood: Seq<Seq<int>>, i: int, j: int)
    requires
        forall|k: int| 0 <= k && k + 1 < stood.len() ==> lex_lt(#[trigger] stood[k], stood[k + 1]),
        0 <= i < j < stood.len(),
    ensures
        lex_lt(stood[i], stood[j]),
    decreases j - i,
{
    if i + 1 < j {
        lemma_increasing(stood, i, j - 1);
        assert(lex_lt(stood[j - 1], stood[j - 1 + 1]));
        lemma_lex_transitive(stood[i], stood[j - 1], stood[j]);
    } else {
        assert(lex_lt(stood[i], stood[i + 1]));
    }
}

/// An evaluation that starts with no support passed and runs to its end
/// hands out every assignment of the declared variables that turns every
/// conjunct into a stored fact.
pub proof fn law_collect_complete(
    pre: QueryState,
    out: Seq<Assignment>,
    stood: Seq<Seq<int>>,
    a: Seq<Sym>,
)
    requires
        enumerates(pre, out, stood),
        forall|s: Seq<int>| #[trigger] valid(pre.store(), pre.conjuncts(), s) ==> !pre.passed(s),
        declares(pre.conjuncts(), a.len()),
        well_formed(pre.conjuncts(), a.len()),
        satisfies(pre.store(), pre.conjuncts(), a),
    ensures
        exists|i: int| 0 <= i < out.len() && (#[trigger] out[i])@ == a,
{
    let db = pre.store();
    let q = pre.conjuncts();
    law_complete(db, q, a);
    let s = choose|s: Seq<int>| #[trigger] supports(db, q, s, a) && valid(db, q, s);
    let i = choose|i: int| 0 <= i < stood.len() && #[trigger] stood[i] == s;
    law_one_assignment(db, q, s, a, out[i]@);
}

/// Over a store that holds no fact twice, an evaluation hands out no
/// assignment twice.
pub proof fn law_collect_distinct(
    pre: QueryState,
    out: Seq<Assignment>,
    stood: Seq<Seq<int>>,
    i: int,
    j: int,
)
    requires
        enumerates(pre, out, stood),
        no_repeated_fact(pre.store()),
        0 <= i < j < out.len(),
    ensures
        out[i]@ != out[j]@,
{
    lemma_increasing(stood, i, j);
    if out[i]@ == out[j]@ {
        law_one_support(pre.store(), pre.conjuncts(), stood[i], stood[j], out[i]@);
        lemma_lex_irreflexive(stood[i]);
    }
}

/// Two evaluations, run to their end, of queries that hold the same
/// conjuncts in whatever order hand out the same assignments: what the one
/// hands out, the other hands out too. Only the order may differ.
pub proof fn law_collect_conjunct_order(
    pre1: QueryState,
    out1: Seq<Assignment>,
    stood1: Seq<Seq<int>>,
    pre2: QueryState,
    out2: Seq<Assignment>,
    stood2: Seq<Seq<int>>,
    i: int,
)
    requires
        enumerates(pre1, out1, stood1),
        enumerates(pre2, out2, stood2),
        pre1.store() == pre2.store(),
        same_conjuncts(pre1.conjuncts(), pre2.conjuncts()),
        forall|s: Seq<int>| #[trigger] valid(pre2.store(), pre2.conjuncts(), s) ==> !pre2.passed(s),
        0 <= i < out1.len(),
        well_formed(pre1.conjuncts(), out1[i]@.len()),
    ensures
        exists|j: int| 0 <= j < out2.len() && (#[trigger] out2[j])@ == out1[i]@,
{
    let db = pre1.store();
    let a = out1[i]@;
    assert(supports(db, pre1.conjuncts(), stood1[i], a));
    law_supports_satisfy(db, pre1.conjuncts(), stood1[i], a);
    law_conjunct_order(db, pre1.conjuncts(), pre2.conjuncts(), a);
    assert(declares(pre1.conjuncts(), a.len()) == declares(pre2.conjuncts(), a.len()));
    assert(well_formed(pre1.conjuncts(), a.len()) == well_formed(pre2.conjuncts(), a.len()));
    law_collect_complete(pre2, out2, stood2, a);
}

} // verus!
