//! What holds of every evaluation, stated over the evaluator's contract.

use vstd::prelude::*;
use crate::pattern::Sym;
use crate::query::{Atom, Var, declares, lemma_declares_one, mentions, uses};
use crate::store::{Database, Error};
use crate::evaluator::{
    QueryState, agree_upto, arities_ok, atom_reads, below, lex_lt, next_spec,
    precedes_at, satisfies, stored, supported_at, supports, turned_up, valid, well_formed,
};

verus! {

/// Supports of which neither comes before the other agree everywhere.
proof fn lemma_agree(s: Seq<int>, c: Seq<int>, i: int)
    requires
        s.len() == c.len(),
        !lex_lt(s, c),
        !lex_lt(c, s),
        0 <= i <= s.len(),
    ensures
        agree_upto(s, c, i),
        agree_upto(c, s, i),
    decreases i,
{
    if i > 0 {
        lemma_agree(s, c, i - 1);
        if s[i - 1] < c[i - 1] {
            assert(precedes_at(s, c, i - 1));
        } else if c[i - 1] < s[i - 1] {
            assert(precedes_at(c, s, i - 1));
        }
    }
}

/// Of two different supports of one length, one comes before the other.
pub proof fn lemma_lex_total(s: Seq<int>, c: Seq<int>)
    requires
        s.len() == c.len(),
        s != c,
    ensures
        lex_lt(s, c) || lex_lt(c, s),
{
    if !lex_lt(s, c) && !lex_lt(c, s) {
        lemma_agree(s, c, s.len() as int);
        assert(s =~= c);
    }
}

/// No support comes before itself.
pub proof fn lemma_lex_irreflexive(s: Seq<int>)
    ensures
        !lex_lt(s, s),
{
    if lex_lt(s, s) {
        let w = choose|w: int| w <= s.len() && #[trigger] precedes_at(s, s, w);
    }
}

/// Every assignment that the evaluator hands out turns every conjunct of the
/// query into a stored fact.
pub proof fn law_sound(pre: QueryState, post: QueryState, a: Seq<Sym>)
    requires
        next_spec(pre, post, Ok(Some(a))),
    ensures
        satisfies(pre.store(), pre.conjuncts(), a),
{
}

/// Every assignment of the declared variables that turns every conjunct into
/// a stored fact is the assignment of a valid support.
pub proof fn law_complete(db: Database, q: Seq<Seq<Atom>>, a: Seq<Sym>)
    requires
        declares(q, a.len()),
        satisfies(db, q, a),
    ensures
        exists|s: Seq<int>| #[trigger] supports(db, q, s, a) && valid(db, q, s),
{
    let s = Seq::new(q.len(), |k: int| choose|i: int| #[trigger] supported_at(db, q, k, i, a));
    assert forall|k: int| 0 <= k < q.len() implies supported_at(db, q, k, #[trigger] s[k], a) by {
        assert(stored(db, q, k, a));
    }
    assert(supports(db, q, s, a));
}

/// A call passes no valid support but the one it comes to stand on: whatever
/// valid support was still ahead before the call and is not afterwards, is
/// the support whose assignment the call handed out.
pub proof fn law_nothing_skipped(
    pre: QueryState,
    post: QueryState,
    r: Result<Option<Seq<Sym>>, Error>,
    s: Seq<int>,
)
    requires
        post.wf(),
        next_spec(pre, post, r),
        valid(pre.store(), pre.conjuncts(), s),
        !pre.passed(s),
        post.passed(s),
    ensures
        r is Ok ==> r != Ok::<Option<Seq<Sym>>, Error>(None) && s == post.cursors(),
        r is Err ==> r == Err::<Option<Seq<Sym>>, Error>(Error::InvalidArity) || s == post.cursors(),
{
    post.lemma_wf();
    let db = pre.store();
    let q = pre.conjuncts();
    if arities_ok(q) && r != Ok::<Option<Seq<Sym>>, Error>(None) {
        assert(turned_up(pre, post));
        let a = choose|a: Seq<Sym>| supports(db, q, s, a);
        assert(s.len() == post.cursors().len());
        if q.len() == 0 {
            assert(s =~= post.cursors());
        }
        if s != post.cursors() {
            assert(below(s, post.cursors(), post.depth()));
            assert(lex_lt(s, post.cursors()));
        }
    }
}

/// A support that was passed stays passed, and the support that a call comes
/// to stand on was not passed before: no support is handed out twice.
pub proof fn law_no_repeat(
    pre: QueryState,
    post: QueryState,
    r: Result<Option<Seq<Sym>>, Error>,
    s: Seq<int>,
)
    requires
        post.wf(),
        next_spec(pre, post, r),
    ensures
        pre.passed(s) ==> post.passed(s),
        arities_ok(pre.conjuncts()) && r != Ok::<Option<Seq<Sym>>, Error>(None) ==> !pre.passed(
            post.cursors(),
        ) && post.passed(post.cursors()),
{
    post.lemma_wf();
    if arities_ok(pre.conjuncts()) && r != Ok::<Option<Seq<Sym>>, Error>(None) {
        assert(turned_up(pre, post));
    }
}

/// No fact is stored twice.
pub open spec fn no_repeated_fact(db: Database) -> bool {
    forall|n: int, i: int, j: int|
        0 <= i < j < db.bucket(n).len() ==> #[trigger] db.bucket(n)[i] != #[trigger] db.bucket(n)[j]
}

/// Over a store that holds no fact twice, an assignment has one support:
/// different supports have different assignments, so no assignment is handed
/// out twice.
pub proof fn law_one_support(
    db: Database,
    q: Seq<Seq<Atom>>,
    s1: Seq<int>,
    s2: Seq<int>,
    a: Seq<Sym>,
)
    requires
        no_repeated_fact(db),
        supports(db, q, s1, a),
        supports(db, q, s2, a),
    ensures
        s1 == s2,
{
    assert forall|k: int| 0 <= k < q.len() implies s1[k] == s2[k] by {
        assert(supported_at(db, q, k, s1[k], a));
        assert(supported_at(db, q, k, s2[k], a));
        let n = q[k].len() as int;
        let f1 = db.bucket(n)[s1[k]];
        let f2 = db.bucket(n)[s2[k]];
        assert forall|p: int| 0 <= p < q[k].len() implies f1[p] == f2[p] by {
            assert(atom_reads(q[k][p], f1[p], a));
            assert(atom_reads(q[k][p], f2[p], a));
        }
        assert(f1 =~= f2);
        if s1[k] < s2[k] {
            assert(db.bucket(n)[s1[k]] != db.bucket(n)[s2[k]]);
        } else if s2[k] < s1[k] {
            assert(db.bucket(n)[s2[k]] != db.bucket(n)[s1[k]]);
        }
    }
    assert(s1 =~= s2);
}

/// A support of a query in which every declared variable stands has one
/// assignment.
pub proof fn law_one_assignment(
    db: Database,
    q: Seq<Seq<Atom>>,
    s: Seq<int>,
    a1: Seq<Sym>,
    a2: Seq<Sym>,
)
    requires
        supports(db, q, s, a1),
        supports(db, q, s, a2),
        well_formed(q, a1.len()),
    ensures
        a1 == a2,
{
    lemma_declares_one(q, a1.len(), a2.len());
    assert forall|i: int| 0 <= i < a1.len() implies a1[i] == a2[i] by {
        let v = i as Var;
        assert(uses(q, v));
        let k = choose|k: int| 0 <= k < q.len() && mentions(#[trigger] q[k], v);
        let p = choose|p: int| 0 <= p < q[k].len() && #[trigger] q[k][p] == Atom::Var(v);
        assert(supported_at(db, q, k, s[k], a1));
        assert(supported_at(db, q, k, s[k], a2));
        let f = db.bucket(q[k].len() as int)[s[k]];
        assert(atom_reads(q[k][p], f[p], a1));
        assert(atom_reads(q[k][p], f[p], a2));
    }
    assert(a1 =~= a2);
}

/// Two calls on evaluators of one query over one store that have passed the
/// same supports hand out the same and leave the same supports passed. So
/// two evaluations of a query over a store hand out the same sequence.
pub proof fn law_deterministic(
    pre1: QueryState,
    post1: QueryState,
    r1: Result<Option<Seq<Sym>>, Error>,
    pre2: QueryState,
    post2: QueryState,
    r2: Result<Option<Seq<Sym>>, Error>,
)
    requires
        pre1.wf(),
        pre2.wf(),
        post1.wf(),
        post2.wf(),
        pre1.store() == pre2.store(),
        pre1.conjuncts() == pre2.conjuncts(),
        forall|s: Seq<int>| pre1.passed(s) == pre2.passed(s),
        next_spec(pre1, post1, r1),
        next_spec(pre2, post2, r2),
    ensures
        r1 == r2,
        forall|s: Seq<int>| post1.passed(s) == post2.passed(s),
{
    pre1.lemma_wf();
    pre2.lemma_wf();
    post1.lemma_wf();
    post2.lemma_wf();
    let db = pre1.store();
    let q = pre1.conjuncts();
    let none = Ok::<Option<Seq<Sym>>, Error>(None);
    lemma_declares_one(q, pre1.slots().len(), pre2.slots().len());
    if arities_ok(q) {
        if r1 == none || r2 == none {
            if r1 != none {
                assert(turned_up(pre1, post1));
                let c1 = post1.cursors();
                assert(valid(db, q, c1));
                assert(pre1.passed(c1) == pre2.passed(c1));
            }
            if r2 != none {
                assert(turned_up(pre2, post2));
                let c2 = post2.cursors();
                assert(valid(db, q, c2));
                assert(pre1.passed(c2) == pre2.passed(c2));
            }
        } else {
            assert(turned_up(pre1, post1));
            assert(turned_up(pre2, post2));
            let c1 = post1.cursors();
            let c2 = post2.cursors();
            assert(valid(db, q, c1));
            assert(valid(db, q, c2));
            assert(pre1.passed(c1) == pre2.passed(c1));
            assert(pre1.passed(c2) == pre2.passed(c2));
            if c1 != c2 {
                lemma_lex_total(c1, c2);
            }
            match (r1, r2) {
                (Ok(Some(a1)), Ok(Some(a2))) => {
                    law_one_assignment(db, q, c1, a1, a2);
                },
                (Ok(Some(a1)), Err(_)) => {
                    lemma_declares_one(q, a1.len(), pre1.slots().len());
                },
                (Err(_), Ok(Some(a2))) => {
                    lemma_declares_one(q, a2.len(), pre2.slots().len());
                },
                _ => {},
            }
        }
    } else {
        assert(post1 == pre1);
        assert(post2 == pre2);
        assert forall|s: Seq<int>| post1.passed(s) == post2.passed(s) by {
            assert(pre1.passed(s) == pre2.passed(s));
        }
    }
}

/// The supports that successive calls stand on come in strictly increasing
/// lexicographic order of the fact indices, conjunct by conjunct.
pub proof fn law_order(pre: QueryState, post: QueryState, r: Result<Option<Seq<Sym>>, Error>)
    requires
        pre.wf(),
        post.wf(),
        next_spec(pre, post, r),
        arities_ok(pre.conjuncts()),
        r != Ok::<Option<Seq<Sym>>, Error>(None),
        !pre.is_exhausted(),
        pre.depth() == pre.conjuncts().len(),
    ensures
        pre.conjuncts().len() > 0 ==> lex_lt(pre.cursors(), post.cursors()),
        forall|s: Seq<int>|
            #[trigger] valid(pre.store(), pre.conjuncts(), s) && lex_lt(pre.cursors(), s) ==> !lex_lt(
                s,
                post.cursors(),
            ),
{
    pre.lemma_wf();
    post.lemma_wf();
    assert(turned_up(pre, post));
    let c0 = pre.cursors();
    let c1 = post.cursors();
    if pre.conjuncts().len() > 0 {
        assert(c0 != c1);
        lemma_lex_total(c0, c1);
    }
    assert forall|s: Seq<int>|
        #[trigger] valid(pre.store(), pre.conjuncts(), s) && lex_lt(c0, s) implies !lex_lt(s, c1) by {
        if pre.passed(s) {
            lemma_lex_irreflexive(s);
            if below(s, c0, pre.depth()) {
                let w1 = choose|w: int| w <= c0.len() && #[trigger] precedes_at(s, c0, w);
                let w2 = choose|w: int| w <= s.len() && #[trigger] precedes_at(c0, s, w);
                if w1 < w2 {
                    assert(c0[w1] == s[w1]);
                } else if w2 < w1 {
                    assert(s[w2] == c0[w2]);
                }
            }
        }
    }
}

/// Once a call has found nothing left, every later call finds nothing left.
pub proof fn law_resumable(pre: QueryState, post: QueryState, r: Result<Option<Seq<Sym>>, Error>)
    requires
        pre.is_exhausted(),
        arities_ok(pre.conjuncts()),
        next_spec(pre, post, r),
    ensures
        r == Ok::<Option<Seq<Sym>>, Error>(None),
        post.is_exhausted(),
{
    if r != Ok::<Option<Seq<Sym>>, Error>(None) {
        assert(turned_up(pre, post));
    }
}

/// Two evaluators of one query over one store that have passed the same
/// supports.
pub open spec fn alike(a: QueryState, b: QueryState) -> bool {
    &&& a.store() == b.store()
    &&& a.conjuncts() == b.conjuncts()
    &&& forall|s: Seq<int>| a.passed(s) == b.passed(s)
}

/// `states` are the states of an evaluator before and after successive
/// calls of `next`, and `results` is what the calls handed out.
pub open spec fn calls(
    states: Seq<QueryState>,
    results: Seq<Result<Option<Seq<Sym>>, Error>>,
) -> bool {
    &&& states.len() == results.len() + 1
    &&& forall|i: int| 0 <= i < states.len() ==> (#[trigger] states[i]).wf()
    &&& forall|i: int|
        0 <= i < results.len() ==> next_spec(states[i], states[i + 1], #[trigger] results[i])
}

/// Two fresh evaluators of one query over one store have passed the same
/// supports.
pub proof fn law_fresh_alike(a: QueryState, b: QueryState)
    requires
        a.wf(),
        b.wf(),
        a.store() == b.store(),
        a.conjuncts() == b.conjuncts(),
        a.depth() == 0,
        b.depth() == 0,
        !a.is_exhausted(),
        !b.is_exhausted(),
        forall|k: int| 0 <= k < a.cursors().len() ==> (#[trigger] a.cursors()[k]) == 0,
        forall|k: int| 0 <= k < b.cursors().len() ==> (#[trigger] b.cursors()[k]) == 0,
    ensures
        alike(a, b),
{
    a.lemma_wf();
    b.lemma_wf();
    assert forall|s: Seq<int>| a.passed(s) == b.passed(s) by {
        if below(s, a.cursors(), 0) {
            let w = choose|w: int| w <= 0 && #[trigger] precedes_at(s, a.cursors(), w);
            assert(precedes_at(s, b.cursors(), w));
        }
        if below(s, b.cursors(), 0) {
            let w = choose|w: int| w <= 0 && #[trigger] precedes_at(s, b.cursors(), w);
            assert(precedes_at(s, a.cursors(), w));
        }
    }
}

/// Two evaluations that start alike hand out the same at every call: the
/// n-th call of the one hands out what the n-th call of the other does.
pub proof fn law_same_sequence(
    states1: Seq<QueryState>,
    results1: Seq<Result<Option<Seq<Sym>>, Error>>,
    states2: Seq<QueryState>,
    results2: Seq<Result<Option<Seq<Sym>>, Error>>,
    n: int,
)
    requires
        calls(states1, results1),
        calls(states2, results2),
        alike(states1[0], states2[0]),
        0 <= n < results1.len(),
        n < results2.len(),
    ensures
        results1[n] == results2[n],
        alike(states1[n + 1], states2[n + 1]),
    decreases n,
{
    if n > 0 {
        law_same_sequence(states1, results1, states2, results2, n - 1);
    }
    assert(states1[n].wf() && states1[n + 1].wf());
    assert(states2[n].wf() && states2[n + 1].wf());
    assert(next_spec(states1[n], states1[n + 1], results1[n]));
    assert(next_spec(states2[n], states2[n + 1], results2[n]));
    law_deterministic(
        states1[n],
        states1[n + 1],
        results1[n],
        states2[n],
        states2[n + 1],
        results2[n],
    );
}

/// `conj` is a conjunct of `q`.
pub open spec fn among(q: Seq<Seq<Atom>>, conj: Seq<Atom>) -> bool {
    exists|j: int| 0 <= j < q.len() && #[trigger] q[j] == conj
}

/// Every conjunct of `q2` is a conjunct of `q1`.
pub open spec fn conjuncts_among(q1: Seq<Seq<Atom>>, q2: Seq<Seq<Atom>>) -> bool {
    forall|k: int| 0 <= k < q2.len() ==> among(q1, #[trigger] q2[k])
}

/// Two queries hold the same conjuncts, in whatever order.
pub open spec fn same_conjuncts(q1: Seq<Seq<Atom>>, q2: Seq<Seq<Atom>>) -> bool {
    conjuncts_among(q1, q2) && conjuncts_among(q2, q1)
}

/// What satisfies every conjunct of `q1` satisfies every conjunct of a query
/// whose conjuncts are among those of `q1`, and a variable of the second
/// stands in the first.
proof fn lemma_conjuncts_among(db: Database, q1: Seq<Seq<Atom>>, q2: Seq<Seq<Atom>>, a: Seq<Sym>)
    requires
        conjuncts_among(q1, q2),
    ensures
        satisfies(db, q1, a) ==> satisfies(db, q2, a),
        forall|v: Var| uses(q2, v) ==> uses(q1, v),
{
    if satisfies(db, q1, a) {
        assert forall|k: int| 0 <= k < q2.len() implies #[trigger] stored(db, q2, k, a) by {
            assert(among(q1, q2[k]));
            let j = choose|j: int| 0 <= j < q1.len() && #[trigger] q1[j] == q2[k];
            assert(stored(db, q1, j, a));
            let i = choose|i: int| #[trigger] supported_at(db, q1, j, i, a);
            assert(supported_at(db, q2, k, i, a));
        }
    }
    assert forall|v: Var| uses(q2, v) implies uses(q1, v) by {
        let k = choose|k: int| 0 <= k < q2.len() && mentions(#[trigger] q2[k], v);
        assert(among(q1, q2[k]));
        let j = choose|j: int| 0 <= j < q1.len() && #[trigger] q1[j] == q2[k];
        assert(mentions(q1[j], v));
    }
}

/// The order of the conjuncts does not change which assignments satisfy a
/// query, nor which variables it declares.
pub proof fn law_conjunct_order(db: Database, q1: Seq<Seq<Atom>>, q2: Seq<Seq<Atom>>, a: Seq<Sym>)
    requires
        same_conjuncts(q1, q2),
    ensures
        satisfies(db, q1, a) == satisfies(db, q2, a),
        forall|v: Var| uses(q1, v) == uses(q2, v),
        forall|n: nat| declares(q1, n) == declares(q2, n),
        forall|n: nat| well_formed(q1, n) == well_formed(q2, n),
{
    lemma_conjuncts_among(db, q1, q2, a);
    lemma_conjuncts_among(db, q2, q1, a);
    assert forall|v: Var| uses(q1, v) == uses(q2, v) by {}
    assert forall|n: nat| declares(q1, n) == declares(q2, n) by {
        if n > 0 && n - 1 <= Var::MAX {
            assert(uses(q1, (n - 1) as Var) == uses(q2, (n - 1) as Var));
        }
    }
    assert forall|n: nat| well_formed(q1, n) == well_formed(q2, n) by {}
}

/// The assignment of a support satisfies the query.
pub proof fn law_supports_satisfy(db: Database, q: Seq<Seq<Atom>>, s: Seq<int>, a: Seq<Sym>)
    requires
        supports(db, q, s, a),
    ensures
        satisfies(db, q, a),
{
    assert forall|k: int| 0 <= k < q.len() implies #[trigger] stored(db, q, k, a) by {
        assert(supported_at(db, q, k, s[k], a));
    }
}

} // verus!
