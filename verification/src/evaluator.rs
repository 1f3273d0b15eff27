//! The query evaluator: a backtracking search that is driven one solution at
//! a time.
//!
//! A *support* of a query gives each conjunct the index of a stored fact. It
//! is valid when one assignment of the variables turns every conjunct into
//! the fact chosen for it. The evaluator visits the valid supports in
//! lexicographic order and hands out the assignment of each.

use vstd::prelude::*;
use crate::pattern::{Pattern, PatternAtom, Sym, admits_fact};
use crate::query::{Atom, Query, Var, mentions, uses, declares};
use crate::store::{Database, Error, supported_arity};

verus! {

/// Associates each variable id with its value.
pub type Assignment = Vec<Sym>;

/// Position `atom` of a conjunct reads `sym` under assignment `a`.
pub open spec fn atom_reads(atom: Atom, sym: Sym, a: Seq<Sym>) -> bool {
    match atom {
        Atom::Sym(x) => sym == x,
        Atom::Var(v) => v < a.len() && a[v as int] == sym,
    }
}

/// `fact` is `conj` with every variable replaced by its value in `a`.
pub open spec fn instance_of(fact: Seq<Sym>, conj: Seq<Atom>, a: Seq<Sym>) -> bool {
    &&& fact.len() == conj.len()
    &&& forall|p: int| 0 <= p < conj.len() ==> atom_reads(#[trigger] conj[p], fact[p], a)
}

/// Conjunct `k` of `q`, read under `a`, is the fact at index `i` of its group.
pub open spec fn supported_at(db: Database, q: Seq<Seq<Atom>>, k: int, i: int, a: Seq<Sym>) -> bool {
    &&& 0 <= i < db.bucket(q[k].len() as int).len()
    &&& instance_of(db.bucket(q[k].len() as int)[i], q[k], a)
}

/// Conjunct `k` of `q`, read under `a`, is a stored fact.
pub open spec fn stored(db: Database, q: Seq<Seq<Atom>>, k: int, a: Seq<Sym>) -> bool {
    exists|i: int| #[trigger] supported_at(db, q, k, i, a)
}

/// Every conjunct of `q`, read under `a`, is a stored fact.
pub open spec fn satisfies(db: Database, q: Seq<Seq<Atom>>, a: Seq<Sym>) -> bool {
    forall|k: int| 0 <= k < q.len() ==> #[trigger] stored(db, q, k, a)
}

/// `s` names, for each conjunct, a stored fact that is the conjunct read
/// under `a`, and `a` has one value for each declared variable.
pub open spec fn supports(db: Database, q: Seq<Seq<Atom>>, s: Seq<int>, a: Seq<Sym>) -> bool {
    &&& s.len() == q.len()
    &&& declares(q, a.len())
    &&& forall|k: int| 0 <= k < q.len() ==> supported_at(db, q, k, #[trigger] s[k], a)
}

/// Some assignment makes `s` a support of `q`.
pub open spec fn valid(db: Database, q: Seq<Seq<Atom>>, s: Seq<int>) -> bool {
    exists|a: Seq<Sym>| supports(db, q, s, a)
}

/// Every declared variable stands in some conjunct.
pub open spec fn well_formed(q: Seq<Seq<Atom>>, n: nat) -> bool {
    forall|v: Var| v < n ==> uses(q, v)
}

/// Every conjunct has a supported arity.
pub open spec fn arities_ok(q: Seq<Seq<Atom>>) -> bool {
    forall|k: int| 0 <= k < q.len() ==> supported_arity((#[trigger] q[k]).len() as int)
}

/// `s` and `c` hold the same index at every position before `i`.
pub open spec fn agree_upto(s: Seq<int>, c: Seq<int>, i: int) -> bool {
    forall|j: int| 0 <= j < i ==> (#[trigger] s[j]) == c[j]
}

/// `s` and `c` agree before position `i`, where `s` is smaller.
pub open spec fn precedes_at(s: Seq<int>, c: Seq<int>, i: int) -> bool {
    0 <= i < c.len() && agree_upto(s, c, i) && s[i] < c[i]
}

/// `s` is smaller than `c` at a position up to `k`, with all earlier
/// positions equal.
pub open spec fn below(s: Seq<int>, c: Seq<int>, k: int) -> bool {
    exists|i: int| i <= k && #[trigger] precedes_at(s, c, i)
}

/// Lexicographic order on supports of one query.
pub open spec fn lex_lt(s: Seq<int>, c: Seq<int>) -> bool {
    below(s, c, c.len() as int)
}

/// Variable `v` stands in a conjunct before conjunct `k`.
pub open spec fn bound_before(q: Seq<Seq<Atom>>, k: int, v: Var) -> bool {
    exists|j: int| 0 <= j < k && j < q.len() && mentions(#[trigger] q[j], v)
}

/// Conjunct `k` is the first in which variable `v` stands.
pub open spec fn first_bound_at(q: Seq<Seq<Atom>>, k: int, v: Var) -> bool {
    0 <= k < q.len() && mentions(q[k], v) && !bound_before(q, k, v)
}

/// Position `atom` of a conjunct reads `sym` under the slots `slots`.
pub open spec fn slot_reads(atom: Atom, sym: Sym, slots: Seq<PatternAtom>) -> bool {
    match atom {
        Atom::Sym(x) => sym == x,
        Atom::Var(v) => v < slots.len() && slots[v as int] == PatternAtom::Sym(sym),
    }
}

/// `fact` is `conj` with every variable replaced by the symbol of its slot.
pub open spec fn holds(fact: Seq<Sym>, conj: Seq<Atom>, slots: Seq<PatternAtom>) -> bool {
    &&& fact.len() == conj.len()
    &&& forall|p: int| 0 <= p < conj.len() ==> slot_reads(#[trigger] conj[p], fact[p], slots)
}

/// What `atom` becomes in a pattern: a symbol stays, a variable becomes its
/// slot.
pub open spec fn project_atom(atom: Atom, slots: Seq<PatternAtom>) -> PatternAtom {
    match atom {
        Atom::Sym(x) => PatternAtom::Sym(x),
        Atom::Var(v) => slots[v as int],
    }
}

/// The pattern of `conj` under `slots`.
pub open spec fn projection(conj: Seq<Atom>, slots: Seq<PatternAtom>) -> Seq<PatternAtom> {
    Seq::new(conj.len(), |p: int| project_atom(conj[p], slots))
}

/// Positions of `conj` that hold the same variable hold the same symbol in
/// `fact`.
pub open spec fn agrees(conj: Seq<Atom>, fact: Seq<Sym>) -> bool {
    forall|p1: int, p2: int|
        #![trigger conj[p1], conj[p2]]
        0 <= p1 < conj.len() && 0 <= p2 < conj.len() && conj[p1] is Var && conj[p1] == conj[p2]
            ==> fact[p1] == fact[p2]
}

/// `fact` can support `conj` when the variables bound so far are as in
/// `slots`.
pub open spec fn acceptable(fact: Seq<Sym>, conj: Seq<Atom>, slots: Seq<PatternAtom>) -> bool {
    &&& fact.len() == conj.len()
    &&& admits_fact(projection(conj, slots), fact)
    &&& agrees(conj, fact)
}

/// The slots in which every variable is bound to its symbol in `a`.
pub open spec fn bound_slots(a: Seq<Sym>) -> Seq<PatternAtom> {
    Seq::new(a.len(), |v: int| PatternAtom::Sym(a[v]))
}

/// The slots as an assignment; an unbound slot reads as symbol zero.
pub open spec fn concretize(slots: Seq<PatternAtom>) -> Seq<Sym> {
    Seq::new(
        slots.len(),
        |v: int|
            match slots[v] {
                PatternAtom::Sym(x) => x,
                PatternAtom::Wildcard => 0u32,
            },
    )
}

/// The pattern of a conjunct under the current slots.
pub fn project(atoms: &[Atom], slots: &Vec<PatternAtom>) -> (p: Pattern)
    requires
        forall|v: Var| mentions(atoms@, v) ==> v < slots@.len(),
    ensures
        p@ == projection(atoms@, slots@),
{
    let mut elems: Vec<PatternAtom> = Vec::new();
    let mut i: usize = 0;
    while i < atoms.len()
        invariant
            i <= atoms@.len(),
            elems@.len() == i,
            forall|v: Var| mentions(atoms@, v) ==> v < slots@.len(),
            forall|j: int| 0 <= j < i ==> elems@[j] == project_atom(#[trigger] atoms@[j], slots@),
        decreases atoms@.len() - i,
    {
        match atoms[i] {
            Atom::Sym(s) => elems.push(PatternAtom::Sym(s)),
            Atom::Var(v) => {
                assert(atoms@[i as int] == Atom::Var(v));
                assert(mentions(atoms@, v));
                elems.push(slots[v as usize]);
            },
        }
        i += 1;
    }
    assert(elems@ =~= projection(atoms@, slots@));
    Pattern::new(elems)
}

/// Whether positions of `atoms` that hold one variable hold one symbol in
/// `fact`.
pub fn repeated_agree(atoms: &[Atom], fact: &[Sym]) -> (r: bool)
    requires
        atoms@.len() == fact@.len(),
    ensures
        r == agrees(atoms@, fact@),
{
    let n = atoms.len();
    let mut i: usize = 0;
    while i < n
        invariant
            n == atoms@.len(),
            n == fact@.len(),
            i <= n,
            forall|p1: int, p2: int|
                #![trigger atoms@[p1], atoms@[p2]]
                0 <= p1 < i && 0 <= p2 < n && atoms@[p1] is Var && atoms@[p1] == atoms@[p2]
                    ==> fact@[p1] == fact@[p2],
        decreases n - i,
    {
        match atoms[i] {
            Atom::Var(v) => {
                let mut j: usize = 0;
                while j < n
                    invariant
                        n == atoms@.len(),
                        n == fact@.len(),
                        i < n,
                        j <= n,
                        atoms@[i as int] == Atom::Var(v),
                        forall|p2: int|
                            0 <= p2 < j && atoms@[i as int] == #[trigger] atoms@[p2] ==> fact@[i as int]
                                == fact@[p2],
                    decreases n - j,
                {
                    match atoms[j] {
                        Atom::Var(w) => {
                            if w == v && fact[i] != fact[j] {
                                assert(atoms@[i as int] == atoms@[j as int]);
                                return false;
                            }
                        },
                        Atom::Sym(_) => {},
                    }
                    j += 1;
                }
            },
            Atom::Sym(_) => {},
        }
        i += 1;
    }
    true
}


/// Trail entry `e`, made below depth `k`, names a variable and the conjunct
/// in which it first stands.
pub open spec fn trail_entry_ok(q: Seq<Seq<Atom>>, e: (usize, Var), n: nat, k: int) -> bool {
    e.0 < k && e.1 < n && first_bound_at(q, e.0 as int, e.1)
}

/// The trail has an entry for variable `v`.
pub open spec fn recorded(trail: Seq<(usize, Var)>, v: Var) -> bool {
    exists|t: int| 0 <= t < trail.len() && (#[trigger] trail[t]).1 == v
}

/// The trail lists, by conjunct, the variables that each conjunct bound.
pub open spec fn trail_ok(
    q: Seq<Seq<Atom>>,
    trail: Seq<(usize, Var)>,
    slots: Seq<PatternAtom>,
    k: int,
) -> bool {
    &&& forall|t: int| 0 <= t < trail.len() ==> trail_entry_ok(q, #[trigger] trail[t], slots.len(), k)
    &&& forall|t1: int, t2: int|
        0 <= t1 <= t2 < trail.len() ==> (#[trigger] trail[t1]).0 <= (#[trigger] trail[t2]).0
    &&& forall|v: Var|
        v < slots.len() && slots[v as int] != PatternAtom::Wildcard ==> #[trigger] recorded(trail, v)
}

/// `after` is `before` without its entries of conjunct `k`, which stand at
/// its end.
pub open spec fn trail_cut(before: Seq<(usize, Var)>, after: Seq<(usize, Var)>, k: int) -> bool {
    &&& after.len() <= before.len()
    &&& after == before.take(after.len() as int)
    &&& forall|t: int| 0 <= t < after.len() ==> (#[trigger] before[t]).0 < k
    &&& forall|t: int| after.len() <= t < before.len() ==> (#[trigger] before[t]).0 == k
}

/// A slot is bound exactly when its variable stands in a conjunct before `k`.
pub open spec fn slots_match(q: Seq<Seq<Atom>>, slots: Seq<PatternAtom>, k: int) -> bool {
    forall|v: Var|
        v < slots.len() ==> ((slots[v as int] != PatternAtom::Wildcard) <==> #[trigger] bound_before(
            q,
            k,
            v,
        ))
}

/// Each conjunct before `k` is, under the slots, the fact at its cursor.
pub open spec fn prefix_supported(
    db: Database,
    q: Seq<Seq<Atom>>,
    cursors: Seq<int>,
    slots: Seq<PatternAtom>,
    k: int,
) -> bool {
    forall|j: int|
        0 <= j < k ==> {
            &&& 0 <= #[trigger] cursors[j] < db.bucket(q[j].len() as int).len()
            &&& holds(db.bucket(q[j].len() as int)[cursors[j]], q[j], slots)
        }
}

/// Index `i` is the first at or after `from` whose fact can support `conj`.
pub open spec fn next_support(
    facts: Seq<Seq<Sym>>,
    conj: Seq<Atom>,
    slots: Seq<PatternAtom>,
    from: int,
    i: int,
) -> bool {
    &&& 0 <= from <= i < facts.len()
    &&& acceptable(facts[i], conj, slots)
    &&& forall|j: int| from <= j < i ==> !acceptable(#[trigger] facts[j], conj, slots)
}

/// No fact at or after index `from` can support `conj`.
pub open spec fn no_support_from(
    facts: Seq<Seq<Sym>>,
    conj: Seq<Atom>,
    slots: Seq<PatternAtom>,
    from: int,
) -> bool {
    forall|j: int| 0 <= from <= j < facts.len() ==> !acceptable(#[trigger] facts[j], conj, slots)
}

/// A valid support that agrees with the cursors before conjunct `k` names,
/// at `k`, a fact that can support the conjunct under the slots.
pub proof fn lemma_valid_acceptable(
    db: Database,
    q: Seq<Seq<Atom>>,
    c: Seq<int>,
    slots: Seq<PatternAtom>,
    k: int,
    s: Seq<int>,
    a: Seq<Sym>,
)
    requires
        0 <= k < q.len(),
        declares(q, slots.len()),
        prefix_supported(db, q, c, slots, k),
        slots_match(q, slots, k),
        supports(db, q, s, a),
        agree_upto(s, c, k),
    ensures
        0 <= s[k] < db.bucket(q[k].len() as int).len(),
        acceptable(db.bucket(q[k].len() as int)[s[k]], q[k], slots),
{
    let conj = q[k];
    assert(supported_at(db, q, k, s[k], a));
    let f = db.bucket(conj.len() as int)[s[k]];
    assert forall|p: int| 0 <= p < conj.len() implies (#[trigger] projection(conj, slots)[p]).admits(
        f[p],
    ) by {
        assert(atom_reads(conj[p], f[p], a));
        match conj[p] {
            Atom::Sym(x) => {},
            Atom::Var(v) => {
                assert(mentions(conj, v));
                assert(uses(q, v));
                assert(projection(conj, slots)[p] == slots[v as int]);
                if slots[v as int] != PatternAtom::Wildcard {
                    assert(bound_before(q, k, v));
                    let j = choose|j: int| 0 <= j < k && j < q.len() && mentions(#[trigger] q[j], v);
                    let r = choose|r: int| 0 <= r < q[j].len() && #[trigger] q[j][r] == Atom::Var(v);
                    assert(s[j] == c[j]);
                    assert(0 <= c[j] < db.bucket(q[j].len() as int).len());
                    let g = db.bucket(q[j].len() as int)[c[j]];
                    assert(slot_reads(q[j][r], g[r], slots));
                    assert(supported_at(db, q, j, s[j], a));
                    assert(atom_reads(q[j][r], g[r], a));
                }
            },
        }
    }
    assert forall|p1: int, p2: int|
        #![trigger conj[p1], conj[p2]]
        0 <= p1 < conj.len() && 0 <= p2 < conj.len() && conj[p1] is Var && conj[p1]
            == conj[p2] implies f[p1] == f[p2] by {
        assert(atom_reads(conj[p1], f[p1], a));
        assert(atom_reads(conj[p2], f[p2], a));
    }
}

/// When every conjunct is supported under the slots, the cursors are a
/// support under the slots read as an assignment.
pub proof fn lemma_standing(db: Database, q: Seq<Seq<Atom>>, c: Seq<int>, slots: Seq<PatternAtom>)
    requires
        c.len() == q.len(),
        declares(q, slots.len()),
        prefix_supported(db, q, c, slots, q.len() as int),
    ensures
        supports(db, q, c, concretize(slots)),
        satisfies(db, q, concretize(slots)),
{
    let a = concretize(slots);
    assert forall|k: int| 0 <= k < q.len() implies supported_at(db, q, k, #[trigger] c[k], a) by {
        let f = db.bucket(q[k].len() as int)[c[k]];
        assert(holds(f, q[k], slots));
        assert forall|p: int| 0 <= p < q[k].len() implies atom_reads(#[trigger] q[k][p], f[p], a) by {
            assert(slot_reads(q[k][p], f[p], slots));
        }
    }
    assert forall|k: int| 0 <= k < q.len() implies #[trigger] stored(db, q, k, a) by {
        assert(supported_at(db, q, k, c[k], a));
    }
}

/// Moving the frontier forward at `k` leaves behind what was behind.
pub proof fn lemma_below_advance(s: Seq<int>, c: Seq<int>, c2: Seq<int>, k: int)
    requires
        below(s, c, k),
        0 <= k < c.len(),
        c2.len() == c.len(),
        forall|j: int| 0 <= j < k ==> #[trigger] c2[j] == c[j],
        c2[k] >= c[k],
    ensures
        below(s, c2, k + 1),
{
    let w = choose|w: int| w <= k && #[trigger] precedes_at(s, c, w);
    assert(precedes_at(s, c2, w));
}

/// Backtracking from `k` leaves behind what was behind.
pub proof fn lemma_below_retreat(s: Seq<int>, c: Seq<int>, c2: Seq<int>, k: int)
    requires
        below(s, c, k),
        0 < k <= c.len(),
        c2.len() == c.len(),
        forall|j: int| 0 <= j < k - 1 ==> #[trigger] c2[j] == c[j],
        c2[k - 1] == c[k - 1] + 1,
    ensures
        below(s, c2, k - 1),
{
    let w = choose|w: int| w <= k && #[trigger] precedes_at(s, c, w);
    if w == k {
        assert(s[k - 1] == c[k - 1]);
        assert(precedes_at(s, c2, k - 1));
    } else {
        assert(precedes_at(s, c2, w));
    }
}

/// What lies behind the frontier after a forward step at `k` lay behind it
/// before, or names at `k` an index that the step skipped.
pub proof fn lemma_above_advance(s: Seq<int>, c: Seq<int>, c2: Seq<int>, k: int)
    requires
        below(s, c2, k + 1),
        0 <= k < c.len(),
        c2.len() == c.len(),
        forall|j: int| 0 <= j < k ==> #[trigger] c2[j] == c[j],
        k + 1 < c.len() ==> c2[k + 1] == 0 && s[k + 1] >= 0,
    ensures
        below(s, c, k) || (agree_upto(s, c, k) && c[k] <= s[k] < c2[k]),
{
    let w = choose|w: int| w <= k + 1 && #[trigger] precedes_at(s, c2, w);
    if w < k {
        assert(precedes_at(s, c, w));
    } else if w == k {
        if s[k] < c[k] {
            assert(precedes_at(s, c, k));
        }
    }
}

/// What lies behind the frontier after backtracking from `k` lay behind the
/// cursors before `k`, or agrees with them there.
pub proof fn lemma_above_retreat(s: Seq<int>, c: Seq<int>, c2: Seq<int>, k: int)
    requires
        below(s, c2, k - 1),
        0 < k <= c.len(),
        c2.len() == c.len(),
        forall|j: int| 0 <= j < k - 1 ==> #[trigger] c2[j] == c[j],
        c2[k - 1] == c[k - 1] + 1,
    ensures
        below(s, c, k - 1) || agree_upto(s, c, k),
{
    let w = choose|w: int| w <= k - 1 && #[trigger] precedes_at(s, c2, w);
    if w < k - 1 {
        assert(precedes_at(s, c, w));
    } else {
        if s[k - 1] < c[k - 1] {
            assert(precedes_at(s, c, k - 1));
        }
    }
}

/// For each conjunct the number of facts in its group.
pub open spec fn group_sizes(db: Database, q: Seq<Seq<Atom>>) -> Seq<int> {
    Seq::new(q.len(), |j: int| db.bucket(q[j].len() as int).len() as int)
}

/// The number of cursor settings from conjunct `j` on.
pub open spec fn weight(lens: Seq<int>, j: int) -> int
    decreases lens.len() - j,
{
    if j < 0 || j >= lens.len() {
        1
    } else {
        (lens[j] + 1) * weight(lens, j + 1)
    }
}

/// The place of the cursors from conjunct `j` on among all their settings,
/// in lexicographic order.
pub open spec fn rank(c: Seq<int>, lens: Seq<int>, j: int) -> int
    decreases lens.len() - j,
{
    if j < 0 || j >= lens.len() {
        0
    } else {
        c[j] * weight(lens, j + 1) + rank(c, lens, j + 1)
    }
}

/// There is at least one cursor setting.
pub proof fn lemma_weight_pos(lens: Seq<int>, j: int)
    requires
        forall|i: int| 0 <= i < lens.len() ==> #[trigger] lens[i] >= 0,
    ensures
        weight(lens, j) >= 1,
    decreases lens.len() - j,
{
    if 0 <= j < lens.len() {
        lemma_weight_pos(lens, j + 1);
        let l = lens[j];
        let w = weight(lens, j + 1);
        assert((l + 1) * w >= 1) by (nonlinear_arith)
            requires
                l >= 0,
                w >= 1,
        ;
    }
}

/// Cursors within their groups have a rank below the number of settings.
pub proof fn lemma_rank_bound(c: Seq<int>, lens: Seq<int>, j: int)
    requires
        0 <= j,
        forall|i: int| 0 <= i < lens.len() ==> #[trigger] lens[i] >= 0,
        forall|i: int| j <= i < lens.len() ==> 0 <= #[trigger] c[i] <= lens[i],
    ensures
        0 <= rank(c, lens, j) < weight(lens, j),
    decreases lens.len() - j,
{
    if j < lens.len() {
        lemma_rank_bound(c, lens, j + 1);
        let l = lens[j];
        let x = c[j];
        let w = weight(lens, j + 1);
        let r = rank(c, lens, j + 1);
        assert(0 <= x * w + r < (l + 1) * w) by (nonlinear_arith)
            requires
                0 <= x <= l,
                0 <= r < w,
        ;
    }
}

/// The rank from `j` on depends on the cursors from `j` on alone.
pub proof fn lemma_rank_same(c: Seq<int>, c2: Seq<int>, lens: Seq<int>, j: int)
    requires
        0 <= j,
        forall|i: int| j <= i < lens.len() ==> #[trigger] c[i] == c2[i],
    ensures
        rank(c, lens, j) == rank(c2, lens, j),
    decreases lens.len() - j,
{
    if j < lens.len() {
        lemma_rank_same(c, c2, lens, j + 1);
    }
}

/// Changing the cursor of conjunct `k` moves the rank by the change times
/// the number of settings after `k`.
pub proof fn lemma_rank_update(c: Seq<int>, c2: Seq<int>, lens: Seq<int>, k: int, j: int)
    requires
        0 <= j <= k < lens.len(),
        forall|i: int| j <= i < lens.len() && i != k ==> #[trigger] c[i] == c2[i],
    ensures
        rank(c2, lens, j) == rank(c, lens, j) + (c2[k] - c[k]) * weight(lens, k + 1),
    decreases k - j,
{
    if j == k {
        lemma_rank_same(c, c2, lens, k + 1);
        let w = weight(lens, k + 1);
        let x = c[k];
        let y = c2[k];
        assert(y * w == x * w + (y - x) * w) by (nonlinear_arith);
    } else {
        lemma_rank_update(c, c2, lens, k, j + 1);
    }
}

/// The frontier at depth `k` of cursors `c` has left behind what `pre` had
/// passed, and no valid support that `pre` had not.
pub open spec fn frontier_ok(
    pre: QueryState,
    db: Database,
    q: Seq<Seq<Atom>>,
    c: Seq<int>,
    k: int,
) -> bool {
    &&& forall|s: Seq<int>| #[trigger] valid(db, q, s) && !pre.passed(s) ==> !below(s, c, k)
    &&& forall|s: Seq<int>| #[trigger] pre.passed(s) ==> below(s, c, k)
}

/// `post` stands on the first valid support, in lexicographic order, that
/// `pre` had not passed.
pub open spec fn turned_up(pre: QueryState, post: QueryState) -> bool {
    let db = pre.store();
    let q = pre.conjuncts();
    let c = post.cursors();
    &&& valid(db, q, c)
    &&& !pre.passed(c)
    &&& forall|s: Seq<int>| #[trigger] valid(db, q, s) && !pre.passed(s) ==> !lex_lt(s, c)
    &&& forall|s: Seq<int>| #[trigger] pre.passed(s) ==> post.passed(s)
    &&& q.len() > 0 ==> post.depth() == q.len() && !post.is_exhausted()
    &&& q.len() == 0 ==> post.is_exhausted()
}

/// The evaluator is before the first conjunct, with that conjunct's cursor
/// at the first fact.
pub open spec fn at_start(st: QueryState) -> bool {
    &&& st.depth() == 0
    &&& st.cursors().len() > 0 ==> st.cursors()[0] == 0
}

/// The cursors as the search reads them at depth `k`: a conjunct after `k`
/// is entered at its first fact.
pub open spec fn frontier(c: Seq<int>, k: int) -> Seq<int> {
    Seq::new(
        c.len(),
        |j: int|
            if j <= k {
                c[j]
            } else {
                0
            },
    )
}

/// What a call hands out, with an assignment as the sequence of its symbols.
pub open spec fn outcome(r: Result<Option<Assignment>, Error>) -> Result<Option<Seq<Sym>>, Error> {
    match r {
        Ok(Some(a)) => Ok(Some(a@)),
        Ok(None) => Ok(None),
        Err(e) => Err(e),
    }
}

/// One call of `next` takes the evaluator from `pre` to `post` and hands out
/// `r`.
///
/// A query with a conjunct of unsupported arity is refused and nothing
/// changes. Otherwise, when `pre` has passed every valid support, the search
/// has ended and nothing is handed out. When it has not, `post` stands on the
/// first valid support that `pre` had not passed; the assignment of that
/// support is handed out, unless some declared variable stands in no
/// conjunct.
pub open spec fn next_spec(
    pre: QueryState,
    post: QueryState,
    r: Result<Option<Seq<Sym>>, Error>,
) -> bool {
    let db = pre.store();
    let q = pre.conjuncts();
    &&& post.store() == db
    &&& post.conjuncts() == q
    &&& if !arities_ok(q) {
        r == Err::<Option<Seq<Sym>>, Error>(Error::InvalidArity) && post == pre
    } else {
        match r {
            Ok(None) => post.is_exhausted() && forall|s: Seq<int>| #[trigger]
                valid(db, q, s) ==> pre.passed(s),
            Ok(Some(a)) => turned_up(pre, post) && well_formed(q, a.len()) && supports(
                db,
                q,
                post.cursors(),
                a,
            ) && satisfies(db, q, a),
            Err(e) => e == Error::MalformedQuery && turned_up(pre, post) && !well_formed(
                q,
                pre.slots().len(),
            ),
        }
    }
}

/// State of a query being executed.
pub struct QueryState<'db> {
    database: &'db Database,
    query: Query,
    fact_support: Vec<usize>,
    assignment: Vec<PatternAtom>,
    next_unsupported_fact: usize,
    trail: Vec<(usize, Var)>,
    exhausted: bool,
    arity_ok: bool,
}

impl<'db> QueryState<'db> {
    /// The store that is searched.
    pub closed spec fn store(&self) -> Database {
        *self.database
    }

    /// The conjuncts of the query.
    pub closed spec fn conjuncts(&self) -> Seq<Seq<Atom>> {
        self.query@
    }

    /// For each conjunct before `depth` the index of the fact that supports
    /// it, and at `depth` the next index to try. A cursor after `depth` is
    /// not read: its conjunct is entered at its first fact.
    pub closed spec fn cursors(&self) -> Seq<int> {
        Seq::new(self.fact_support@.len(), |k: int| self.fact_support@[k] as int)
    }

    /// One slot for each variable: a wildcard while it is unbound.
    pub closed spec fn slots(&self) -> Seq<PatternAtom> {
        self.assignment@
    }

    /// The next conjunct to support.
    pub closed spec fn depth(&self) -> int {
        self.next_unsupported_fact as int
    }

    /// The search has ended.
    pub closed spec fn is_exhausted(&self) -> bool {
        self.exhausted
    }

    /// The variables bound so far, with the conjunct that bound each.
    pub closed spec fn bindings(&self) -> Seq<(usize, Var)> {
        self.trail@
    }

    pub closed spec fn wf(&self) -> bool {
        &&& self.database.wf()
        &&& declares(self.query@, self.assignment@.len())
        &&& self.fact_support@.len() == self.query@.len()
        &&& self.next_unsupported_fact <= self.query@.len()
        &&& self.arity_ok == arities_ok(self.query@)
        &&& prefix_supported(
            *self.database,
            self.query@,
            self.cursors(),
            self.assignment@,
            self.next_unsupported_fact as int,
        )
        &&& slots_match(self.query@, self.assignment@, self.next_unsupported_fact as int)
        &&& trail_ok(self.query@, self.trail@, self.assignment@, self.next_unsupported_fact as int)
        &&& self.next_unsupported_fact < self.query@.len()
            ==> self.fact_support@[self.next_unsupported_fact as int] <= self.database.bucket(
            self.query@[self.next_unsupported_fact as int].len() as int,
        ).len()
    }

    /// The search has left support `s` behind: it was handed out, or found
    /// not to be valid, or the search has ended.
    pub open spec fn passed(&self, s: Seq<int>) -> bool {
        ||| self.is_exhausted()
        ||| below(s, self.cursors(), self.depth())
        ||| (self.depth() > 0 && self.depth() == self.conjuncts().len() && s == self.cursors())
    }

    /// What the invariant says in terms of the public view.
    pub proof fn lemma_wf(&self)
        requires
            self.wf(),
        ensures
            self.store().wf(),
            declares(self.conjuncts(), self.slots().len()),
            self.cursors().len() == self.conjuncts().len(),
            0 <= self.depth() <= self.conjuncts().len(),
            prefix_supported(self.store(), self.conjuncts(), self.cursors(), self.slots(), self.depth()),
            slots_match(self.conjuncts(), self.slots(), self.depth()),
            trail_ok(self.conjuncts(), self.bindings(), self.slots(), self.depth()),
            self.depth() < self.conjuncts().len() ==> 0 <= self.cursors()[self.depth()]
                <= self.store().bucket(self.conjuncts()[self.depth()].len() as int).len(),
    {
    }

    /// A fresh evaluator of `query` over `database`: nothing is bound and no
    /// support is passed.
    pub fn new(query: Query, database: &'db Database) -> (st: QueryState<'db>)
        requires
            database.wf(),
        ensures
            st.wf(),
            st.store() == *database,
            st.conjuncts() == query@,
            st.depth() == 0,
            !st.is_exhausted(),
            st.bindings().len() == 0,
            forall|k: int| 0 <= k < st.cursors().len() ==> (#[trigger] st.cursors()[k]) == 0,
            forall|v: int| 0 <= v < st.slots().len() ==> (#[trigger] st.slots()[v]) == PatternAtom::Wildcard,
            forall|s: Seq<int>| valid(*database, query@, s) ==> !(#[trigger] st.passed(s)),
    {
        let num_vars = query.num_vars();
        let num_patterns = query.len();
        let mut fact_support: Vec<usize> = Vec::new();
        let mut arity_ok = true;
        let mut k: usize = 0;
        while k < num_patterns
            invariant
                k <= num_patterns,
                num_patterns == query@.len(),
                fact_support@.len() == k,
                forall|j: int| 0 <= j < k ==> (#[trigger] fact_support@[j]) == 0,
                arity_ok == (forall|j: int|
                    0 <= j < k ==> supported_arity((#[trigger] query@[j]).len() as int)),
            decreases num_patterns - k,
        {
            let n = query.conjunct(k).len();
            if n < 1 || n > 6 {
                arity_ok = false;
            }
            fact_support.push(0);
            k += 1;
        }
        let mut assignment: Vec<PatternAtom> = Vec::new();
        let mut v: usize = 0;
        while v < num_vars
            invariant
                v <= num_vars,
                assignment@.len() == v,
                forall|j: int| 0 <= j < v ==> (#[trigger] assignment@[j]) == PatternAtom::Wildcard,
            decreases num_vars - v,
        {
            assignment.push(PatternAtom::Wildcard);
            v += 1;
        }
        let st = QueryState {
            database,
            query,
            fact_support,
            assignment,
            next_unsupported_fact: 0,
            trail: Vec::new(),
            exhausted: false,
            arity_ok,
        };
        proof {
            assert forall|s: Seq<int>| valid(*database, query@, s) implies !(#[trigger] st.passed(s)) by {
                if below(s, st.cursors(), 0) {
                    let i = choose|i: int| i <= 0 && precedes_at(s, st.cursors(), i);
                    let a = choose|a: Seq<Sym>| supports(*database, query@, s, a);
                    assert(supported_at(*database, query@, 0, s[0], a));
                }
            }
        }
        st
    }

    /// Backtracks one conjunct: gives up the support of the conjunct before
    /// `depth`, points its cursor at the next fact, and frees the variables
    /// that this conjunct was the first to bind. Every other cursor and every
    /// other slot is left as it was.
    pub fn undo_last(&mut self)
        requires
            old(self).wf(),
            old(self).depth() > 0,
        ensures
            final(self).wf(),
            final(self).store() == old(self).store(),
            final(self).conjuncts() == old(self).conjuncts(),
            final(self).is_exhausted() == old(self).is_exhausted(),
            final(self).depth() == old(self).depth() - 1,
            final(self).cursors().len() == old(self).cursors().len(),
            forall|j: int|
                0 <= j < old(self).cursors().len() ==> #[trigger] final(self).cursors()[j] == if j
                    == old(self).depth() - 1 {
                    old(self).cursors()[j] + 1
                } else {
                    old(self).cursors()[j]
                },
            final(self).slots().len() == old(self).slots().len(),
            forall|v: Var|
                v < old(self).slots().len() ==> #[trigger] final(self).slots()[v as int] == if first_bound_at(
                    old(self).conjuncts(),
                    old(self).depth() - 1,
                    v,
                ) {
                    PatternAtom::Wildcard
                } else {
                    old(self).slots()[v as int]
                },
            trail_cut(old(self).bindings(), final(self).bindings(), old(self).depth() - 1),
    {
        let ghost q = self.query@;
        let ghost db = *self.database;
        let ghost t0 = self.trail@;
        let ghost s0 = self.assignment@;
        let ghost c0 = self.cursors();
        proof {
            db.lemma_buckets();
        }
        // for the previous conjunct, undo support and point to the next candidate
        self.next_unsupported_fact -= 1;
        let k = self.next_unsupported_fact;
        assert(0 <= c0[k as int] < db.bucket(q[k as int].len() as int).len());
        let cur = self.fact_support[k];
        self.fact_support[k] = cur + 1;
        loop
            invariant
                *self.database == db,
                self.query@ == q,
                self.exhausted == old(self).exhausted,
                self.arity_ok == old(self).arity_ok,
                self.next_unsupported_fact == k,
                k + 1 == old(self).next_unsupported_fact,
                self.fact_support@.len() == c0.len(),
                forall|j: int|
                    0 <= j < c0.len() ==> #[trigger] self.fact_support@[j] as int == if j == k {
                        c0[j] + 1
                    } else {
                        c0[j]
                    },
                self.assignment@.len() == s0.len(),
                self.trail@.len() <= t0.len(),
                self.trail@ == t0.take(self.trail@.len() as int),
                forall|t: int| self.trail@.len() <= t < t0.len() ==> (#[trigger] t0[t]).0 == k,
                forall|v: Var|
                    v < s0.len() ==> #[trigger] self.assignment@[v as int] == if recorded(
                        t0.skip(self.trail@.len() as int),
                        v,
                    ) {
                        PatternAtom::Wildcard
                    } else {
                        s0[v as int]
                    },
                trail_ok(q, t0, s0, k + 1),
            ensures
                self.trail@.len() == 0 || self.trail@[self.trail@.len() - 1].0 != k,
            decreases self.trail@.len(),
        {
            let n = self.trail.len();
            if n == 0 {
                break ;
            }
            let (fact_id, var) = self.trail[n - 1];
            if fact_id != k {
                break ;
            }
            let ghost len0 = self.trail@.len() as int;
            assert(trail_entry_ok(q, t0[n - 1], s0.len(), k + 1));
            self.assignment[var as usize] = PatternAtom::Wildcard;
            self.trail.pop();
            proof {
                let len1 = self.trail@.len() as int;
                assert(self.trail@ =~= t0.take(len1));
                assert forall|v: Var| v < s0.len() implies #[trigger] self.assignment@[v as int] == if recorded(
                    t0.skip(len1),
                    v,
                ) {
                    PatternAtom::Wildcard
                } else {
                    s0[v as int]
                } by {
                    if recorded(t0.skip(len0), v) {
                        let t = choose|t: int|
                            0 <= t < t0.skip(len0).len() && (#[trigger] t0.skip(len0)[t]).1 == v;
                        assert(t0.skip(len1)[t + 1].1 == v);
                    }
                    if v == var {
                        assert(t0.skip(len1)[0].1 == v);
                    }
                    if recorded(t0.skip(len1), v) && v != var {
                        let t = choose|t: int|
                            0 <= t < t0.skip(len1).len() && (#[trigger] t0.skip(len1)[t]).1 == v;
                        assert(t0.skip(len0)[t - 1].1 == v);
                    }
                }
            }
        }
        proof {
            let len = self.trail@.len() as int;
            let s1 = self.assignment@;
            let c1 = self.cursors();
            assert(c1.len() == c0.len());
            assert forall|j: int| 0 <= j < c0.len() implies #[trigger] c1[j] == if j == k {
                c0[j] + 1
            } else {
                c0[j]
            } by {
                assert(c1[j] == self.fact_support@[j] as int);
            }
            // every entry that is left was made before conjunct k
            assert forall|t: int| 0 <= t < len implies (#[trigger] t0[t]).0 < k by {
                assert(trail_entry_ok(q, t0[len - 1], s0.len(), k + 1));
                assert(t0[len - 1] == self.trail@[len - 1]);
                assert(t0[t].0 <= t0[len - 1].0);
            }
            assert forall|v: Var| v < s0.len() implies (recorded(t0.skip(len), v) <==> first_bound_at(
                q,
                k as int,
                v,
            ) && s0[v as int] != PatternAtom::Wildcard) by {
                if recorded(t0.skip(len), v) {
                    let t = choose|t: int|
                        0 <= t < t0.skip(len).len() && (#[trigger] t0.skip(len)[t]).1 == v;
                    assert(trail_entry_ok(q, t0[len + t], s0.len(), k + 1));
                    assert(bound_before(q, k + 1, v));
                }
                if first_bound_at(q, k as int, v) && s0[v as int] != PatternAtom::Wildcard {
                    assert(recorded(t0, v));
                    let t = choose|t: int| 0 <= t < t0.len() && (#[trigger] t0[t]).1 == v;
                    assert(trail_entry_ok(q, t0[t], s0.len(), k + 1));
                    if t < len {
                        assert(t0[t].0 < k);
                        assert(bound_before(q, k as int, v));
                    }
                    assert(t0.skip(len)[t - len].1 == v);
                }
            }
            assert forall|v: Var| v < s0.len() implies #[trigger] s1[v as int] == if first_bound_at(
                q,
                k as int,
                v,
            ) {
                PatternAtom::Wildcard
            } else {
                s0[v as int]
            } by {
                if first_bound_at(q, k as int, v) && s0[v as int] == PatternAtom::Wildcard {
                }
            }
            assert forall|v: Var| v < s1.len() implies ((s1[v as int] != PatternAtom::Wildcard)
                <==> #[trigger] bound_before(q, k as int, v)) by {
                assert(s0[v as int] != PatternAtom::Wildcard <==> bound_before(q, k + 1, v));
                if bound_before(q, k as int, v) {
                    let j = choose|j: int| 0 <= j < k && j < q.len() && mentions(#[trigger] q[j], v);
                    assert(bound_before(q, k + 1, v));
                }
                if bound_before(q, k + 1, v) && !bound_before(q, k as int, v) {
                    let j = choose|j: int|
                        0 <= j < k + 1 && j < q.len() && mentions(#[trigger] q[j], v);
                    assert(j == k);
                }
            }
            assert forall|j: int| 0 <= j < k implies {
                &&& 0 <= #[trigger] c1[j] < db.bucket(q[j].len() as int).len()
                &&& holds(db.bucket(q[j].len() as int)[c1[j]], q[j], s1)
            } by {
                assert(c1[j] == c0[j]);
                let fact = db.bucket(q[j].len() as int)[c0[j]];
                assert(holds(fact, q[j], s0));
                assert forall|p: int| 0 <= p < q[j].len() implies slot_reads(
                    #[trigger] q[j][p],
                    fact[p],
                    s1,
                ) by {
                    assert(slot_reads(q[j][p], fact[p], s0));
                    match q[j][p] {
                        Atom::Var(v) => {
                            assert(mentions(q[j], v));
                            assert(bound_before(q, k as int, v));
                        },
                        Atom::Sym(_) => {},
                    }
                }
            }
            assert forall|t: int| 0 <= t < len implies trail_entry_ok(
                q,
                #[trigger] self.trail@[t],
                s1.len(),
                k as int,
            ) by {
                assert(trail_entry_ok(q, t0[t], s0.len(), k + 1));
                assert(t0[t].0 < k);
            }
            assert forall|v: Var|
                v < s1.len() && s1[v as int] != PatternAtom::Wildcard implies #[trigger] recorded(
                self.trail@,
                v,
            ) by {
                assert(recorded(t0, v));
                let t = choose|t: int| 0 <= t < t0.len() && (#[trigger] t0[t]).1 == v;
                if t >= len {
                    assert(t0.skip(len)[t - len].1 == v);
                }
                assert(self.trail@[t].1 == v);
            }
            assert forall|t1: int, t2: int| 0 <= t1 <= t2 < len implies (#[trigger] self.trail@[t1]).0
                <= (#[trigger] self.trail@[t2]).0 by {
                assert(t0[t1].0 <= t0[t2].0);
            }
        }
    }

    /// Binds every unbound variable of the conjunct at `depth` to the symbol
    /// that `fact` holds in its place, and records each on the trail.
    fn bind(&mut self, fact: &[Sym])
        requires
            old(self).wf(),
            old(self).next_unsupported_fact < old(self).query@.len(),
            acceptable(
                fact@,
                old(self).query@[old(self).next_unsupported_fact as int],
                old(self).assignment@,
            ),
        ensures
            final(self).database == old(self).database,
            final(self).query == old(self).query,
            final(self).fact_support == old(self).fact_support,
            final(self).next_unsupported_fact == old(self).next_unsupported_fact,
            final(self).exhausted == old(self).exhausted,
            final(self).arity_ok == old(self).arity_ok,
            final(self).assignment@.len() == old(self).assignment@.len(),
            holds(
                fact@,
                old(self).query@[old(self).next_unsupported_fact as int],
                final(self).assignment@,
            ),
            forall|v: Var|
                v < old(self).assignment@.len() && #[trigger] old(self).assignment@[v as int]
                    != PatternAtom::Wildcard ==> final(self).assignment@[v as int] == old(
                    self,
                ).assignment@[v as int],
            forall|v: Var|
                v < old(self).assignment@.len() && old(self).assignment@[v as int]
                    == PatternAtom::Wildcard && #[trigger] final(self).assignment@[v as int]
                    != PatternAtom::Wildcard ==> mentions(
                    old(self).query@[old(self).next_unsupported_fact as int],
                    v,
                ) && recorded(final(self).trail@, v),
            final(self).trail@.len() >= old(self).trail@.len(),
            final(self).trail@.take(old(self).trail@.len() as int) == old(self).trail@,
            forall|t: int|
                old(self).trail@.len() <= t < final(self).trail@.len() ==> {
                    let e = #[trigger] final(self).trail@[t];
                    &&& e.0 == old(self).next_unsupported_fact
                    &&& e.1 < old(self).assignment@.len()
                    &&& old(self).assignment@[e.1 as int] == PatternAtom::Wildcard
                    &&& mentions(old(self).query@[old(self).next_unsupported_fact as int], e.1)
                },
    {
        let k = self.next_unsupported_fact;
        let ghost s0 = self.assignment@;
        let ghost t0 = self.trail@;
        let ghost conj = self.query@[k as int];
        let atoms = self.query.conjunct(k);
        let mut p: usize = 0;
        proof {
            assert forall|v: Var| mentions(conj, v) implies v < s0.len() by {
                assert(uses(self.query@, v));
            }
        }
        while p < atoms.len()
            invariant
                self.database == old(self).database,
                self.query == old(self).query,
                self.fact_support == old(self).fact_support,
                self.next_unsupported_fact == k,
                self.exhausted == old(self).exhausted,
                self.arity_ok == old(self).arity_ok,
                atoms@ == conj,
                fact@.len() == conj.len(),
                p <= conj.len(),
                acceptable(fact@, conj, s0),
                forall|v: Var| mentions(conj, v) ==> v < s0.len(),
                self.assignment@.len() == s0.len(),
                forall|r: int| 0 <= r < p ==> slot_reads(#[trigger] conj[r], fact@[r], self.assignment@),
                forall|v: Var|
                    v < s0.len() && #[trigger] s0[v as int] != PatternAtom::Wildcard
                        ==> self.assignment@[v as int] == s0[v as int],
                forall|v: Var|
                    v < s0.len() && s0[v as int] == PatternAtom::Wildcard
                        && #[trigger] self.assignment@[v as int] != PatternAtom::Wildcard ==> mentions(
                        conj.take(p as int),
                        v,
                    ) && recorded(self.trail@, v),
                self.trail@.len() >= t0.len(),
                self.trail@.take(t0.len() as int) == t0,
                forall|t: int|
                    t0.len() <= t < self.trail@.len() ==> {
                        let e = #[trigger] self.trail@[t];
                        &&& e.0 == k
                        &&& e.1 < s0.len()
                        &&& s0[e.1 as int] == PatternAtom::Wildcard
                        &&& mentions(conj, e.1)
                    },
            decreases conj.len() - p,
        {
            let ghost s1 = self.assignment@;
            let ghost t1 = self.trail@;
            let atom = atoms[p];
            proof {
                assert(projection(conj, s0)[p as int] == project_atom(conj[p as int], s0));
                assert(projection(conj, s0)[p as int].admits(fact@[p as int]));
                assert forall|v: Var| mentions(conj.take(p as int), v) implies mentions(
                    conj.take(p + 1),
                    v,
                ) by {
                    let r = choose|r: int|
                        0 <= r < conj.take(p as int).len() && #[trigger] conj.take(p as int)[r]
                            == Atom::Var(v);
                    assert(conj.take(p + 1)[r] == Atom::Var(v));
                }
            }
            match atom {
                Atom::Var(v) => {
                    assert(conj[p as int] == Atom::Var(v));
                    assert(mentions(conj, v));
                    match self.assignment[v as usize] {
                        PatternAtom::Wildcard => {
                            self.assignment[v as usize] = PatternAtom::Sym(fact[p]);
                            self.trail.push((k, v));
                            proof {
                                assert(conj.take(p + 1)[p as int] == Atom::Var(v));
                                assert(self.trail@[t1.len() as int].1 == v);
                                assert(self.trail@.take(t0.len() as int) =~= t1.take(t0.len() as int));
                                assert forall|w: Var| recorded(t1, w) implies recorded(
                                    self.trail@,
                                    w,
                                ) by {
                                    let t = choose|t: int|
                                        0 <= t < t1.len() && (#[trigger] t1[t]).1 == w;
                                    assert(self.trail@[t].1 == w);
                                }
                            }
                        },
                        PatternAtom::Sym(y) => {
                            proof {
                                if s0[v as int] == PatternAtom::Wildcard {
                                    assert(s1[v as int] != PatternAtom::Wildcard);
                                    let r = choose|r: int|
                                        0 <= r < conj.take(p as int).len() && #[trigger] conj.take(
                                            p as int,
                                        )[r] == Atom::Var(v);
                                    assert(conj[r] == Atom::Var(v));
                                    assert(slot_reads(conj[r], fact@[r], s1));
                                    assert(conj[r] == conj[p as int]);
                                    assert(fact@[r] == fact@[p as int]);
                                } else {
                                    assert(s1[v as int] == s0[v as int]);
                                }
                            }
                        },
                    }
                },
                Atom::Sym(_) => {},
            }
            p += 1;
        }
        proof {
            assert(conj.take(p as int) =~= conj);
        }
    }

    /// Forward step at the conjunct at `depth`: looks, from its cursor on,
    /// for the first fact that can support it. When there is one, binds the
    /// conjunct's free variables and enters the next conjunct at its first
    /// fact; when there is none, resets the cursor.
    fn forward(&mut self) -> (found: bool)
        requires
            old(self).wf(),
            old(self).next_unsupported_fact < old(self).query@.len(),
            old(self).arity_ok,
        ensures
            final(self).wf(),
            final(self).database == old(self).database,
            final(self).query == old(self).query,
            final(self).exhausted == old(self).exhausted,
            final(self).fact_support@.len() == old(self).fact_support@.len(),
            forall|j: int|
                0 <= j < old(self).fact_support@.len() && j != old(self).next_unsupported_fact
                    && !(found && j == old(self).next_unsupported_fact + 1)
                    ==> #[trigger] final(self).fact_support@[j] == old(self).fact_support@[j],
            found && old(self).next_unsupported_fact + 1 < old(self).fact_support@.len()
                ==> final(self).fact_support@[old(self).next_unsupported_fact + 1] == 0,
            found ==> final(self).next_unsupported_fact == old(self).next_unsupported_fact + 1
                && next_support(
                old(self).database.bucket(
                    old(self).query@[old(self).next_unsupported_fact as int].len() as int,
                ),
                old(self).query@[old(self).next_unsupported_fact as int],
                old(self).assignment@,
                old(self).fact_support@[old(self).next_unsupported_fact as int] as int,
                final(self).fact_support@[old(self).next_unsupported_fact as int] as int,
            ),
            !found ==> final(self).next_unsupported_fact == old(self).next_unsupported_fact
                && final(self).fact_support@[old(self).next_unsupported_fact as int] == 0
                && final(self).assignment == old(self).assignment && final(self).trail == old(
                self,
            ).trail && no_support_from(
                old(self).database.bucket(
                    old(self).query@[old(self).next_unsupported_fact as int].len() as int,
                ),
                old(self).query@[old(self).next_unsupported_fact as int],
                old(self).assignment@,
                old(self).fact_support@[old(self).next_unsupported_fact as int] as int,
            ),
    {
        let k = self.next_unsupported_fact;
        let db = self.database;
        let ghost q = self.query@;
        let ghost conj = q[k as int];
        let ghost s0 = self.assignment@;
        let ghost t0 = self.trail@;
        let ghost c0 = self.cursors();
        let ghost facts = db.bucket(conj.len() as int);
        proof {
            db.lemma_buckets();
            assert forall|v: Var| mentions(conj, v) implies v < s0.len() by {
                assert(uses(q, v));
            }
            assert(supported_arity(q[k as int].len() as int));
        }
        // build the pattern
        let pattern = project(self.query.conjunct(k), &self.assignment);
        let start = self.fact_support[k];
        let mut from: usize = start;
        loop
            invariant
                *self == *old(self),
                db == self.database,
                self.wf(),
                k == self.next_unsupported_fact,
                k < q.len(),
                q == self.query@,
                conj == q[k as int],
                s0 == self.assignment@,
                facts == db.bucket(conj.len() as int),
                start == self.fact_support@[k as int],
                c0 == self.cursors(),
                t0 == self.trail@,
                self.fact_support@.len() == q.len(),
                pattern@ == projection(conj, s0),
                supported_arity(conj.len() as int),
                forall|n: int, i: int|
                    0 <= i < db.bucket(n).len() ==> (#[trigger] db.bucket(n)[i]).len() == n,
                facts.len() <= usize::MAX,
                start <= from,
                forall|j: int|
                    start <= j < from && j < facts.len() ==> !acceptable(#[trigger] facts[j], conj, s0),
            decreases facts.len() - from,
        {
            match db.next_match(&pattern, from) {
                Ok(Some((i, fact))) => {
                    assert(facts[i as int].len() == conj.len());
                    if repeated_agree(self.query.conjunct(k), fact) {
                        self.bind(fact);
                        self.fact_support[k] = i;
                        assert(k < self.fact_support.len());
                        // the next conjunct is entered at its first fact
                        if k + 1 < self.fact_support.len() {
                            self.fact_support[k + 1] = 0;
                        }
                        self.next_unsupported_fact = k + 1;
                        proof {
                            let s1 = self.assignment@;
                            let t1 = self.trail@;
                            let c1 = self.cursors();
                            assert forall|j: int| 0 <= j < k + 1 implies {
                                &&& 0 <= #[trigger] c1[j] < db.bucket(q[j].len() as int).len()
                                &&& holds(db.bucket(q[j].len() as int)[c1[j]], q[j], s1)
                            } by {
                                if j < k {
                                    assert(c1[j] == c0[j]);
                                    let f = db.bucket(q[j].len() as int)[c0[j]];
                                    assert(holds(f, q[j], s0));
                                    assert forall|p: int| 0 <= p < q[j].len() implies slot_reads(
                                        #[trigger] q[j][p],
                                        f[p],
                                        s1,
                                    ) by {
                                        assert(slot_reads(q[j][p], f[p], s0));
                                    }
                                } else {
                                    assert(c1[j] == i);
                                }
                            }
                            assert forall|v: Var| v < s1.len() implies ((s1[v as int]
                                != PatternAtom::Wildcard) <==> #[trigger] bound_before(q, k + 1, v)) by {
                                assert(s0[v as int] != PatternAtom::Wildcard <==> bound_before(
                                    q,
                                    k as int,
                                    v,
                                ));
                                if bound_before(q, k as int, v) {
                                    let j = choose|j: int|
                                        0 <= j < k && j < q.len() && mentions(#[trigger] q[j], v);
                                    assert(bound_before(q, k + 1, v));
                                }
                                if s0[v as int] == PatternAtom::Wildcard && s1[v as int]
                                    != PatternAtom::Wildcard {
                                    assert(mentions(q[k as int], v));
                                }
                                if bound_before(q, k + 1, v) && !bound_before(q, k as int, v) {
                                    let j = choose|j: int|
                                        0 <= j < k + 1 && j < q.len() && mentions(#[trigger] q[j], v);
                                    assert(j == k);
                                    let p = choose|p: int|
                                        0 <= p < conj.len() && #[trigger] conj[p] == Atom::Var(v);
                                    assert(slot_reads(conj[p], fact@[p], s1));
                                }
                            }
                            assert forall|t: int| 0 <= t < t1.len() implies trail_entry_ok(
                                q,
                                #[trigger] t1[t],
                                s1.len(),
                                k + 1,
                            ) by {
                                if t < t0.len() {
                                    assert(t1.take(t0.len() as int)[t] == t0[t]);
                                    assert(trail_entry_ok(q, t0[t], s0.len(), k as int));
                                } else {
                                    let e = t1[t];
                                    assert(s0[e.1 as int] != PatternAtom::Wildcard <==> bound_before(
                                        q,
                                        k as int,
                                        e.1,
                                    ));
                                }
                            }
                            assert forall|ta: int, tb: int| 0 <= ta <= tb < t1.len() implies (
                            #[trigger] t1[ta]).0 <= (#[trigger] t1[tb]).0 by {
                                if ta < t0.len() {
                                    assert(t1.take(t0.len() as int)[ta] == t0[ta]);
                                    assert(trail_entry_ok(q, t0[ta], s0.len(), k as int));
                                }
                                if tb < t0.len() {
                                    assert(t1.take(t0.len() as int)[tb] == t0[tb]);
                                    assert(t0[ta].0 <= t0[tb].0);
                                }
                            }
                            assert forall|v: Var|
                                v < s1.len() && s1[v as int]
                                    != PatternAtom::Wildcard implies #[trigger] recorded(t1, v) by {
                                if s0[v as int] != PatternAtom::Wildcard {
                                    assert(recorded(t0, v));
                                    let t = choose|t: int|
                                        0 <= t < t0.len() && (#[trigger] t0[t]).1 == v;
                                    assert(t1.take(t0.len() as int)[t] == t0[t]);
                                    assert(t1[t].1 == v);
                                }
                            }
                        }
                        return true;
                    }
                    from = i + 1;
                },
                Ok(None) => {
                    self.fact_support[k] = 0;
                    proof {
                        let c1 = self.cursors();
                        assert forall|j: int| 0 <= j < k implies {
                            &&& 0 <= #[trigger] c1[j] < db.bucket(q[j].len() as int).len()
                            &&& holds(db.bucket(q[j].len() as int)[c1[j]], q[j], s0)
                        } by {
                            assert(c1[j] == c0[j]);
                        }
                    }
                    return false;
                },
                Err(_) => {
                    // every conjunct has a supported arity: the store refuses no pattern
                    return false;
                },
            }
        }
    }

    /// The assignment of the solution that the evaluator stands on.
    fn emit(&self) -> (r: Result<Option<Assignment>, Error>)
        requires
            self.wf(),
            self.next_unsupported_fact == self.query@.len(),
        ensures
            well_formed(self.query@, self.assignment@.len()) ==> (r matches Ok(Some(a)) && a@
                == concretize(self.assignment@) && self.assignment@ == bound_slots(a@)),
            !well_formed(self.query@, self.assignment@.len()) ==> r == Err::<
                Option<Assignment>,
                Error,
            >(Error::MalformedQuery),
    {
        let ghost q = self.query@;
        let ghost slots = self.assignment@;
        let mut assignment: Vec<Sym> = Vec::new();
        let mut v: usize = 0;
        while v < self.assignment.len()
            invariant
                self.wf(),
                self.next_unsupported_fact == self.query@.len(),
                q == self.query@,
                v <= slots.len(),
                slots == self.assignment@,
                slots.len() <= Var::MAX + 1,
                assignment@.len() == v,
                forall|w: int| 0 <= w < v ==> (#[trigger] slots[w]) == PatternAtom::Sym(assignment@[w]),
            decreases slots.len() - v,
        {
            match self.assignment[v] {
                PatternAtom::Wildcard => {
                    proof {
                        let var = v as Var;
                        assert(slots[var as int] != PatternAtom::Wildcard <==> bound_before(
                            q,
                            q.len() as int,
                            var,
                        ));
                        if uses(q, var) {
                            let j = choose|j: int| 0 <= j < q.len() && mentions(#[trigger] q[j], var);
                            assert(bound_before(q, q.len() as int, var));
                        }
                    }
                    return Err(Error::MalformedQuery);
                },
                PatternAtom::Sym(s) => assignment.push(s),
            }
            v += 1;
        }
        proof {
            assert(slots =~= bound_slots(assignment@));
            assert(assignment@ =~= concretize(slots));
            assert forall|var: Var| var < slots.len() implies uses(q, var) by {
                assert(slots[var as int] != PatternAtom::Wildcard <==> bound_before(
                    q,
                    q.len() as int,
                    var,
                ));
                let j = choose|j: int|
                    0 <= j < q.len() && j < q.len() && mentions(#[trigger] q[j], var);
            }
        }
        Ok(Some(assignment))
    }

    /// Moves to the next valid support in lexicographic order and hands out
    /// its assignment, or reports that none is left. Once none is left, none
    /// is left on every later call.
    pub fn next(&mut self) -> (r: Result<Option<Assignment>, Error>)
        requires
            old(self).wf(),
        ensures
            final(self).wf(),
            next_spec(*old(self), *final(self), outcome(r)),
            r matches Ok(Some(a)) ==> final(self).slots() == bound_slots(a@),
            r matches Ok(None) ==> if old(self).is_exhausted() {
                *final(self) == *old(self)
            } else {
                at_start(*final(self))
            },
    {
        let ghost pre = *self;
        let ghost db = *self.database;
        let ghost q = self.query@;
        let ghost lens = group_sizes(db, q);
        if !self.arity_ok {
            return Err(Error::InvalidArity);
        }
        if self.exhausted {
            return Ok(None);
        }
        let n = self.fact_support.len();
        if n == 0 {
            self.exhausted = true;
            let assignment: Vec<Sym> = Vec::new();
            proof {
                let c = self.cursors();
                assert(c =~= Seq::<int>::empty());
                if self.assignment@.len() > 0 {
                    let v = (self.assignment@.len() - 1) as Var;
                    assert(uses(q, v));
                }
                assert(supports(db, q, c, assignment@));
                assert(self.assignment@ =~= bound_slots(assignment@));
            }
            return Ok(Some(assignment));
        }
        if self.next_unsupported_fact == n {
            // at a solution, undo it
            self.undo_last();
            proof {
                let c0 = pre.cursors();
                let c = self.cursors();
                assert forall|s: Seq<int>| #[trigger] valid(db, q, s) && !pre.passed(s) implies !below(
                    s,
                    c,
                    n - 1,
                ) by {
                    if below(s, c, n - 1) {
                        lemma_above_retreat(s, c0, c, n as int);
                        if below(s, c0, n - 1) {
                            let w = choose|w: int| w <= n - 1 && #[trigger] precedes_at(s, c0, w);
                            assert(below(s, c0, n as int));
                        } else {
                            let a = choose|a: Seq<Sym>| supports(db, q, s, a);
                            assert(s =~= c0);
                        }
                    }
                }
                assert forall|s: Seq<int>| #[trigger] pre.passed(s) implies below(s, c, n - 1) by {
                    if below(s, c0, n as int) {
                        lemma_below_retreat(s, c0, c, n as int);
                    } else {
                        assert(precedes_at(s, c, n - 1));
                    }
                }
            }
        }
        while self.next_unsupported_fact < n
            invariant
                self.wf(),
                *self.database == db,
                self.query@ == q,
                self.arity_ok,
                !self.exhausted,
                n == q.len(),
                n > 0,
                n == self.fact_support@.len(),
                pre == *old(self),
                !pre.is_exhausted(),
                db == pre.store(),
                q == pre.conjuncts(),
                db.wf(),
                lens == group_sizes(db, q),
                frontier_ok(pre, db, q, self.cursors(), self.next_unsupported_fact as int),
            decreases
                    weight(lens, 0) - rank(
                        frontier(self.cursors(), self.next_unsupported_fact as int),
                        lens,
                        0,
                    ),
                    n - self.next_unsupported_fact,
        {
            let ghost k = self.next_unsupported_fact as int;
            let ghost c0 = self.cursors();
            let ghost f0 = frontier(c0, k);
            let ghost slots0 = self.assignment@;
            let ghost facts = db.bucket(q[k].len() as int);
            proof {
                db.lemma_buckets();
                lemma_weight_pos(lens, 0);
                lemma_weight_pos(lens, k + 1);
                lemma_rank_bound(f0, lens, 0);
            }
            let found = self.forward();
            let ghost c1 = self.cursors();
            if found {
                proof {
                    assert forall|s: Seq<int>| #[trigger]
                        valid(db, q, s) && !pre.passed(s) implies !below(s, c1, k + 1) by {
                        if below(s, c1, k + 1) {
                            let a = choose|a: Seq<Sym>| supports(db, q, s, a);
                            if k + 1 < n {
                                assert(supported_at(db, q, k + 1, s[k + 1], a));
                            }
                            lemma_above_advance(s, c0, c1, k);
                            lemma_valid_acceptable(db, q, c0, slots0, k, s, a);
                        }
                    }
                    assert forall|s: Seq<int>| #[trigger] pre.passed(s) implies below(s, c1, k + 1) by {
                        lemma_below_advance(s, c0, c1, k);
                    }
                    let f1 = frontier(c1, k + 1);
                    lemma_rank_update(f0, f1, lens, k, 0);
                    lemma_rank_bound(f1, lens, 0);
                    let d = c1[k] - c0[k];
                    let w = weight(lens, k + 1);
                    assert(d * w >= 0) by (nonlinear_arith)
                        requires
                            d >= 0,
                            w >= 1,
                    ;
                }
            } else {
                // no support for this conjunct, backtrack
                if self.next_unsupported_fact == 0 {
                    // nothing to backtrack from
                    self.exhausted = true;
                    proof {
                        assert(self.cursors()[0] == self.fact_support@[0]);
                        assert forall|s: Seq<int>| #[trigger] valid(db, q, s) implies pre.passed(s) by {
                            if !pre.passed(s) {
                                let a = choose|a: Seq<Sym>| supports(db, q, s, a);
                                lemma_valid_acceptable(db, q, c0, slots0, 0, s, a);
                                if s[0] < c0[0] {
                                    assert(precedes_at(s, c0, 0));
                                }
                            }
                        }
                    }
                    return Ok(None);
                }
                self.undo_last();
                proof {
                    let c2 = self.cursors();
                    assert forall|s: Seq<int>| #[trigger]
                        valid(db, q, s) && !pre.passed(s) implies !below(s, c2, k - 1) by {
                        if below(s, c2, k - 1) {
                            let a = choose|a: Seq<Sym>| supports(db, q, s, a);
                            lemma_above_retreat(s, c0, c2, k);
                            if below(s, c0, k - 1) {
                                let w = choose|w: int| w <= k - 1 && #[trigger] precedes_at(s, c0, w);
                                assert(below(s, c0, k));
                            } else {
                                lemma_valid_acceptable(db, q, c0, slots0, k, s, a);
                                if s[k] < c0[k] {
                                    assert(precedes_at(s, c0, k));
                                }
                            }
                        }
                    }
                    assert forall|s: Seq<int>| #[trigger] pre.passed(s) implies below(s, c2, k - 1) by {
                        lemma_below_retreat(s, c0, c2, k);
                    }
                    let f1 = frontier(c1, k);
                    let f2 = frontier(c2, k - 1);
                    lemma_rank_update(f0, f1, lens, k, 0);
                    lemma_rank_update(f1, f2, lens, k - 1, 0);
                    lemma_rank_bound(f2, lens, 0);
                    let w = weight(lens, k + 1);
                    let l = lens[k];
                    let x = c0[k];
                    assert(weight(lens, k) == (l + 1) * w);
                    assert((0 - x) * w + 1 * ((l + 1) * w) > 0) by (nonlinear_arith)
                        requires
                            0 <= x <= l,
                            w >= 1,
                    ;
                }
            }
        }
        let r = self.emit();
        proof {
            let c = self.cursors();
            lemma_standing(db, q, c, self.assignment@);
            if pre.passed(c) {
                let w = choose|w: int| w <= n && #[trigger] precedes_at(c, c, w);
            }
        }
        r
    }
}

/// The evaluator under its short name.
pub type State<'db> = QueryState<'db>;

impl Database {
    /// A fresh evaluator of `query` over this store.
    pub fn run(&self, query: Query) -> (st: QueryState<'_>)
        requires
            self.wf(),
        ensures
            st.wf(),
            st.store() == *self,
            st.conjuncts() == query@,
            st.depth() == 0,
            !st.is_exhausted(),
            st.bindings().len() == 0,
            forall|k: int| 0 <= k < st.cursors().len() ==> (#[trigger] st.cursors()[k]) == 0,
            forall|v: int| 0 <= v < st.slots().len() ==> (#[trigger] st.slots()[v]) == PatternAtom::Wildcard,
            forall|s: Seq<int>| valid(*self, query@, s) ==> !(#[trigger] st.passed(s)),
    {
        QueryState::new(query, self)
    }
}

} // verus!
