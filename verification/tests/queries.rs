use dataq::{Atom, Database, Error, Pattern, PatternAtom, Query};

pub fn database() -> Database {
    let mut db = Database::new();
    db.add_fact(&[1, 2, 1]).unwrap();
    db.add_fact(&[1, 2, 2]).unwrap();
    db.add_fact(&[1, 2, 3]).unwrap();
    db.add_fact(&[1, 2, 4]).unwrap();
    db.add_fact(&[1, 2, 5]).unwrap();

    db.add_fact(&[2, 2, 1]).unwrap();
    db.add_fact(&[2, 2, 2]).unwrap();
    db.add_fact(&[2, 2, 3]).unwrap();
    db.add_fact(&[2, 2, 4]).unwrap();
    db.add_fact(&[2, 2, 5]).unwrap();
    db.add_fact(&[2, 2, 6]).unwrap();
    db.add_fact(&[2, 2, 7]).unwrap();

    db.add_fact(&[1, 3, 1]).unwrap();
    db.add_fact(&[1, 3, 2]).unwrap();
    db.add_fact(&[1, 3, 3]).unwrap();
    db.add_fact(&[1, 3, 4]).unwrap();
    db.add_fact(&[1, 3, 5]).unwrap();
    db.add_fact(&[1, 3, 6]).unwrap();

    db
}

#[test]
fn test_database_creation() {
    database();
}

#[test]
fn test_queries() {
    let db = database();

    let query = Query::single(&[Atom::Sym(1), Atom::Sym(2), Atom::Var(0)]);
    let mut assignments = db.run(query);
    assert_eq!(assignments.next(), Ok(Some(vec![1]))); // var(0) => 1   (first assignment)
    assert_eq!(assignments.next(), Ok(Some(vec![2]))); // var(0) => 2   (second assignment)
    assert_eq!(assignments.next(), Ok(Some(vec![3]))); // ...
    assert_eq!(assignments.next(), Ok(Some(vec![4])));
    assert_eq!(assignments.next(), Ok(Some(vec![5])));
    assert_eq!(assignments.next(), Ok(None)); // no assignment left

    let query = Query::single(&[Atom::Var(0), Atom::Var(1), Atom::Sym(6)]);
    let mut assignments = db.run(query);
    assert_eq!(assignments.next(), Ok(Some(vec![2, 2]))); // (var(0) => 2, var(1) => 2 (first assignment)
    assert_eq!(assignments.next(), Ok(Some(vec![1, 3]))); // (var(0) => 1, var(1) => 3 (second assignment)
    assert_eq!(assignments.next(), Ok(None)); // no assignment left

    let mut assignments = db.run(Query::single(&[Atom::Sym(1), Atom::Var(0), Atom::Sym(3)]));
    assert_eq!(assignments.next(), Ok(Some(vec![2])));
    assert_eq!(assignments.next(), Ok(Some(vec![3])));
    assert_eq!(assignments.next(), Ok(None));

    let query = Query::single(&[Atom::Sym(1), Atom::Var(0), Atom::Sym(3)]);
    let mut assignments = db.run(query);
    assert_eq!(assignments.next(), Ok(Some(vec![2])));
    assert_eq!(assignments.next(), Ok(Some(vec![3])));
    assert_eq!(assignments.next(), Ok(None));

    let query = Query::from(vec![
        vec![Atom::Var(0), Atom::Var(1), Atom::Sym(3)],
        vec![Atom::Var(0), Atom::Var(2), Atom::Sym(7)],
    ]);
    let mut assignments = db.run(query);
    assert_eq!(assignments.next(), Ok(Some(vec![2, 2, 2])));
    assert_eq!(assignments.next(), Ok(None));

    let query = Query::from(vec![
        vec![Atom::Var(0), Atom::Var(2), Atom::Sym(7)],
        vec![Atom::Var(0), Atom::Var(1), Atom::Sym(3)],
    ]);
    let mut assignments = db.run(query);
    assert_eq!(assignments.next(), Ok(Some(vec![2, 2, 2])));
    assert_eq!(assignments.next(), Ok(None));

    let query = Query::from(vec![
        vec![Atom::Var(2), Atom::Var(1), Atom::Sym(7)],
        vec![Atom::Var(2), Atom::Var(0), Atom::Sym(3)],
    ]);
    let mut assignments = db.run(query);
    assert_eq!(assignments.next(), Ok(Some(vec![2, 2, 2])));
    assert_eq!(assignments.next(), Ok(None));
}

#[test]
fn test_query() {
    let db = database();

    let query = Query::single(&[Atom::Sym(1), Atom::Sym(2), Atom::Var(0)]);
    let mut state = db.run(query);
    assert_eq!(state.next(), Ok(Some(vec![1])));
    assert_eq!(state.next(), Ok(Some(vec![2])));
    assert_eq!(state.next(), Ok(Some(vec![3])));
    assert_eq!(state.next(), Ok(Some(vec![4])));
    assert_eq!(state.next(), Ok(Some(vec![5])));
    assert_eq!(state.next(), Ok(None));

    let query = Query::single(&[Atom::Var(0), Atom::Var(1), Atom::Sym(6)]);
    let mut state = db.run(query);
    assert_eq!(state.next(), Ok(Some(vec![2, 2])));
    assert_eq!(state.next(), Ok(Some(vec![1, 3])));
    assert_eq!(state.next(), Ok(None));

    let mut state = db.run(Query::single(&[Atom::Sym(1), Atom::Var(0), Atom::Sym(3)]));
    assert_eq!(state.next(), Ok(Some(vec![2])));
    assert_eq!(state.next(), Ok(Some(vec![3])));
    assert_eq!(state.next(), Ok(None));

    let query = Query::single(&[Atom::Sym(1), Atom::Var(0), Atom::Sym(3)]);
    let mut state = db.run(query);
    assert_eq!(state.next(), Ok(Some(vec![2])));
    assert_eq!(state.next(), Ok(Some(vec![3])));
    assert_eq!(state.next(), Ok(None));

    let query = Query::from(vec![
        vec![Atom::Var(0), Atom::Var(1), Atom::Sym(3)],
        vec![Atom::Var(0), Atom::Var(2), Atom::Sym(7)],
    ]);
    let mut state = db.run(query);
    assert_eq!(state.next(), Ok(Some(vec![2, 2, 2])));
    assert_eq!(state.next(), Ok(None));

    let query = Query::from(vec![
        vec![Atom::Var(0), Atom::Var(2), Atom::Sym(7)],
        vec![Atom::Var(0), Atom::Var(1), Atom::Sym(3)],
    ]);
    let mut state = db.run(query);
    assert_eq!(state.next(), Ok(Some(vec![2, 2, 2])));
    assert_eq!(state.next(), Ok(None));

    let query = Query::from(vec![
        vec![Atom::Var(2), Atom::Var(1), Atom::Sym(7)],
        vec![Atom::Var(2), Atom::Var(0), Atom::Sym(3)],
    ]);
    let mut state = db.run(query);
    assert_eq!(state.next(), Ok(Some(vec![2, 2, 2])));
    assert_eq!(state.next(), Ok(None));
}

fn collect(db: &Database, query: Query) -> Vec<Vec<u32>> {
    let mut state = db.run(query);
    let mut out = Vec::new();
    while let Ok(Some(a)) = state.next() {
        out.push(a);
        assert!(out.len() < 1000);
    }
    out
}

#[test]
fn exhausted_evaluator_stays_exhausted() {
    let db = database();
    let mut state = db.run(Query::single(&[Atom::Sym(1), Atom::Var(0), Atom::Sym(3)]));
    assert_eq!(state.next(), Ok(Some(vec![2])));
    assert_eq!(state.next(), Ok(Some(vec![3])));
    for _ in 0..5 {
        assert_eq!(state.next(), Ok(None));
    }
}

#[test]
fn query_without_support_yields_nothing() {
    let db = database();
    let mut state = db.run(Query::single(&[Atom::Sym(9), Atom::Var(0), Atom::Sym(3)]));
    assert_eq!(state.next(), Ok(None));
    assert_eq!(state.next(), Ok(None));
}

#[test]
fn empty_query_has_one_empty_assignment() {
    let db = database();
    let mut state = db.run(Query::from(vec![]));
    assert_eq!(state.next(), Ok(Some(vec![])));
    assert_eq!(state.next(), Ok(None));
    assert_eq!(state.next(), Ok(None));
}

#[test]
fn ground_query_checks_membership() {
    let db = database();
    let q = Query::single(&[Atom::Sym(2), Atom::Sym(2), Atom::Sym(7)]);
    assert_eq!(collect(&db, q), vec![Vec::<u32>::new()]);
    let q = Query::single(&[Atom::Sym(2), Atom::Sym(2), Atom::Sym(8)]);
    assert_eq!(collect(&db, q), Vec::<Vec<u32>>::new());
}

#[test]
fn facts_are_kept_apart_by_arity() {
    let mut db = Database::new();
    db.add_fact(&[7]).unwrap();
    db.add_fact(&[7, 8]).unwrap();
    db.add_fact(&[9]).unwrap();
    db.add_fact(&[1, 2, 3, 4, 5, 6]).unwrap();
    assert_eq!(collect(&db, Query::single(&[Atom::Var(0)])), vec![vec![7], vec![9]]);
    assert_eq!(collect(&db, Query::single(&[Atom::Var(0), Atom::Var(1)])), vec![vec![7, 8]]);
    assert_eq!(
        collect(
            &db,
            Query::single(&[
                Atom::Var(5),
                Atom::Var(4),
                Atom::Var(3),
                Atom::Var(2),
                Atom::Var(1),
                Atom::Var(0)
            ])
        ),
        vec![vec![6, 5, 4, 3, 2, 1]]
    );
    assert_eq!(
        collect(&db, Query::single(&[Atom::Var(0), Atom::Var(1), Atom::Var(2)])),
        Vec::<Vec<u32>>::new()
    );
}

#[test]
fn unsupported_fact_arity_is_rejected() {
    let mut db = Database::new();
    assert_eq!(db.add_fact(&[]), Err(Error::InvalidArity));
    assert_eq!(db.add_fact(&[1, 2, 3, 4, 5, 6, 7]), Err(Error::InvalidArity));
    assert_eq!(db.add_fact(&[1, 2, 3, 4, 5, 6]), Ok(()));
    assert_eq!(db.add_fact(&[1]), Ok(()));
}

#[test]
fn unsupported_pattern_arity_is_rejected() {
    let db = database();
    let empty = Pattern::new(vec![]);
    assert_eq!(db.next_match(&empty, 0), Err(Error::InvalidArity));
    let wide = Pattern::new(vec![PatternAtom::Wildcard; 7]);
    assert_eq!(db.next_match(&wide, 0), Err(Error::InvalidArity));
    let mut state = db.run(Query::single(&[Atom::Var(0); 7]));
    assert_eq!(state.next(), Err(Error::InvalidArity));
    assert_eq!(state.next(), Err(Error::InvalidArity));
    let mut state = db.run(Query::from(vec![vec![Atom::Sym(1), Atom::Sym(2), Atom::Var(0)], vec![]]));
    assert_eq!(state.next(), Err(Error::InvalidArity));
}

#[test]
fn next_match_resumes_from_the_cursor() {
    let db = database();
    let pattern = Pattern::new(vec![
        PatternAtom::Sym(1),
        PatternAtom::Wildcard,
        PatternAtom::Sym(3),
    ]);
    assert_eq!(db.next_match(&pattern, 0), Ok(Some((2, &[1u32, 2, 3][..]))));
    assert_eq!(db.next_match(&pattern, 2), Ok(Some((2, &[1u32, 2, 3][..]))));
    assert_eq!(db.next_match(&pattern, 3), Ok(Some((14, &[1u32, 3, 3][..]))));
    assert_eq!(db.next_match(&pattern, 15), Ok(None));
    assert_eq!(db.next_match(&pattern, 18), Ok(None));
    assert_eq!(db.next_match(&pattern, 400), Ok(None));
    let other = Pattern::new(vec![PatternAtom::Wildcard, PatternAtom::Wildcard]);
    assert_eq!(db.next_match(&other, 0), Ok(None));
}

#[test]
fn pattern_matches_position_by_position() {
    let pattern = Pattern::new(vec![PatternAtom::Sym(4), PatternAtom::Wildcard]);
    assert_eq!(pattern.len(), 2);
    assert!(pattern.matches(&[4, 9]));
    assert!(pattern.matches(&[4, 0]));
    assert!(!pattern.matches(&[5, 9]));
    assert!(PatternAtom::Wildcard.matches(3));
    assert!(PatternAtom::Sym(3).matches(3));
    assert!(!PatternAtom::Sym(3).matches(4));
}

#[test]
fn unused_variable_id_is_malformed() {
    let db = database();
    let mut state = db.run(Query::single(&[Atom::Sym(1), Atom::Sym(2), Atom::Var(1)]));
    assert_eq!(state.next(), Err(Error::MalformedQuery));
    let mut state = db.run(Query::single(&[Atom::Sym(1), Atom::Sym(9), Atom::Var(1)]));
    assert_eq!(state.next(), Ok(None));
}

#[test]
fn repeated_variable_in_one_conjunct_demands_equal_symbols() {
    let db = database();
    let q = Query::single(&[Atom::Var(0), Atom::Var(0), Atom::Var(1)]);
    assert_eq!(
        collect(&db, q),
        vec![vec![2, 1], vec![2, 2], vec![2, 3], vec![2, 4], vec![2, 5], vec![2, 6], vec![2, 7]]
    );
    let q = Query::single(&[Atom::Var(0), Atom::Sym(3), Atom::Var(0)]);
    assert_eq!(collect(&db, q), vec![vec![1]]);
    let q = Query::single(&[Atom::Var(0), Atom::Var(0), Atom::Var(0)]);
    assert_eq!(collect(&db, q), vec![vec![2]]);
}

#[test]
fn stored_duplicates_are_supported_one_by_one() {
    let mut db = Database::new();
    db.add_fact(&[4, 5]).unwrap();
    db.add_fact(&[4, 6]).unwrap();
    db.add_fact(&[4, 5]).unwrap();
    let q = Query::single(&[Atom::Sym(4), Atom::Var(0)]);
    assert_eq!(collect(&db, q), vec![vec![5], vec![6], vec![5]]);
}

#[test]
fn enumeration_follows_conjunct_then_insertion_order() {
    let mut db = Database::new();
    db.add_fact(&[1, 10]).unwrap();
    db.add_fact(&[1, 11]).unwrap();
    db.add_fact(&[2, 20]).unwrap();
    db.add_fact(&[2, 21]).unwrap();
    let q = Query::from(vec![
        vec![Atom::Sym(1), Atom::Var(0)],
        vec![Atom::Sym(2), Atom::Var(1)],
    ]);
    assert_eq!(
        collect(&db, q),
        vec![vec![10, 20], vec![10, 21], vec![11, 20], vec![11, 21]]
    );
    let q = Query::from(vec![
        vec![Atom::Sym(2), Atom::Var(1)],
        vec![Atom::Sym(1), Atom::Var(0)],
    ]);
    assert_eq!(
        collect(&db, q),
        vec![vec![10, 20], vec![11, 20], vec![10, 21], vec![11, 21]]
    );
}

#[test]
fn two_evaluations_agree() {
    let db = database();
    let make = || {
        Query::from(vec![
            vec![Atom::Var(0), Atom::Sym(2), Atom::Var(1)],
            vec![Atom::Var(1), Atom::Var(2), Atom::Sym(1)],
        ])
    };
    let first = collect(&db, make());
    let second = collect(&db, make());
    assert_eq!(first, second);
    assert_eq!(first.len(), 6);
    assert_eq!(first[0], vec![1, 1, 2]);
}

#[test]
fn every_assignment_is_supported_and_none_is_missed() {
    let db = database();
    let conjuncts = vec![
        vec![Atom::Var(0), Atom::Var(1), Atom::Sym(5)],
        vec![Atom::Var(0), Atom::Sym(3), Atom::Var(2)],
    ];
    let found = collect(&db, Query::from(conjuncts.clone()));
    let facts: Vec<Vec<u32>> = collect(&db, Query::single(&[Atom::Var(0), Atom::Var(1), Atom::Var(2)]));
    assert_eq!(facts.len(), 18);
    let read = |c: &Vec<Atom>, a: &Vec<u32>| -> Vec<u32> {
        c.iter()
            .map(|atom| match atom {
                Atom::Sym(s) => *s,
                Atom::Var(v) => a[*v as usize],
            })
            .collect()
    };
    for a in &found {
        for c in &conjuncts {
            assert!(facts.contains(&read(c, a)));
        }
    }
    let mut expected = 0;
    for x in 0..8u32 {
        for y in 0..8u32 {
            for z in 0..8u32 {
                let a = vec![x, y, z];
                if conjuncts.iter().all(|c| facts.contains(&read(c, &a))) {
                    expected += 1;
                    assert!(found.contains(&a));
                }
            }
        }
    }
    assert_eq!(found.len(), expected);
    assert_eq!(found.len(), 12);
    for (i, a) in found.iter().enumerate() {
        assert!(!found[..i].contains(a));
    }
}

#[test]
fn undo_last_frees_what_the_conjunct_bound() {
    let db = database();
    let query = Query::from(vec![
        vec![Atom::Sym(1), Atom::Var(0), Atom::Sym(1)],
        vec![Atom::Sym(2), Atom::Var(0), Atom::Var(1)],
    ]);
    let mut state = db.run(query);
    assert_eq!(state.next(), Ok(Some(vec![2, 1])));
    state.undo_last();
    assert_eq!(state.next(), Ok(Some(vec![2, 2])));
    state.undo_last();
    state.undo_last();
    assert_eq!(state.next(), Ok(None));
}

#[test]
fn variables_are_listed_once_in_order_of_first_occurrence() {
    let q = Query::from(vec![
        vec![Atom::Var(3), Atom::Sym(1), Atom::Var(3)],
        vec![Atom::Var(1), Atom::Var(3), Atom::Var(0)],
        vec![Atom::Var(0), Atom::Var(1), Atom::Var(7)],
    ]);
    assert_eq!(q.vars(), vec![3, 1, 0, 7]);
    assert_eq!(q.num_vars(), 8);
    assert_eq!(q.len(), 3);
    assert_eq!(q.conjunct(1), &[Atom::Var(1), Atom::Var(3), Atom::Var(0)][..]);
    let q = Query::single(&[Atom::Sym(1), Atom::Sym(2)]);
    assert_eq!(q.vars(), Vec::<u16>::new());
    assert_eq!(q.num_vars(), 0);
    let q = Query::single(&[Atom::Var(65535)]);
    assert_eq!(q.num_vars(), 65536);
}

#[test]
fn collect_runs_the_evaluation_to_its_end() {
    let db = database();
    let mut state = db.run(Query::single(&[Atom::Var(0), Atom::Var(1), Atom::Sym(6)]));
    assert_eq!(state.collect(), Ok(vec![vec![2, 2], vec![1, 3]]));
    assert_eq!(state.collect(), Ok(vec![]));
    assert_eq!(state.next(), Ok(None));

    let mut state = db.run(Query::single(&[Atom::Sym(1), Atom::Sym(2), Atom::Var(0)]));
    assert_eq!(state.next(), Ok(Some(vec![1])));
    assert_eq!(state.next(), Ok(Some(vec![2])));
    assert_eq!(state.collect(), Ok(vec![vec![3], vec![4], vec![5]]));

    let mut state = db.run(Query::from(vec![]));
    assert_eq!(state.collect(), Ok(vec![vec![]]));

    let mut state = db.run(Query::single(&[Atom::Sym(1), Atom::Sym(2), Atom::Var(3)]));
    assert_eq!(state.collect(), Err(Error::MalformedQuery));

    let mut state = db.run(Query::single(&[Atom::Var(0), Atom::Var(1)]));
    assert_eq!(state.collect(), Ok(vec![]));

    let mut state = db.run(Query::single(&[]));
    assert_eq!(state.collect(), Err(Error::InvalidArity));
}

#[test]
fn lifted_fact_lists_its_variables_once() {
    let fact = dataq::LiftedFact::new(vec![
        Atom::Var(4),
        Atom::Sym(4),
        Atom::Var(2),
        Atom::Var(4),
        Atom::Var(2),
        Atom::Var(9),
    ]);
    assert_eq!(fact.vars(), vec![4, 2, 9]);
    assert_eq!(fact.atoms().len(), 6);
    assert_eq!(fact.atoms()[2], Atom::Var(2));
}

#[test]
fn default_store_is_empty() {
    let db = Database::default();
    let mut state = db.run(Query::single(&[Atom::Var(0), Atom::Var(1), Atom::Var(2)]));
    assert_eq!(state.next(), Ok(None));
    let pattern = Pattern::new(vec![PatternAtom::Wildcard]);
    assert_eq!(db.next_match(&pattern, 0), Ok(None));
}

#[test]
fn undo_last_moves_one_cursor_and_a_conjunct_is_entered_at_its_first_fact() {
    let db = database();
    let query = Query::from(vec![
        vec![Atom::Sym(1), Atom::Var(0), Atom::Sym(1)],
        vec![Atom::Sym(2), Atom::Sym(2), Atom::Var(1)],
    ]);
    let mut state = db.run(query);
    assert_eq!(state.next(), Ok(Some(vec![2, 1])));
    state.undo_last();
    state.undo_last();
    assert_eq!(state.next(), Ok(Some(vec![3, 1])));
    assert_eq!(state.next(), Ok(Some(vec![3, 2])));
    state.undo_last();
    assert_eq!(state.next(), Ok(Some(vec![3, 3])));
}
