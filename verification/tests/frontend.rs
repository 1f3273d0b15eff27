use dataq::frontend::{NamedQuery, NamedSolutions, SymbolDatabase, NO_SYMBOL};
use dataq::interner::{is_variable, Interner};
use dataq::{Atom, Error};

fn objects() -> SymbolDatabase {
    let mut db = SymbolDatabase::new();
    db.add_fact(&["on", "table", "cup1"]).unwrap();
    db.add_fact(&["on", "table", "cup2"]).unwrap();
    db.add_fact(&["in", "kitchen", "table"]).unwrap();
    db.add_fact(&["in", "bedroom", "bed"]).unwrap();
    db.add_fact(&["in", "bedroom", "nightstand"]).unwrap();
    db.add_fact(&["on", "nightstand", "light"]).unwrap();
    db
}

fn all(mut solutions: NamedSolutions) -> Vec<Vec<(String, String)>> {
    let mut out = Vec::new();
    while let Some(b) = solutions.next().unwrap() {
        out.push(b);
        assert!(out.len() < 1000);
    }
    assert_eq!(solutions.next(), Ok(None));
    out
}

fn pair(var: &str, val: &str) -> (String, String) {
    (var.to_string(), val.to_string())
}

#[test]
fn what_is_in_the_bedroom() {
    let db = objects();
    let found = all(db.run(&NamedQuery::single(&["in", "bedroom", "?x"])).unwrap());
    assert_eq!(found, vec![vec![pair("?x", "bed")], vec![pair("?x", "nightstand")]]);
}

#[test]
fn where_is_the_support_of_the_cup() {
    let db = objects();
    let mut query = NamedQuery::new();
    query.and(&["on", "?support", "cup1"]);
    query.and(&["in", "?room", "?support"]);
    let found = all(db.run(&query).unwrap());
    assert_eq!(found, vec![vec![pair("?support", "table"), pair("?room", "kitchen")]]);
}

#[test]
fn what_is_on_something() {
    let db = objects();
    let found = all(db.run(&NamedQuery::single(&["on", "table", "?x"])).unwrap());
    assert_eq!(found, vec![vec![pair("?x", "cup1")], vec![pair("?x", "cup2")]]);
    let found = all(db.run(&NamedQuery::single(&["on", "?support", "cup1"])).unwrap());
    assert_eq!(found, vec![vec![pair("?support", "table")]]);
}

#[test]
fn unknown_symbol_matches_nothing() {
    let db = objects();
    let found = all(db.run(&NamedQuery::single(&["in", "garage", "?x"])).unwrap());
    assert_eq!(found, Vec::<Vec<(String, String)>>::new());
    let mut query = NamedQuery::new();
    query.and(&["in", "bedroom", "?x"]);
    query.and(&["under", "?x", "?y"]);
    assert_eq!(all(db.run(&query).unwrap()), Vec::<Vec<(String, String)>>::new());
}

#[test]
fn facts_with_variables_or_bad_arity_are_refused() {
    let mut db = objects();
    assert_eq!(db.add_fact(&["on", "?x", "cup1"]), Err(Error::VariableInFact));
    assert_eq!(db.add_fact(&[]), Err(Error::InvalidArity));
    assert_eq!(db.add_fact(&["a", "b", "c", "d", "e", "f", "?g"]), Err(Error::InvalidArity));
    assert_eq!(db.symbol_count(), 10);
    assert_eq!(db.add_fact(&["a", "b", "c", "d", "e", "f"]), Ok(()));
    assert_eq!(db.symbol_count(), 16);
    let found = all(db.run(&NamedQuery::single(&["on", "?s", "?o"])).unwrap());
    assert_eq!(found.len(), 3);
}

#[test]
fn compiled_query_uses_dense_ids() {
    let mut symbols = Interner::new();
    assert_eq!(symbols.intern("on"), 0);
    assert_eq!(symbols.intern("table"), 1);
    assert_eq!(symbols.intern("on"), 0);
    assert_eq!(symbols.len(), 2);
    assert_eq!(symbols.find("table"), Some(1));
    assert_eq!(symbols.find("chair"), None);
    assert_eq!(symbols.name(1), "table");
    let mut query = NamedQuery::new();
    query.and(&["on", "?b", "?a"]);
    query.and(&["under", "?a", "?c"]);
    let vars = query.vars();
    assert_eq!(vars.len(), 3);
    assert_eq!(vars.name(0), "?b");
    assert_eq!(vars.name(1), "?a");
    assert_eq!(vars.name(2), "?c");
    let (compiled, names) = query.compile(&symbols).unwrap();
    assert_eq!(names.len(), 3);
    assert_eq!(compiled.conjunct(0), &[Atom::Sym(0), Atom::Var(0), Atom::Var(1)][..]);
    assert_eq!(compiled.conjunct(1), &[Atom::Sym(NO_SYMBOL), Atom::Var(1), Atom::Var(2)][..]);
    assert_eq!(NO_SYMBOL, u32::MAX);
}

#[test]
fn a_name_is_a_variable_by_its_first_character() {
    assert!(is_variable("?x"));
    assert!(is_variable("?"));
    assert!(!is_variable("x?"));
    assert!(!is_variable(""));
    assert!(!is_variable("table"));
}

#[test]
fn a_query_cannot_name_more_variables_than_there_are_ids() {
    let db = objects();
    let names: Vec<String> = (0..65538).map(|i| format!("?{}", i)).collect();
    let mut query = NamedQuery::new();
    for chunk in names.chunks(6) {
        let conjunct: Vec<&str> = chunk.iter().map(|s| s.as_str()).collect();
        query.and(&conjunct);
    }
    assert!(matches!(db.run(&query), Err(Error::TooManyVariables)));
}
