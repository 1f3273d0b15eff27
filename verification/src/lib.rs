//! An in-memory conjunctive query engine over tuples of interned symbols.
//!
//! Ground facts are stored per arity in insertion order. A query is an ordered
//! conjunction of lifted facts, and an evaluator enumerates, one call at a
//! time, every way of supporting all conjuncts by stored facts.

pub mod pattern;
pub mod store;
pub mod query;
pub mod evaluator;
pub mod laws;
pub mod collect;
pub mod interner;
pub mod frontend;

pub use pattern::{Pattern, PatternAtom, Sym};
pub use store::{Database, Db, Error, FactID};
pub use query::{Atom, LiftedFact, Query, Var};
pub use evaluator::{Assignment, QueryState, State};
pub use interner::Interner;
pub use frontend::{NamedQuery, NamedSolutions, SymbolDatabase};
