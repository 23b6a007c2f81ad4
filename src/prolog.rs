//! The terms of a small logic language, and constructors for its queries.
use vstd::prelude::*;

verus! {

broadcast use vstd::string::to_string_from_display_ensures_for_str;

/// Terms as stored in a knowledge base.
#[derive(Debug, PartialEq, Eq, Hash)]
pub enum PrologSyntax {
    True,
    False,
    And(Box<PrologSyntax>, Box<PrologSyntax>),
    Or(Box<PrologSyntax>, Box<PrologSyntax>),
    Atom(String),
    Var(String),
    Def(String, Vec<PrologSyntax>, Vec<PrologSyntax>),
}

/// Terms as asked.
#[derive(Debug, PartialEq, Eq, Hash)]
pub enum PrologQuery {
    True,
    False,
    And(Box<PrologQuery>, Box<PrologQuery>),
    Or(Box<PrologQuery>, Box<PrologQuery>),
    Atom(String),
    Var(String),
    Fun(String, Vec<PrologQuery>),
    Unify(Box<PrologQuery>, Box<PrologQuery>),
}

/// The engine that answers `PrologQuery`s.
pub struct PrologInferenceEngine;

/// The context in which queries are unified.
pub struct PrologUnificationContext;

/// The query that always holds.
pub fn t() -> (r: PrologQuery)
    ensures
        r == PrologQuery::True,
{
    PrologQuery::True
}

/// The query that never holds.
pub fn f() -> (r: PrologQuery)
    ensures
        r == PrologQuery::False,
{
    PrologQuery::False
}

/// The atom `s`.
pub fn a(s: &str) -> (r: PrologQuery)
    ensures
        r matches PrologQuery::Atom(n) && n@ == s@,
{
    PrologQuery::Atom(s.to_string())
}

/// The variable `s`.
pub fn v(s: &str) -> (r: PrologQuery)
    ensures
        r matches PrologQuery::Var(n) && n@ == s@,
{
    PrologQuery::Var(s.to_string())
}

/// The functor `s` applied to `args`.
pub fn p(s: &str, args: Vec<PrologQuery>) -> (r: PrologQuery)
    ensures
        r == PrologQuery::Fun(r->Fun_0, args) && r->Fun_0@ == s@,
{
    PrologQuery::Fun(s.to_string(), args)
}

/// The query that `l` and `r` unify.
pub fn u(l: PrologQuery, r: PrologQuery) -> (q: PrologQuery)
    ensures
        q == PrologQuery::Unify(Box::new(l), Box::new(r)),
{
    PrologQuery::Unify(Box::new(l), Box::new(r))
}

} // verus!
