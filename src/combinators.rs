//! Common closed terms.

use vstd::prelude::*;
use crate::blc::Term;

verus! {

/// The abstraction over `body`.
pub open spec fn lam(body: Term) -> Term {
    Term::Abs(Box::new(body))
}

/// The application of `f` to `a`.
pub open spec fn ap(f: Term, a: Term) -> Term {
    Term::App(Box::new(f), Box::new(a))
}

/// `λx.x`
pub open spec fn identity_term() -> Term {
    lam(Term::Var(0))
}

/// `λx.λy.x`
pub open spec fn true_term() -> Term {
    lam(lam(Term::Var(1)))
}

/// `λx.λy.y`
pub open spec fn false_term() -> Term {
    lam(lam(Term::Var(0)))
}

/// `λf.λx.f x`
pub open spec fn one_term() -> Term {
    lam(lam(ap(Term::Var(1), Term::Var(0))))
}

/// `λx.λy.λz.x z (y z)`
pub open spec fn s_term() -> Term {
    lam(lam(lam(ap(ap(Term::Var(2), Term::Var(0)), ap(Term::Var(1), Term::Var(0))))))
}

/// `λx.x`
pub fn identity() -> (r: Term)
    ensures
        r == identity_term(),
{
    Term::Abs(Box::new(Term::Var(0)))
}

/// Church true, `λx.λy.x`.
pub fn church_true() -> (r: Term)
    ensures
        r == true_term(),
{
    Term::Abs(Box::new(Term::Abs(Box::new(Term::Var(1)))))
}

/// Church false, `λx.λy.y`.
pub fn church_false() -> (r: Term)
    ensures
        r == false_term(),
{
    Term::Abs(Box::new(Term::Abs(Box::new(Term::Var(0)))))
}

/// Church numeral zero, `λf.λx.x` (the same term as false).
pub fn church_zero() -> (r: Term)
    ensures
        r == false_term(),
{
    church_false()
}

/// Church numeral one, `λf.λx.f x`.
pub fn church_one() -> (r: Term)
    ensures
        r == one_term(),
{
    let app = Term::App(Box::new(Term::Var(1)), Box::new(Term::Var(0)));
    Term::Abs(Box::new(Term::Abs(Box::new(app))))
}

/// The S combinator, `λx.λy.λz.x z (y z)`.
pub fn s_combinator() -> (r: Term)
    ensures
        r == s_term(),
{
    let xz = Term::App(Box::new(Term::Var(2)), Box::new(Term::Var(0)));
    let yz = Term::App(Box::new(Term::Var(1)), Box::new(Term::Var(0)));
    let body = Term::App(Box::new(xz), Box::new(yz));
    Term::Abs(Box::new(Term::Abs(Box::new(Term::Abs(Box::new(body))))))
}

/// The K combinator, `λx.λy.x` (the same term as true).
pub fn k_combinator() -> (r: Term)
    ensures
        r == true_term(),
{
    church_true()
}

/// The I combinator, `λx.x` (the same term as identity).
pub fn i_combinator() -> (r: Term)
    ensures
        r == identity_term(),
{
    identity()
}

} // verus!
