//! The boundary to the `boolean_expression` crate, which owns the boolean
//! algebra itself: this library only builds trees and asks the outside
//! representation to simplify them.

use vstd::prelude::*;
use boolean_expression::Expr as OutsideExpr;
use crate::expr::{Expr, ExprModel, terminals_of, nots_only_on_terminals};

verus! {

#[verifier::external_type_specification]
#[verifier::external_body]
#[verifier::reject_recursive_types(T)]
pub struct ExOutsideExpr<T: Clone + core::fmt::Debug + Eq + core::hash::Hash>(OutsideExpr<T>);

/// The tree that an outside expression value holds, read back into this
/// library's model.
pub uninterp spec fn tree_of(e: OutsideExpr<String>) -> ExprModel;

/// What `Expr::simplify_via_laws` of the `boolean_expression` crate returns
/// for a given tree: its algebraic-laws simplification. The rewrite runs to
/// a fixpoint over constant folding, double negation, De Morgan's laws and
/// distribution, so the result depends on the tree alone.
pub uninterp spec fn laws_simplified(e: ExprModel) -> ExprModel;

/// What `Expr::simplify_via_bdd` of the `boolean_expression` crate returns
/// for a given tree: its reduction through a binary decision diagram. The
/// crate keeps its cube order stable, so the result depends on the tree
/// alone.
pub uninterp spec fn bdd_simplified(e: ExprModel) -> ExprModel;

/// Relies on the `boolean_expression::Expr` constructors: rebuilds this
/// tree, node for node, in the outside representation.
#[verifier::external_body]
fn to_outside(e: &Expr) -> (r: OutsideExpr<String>)
    ensures
        tree_of(r) == e@,
{
    match e {
        Expr::And(l, r) => OutsideExpr::And(
            Box::new(to_outside(l)),
            Box::new(to_outside(r)),
        ),
        Expr::Or(l, r) => OutsideExpr::Or(
            Box::new(to_outside(l)),
            Box::new(to_outside(r)),
        ),
        Expr::Not(i) => OutsideExpr::Not(Box::new(to_outside(i))),
        Expr::Terminal(name) => OutsideExpr::Terminal(name.clone()),
        Expr::Const(b) => OutsideExpr::Const(*b),
    }
}

/// Relies on the `boolean_expression::Expr` variants: reads the outside
/// tree back, node for node.
#[verifier::external_body]
fn from_outside(e: OutsideExpr<String>) -> (r: Expr)
    ensures
        r@ == tree_of(e),
{
    match e {
        OutsideExpr::And(l, r) => Expr::And(
            Box::new(from_outside(*l)),
            Box::new(from_outside(*r)),
        ),
        OutsideExpr::Or(l, r) => Expr::Or(
            Box::new(from_outside(*l)),
            Box::new(from_outside(*r)),
        ),
        OutsideExpr::Not(i) => Expr::Not(Box::new(from_outside(*i))),
        OutsideExpr::Terminal(name) => Expr::Terminal(name),
        OutsideExpr::Const(b) => Expr::Const(b),
    }
}

/// Relies on `OutsideExpr::simplify_via_laws`: rewrites the
/// tree by algebraic laws until nothing changes any more. Because it stops
/// only at a fixpoint, the result is itself unchanged by another pass, every
/// negation in it stands directly over a terminal, and it holds no terminal
/// that the input did not hold.
#[verifier::external_body]
fn laws_outside(e: OutsideExpr<String>) -> (r: OutsideExpr<String>)
    ensures
        tree_of(r) == laws_simplified(tree_of(e)),
        laws_simplified(tree_of(r)) == tree_of(r),
        nots_only_on_terminals(tree_of(r)),
        terminals_of(tree_of(r)).subset_of(terminals_of(tree_of(e))),
{
    e.simplify_via_laws()
}

/// Relies on `OutsideExpr::simplify_via_bdd`: reduces the tree
/// through a binary decision diagram.
#[verifier::external_body]
fn bdd_outside(e: OutsideExpr<String>) -> (r: OutsideExpr<String>)
    ensures
        tree_of(r) == bdd_simplified(tree_of(e)),
{
    e.simplify_via_bdd()
}

impl Expr {
    /// The cheap, always-safe simplification by algebraic laws, performed by
    /// the outside algebra representation.
    pub fn simplify_via_laws(self) -> (r: Expr)
        ensures
            r@ == laws_simplified(self@),
            laws_simplified(r@) == r@,
            nots_only_on_terminals(r@),
            terminals_of(r@).subset_of(terminals_of(self@)),
    {
        from_outside(laws_outside(to_outside(&self)))
    }

    /// The expensive, caller-invoked reduction through a binary decision
    /// diagram, performed by the outside algebra representation.
    pub fn simplify_via_bdd(self) -> (r: Expr)
        ensures
            r@ == bdd_simplified(self@),
    {
        from_outside(bdd_outside(to_outside(&self)))
    }
}

} // verus!
