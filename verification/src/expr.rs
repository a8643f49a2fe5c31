//! The expression tree over named boolean terminals, and its mathematical
//! model.

use vstd::prelude::*;

verus! {

/// A boolean expression tree: binary conjunction and disjunction, unary
/// negation, named terminals, and boolean constants. Every child is owned
/// exclusively by its parent, so the tree is finite and acyclic by
/// construction.
#[derive(Debug)]
pub enum Expr {
    /// Logical conjunction of the two children.
    And(Box<Expr>, Box<Expr>),
    /// Logical disjunction of the two children.
    Or(Box<Expr>, Box<Expr>),
    /// Logical complement of the child.
    Not(Box<Expr>),
    /// A named boolean variable, unknown until evaluation time.
    Terminal(String),
    /// A literal truth value.
    Const(bool),
}

/// The model of an expression tree: the same shape, with terminal names as
/// character sequences.
pub enum ExprModel {
    And(Box<ExprModel>, Box<ExprModel>),
    Or(Box<ExprModel>, Box<ExprModel>),
    Not(Box<ExprModel>),
    Terminal(Seq<char>),
    Const(bool),
}

/// The model of a concrete tree: the same shape, with each terminal name
/// replaced by its character sequence.
pub open spec fn model_of(e: Expr) -> ExprModel
    decreases e,
{
    match e {
        Expr::And(l, r) => ExprModel::And(Box::new(model_of(*l)), Box::new(model_of(*r))),
        Expr::Or(l, r) => ExprModel::Or(Box::new(model_of(*l)), Box::new(model_of(*r))),
        Expr::Not(i) => ExprModel::Not(Box::new(model_of(*i))),
        Expr::Terminal(name) => ExprModel::Terminal(name.view()),
        Expr::Const(b) => ExprModel::Const(b),
    }
}

impl View for Expr {
    type V = ExprModel;

    open spec fn view(&self) -> ExprModel {
        model_of(*self)
    }
}

/// The set of terminal names that occur in a tree.
pub open spec fn terminals_of(e: ExprModel) -> Set<Seq<char>>
    decreases e,
{
    match e {
        ExprModel::And(l, r) => terminals_of(*l).union(terminals_of(*r)),
        ExprModel::Or(l, r) => terminals_of(*l).union(terminals_of(*r)),
        ExprModel::Not(i) => terminals_of(*i),
        ExprModel::Terminal(name) => set![name],
        ExprModel::Const(_) => Set::empty(),
    }
}

/// Holds when every negation in the tree stands directly over a terminal.
/// The algebraic-laws simplifier leaves trees in this shape: double negation
/// is eliminated, negated constants are folded, and De Morgan's laws push
/// negation through the binary nodes.
pub open spec fn nots_only_on_terminals(e: ExprModel) -> bool
    decreases e,
{
    match e {
        ExprModel::And(l, r) => nots_only_on_terminals(*l) && nots_only_on_terminals(*r),
        ExprModel::Or(l, r) => nots_only_on_terminals(*l) && nots_only_on_terminals(*r),
        ExprModel::Not(i) => *i is Terminal,
        ExprModel::Terminal(_) => true,
        ExprModel::Const(_) => true,
    }
}

} // verus!
