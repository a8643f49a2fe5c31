//! The closed taxonomy of parse failures, each carrying its diagnostic
//! context.

use vstd::prelude::*;
use crate::expr::{Expr, ExprModel, model_of};

verus! {

/// Why a parse of a boolean expression failed. Every failure aborts the
/// whole parse; there is no partial result.
#[derive(Debug)]
pub enum BoolExprParseError {
    /// A bracket other than a parenthesis occurred somewhere in the input.
    InvalidBrackets,
    /// A terminal candidate held a character outside letters, digits and
    /// underscore, after an optional leading negation marker was stripped.
    NonAlphanumericToken { token: String },
    /// Two expressions stood next to each other with no operator between
    /// them; the second of the two is carried.
    ConsecutiveTerminals { second: Expr },
    /// Two operators stood next to each other with no expression between
    /// them; the name of the second one is carried.
    ConsecutiveOperators { second: String },
    /// The number of open parenthesis scopes went past the configured bound.
    TooMuchNesting,
    /// A scope ended while an operator still waited for its right operand.
    TrailingOperator { op: String },
    /// A scope ended with nothing in it: empty parentheses, or an input with
    /// no expression at all.
    EmptyStack,
    /// A close parenthesis had no open scope to close, or an open
    /// parenthesis was never closed; the original input is carried.
    UnmatchedBracket { expr: String },
    /// A terminal was not a member of the caller's allowed set.
    UnknownTerminal { terminal: String },
}

/// The model of a parse failure: the same nine kinds, with the carried
/// diagnostic text as character sequences.
pub enum ErrorModel {
    InvalidBrackets,
    NonAlphanumericToken(Seq<char>),
    ConsecutiveTerminals(ExprModel),
    ConsecutiveOperators(Seq<char>),
    TooMuchNesting,
    TrailingOperator(Seq<char>),
    EmptyStack,
    UnmatchedBracket(Seq<char>),
    UnknownTerminal(Seq<char>),
}

impl View for BoolExprParseError {
    type V = ErrorModel;

    open spec fn view(&self) -> ErrorModel {
        match self {
            BoolExprParseError::InvalidBrackets => ErrorModel::InvalidBrackets,
            BoolExprParseError::NonAlphanumericToken { token } => ErrorModel::NonAlphanumericToken(
                token.view(),
            ),
            BoolExprParseError::ConsecutiveTerminals { second } => ErrorModel::ConsecutiveTerminals(
                model_of(*second),
            ),
            BoolExprParseError::ConsecutiveOperators { second } => ErrorModel::ConsecutiveOperators(
                second.view(),
            ),
            BoolExprParseError::TooMuchNesting => ErrorModel::TooMuchNesting,
            BoolExprParseError::TrailingOperator { op } => ErrorModel::TrailingOperator(op.view()),
            BoolExprParseError::EmptyStack => ErrorModel::EmptyStack,
            BoolExprParseError::UnmatchedBracket { expr } => ErrorModel::UnmatchedBracket(
                expr.view(),
            ),
            BoolExprParseError::UnknownTerminal { terminal } => ErrorModel::UnknownTerminal(
                terminal.view(),
            ),
        }
    }
}

} // verus!
