//! A small front-end for user-written boolean conditions: it parses flexible
//! spellings such as `x and (a || not b)` into an expression tree over named
//! terminals, and renders such a tree back into one canonical string form.
//! Algebraic simplification of the tree is delegated to the
//! `boolean_expression` crate.

pub mod algebra;
pub mod error;
pub mod expr;
pub mod format;
pub mod parser;
pub mod props;
pub mod text;

pub use error::BoolExprParseError;
pub use expr::Expr;
pub use format::format_bool_expr;
pub use parser::{parse_bool_expr_str, parse_bool_expr_str_with_max_nesting};
