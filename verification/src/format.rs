//! The canonical formatter: after one pass of algebraic-laws
//! simplification, the tree is rendered with every binary node fully
//! parenthesized, and the one redundant outermost pair is stripped.

use vstd::prelude::*;
use crate::algebra::laws_simplified;
use crate::expr::{Expr, ExprModel};
use crate::text::chars_to_string;

verus! {

/// The fully parenthesized rendering of a tree: each binary node wrapped
/// in parentheses with a spaced operator, negation as a tight `!` prefix,
/// terminals as their names, constants as `true` and `false`.
pub open spec fn render(e: ExprModel) -> Seq<char>
    decreases e,
{
    match e {
        ExprModel::And(l, r) => seq!['('] + render(*l) + seq![' ', '&', ' '] + render(*r)
            + seq![')'],
        ExprModel::Or(l, r) => seq!['('] + render(*l) + seq![' ', '|', ' '] + render(*r)
            + seq![')'],
        ExprModel::Not(i) => seq!['!'] + render(*i),
        ExprModel::Terminal(name) => name,
        ExprModel::Const(b) => if b {
            seq!['t', 'r', 'u', 'e']
        } else {
            seq!['f', 'a', 'l', 's', 'e']
        },
    }
}

/// A rendering that opens with a parenthesis is the rendering of a binary
/// root, which carries exactly one redundant outermost pair: that pair is
/// stripped, and nothing else ever is.
pub open spec fn strip_outer(s: Seq<char>) -> Seq<char> {
    if s.len() >= 2 && s[0] == '(' {
        s.subrange(1, s.len() - 1)
    } else {
        s
    }
}

/// What formatting a tree returns: the stripped rendering of its
/// laws-simplified form.
pub open spec fn format_spec(e: ExprModel) -> Seq<char> {
    strip_outer(render(laws_simplified(e)))
}

/// Renders a tree, fully parenthesized.
fn render_chars(e: &Expr) -> (r: Vec<char>)
    ensures
        r@ == render(e@),
    decreases e,
{
    match e {
        Expr::And(l, r) => {
            let mut out: Vec<char> = Vec::new();
            out.push('(');
            let mut lv = render_chars(l);
            out.append(&mut lv);
            out.push(' ');
            out.push('&');
            out.push(' ');
            let mut rv = render_chars(r);
            out.append(&mut rv);
            out.push(')');
            proof {
                assert(out@ =~= seq!['('] + render(l@) + seq![' ', '&', ' '] + render(r@)
                    + seq![')']);
            }
            out
        },
        Expr::Or(l, r) => {
            let mut out: Vec<char> = Vec::new();
            out.push('(');
            let mut lv = render_chars(l);
            out.append(&mut lv);
            out.push(' ');
            out.push('|');
            out.push(' ');
            let mut rv = render_chars(r);
            out.append(&mut rv);
            out.push(')');
            proof {
                assert(out@ =~= seq!['('] + render(l@) + seq![' ', '|', ' '] + render(r@)
                    + seq![')']);
            }
            out
        },
        Expr::Not(i) => {
            let mut out: Vec<char> = Vec::new();
            out.push('!');
            let mut iv = render_chars(i);
            out.append(&mut iv);
            proof {
                assert(out@ =~= seq!['!'] + render(i@));
            }
            out
        },
        Expr::Terminal(name) => {
            let out = crate::text::str_to_chars(name.as_str());
            out
        },
        Expr::Const(b) => {
            if *b {
                let out: Vec<char> = vec!['t', 'r', 'u', 'e'];
                proof {
                    assert(out@ =~= seq!['t', 'r', 'u', 'e']);
                }
                out
            } else {
                let out: Vec<char> = vec!['f', 'a', 'l', 's', 'e'];
                proof {
                    assert(out@ =~= seq!['f', 'a', 'l', 's', 'e']);
                }
                out
            }
        },
    }
}

/// Converts the given boolean expression into its canonical string: one
/// pass of algebraic-laws simplification, then the unambiguous fully
/// parenthesized rendering with the redundant outermost pair removed.
#[verifier::loop_isolation(false)]
pub fn format_bool_expr(expr: Expr) -> (r: String)
    ensures
        r@ == format_spec(expr@),
{
    let simplified = expr.simplify_via_laws();
    let rendered = render_chars(&simplified);
    if rendered.len() >= 2 && rendered[0] == '(' {
        let mut out: Vec<char> = Vec::new();
        let mut i: usize = 1;
        while i < rendered.len() - 1
            invariant
                1 <= i <= rendered@.len() - 1,
                out@ == rendered@.subrange(1, i as int),
            decreases rendered@.len() - 1 - i,
        {
            out.push(rendered[i]);
            proof {
                assert(rendered@.subrange(1, i + 1) =~= rendered@.subrange(1, i as int).push(
                    rendered@[i as int],
                ));
            }
            i = i + 1;
        }
        chars_to_string(&out)
    } else {
        chars_to_string(&rendered)
    }
}

} // verus!
