//! Proved laws of the parser and formatter: bracket balance of accepted
//! inputs, exact behaviour of the nesting bound, the canonical output
//! alphabet, and re-parsing of the canonical form.

use vstd::prelude::*;
use crate::algebra::laws_simplified;
use crate::error::ErrorModel;
use crate::expr::{ExprModel, terminals_of};
use crate::format::{format_spec, render, strip_outer};
use crate::parser::{
    all_chars_alnum, contains_name, empty_scope, finish_spec, init_stack, parse_result, pieces_of,
    push_expr_spec, push_op_spec, push_str_spec, run_machine, run_parse, set_last, step_spec,
    terminal_expr, BoolOp, ScopeModel,
};

verus! {

/// How many pieces of a token stream are exactly the token `t`.
pub open spec fn count_tok(pieces: Seq<Seq<char>>, t: Seq<char>) -> nat
    decreases pieces.len(),
{
    if pieces.len() == 0 {
        0
    } else {
        (if pieces.first() == t {
            1nat
        } else {
            0nat
        }) + count_tok(pieces.drop_first(), t)
    }
}

/// Along any accepted run of the stack machine, every `(` grew the stack by
/// one scope and every `)` shrank it by one, and the run ended with exactly
/// one scope: the number of scopes plus the open tokens consumed balances
/// the close tokens consumed plus the one implicit scope.
proof fn lemma_machine_ok_balance(
    stk: Seq<ScopeModel>,
    pieces: Seq<Seq<char>>,
    allowed: Seq<Seq<char>>,
    m: nat,
    raw: Seq<char>,
)
    requires
        stk.len() >= 1,
        run_machine(stk, pieces, allowed, m, raw) is Ok,
    ensures
        stk.len() + count_tok(pieces, seq!['(']) == 1 + count_tok(pieces, seq![')']),
    decreases pieces.len(),
{
    if pieces.len() == 0 {
    } else {
        let p = pieces.first();
        let rest = pieces.drop_first();
        if p.len() == 0 {
            lemma_machine_ok_balance(stk, rest, allowed, m, raw);
        } else {
            let stepped = step_spec(stk, p, allowed, raw);
            match stepped {
                Err(e) => {
                    assert(false);
                },
                Ok(stk2) => {
                    if p == seq!['('] {
                        lemma_machine_ok_balance(stk2, rest, allowed, m, raw);
                    } else if p == seq![')'] {
                        assert(stk.len() > 1);
                        assert(stk2.len() == stk.len() - 1);
                        lemma_machine_ok_balance(stk2, rest, allowed, m, raw);
                    } else {
                        assert(stk2.len() == stk.len());
                        lemma_machine_ok_balance(stk2, rest, allowed, m, raw);
                    }
                },
            }
        }
    }
}

/// An accepted input has balanced parentheses: a parse that produced a tree
/// consumed exactly as many `(` tokens as `)` tokens.
pub proof fn lemma_accepted_input_is_balanced(
    raw: Seq<char>,
    lowered: Seq<char>,
    allowed: Seq<Seq<char>>,
    m: nat,
)
    requires
        run_parse(raw, lowered, allowed, m) is Ok,
    ensures
        count_tok(pieces_of(lowered), seq!['(']) == count_tok(pieces_of(lowered), seq![')']),
{
    lemma_machine_ok_balance(init_stack(), pieces_of(lowered), allowed, m, raw);
}

/// An input whose token stream holds strictly more `(` than `)` tokens, or
/// the other way round, fails the parse.
pub proof fn lemma_unbalanced_input_fails(
    raw: Seq<char>,
    lowered: Seq<char>,
    allowed: Seq<Seq<char>>,
    m: nat,
)
    requires
        count_tok(pieces_of(lowered), seq!['(']) != count_tok(pieces_of(lowered), seq![')']),
    ensures
        parse_result(raw, lowered, allowed, m) is Err,
{
    if run_parse(raw, lowered, allowed, m) is Ok {
        lemma_accepted_input_is_balanced(raw, lowered, allowed, m);
    }
}

/// A terminal name that the stack machine will read back as that plain
/// terminal: non-empty, not negated, alphanumeric, allowed, and not
/// spelled like any structural token.
pub open spec fn plain_terminal(name: Seq<char>, allowed: Seq<Seq<char>>) -> bool {
    name.len() > 0 && name[0] != '!' && all_chars_alnum(name) && contains_name(allowed, name)
        && name != seq!['('] && name != seq![')'] && name != seq!['&'] && name != seq!['|']
        && name != seq!['t', 'r', 'u', 'e'] && name != seq!['f', 'a', 'l', 's', 'e']
}

/// The token stream of `k` nested parenthesis levels around one terminal.
pub open spec fn wrapped_pieces(k: nat, name: Seq<char>) -> Seq<Seq<char>>
    decreases k,
{
    if k == 0 {
        seq![name]
    } else {
        seq![seq!['(']] + wrapped_pieces((k - 1) as nat, name) + seq![seq![')']]
    }
}

/// Running the machine over `k` nesting levels around a terminal, from a
/// stack whose innermost scope is empty and with `k` levels of room left,
/// deposits the terminal into that scope and goes on with the rest.
proof fn lemma_wrapped_run(
    stk: Seq<ScopeModel>,
    k: nat,
    name: Seq<char>,
    suffix: Seq<Seq<char>>,
    allowed: Seq<Seq<char>>,
    m: nat,
    raw: Seq<char>,
)
    requires
        stk.len() >= 1,
        stk.last() == empty_scope(),
        stk.len() + k <= m + 1,
        plain_terminal(name, allowed),
    ensures
        run_machine(stk, wrapped_pieces(k, name) + suffix, allowed, m, raw) == run_machine(
            stk.update(
                stk.len() - 1,
                ScopeModel { expr: Some(ExprModel::Terminal(name)), op: None },
            ),
            suffix,
            allowed,
            m,
            raw,
        ),
    decreases k,
{
    if k == 0 {
        let pieces = wrapped_pieces(0, name) + suffix;
        assert(pieces.first() == name);
        assert(pieces.drop_first() =~= suffix);
        assert(push_str_spec(stk.last(), name, allowed) == Ok::<ScopeModel, ErrorModel>(
            ScopeModel { expr: Some(ExprModel::Terminal(name)), op: None },
        ));
    } else {
        let inner = wrapped_pieces((k - 1) as nat, name);
        let pieces = wrapped_pieces(k, name) + suffix;
        let suffix1 = seq![seq![')']] + suffix;
        assert(pieces =~= seq![seq!['(']] + (inner + suffix1));
        assert(pieces.first() == seq!['(']);
        assert(pieces.drop_first() =~= inner + suffix1);
        let stk1 = stk.push(empty_scope());
        assert(stk1.last() == empty_scope());
        lemma_wrapped_run(stk1, (k - 1) as nat, name, suffix1, allowed, m, raw);
        let filled = ScopeModel { expr: Some(ExprModel::Terminal(name)), op: None };
        let stk2 = stk1.update(stk1.len() - 1, filled);
        assert(suffix1.first() == seq![')']);
        assert(suffix1.drop_first() =~= suffix);
        assert(stk2.len() == stk.len() + 1);
        assert(stk2.last() == filled);
        assert(finish_spec(stk2.last()) == Ok::<ExprModel, ErrorModel>(ExprModel::Terminal(name)));
        assert(stk2.drop_last() =~= stk);
        assert(push_expr_spec(stk.last(), ExprModel::Terminal(name)) == Ok::<
            ScopeModel,
            ErrorModel,
        >(filled));
    }
}

/// Opening one parenthesis level more than the room that is left runs the
/// machine into the nesting bound.
proof fn lemma_wrapped_overflow(
    stk: Seq<ScopeModel>,
    k: nat,
    name: Seq<char>,
    suffix: Seq<Seq<char>>,
    allowed: Seq<Seq<char>>,
    m: nat,
    raw: Seq<char>,
)
    requires
        stk.len() >= 1,
        k >= 1,
        stk.len() + k == m + 2,
    ensures
        run_machine(stk, wrapped_pieces(k, name) + suffix, allowed, m, raw) == Err::<
            ExprModel,
            ErrorModel,
        >(ErrorModel::TooMuchNesting),
    decreases k,
{
    let inner = wrapped_pieces((k - 1) as nat, name);
    let pieces = wrapped_pieces(k, name) + suffix;
    let suffix1 = seq![seq![')']] + suffix;
    assert(pieces =~= seq![seq!['(']] + (inner + suffix1));
    assert(pieces.first() == seq!['(']);
    assert(pieces.drop_first() =~= inner + suffix1);
    let stk1 = stk.push(empty_scope());
    if k == 1 {
        assert(inner + suffix1 =~= seq![name] + suffix1);
        assert((inner + suffix1).len() > 0);
        assert(stk1.len() > m + 1);
    } else {
        lemma_wrapped_overflow(stk1, (k - 1) as nat, name, suffix1, allowed, m, raw);
    }
}

/// With a nesting bound of `m`, an input of exactly `m` nested parenthesis
/// levels around one allowed terminal is accepted, and yields that
/// terminal.
pub proof fn lemma_nesting_within_bound_accepted(
    k: nat,
    name: Seq<char>,
    allowed: Seq<Seq<char>>,
    m: nat,
    raw: Seq<char>,
)
    requires
        k <= m,
        plain_terminal(name, allowed),
    ensures
        run_machine(init_stack(), wrapped_pieces(k, name), allowed, m, raw) == Ok::<
            ExprModel,
            ErrorModel,
        >(ExprModel::Terminal(name)),
{
    let pieces = wrapped_pieces(k, name);
    assert(pieces + Seq::<Seq<char>>::empty() =~= pieces);
    lemma_wrapped_run(init_stack(), k, name, Seq::empty(), allowed, m, raw);
    let filled = ScopeModel { expr: Some(ExprModel::Terminal(name)), op: None };
    let done = init_stack().update(0, filled);
    assert(done.len() == 1);
    assert(done.last() == filled);
}

/// With a nesting bound of `m`, an input of `m + 1` nested parenthesis
/// levels around a single terminal is rejected with the nesting error.
pub proof fn lemma_nesting_past_bound_rejected(
    name: Seq<char>,
    allowed: Seq<Seq<char>>,
    m: nat,
    raw: Seq<char>,
)
    ensures
        run_machine(init_stack(), wrapped_pieces(m + 1, name), allowed, m, raw) == Err::<
            ExprModel,
            ErrorModel,
        >(ErrorModel::TooMuchNesting),
{
    let pieces = wrapped_pieces(m + 1, name);
    assert(pieces + Seq::<Seq<char>>::empty() =~= pieces);
    lemma_wrapped_overflow(init_stack(), m + 1, name, Seq::empty(), allowed, m, raw);
}


/// Whether `c` occurs in some terminal name of `terms`.
pub open spec fn char_of_some_terminal(c: char, terms: Set<Seq<char>>) -> bool {
    exists|n: Seq<char>| #[trigger] terms.contains(n) && n.contains(c)
}

/// The canonical output alphabet over a terminal set: the operator and
/// grouping characters, the space, the characters of `true` and `false`,
/// and the characters of the terminals themselves.
pub open spec fn char_in_alphabet(c: char, terms: Set<Seq<char>>) -> bool {
    c == '&' || c == '|' || c == '!' || c == '(' || c == ')' || c == ' ' || c == 't' || c == 'r'
        || c == 'u' || c == 'e' || c == 'f' || c == 'a' || c == 'l' || c == 's'
        || char_of_some_terminal(c, terms)
}

/// Every character of `s` lies in the canonical alphabet over `terms`.
pub open spec fn chars_in_alphabet(s: Seq<char>, terms: Set<Seq<char>>) -> bool {
    forall|i: int| 0 <= i < s.len() ==> char_in_alphabet(s[i], terms)
}

proof fn lemma_alphabet_concat(a: Seq<char>, b: Seq<char>, terms: Set<Seq<char>>)
    requires
        chars_in_alphabet(a, terms),
        chars_in_alphabet(b, terms),
    ensures
        chars_in_alphabet(a + b, terms),
{
    assert forall|i: int| 0 <= i < (a + b).len() implies char_in_alphabet((a + b)[i], terms) by {
        if i < a.len() {
            assert((a + b)[i] == a[i]);
        } else {
            assert((a + b)[i] == b[i - a.len()]);
        }
    }
}

proof fn lemma_alphabet_mono(s: Seq<char>, t1: Set<Seq<char>>, t2: Set<Seq<char>>)
    requires
        chars_in_alphabet(s, t1),
        t1.subset_of(t2),
    ensures
        chars_in_alphabet(s, t2),
{
    assert forall|i: int| 0 <= i < s.len() implies char_in_alphabet(s[i], t2) by {
        if char_of_some_terminal(s[i], t1) {
            let n = choose|n: Seq<char>| t1.contains(n) && n.contains(s[i]);
            assert(t2.contains(n));
        }
    }
}

/// Everything the renderer emits is in the canonical alphabet over the
/// tree's own terminals.
pub proof fn lemma_render_alphabet(u: ExprModel)
    ensures
        chars_in_alphabet(render(u), terminals_of(u)),
    decreases u,
{
    match u {
        ExprModel::And(l, r) => {
            lemma_render_alphabet(*l);
            lemma_render_alphabet(*r);
            let terms = terminals_of(u);
            lemma_alphabet_mono(render(*l), terminals_of(*l), terms);
            lemma_alphabet_mono(render(*r), terminals_of(*r), terms);
            lemma_alphabet_concat(seq!['('], render(*l), terms);
            lemma_alphabet_concat(seq!['('] + render(*l), seq![' ', '&', ' '], terms);
            lemma_alphabet_concat(seq!['('] + render(*l) + seq![' ', '&', ' '], render(*r), terms);
            lemma_alphabet_concat(
                seq!['('] + render(*l) + seq![' ', '&', ' '] + render(*r),
                seq![')'],
                terms,
            );
        },
        ExprModel::Or(l, r) => {
            lemma_render_alphabet(*l);
            lemma_render_alphabet(*r);
            let terms = terminals_of(u);
            lemma_alphabet_mono(render(*l), terminals_of(*l), terms);
            lemma_alphabet_mono(render(*r), terminals_of(*r), terms);
            lemma_alphabet_concat(seq!['('], render(*l), terms);
            lemma_alphabet_concat(seq!['('] + render(*l), seq![' ', '|', ' '], terms);
            lemma_alphabet_concat(seq!['('] + render(*l) + seq![' ', '|', ' '], render(*r), terms);
            lemma_alphabet_concat(
                seq!['('] + render(*l) + seq![' ', '|', ' '] + render(*r),
                seq![')'],
                terms,
            );
        },
        ExprModel::Not(i) => {
            lemma_render_alphabet(*i);
            lemma_alphabet_concat(seq!['!'], render(*i), terminals_of(u));
        },
        ExprModel::Terminal(name) => {
            assert forall|i: int| 0 <= i < name.len() implies char_in_alphabet(
                name[i],
                terminals_of(u),
            ) by {
                assert(terminals_of(u).contains(name));
                assert(name.contains(name[i]));
            }
        },
        ExprModel::Const(b) => {
        },
    }
}

/// Stripping the outer parenthesis pair drops characters and adds none.
proof fn lemma_strip_alphabet(s: Seq<char>, terms: Set<Seq<char>>)
    requires
        chars_in_alphabet(s, terms),
    ensures
        chars_in_alphabet(strip_outer(s), terms),
{
    if s.len() >= 2 && s[0] == '(' {
        assert forall|i: int| 0 <= i < strip_outer(s).len() implies char_in_alphabet(
            strip_outer(s)[i],
            terms,
        ) by {
            assert(strip_outer(s)[i] == s[i + 1]);
        }
    }
}

/// The terminals a scope has accumulated all lie in `terms`.
pub open spec fn scope_terms_ok(sc: ScopeModel, terms: Set<Seq<char>>) -> bool {
    match sc.expr {
        Some(e) => terminals_of(e).subset_of(terms),
        None => true,
    }
}

/// Every scope of the stack satisfies `scope_terms_ok`.
pub open spec fn stack_terms_ok(stk: Seq<ScopeModel>, terms: Set<Seq<char>>) -> bool {
    forall|j: int| 0 <= j < stk.len() ==> scope_terms_ok(#[trigger] stk[j], terms)
}

proof fn lemma_push_expr_terms(sc: ScopeModel, x: ExprModel, sc2: ScopeModel, terms: Set<Seq<char>>)
    requires
        scope_terms_ok(sc, terms),
        terminals_of(x).subset_of(terms),
        push_expr_spec(sc, x) == Ok::<ScopeModel, ErrorModel>(sc2),
    ensures
        scope_terms_ok(sc2, terms),
{
}

/// Along any accepted run, every terminal that enters the stack passed the
/// allowed-set check, so the tree that comes out draws its terminals from
/// the allowed set alone.
proof fn lemma_machine_ok_terminals(
    stk: Seq<ScopeModel>,
    pieces: Seq<Seq<char>>,
    allowed: Seq<Seq<char>>,
    m: nat,
    raw: Seq<char>,
    t: ExprModel,
)
    requires
        stk.len() >= 1,
        stack_terms_ok(stk, allowed.to_set()),
        run_machine(stk, pieces, allowed, m, raw) == Ok::<ExprModel, ErrorModel>(t),
    ensures
        terminals_of(t).subset_of(allowed.to_set()),
    decreases pieces.len(),
{
    let terms = allowed.to_set();
    if pieces.len() == 0 {
        assert(scope_terms_ok(stk.last(), terms));
    } else {
        let p = pieces.first();
        let rest = pieces.drop_first();
        if p.len() == 0 {
            lemma_machine_ok_terminals(stk, rest, allowed, m, raw, t);
        } else {
            let stepped = step_spec(stk, p, allowed, raw);
            match stepped {
                Err(e) => {
                    assert(false);
                },
                Ok(stk2) => {
                    if p == seq!['('] {
                        assert(stack_terms_ok(stk2, terms)) by {
                            assert(forall|j: int|
                                0 <= j < stk.len() ==> stk2[j] == #[trigger] stk[j]);
                            assert(stk2.last() == empty_scope());
                        }
                    } else if p == seq![')'] {
                        let x = match finish_spec(stk.last()) {
                            Ok(x) => x,
                            Err(e) => arbitrary(),
                        };
                        assert(scope_terms_ok(stk.last(), terms));
                        assert(terminals_of(x).subset_of(terms));
                        let popped = stk.drop_last();
                        let sc2 = match push_expr_spec(popped.last(), x) {
                            Ok(sc) => sc,
                            Err(e) => arbitrary(),
                        };
                        assert(scope_terms_ok(popped.last(), terms));
                        lemma_push_expr_terms(popped.last(), x, sc2, terms);
                        assert(stack_terms_ok(stk2, terms)) by {
                            assert(forall|j: int|
                                0 <= j < stk2.len() - 1 ==> stk2[j] == #[trigger] stk[j]);
                            assert(stk2.last() == sc2);
                        }
                    } else {
                        let last = stk.last();
                        let r: Result<ScopeModel, ErrorModel> = if p == seq!['&'] {
                            push_op_spec(last, BoolOp::And)
                        } else if p == seq!['|'] {
                            push_op_spec(last, BoolOp::Or)
                        } else if p == seq!['t', 'r', 'u', 'e'] {
                            push_expr_spec(last, ExprModel::Const(true))
                        } else if p == seq!['f', 'a', 'l', 's', 'e'] {
                            push_expr_spec(last, ExprModel::Const(false))
                        } else {
                            push_str_spec(last, p, allowed)
                        };
                        assert(stepped == set_last(stk, r));
                        let sc2 = match r {
                            Ok(sc) => sc,
                            Err(e) => arbitrary(),
                        };
                        assert(scope_terms_ok(last, terms));
                        if p == seq!['&'] || p == seq!['|'] {
                            assert(scope_terms_ok(sc2, terms));
                        } else if p == seq!['t', 'r', 'u', 'e'] {
                            lemma_push_expr_terms(last, ExprModel::Const(true), sc2, terms);
                        } else if p == seq!['f', 'a', 'l', 's', 'e'] {
                            lemma_push_expr_terms(last, ExprModel::Const(false), sc2, terms);
                        } else {
                            let negated = p[0] == '!';
                            let nm = if negated {
                                p.drop_first()
                            } else {
                                p
                            };
                            assert(contains_name(allowed, nm));
                            assert(allowed.contains(nm));
                            assert(terms.contains(nm));
                            if negated {
                                assert(terminal_expr(nm, true) == ExprModel::Not(
                                    Box::new(ExprModel::Terminal(nm)),
                                ));
                                assert(terminals_of(terminal_expr(nm, true)) == terminals_of(
                                    ExprModel::Terminal(nm),
                                ));
                            }
                            assert(terminals_of(ExprModel::Terminal(nm)) =~= set![nm]);
                            assert(terminals_of(terminal_expr(nm, negated)) =~= set![nm]);
                            assert(terminals_of(terminal_expr(nm, negated)).subset_of(terms));
                            lemma_push_expr_terms(last, terminal_expr(nm, negated), sc2, terms);
                        }
                        assert(stack_terms_ok(stk2, terms)) by {
                            assert(forall|j: int|
                                0 <= j < stk.len() - 1 ==> stk2[j] == #[trigger] stk[j]);
                            assert(stk2.last() == sc2);
                        }
                    }
                    lemma_machine_ok_terminals(stk2, rest, allowed, m, raw, t);
                },
            }
        }
    }
}

/// Every terminal of an accepted parse is a member of the allowed set.
pub proof fn lemma_parse_terminals_allowed(
    raw: Seq<char>,
    lowered: Seq<char>,
    allowed: Seq<Seq<char>>,
    m: nat,
    t: ExprModel,
)
    requires
        run_parse(raw, lowered, allowed, m) == Ok::<ExprModel, ErrorModel>(t),
    ensures
        terminals_of(t).subset_of(allowed.to_set()),
{
    lemma_machine_ok_terminals(init_stack(), pieces_of(lowered), allowed, m, raw, t);
}

/// The canonical output of an accepted parse uses only the canonical
/// alphabet over the allowed terminals: the operator characters `&`, `|`,
/// `!`, parentheses, spaces, the characters of `true` and `false`, and
/// characters of allowed terminal names. The tree `u` is the
/// laws-simplified form that the formatter renders; that the simplifier
/// adds no terminal of its own is its wrapper's stated guarantee and is
/// taken here as a premise.
pub proof fn lemma_canonical_output_alphabet(
    raw: Seq<char>,
    lowered: Seq<char>,
    allowed: Seq<Seq<char>>,
    m: nat,
    t: ExprModel,
    u: ExprModel,
)
    requires
        run_parse(raw, lowered, allowed, m) == Ok::<ExprModel, ErrorModel>(t),
        terminals_of(u).subset_of(terminals_of(t)),
    ensures
        chars_in_alphabet(strip_outer(render(u)), allowed.to_set()),
{
    lemma_parse_terminals_allowed(raw, lowered, allowed, m, t);
    lemma_render_alphabet(u);
    lemma_alphabet_mono(render(u), terminals_of(u), allowed.to_set());
    lemma_strip_alphabet(render(u), allowed.to_set());
}


/// The parenthesis depth of a tree's rendering: each binary node adds one
/// pair, negation and leaves add none.
pub open spec fn pdepth(u: ExprModel) -> nat
    decreases u,
{
    match u {
        ExprModel::And(l, r) => 1 + if pdepth(*l) >= pdepth(*r) {
            pdepth(*l)
        } else {
            pdepth(*r)
        },
        ExprModel::Or(l, r) => 1 + if pdepth(*l) >= pdepth(*r) {
            pdepth(*l)
        } else {
            pdepth(*r)
        },
        ExprModel::Not(i) => pdepth(*i),
        ExprModel::Terminal(_) => 0,
        ExprModel::Const(_) => 0,
    }
}

/// The token stream of the canonical rendering: what splitting the
/// formatter's output into whitespace-delimited tokens yields.
pub open spec fn render_tokens(u: ExprModel) -> Seq<Seq<char>>
    decreases u,
{
    match u {
        ExprModel::And(l, r) => seq![seq!['(']] + render_tokens(*l) + seq![seq!['&']]
            + render_tokens(*r) + seq![seq![')']],
        ExprModel::Or(l, r) => seq![seq!['(']] + render_tokens(*l) + seq![seq!['|']]
            + render_tokens(*r) + seq![seq![')']],
        ExprModel::Not(i) => seq![seq!['!'] + render(*i)],
        ExprModel::Terminal(name) => seq![name],
        ExprModel::Const(b) => if b {
            seq![seq!['t', 'r', 'u', 'e']]
        } else {
            seq![seq!['f', 'a', 'l', 's', 'e']]
        },
    }
}

/// A tree whose canonical form reads back as the same tree: negation
/// stands only over terminals, and every terminal is a plain allowed name.
/// The algebraic-laws simplifier leaves parser output in this shape
/// whenever the terminal names themselves are unambiguous.
pub open spec fn renderable(u: ExprModel, allowed: Seq<Seq<char>>) -> bool
    decreases u,
{
    match u {
        ExprModel::And(l, r) => renderable(*l, allowed) && renderable(*r, allowed),
        ExprModel::Or(l, r) => renderable(*l, allowed) && renderable(*r, allowed),
        ExprModel::Not(i) => (*i is Terminal) && renderable(*i, allowed),
        ExprModel::Terminal(name) => plain_terminal(name, allowed),
        ExprModel::Const(_) => true,
    }
}

/// Feeding the canonical token stream of a renderable tree to the machine
/// pushes exactly that tree into the innermost scope and goes on.
proof fn lemma_tokens_run(
    stk: Seq<ScopeModel>,
    u: ExprModel,
    suffix: Seq<Seq<char>>,
    allowed: Seq<Seq<char>>,
    m: nat,
    raw: Seq<char>,
    sc2: ScopeModel,
)
    requires
        stk.len() >= 1,
        renderable(u, allowed),
        stk.len() + pdepth(u) <= m + 1,
        push_expr_spec(stk.last(), u) == Ok::<ScopeModel, ErrorModel>(sc2),
    ensures
        run_machine(stk, render_tokens(u) + suffix, allowed, m, raw) == run_machine(
            stk.update(stk.len() - 1, sc2),
            suffix,
            allowed,
            m,
            raw,
        ),
    decreases u,
{
    let pieces = render_tokens(u) + suffix;
    match u {
        ExprModel::Terminal(name) => {
            assert(pieces.first() == name);
            assert(pieces.drop_first() =~= suffix);
            assert(push_str_spec(stk.last(), name, allowed) == Ok::<ScopeModel, ErrorModel>(sc2));
        },
        ExprModel::Const(b) => {
            if b {
                assert(pieces.first() == seq!['t', 'r', 'u', 'e']);
            } else {
                assert(pieces.first() == seq!['f', 'a', 'l', 's', 'e']);
            }
            assert(pieces.drop_first() =~= suffix);
        },
        ExprModel::Not(i) => {
            match *i {
                ExprModel::Terminal(name) => {
                    let p = seq!['!'] + name;
                    assert(pieces.first() == p);
                    assert(pieces.drop_first() =~= suffix);
                    assert(p[0] == '!');
                    assert(p.len() == 1 + name.len());
                    assert(p.drop_first() =~= name);
                    assert(renderable(*i, allowed));
                    assert(plain_terminal(name, allowed));
                    assert(all_chars_alnum(p.drop_first()));
                    assert(contains_name(allowed, p.drop_first()));
                    assert(terminal_expr(name, true) == u);
                    assert(terminal_expr(p.drop_first(), true) == u);
                    assert(push_str_spec(stk.last(), p, allowed) == Ok::<ScopeModel, ErrorModel>(
                        sc2,
                    ));
                },
                _ => {
                    assert(false);
                },
            }
        },
        ExprModel::And(l, r) => {
            let toks_l = render_tokens(*l);
            let toks_r = render_tokens(*r);
            let suffix_r = seq![seq![')']] + suffix;
            let suffix_op = toks_r + suffix_r;
            let suffix_l = seq![seq!['&']] + suffix_op;
            assert(pieces =~= seq![seq!['(']] + (toks_l + suffix_l));
            assert(pieces.first() == seq!['(']);
            assert(pieces.drop_first() =~= toks_l + suffix_l);
            let stk1 = stk.push(empty_scope());
            let sc_l = ScopeModel { expr: Some(*l), op: None };
            assert(push_expr_spec(stk1.last(), *l) == Ok::<ScopeModel, ErrorModel>(sc_l));
            lemma_tokens_run(stk1, *l, suffix_l, allowed, m, raw, sc_l);
            let stk_a = stk1.update(stk1.len() - 1, sc_l);
            assert(suffix_l.first() == seq!['&']);
            assert(suffix_l.drop_first() =~= suffix_op);
            let sc_op = ScopeModel { expr: Some(*l), op: Some(BoolOp::And) };
            assert(push_op_spec(stk_a.last(), BoolOp::And) == Ok::<ScopeModel, ErrorModel>(sc_op));
            let stk_b = stk_a.update(stk_a.len() - 1, sc_op);
            assert(run_machine(stk_a, suffix_l, allowed, m, raw) == run_machine(
                stk_b,
                suffix_op,
                allowed,
                m,
                raw,
            ));
            let combined = ExprModel::And(Box::new(*l), Box::new(*r));
            assert(combined == u);
            let sc_full = ScopeModel { expr: Some(u), op: None };
            assert(push_expr_spec(stk_b.last(), *r) == Ok::<ScopeModel, ErrorModel>(sc_full));
            lemma_tokens_run(stk_b, *r, suffix_r, allowed, m, raw, sc_full);
            let stk_c = stk_b.update(stk_b.len() - 1, sc_full);
            assert(suffix_r.first() == seq![')']);
            assert(suffix_r.drop_first() =~= suffix);
            assert(stk_c.len() == stk.len() + 1);
            assert(stk_c.last() == sc_full);
            assert(finish_spec(sc_full) == Ok::<ExprModel, ErrorModel>(u));
            assert(stk_c.drop_last() =~= stk);
        },
        ExprModel::Or(l, r) => {
            let toks_l = render_tokens(*l);
            let toks_r = render_tokens(*r);
            let suffix_r = seq![seq![')']] + suffix;
            let suffix_op = toks_r + suffix_r;
            let suffix_l = seq![seq!['|']] + suffix_op;
            assert(pieces =~= seq![seq!['(']] + (toks_l + suffix_l));
            assert(pieces.first() == seq!['(']);
            assert(pieces.drop_first() =~= toks_l + suffix_l);
            let stk1 = stk.push(empty_scope());
            let sc_l = ScopeModel { expr: Some(*l), op: None };
            assert(push_expr_spec(stk1.last(), *l) == Ok::<ScopeModel, ErrorModel>(sc_l));
            lemma_tokens_run(stk1, *l, suffix_l, allowed, m, raw, sc_l);
            let stk_a = stk1.update(stk1.len() - 1, sc_l);
            assert(suffix_l.first() == seq!['|']);
            assert(suffix_l.drop_first() =~= suffix_op);
            let sc_op = ScopeModel { expr: Some(*l), op: Some(BoolOp::Or) };
            assert(push_op_spec(stk_a.last(), BoolOp::Or) == Ok::<ScopeModel, ErrorModel>(sc_op));
            let stk_b = stk_a.update(stk_a.len() - 1, sc_op);
            assert(run_machine(stk_a, suffix_l, allowed, m, raw) == run_machine(
                stk_b,
                suffix_op,
                allowed,
                m,
                raw,
            ));
            let combined = ExprModel::Or(Box::new(*l), Box::new(*r));
            assert(combined == u);
            let sc_full = ScopeModel { expr: Some(u), op: None };
            assert(push_expr_spec(stk_b.last(), *r) == Ok::<ScopeModel, ErrorModel>(sc_full));
            lemma_tokens_run(stk_b, *r, suffix_r, allowed, m, raw, sc_full);
            let stk_c = stk_b.update(stk_b.len() - 1, sc_full);
            assert(suffix_r.first() == seq![')']);
            assert(suffix_r.drop_first() =~= suffix);
            assert(stk_c.len() == stk.len() + 1);
            assert(stk_c.last() == sc_full);
            assert(finish_spec(sc_full) == Ok::<ExprModel, ErrorModel>(u));
            assert(stk_c.drop_last() =~= stk);
        },
    }
}

/// The canonical token stream of a renderable tree re-parses, under any
/// bound with room for its depth, to exactly that tree.
pub proof fn lemma_canonical_tokens_reparse(
    u: ExprModel,
    allowed: Seq<Seq<char>>,
    m: nat,
    raw: Seq<char>,
)
    requires
        renderable(u, allowed),
        pdepth(u) <= m,
    ensures
        run_machine(init_stack(), render_tokens(u), allowed, m, raw) == Ok::<
            ExprModel,
            ErrorModel,
        >(u),
{
    assert(render_tokens(u) + Seq::<Seq<char>>::empty() =~= render_tokens(u));
    let sc2 = ScopeModel { expr: Some(u), op: None };
    assert(push_expr_spec(init_stack().last(), u) == Ok::<ScopeModel, ErrorModel>(sc2));
    lemma_tokens_run(init_stack(), u, Seq::empty(), allowed, m, raw, sc2);
    let done = init_stack().update(0, sc2);
    assert(done.len() == 1);
    assert(done.last() == sc2);
    assert(finish_spec(sc2) == Ok::<ExprModel, ErrorModel>(u));
}

/// Round-trip idempotence, at the canonical token level: let `t` be the
/// machine's tree for an accepted input and `u` its laws-simplified form,
/// the tree the formatter renders. Provided the simplifier's stated
/// fixpoint guarantee holds of `u`, and `u` is renderable with its depth
/// within the bound, the canonical token stream of `u` re-parses to `u`
/// itself, and the canonical format of the re-parse is byte-identical to
/// the first format.
pub proof fn lemma_round_trip_canonical(
    raw: Seq<char>,
    lowered: Seq<char>,
    allowed: Seq<Seq<char>>,
    m: nat,
    t: ExprModel,
    raw2: Seq<char>,
)
    requires
        run_parse(raw, lowered, allowed, m) == Ok::<ExprModel, ErrorModel>(t),
        laws_simplified(laws_simplified(t)) == laws_simplified(t),
        renderable(laws_simplified(t), allowed),
        pdepth(laws_simplified(t)) <= m,
    ensures
        run_machine(init_stack(), render_tokens(laws_simplified(t)), allowed, m, raw2) == Ok::<
            ExprModel,
            ErrorModel,
        >(laws_simplified(t)),
        format_spec(laws_simplified(t)) == format_spec(t),
{
    lemma_canonical_tokens_reparse(laws_simplified(t), allowed, m, raw2);
}


/// The token stream of `k` opening parentheses and nothing else.
pub open spec fn opens_pieces(k: nat) -> Seq<Seq<char>>
    decreases k,
{
    if k == 0 {
        Seq::empty()
    } else {
        seq![seq!['(']] + opens_pieces((k - 1) as nat)
    }
}

proof fn lemma_opens_run(
    stk: Seq<ScopeModel>,
    k: nat,
    allowed: Seq<Seq<char>>,
    m: nat,
    raw: Seq<char>,
)
    requires
        stk.len() >= 1,
        stk.len() + k <= m + 1,
        stk.len() + k >= 2,
    ensures
        run_machine(stk, opens_pieces(k), allowed, m, raw) == Err::<ExprModel, ErrorModel>(
            ErrorModel::UnmatchedBracket(raw),
        ),
    decreases k,
{
    if k == 0 {
    } else {
        let pieces = opens_pieces(k);
        assert(pieces.first() == seq!['(']);
        assert(pieces.drop_first() =~= opens_pieces((k - 1) as nat));
        lemma_opens_run(stk.push(empty_scope()), (k - 1) as nat, allowed, m, raw);
    }
}

/// An input of one or more opening parentheses and nothing else, within the
/// nesting bound, is rejected for its unmatched brackets, and for nothing
/// else.
pub proof fn lemma_unclosed_parens_rejected(
    k: nat,
    allowed: Seq<Seq<char>>,
    m: nat,
    raw: Seq<char>,
)
    requires
        1 <= k <= m,
    ensures
        run_machine(init_stack(), opens_pieces(k), allowed, m, raw) == Err::<
            ExprModel,
            ErrorModel,
        >(ErrorModel::UnmatchedBracket(raw)),
{
    lemma_opens_run(init_stack(), k, allowed, m, raw);
}

/// A closing parenthesis with no scope open to close is rejected for its
/// unmatched bracket at once, whatever follows it.
pub proof fn lemma_close_without_open_rejected(
    rest: Seq<Seq<char>>,
    allowed: Seq<Seq<char>>,
    m: nat,
    raw: Seq<char>,
)
    ensures
        run_machine(init_stack(), seq![seq![')']] + rest, allowed, m, raw) == Err::<
            ExprModel,
            ErrorModel,
        >(ErrorModel::UnmatchedBracket(raw)),
{
    let pieces = seq![seq![')']] + rest;
    assert(pieces.first() == seq![')']);
}

} // verus!
