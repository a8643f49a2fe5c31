//! The tokenizing parser: a normalizer that rewrites the input into a
//! uniform token stream, and a stack machine that folds the tokens into an
//! expression tree, one accumulator per open parenthesis scope.

use vstd::prelude::*;
use vstd::string::StringExecFns;
use crate::algebra::laws_simplified;
use crate::error::{BoolExprParseError, ErrorModel};
use crate::expr::{Expr, ExprModel, model_of, nots_only_on_terminals, terminals_of};
use crate::text::{
    char_is_alnum, chars_to_string, is_unicode_alnum, lower_of, lowercase, replace_chars,
    replace_seq, split_and_trim, split_spaces, str_eq_chars, str_to_chars, trim_seq,
};

verus! {

/// The two binary operators of the grammar.
#[derive(Clone, Copy, Debug, PartialEq, Eq, Structural)]
pub enum BoolOp {
    And,
    Or,
}

/// The diagnostic name under which an operator is reported.
pub open spec fn op_name(op: BoolOp) -> Seq<char> {
    match op {
        BoolOp::And => seq!['a', 'n', 'd'],
        BoolOp::Or => seq!['o', 'r'],
    }
}

/// The diagnostic name of an operator, as a string.
fn op_string(op: BoolOp) -> (r: String)
    ensures
        r@ == op_name(op),
{
    proof {
        reveal_strlit("and");
        reveal_strlit("or");
        assert("and"@ =~= seq!['a', 'n', 'd']);
        assert("or"@ =~= seq!['o', 'r']);
    }
    match op {
        BoolOp::And => String::from_str("and"),
        BoolOp::Or => String::from_str("or"),
    }
}

/// The state of one parenthesis scope: at most one pending expression and
/// at most one pending operator.
pub struct ScopeModel {
    pub expr: Option<ExprModel>,
    pub op: Option<BoolOp>,
}

/// A fresh, empty scope.
pub open spec fn empty_scope() -> ScopeModel {
    ScopeModel { expr: None, op: None }
}

/// The combination of a pending expression and a new one under an operator.
pub open spec fn combine_spec(op: BoolOp, l: ExprModel, r: ExprModel) -> ExprModel {
    match op {
        BoolOp::And => ExprModel::And(Box::new(l), Box::new(r)),
        BoolOp::Or => ExprModel::Or(Box::new(l), Box::new(r)),
    }
}

/// What pushing an expression does to a scope: it becomes the pending
/// expression, or combines with it under the pending operator; two
/// expressions with no operator between them are an error carrying the
/// second one.
pub open spec fn push_expr_spec(sc: ScopeModel, x: ExprModel) -> Result<ScopeModel, ErrorModel> {
    match sc.expr {
        None => Ok(ScopeModel { expr: Some(x), op: sc.op }),
        Some(l) => match sc.op {
            None => Err(ErrorModel::ConsecutiveTerminals(x)),
            Some(op) => Ok(ScopeModel { expr: Some(combine_spec(op, l, x)), op: None }),
        },
    }
}

/// What pushing an operator does to a scope: it becomes pending, and two
/// operators in a row are an error carrying the second one's name.
pub open spec fn push_op_spec(sc: ScopeModel, op: BoolOp) -> Result<ScopeModel, ErrorModel> {
    match sc.op {
        Some(_) => Err(ErrorModel::ConsecutiveOperators(op_name(op))),
        None => Ok(ScopeModel { expr: sc.expr, op: Some(op) }),
    }
}

/// What closing a scope yields: its accumulated expression; a pending
/// operator or an empty scope are errors.
pub open spec fn finish_spec(sc: ScopeModel) -> Result<ExprModel, ErrorModel> {
    match sc.op {
        Some(op) => Err(ErrorModel::TrailingOperator(op_name(op))),
        None => match sc.expr {
            Some(e) => Ok(e),
            None => Err(ErrorModel::EmptyStack),
        },
    }
}

/// Every character of a terminal name is alphanumeric or an underscore.
pub open spec fn all_chars_alnum(name: Seq<char>) -> bool {
    forall|i: int| 0 <= i < name.len() ==> is_unicode_alnum(name[i]) || name[i] == '_'
}

/// Whether `name` is a member of the allowed-terminals list.
pub open spec fn contains_name(allowed: Seq<Seq<char>>, name: Seq<char>) -> bool {
    exists|i: int| 0 <= i < allowed.len() && allowed[i] == name
}

/// The expression a terminal candidate stands for: the named terminal,
/// negated if the candidate carried a leading negation marker.
pub open spec fn terminal_expr(name: Seq<char>, negated: bool) -> ExprModel {
    if negated {
        ExprModel::Not(Box::new(ExprModel::Terminal(name)))
    } else {
        ExprModel::Terminal(name)
    }
}

/// What a terminal candidate does to a scope: a single leading `!` is
/// stripped, the rest must be alphanumeric-or-underscore and a member of
/// the allowed set, and the resulting terminal is pushed.
pub open spec fn push_str_spec(sc: ScopeModel, p: Seq<char>, allowed: Seq<Seq<char>>) -> Result<
    ScopeModel,
    ErrorModel,
>
    recommends
        p.len() > 0,
{
    let negated = p[0] == '!';
    let name = if negated {
        p.drop_first()
    } else {
        p
    };
    if !all_chars_alnum(name) {
        Err(ErrorModel::NonAlphanumericToken(name))
    } else if !contains_name(allowed, name) {
        Err(ErrorModel::UnknownTerminal(name))
    } else {
        push_expr_spec(sc, terminal_expr(name, negated))
    }
}

/// A scope-transition result lifted back onto the stack, replacing its
/// last scope.
pub open spec fn set_last(stk: Seq<ScopeModel>, r: Result<ScopeModel, ErrorModel>) -> Result<
    Seq<ScopeModel>,
    ErrorModel,
>
    recommends
        stk.len() >= 1,
{
    match r {
        Err(e) => Err(e),
        Ok(sc) => Ok(stk.update(stk.len() - 1, sc)),
    }
}

/// What one non-empty token does to the stack of open scopes.
pub open spec fn step_spec(
    stk: Seq<ScopeModel>,
    p: Seq<char>,
    allowed: Seq<Seq<char>>,
    raw: Seq<char>,
) -> Result<Seq<ScopeModel>, ErrorModel>
    recommends
        stk.len() >= 1,
        p.len() > 0,
{
    if p == seq!['('] {
        Ok(stk.push(empty_scope()))
    } else if p == seq![')'] {
        if stk.len() > 1 {
            match finish_spec(stk.last()) {
                Err(e) => Err(e),
                Ok(x) => set_last(stk.drop_last(), push_expr_spec(stk.drop_last().last(), x)),
            }
        } else {
            Err(ErrorModel::UnmatchedBracket(raw))
        }
    } else if p == seq!['&'] {
        set_last(stk, push_op_spec(stk.last(), BoolOp::And))
    } else if p == seq!['|'] {
        set_last(stk, push_op_spec(stk.last(), BoolOp::Or))
    } else if p == seq!['t', 'r', 'u', 'e'] {
        set_last(stk, push_expr_spec(stk.last(), ExprModel::Const(true)))
    } else if p == seq!['f', 'a', 'l', 's', 'e'] {
        set_last(stk, push_expr_spec(stk.last(), ExprModel::Const(false)))
    } else {
        set_last(stk, push_str_spec(stk.last(), p, allowed))
    }
}

/// The stack machine run over a sequence of token pieces: before each
/// piece the nesting bound is enforced, empty pieces are skipped, and at
/// the end exactly one finished scope must remain.
pub open spec fn run_machine(
    stk: Seq<ScopeModel>,
    pieces: Seq<Seq<char>>,
    allowed: Seq<Seq<char>>,
    max_nesting: nat,
    raw: Seq<char>,
) -> Result<ExprModel, ErrorModel>
    recommends
        stk.len() >= 1,
    decreases pieces.len(),
{
    if pieces.len() == 0 {
        if stk.len() > 1 {
            Err(ErrorModel::UnmatchedBracket(raw))
        } else {
            finish_spec(stk.last())
        }
    } else if stk.len() > max_nesting + 1 {
        Err(ErrorModel::TooMuchNesting)
    } else if pieces.first().len() == 0 {
        run_machine(stk, pieces.drop_first(), allowed, max_nesting, raw)
    } else {
        match step_spec(stk, pieces.first(), allowed, raw) {
            Err(e) => Err(e),
            Ok(stk2) => run_machine(stk2, pieces.drop_first(), allowed, max_nesting, raw),
        }
    }
}

/// The uniform rewriting of a lowercased input: operator spellings unified
/// to `&`, `|`, `!`, parentheses padded into tokens of their own, and a
/// leading `not ` turned into a direct negation prefix.
pub open spec fn normalized_input(lowered: Seq<char>) -> Seq<char> {
    let s1 = replace_seq(lowered, seq![' ', 'a', 'n', 'd'], seq![' ', '&']);
    let s2 = replace_seq(s1, seq![' ', '&', '&'], seq![' ', '&']);
    let s3 = replace_seq(s2, seq![' ', 'o', 'r'], seq![' ', '|']);
    let s4 = replace_seq(s3, seq![' ', '|', '|'], seq![' ', '|']);
    let s5 = replace_seq(s4, seq![' ', 'n', 'o', 't', ' '], seq![' ', '!']);
    let s6 = replace_seq(s5, seq!['('], seq![' ', '(', ' ']);
    let s7 = replace_seq(s6, seq![')'], seq![' ', ')', ' ']);
    if s7.len() >= 4 && s7.take(4) == seq!['n', 'o', 't', ' '] {
        seq!['!'] + s7.skip(4)
    } else {
        s7
    }
}

/// A grouping character other than a parenthesis, which the grammar
/// rejects outright.
pub open spec fn is_bad_bracket_char(c: char) -> bool {
    c == '[' || c == ']' || c == '{' || c == '}' || c == '<' || c == '>'
}

/// Whether the normalized input holds a rejected bracket character.
pub open spec fn has_bad_bracket(s: Seq<char>) -> bool {
    exists|i: int| 0 <= i < s.len() && is_bad_bracket_char(s[i])
}

/// The token pieces of a lowercased input: the normalized rewriting split
/// on single spaces, each piece trimmed.
pub open spec fn pieces_of(lowered: Seq<char>) -> Seq<Seq<char>> {
    split_spaces(normalized_input(lowered)).map_values(|p: Seq<char>| trim_seq(p))
}

/// The one implicit top-level scope the machine starts with.
pub open spec fn init_stack() -> Seq<ScopeModel> {
    seq![empty_scope()]
}

/// The parse of a raw input whose lowercase form is `lowered`: a rejected
/// bracket anywhere fails the whole input, and otherwise the stack machine
/// runs over its token pieces. The tree is as built, before simplification.
pub open spec fn run_parse(
    raw: Seq<char>,
    lowered: Seq<char>,
    allowed: Seq<Seq<char>>,
    max_nesting: nat,
) -> Result<ExprModel, ErrorModel> {
    if has_bad_bracket(normalized_input(lowered)) {
        Err(ErrorModel::InvalidBrackets)
    } else {
        run_machine(init_stack(), pieces_of(lowered), allowed, max_nesting, raw)
    }
}

/// The full result of a parse call: the machine's tree, passed once
/// through the algebraic-laws simplifier.
pub open spec fn parse_result(
    raw: Seq<char>,
    lowered: Seq<char>,
    allowed: Seq<Seq<char>>,
    max_nesting: nat,
) -> Result<ExprModel, ErrorModel> {
    match run_parse(raw, lowered, allowed, max_nesting) {
        Ok(t) => Ok(laws_simplified(t)),
        Err(e) => Err(e),
    }
}

/// The allowed-terminals list as character sequences.
pub open spec fn allowed_views(allowed: Seq<&str>) -> Seq<Seq<char>> {
    allowed.map_values(|t: &str| t@)
}

/// Whether an executable parse outcome is exactly the modelled outcome.
pub open spec fn parse_matches(
    r: Result<Expr, BoolExprParseError>,
    s: Result<ExprModel, ErrorModel>,
) -> bool {
    match (r, s) {
        (Ok(e), Ok(m)) => model_of(e) == m,
        (Err(a), Err(b)) => a@ == b,
        _ => false,
    }
}

/// The accumulator for one parenthesis scope: the pending left-hand
/// expression and the pending operator of that scope.
pub struct TokenStack {
    pub expr: Option<Expr>,
    pub op: Option<BoolOp>,
}

impl View for TokenStack {
    type V = ScopeModel;

    open spec fn view(&self) -> ScopeModel {
        ScopeModel {
            expr: match self.expr {
                Some(e) => Some(model_of(e)),
                None => None,
            },
            op: self.op,
        }
    }
}

impl TokenStack {
    /// A fresh accumulator for a scope that just opened.
    pub fn new() -> (r: TokenStack)
        ensures
            r@ == empty_scope(),
    {
        TokenStack { expr: None, op: None }
    }

    /// Pushes a finished expression (a terminal or a closed sub-expression)
    /// onto this scope.
    pub fn push(&mut self, right: Expr) -> (r: Result<(), BoolExprParseError>)
        ensures
            match (r, push_expr_spec(old(self)@, model_of(right))) {
                (Ok(()), Ok(sc)) => final(self)@ == sc,
                (Err(a), Err(b)) => a@ == b && final(self)@ == old(self)@,
                _ => false,
            },
    {
        let left = self.expr.take();
        match left {
            None => {
                self.expr = Some(right);
                Ok(())
            },
            Some(l) => {
                match self.op {
                    None => {
                        self.expr = Some(l);
                        Err(BoolExprParseError::ConsecutiveTerminals { second: right })
                    },
                    Some(op) => {
                        let combined = match op {
                            BoolOp::And => Expr::And(Box::new(l), Box::new(right)),
                            BoolOp::Or => Expr::Or(Box::new(l), Box::new(right)),
                        };
                        self.expr = Some(combined);
                        self.op = None;
                        Ok(())
                    },
                }
            },
        }
    }

    /// Pushes an operator onto this scope.
    pub fn push_op(&mut self, op: BoolOp) -> (r: Result<(), BoolExprParseError>)
        ensures
            match (r, push_op_spec(old(self)@, op)) {
                (Ok(()), Ok(sc)) => final(self)@ == sc,
                (Err(a), Err(b)) => a@ == b && final(self)@ == old(self)@,
                _ => false,
            },
    {
        if self.op.is_some() {
            Err(BoolExprParseError::ConsecutiveOperators { second: op_string(op) })
        } else {
            self.op = Some(op);
            Ok(())
        }
    }

    /// Parses a terminal candidate token and pushes the terminal it names
    /// onto this scope.
    #[verifier::loop_isolation(false)]
    pub fn push_str(&mut self, token: &Vec<char>, allowed_terminals: &[&str]) -> (r: Result<
        (),
        BoolExprParseError,
    >)
        requires
            token@.len() > 0,
        ensures
            match (r, push_str_spec(old(self)@, token@, allowed_views(allowed_terminals@))) {
                (Ok(()), Ok(sc)) => final(self)@ == sc,
                (Err(a), Err(b)) => a@ == b && final(self)@ == old(self)@,
                _ => false,
            },
    {
        let negated = token[0] == '!';
        let mut name: Vec<char> = Vec::new();
        let start: usize = if negated {
            1
        } else {
            0
        };
        let mut i: usize = start;
        while i < token.len()
            invariant
                start <= i <= token@.len(),
                name@ == token@.subrange(start as int, i as int),
            decreases token@.len() - i,
        {
            name.push(token[i]);
            proof {
                assert(token@.subrange(start as int, i + 1) =~= token@.subrange(
                    start as int,
                    i as int,
                ).push(token@[i as int]));
            }
            i = i + 1;
        }
        proof {
            if negated {
                assert(name@ =~= token@.drop_first());
            } else {
                assert(name@ =~= token@);
            }
        }
        let ghost name_s = name@;
        let mut j: usize = 0;
        while j < name.len()
            invariant
                j <= name@.len(),
                name@ == name_s,
                forall|k: int| 0 <= k < j ==> is_unicode_alnum(name_s[k]) || name_s[k] == '_',
            decreases name@.len() - j,
        {
            let c = name[j];
            if !char_is_alnum(c) && c != '_' {
                proof {
                    assert(!(is_unicode_alnum(name_s[j as int]) || name_s[j as int] == '_'));
                    assert(!all_chars_alnum(name_s));
                }
                return Err(BoolExprParseError::NonAlphanumericToken {
                    token: chars_to_string(&name),
                });
            }
            j = j + 1;
        }
        proof {
            assert(all_chars_alnum(name_s));
        }
        let mut found = false;
        let mut t: usize = 0;
        while t < allowed_terminals.len() && !found
            invariant
                t <= allowed_terminals@.len(),
                name@ == name_s,
                !found ==> forall|k: int|
                    0 <= k < t ==> (#[trigger] allowed_terminals@[k])@ != name_s,
                found ==> contains_name(allowed_views(allowed_terminals@), name_s),
            decreases allowed_terminals@.len() - t, (if found { 0int } else { 1int }),
        {
            if str_eq_chars(allowed_terminals[t], &name) {
                found = true;
                proof {
                    assert(allowed_views(allowed_terminals@)[t as int] == allowed_terminals@[
                        t as int
                    ]@);
                    assert(contains_name(allowed_views(allowed_terminals@), name_s));
                }
            } else {
                t = t + 1;
            }
        }
        if !found {
            proof {
                assert forall|k: int|
                    0 <= k < allowed_views(allowed_terminals@).len() implies allowed_views(
                    allowed_terminals@,
                )[k] != name_s by {
                    assert(allowed_views(allowed_terminals@)[k] == allowed_terminals@[k]@);
                }
                assert(!contains_name(allowed_views(allowed_terminals@), name_s));
            }
            return Err(BoolExprParseError::UnknownTerminal { terminal: chars_to_string(&name) });
        }
        let terminal = Expr::Terminal(chars_to_string(&name));
        proof {
            assert(model_of(terminal) == ExprModel::Terminal(name_s));
        }
        let ghost term_m = model_of(terminal);
        let right = if negated {
            Expr::Not(Box::new(terminal))
        } else {
            terminal
        };
        proof {
            if negated {
                assert(model_of(right) == ExprModel::Not(Box::new(term_m)));
            }
            assert(model_of(right) == terminal_expr(name_s, negated));
        }
        self.push(right)
    }

    /// Finalizes this scope into the single expression it accumulated.
    pub fn finish(self) -> (r: Result<Expr, BoolExprParseError>)
        ensures
            match (r, finish_spec(self@)) {
                (Ok(e), Ok(m)) => model_of(e) == m,
                (Err(a), Err(b)) => a@ == b,
                _ => false,
            },
    {
        match self.op {
            Some(op) => Err(BoolExprParseError::TrailingOperator { op: op_string(op) }),
            None => match self.expr {
                Some(e) => Ok(e),
                None => Err(BoolExprParseError::EmptyStack),
            },
        }
    }
}

/// Decides `is_bad_bracket_char` for a concrete character.
fn is_bad_bracket(c: char) -> (r: bool)
    ensures
        r == is_bad_bracket_char(c),
{
    c == '[' || c == ']' || c == '{' || c == '}' || c == '<' || c == '>'
}

/// Whether a piece is exactly the one-character token `c`.
fn is_single(piece: &Vec<char>, c: char) -> (r: bool)
    ensures
        r == (piece@ == seq![c]),
{
    if piece.len() == 1 && piece[0] == c {
        proof {
            assert(piece@ =~= seq![c]);
        }
        true
    } else {
        false
    }
}

/// Whether a piece is exactly the token `true`.
fn is_true_tok(piece: &Vec<char>) -> (r: bool)
    ensures
        r == (piece@ == seq!['t', 'r', 'u', 'e']),
{
    if piece.len() == 4 && piece[0] == 't' && piece[1] == 'r' && piece[2] == 'u' && piece[3]
        == 'e' {
        proof {
            assert(piece@ =~= seq!['t', 'r', 'u', 'e']);
        }
        true
    } else {
        false
    }
}

/// Whether a piece is exactly the token `false`.
fn is_false_tok(piece: &Vec<char>) -> (r: bool)
    ensures
        r == (piece@ == seq!['f', 'a', 'l', 's', 'e']),
{
    if piece.len() == 5 && piece[0] == 'f' && piece[1] == 'a' && piece[2] == 'l' && piece[3]
        == 's' && piece[4] == 'e' {
        proof {
            assert(piece@ =~= seq!['f', 'a', 'l', 's', 'e']);
        }
        true
    } else {
        false
    }
}

/// Rewrites the lowercased input into the uniform token spelling: operator
/// words and doubled symbols become `&`, `|`, `!`, parentheses get spaces
/// around them, and a leading `not ` becomes a direct negation prefix.
#[verifier::loop_isolation(false)]
fn normalize(lowered: &Vec<char>) -> (r: Vec<char>)
    ensures
        r@ == normalized_input(lowered@),
{
    let p_and: Vec<char> = vec![' ', 'a', 'n', 'd'];
    let p_amp2: Vec<char> = vec![' ', '&', '&'];
    let r_amp: Vec<char> = vec![' ', '&'];
    let p_or: Vec<char> = vec![' ', 'o', 'r'];
    let p_bar2: Vec<char> = vec![' ', '|', '|'];
    let r_bar: Vec<char> = vec![' ', '|'];
    let p_not: Vec<char> = vec![' ', 'n', 'o', 't', ' '];
    let r_not: Vec<char> = vec![' ', '!'];
    let p_open: Vec<char> = vec!['('];
    let r_open: Vec<char> = vec![' ', '(', ' '];
    let p_close: Vec<char> = vec![')'];
    let r_close: Vec<char> = vec![' ', ')', ' '];
    proof {
        assert(p_and@ =~= seq![' ', 'a', 'n', 'd']);
        assert(p_amp2@ =~= seq![' ', '&', '&']);
        assert(r_amp@ =~= seq![' ', '&']);
        assert(p_or@ =~= seq![' ', 'o', 'r']);
        assert(p_bar2@ =~= seq![' ', '|', '|']);
        assert(r_bar@ =~= seq![' ', '|']);
        assert(p_not@ =~= seq![' ', 'n', 'o', 't', ' ']);
        assert(r_not@ =~= seq![' ', '!']);
        assert(p_open@ =~= seq!['(']);
        assert(r_open@ =~= seq![' ', '(', ' ']);
        assert(p_close@ =~= seq![')']);
        assert(r_close@ =~= seq![' ', ')', ' ']);
    }
    let s1 = replace_chars(lowered, &p_and, &r_amp);
    let s2 = replace_chars(&s1, &p_amp2, &r_amp);
    let s3 = replace_chars(&s2, &p_or, &r_bar);
    let s4 = replace_chars(&s3, &p_bar2, &r_bar);
    let s5 = replace_chars(&s4, &p_not, &r_not);
    let s6 = replace_chars(&s5, &p_open, &r_open);
    let s7 = replace_chars(&s6, &p_close, &r_close);
    if s7.len() >= 4 && s7[0] == 'n' && s7[1] == 'o' && s7[2] == 't' && s7[3] == ' ' {
        proof {
            assert(s7@.take(4) =~= seq!['n', 'o', 't', ' ']);
        }
        let mut out: Vec<char> = Vec::new();
        out.push('!');
        proof {
            assert(out@ =~= seq!['!'] + s7@.skip(4).take(0));
        }
        let mut i: usize = 4;
        while i < s7.len()
            invariant
                4 <= i <= s7@.len(),
                out@ == seq!['!'] + s7@.skip(4).take(i - 4),
            decreases s7@.len() - i,
        {
            out.push(s7[i]);
            proof {
                assert(s7@.skip(4).take(i - 4 + 1) =~= s7@.skip(4).take(i - 4).push(
                    s7@[i as int],
                ));
                assert((seq!['!'] + s7@.skip(4).take(i - 4)).push(s7@[i as int]) =~= seq!['!']
                    + s7@.skip(4).take(i - 4 + 1));
            }
            i = i + 1;
        }
        proof {
            assert(s7@.skip(4).take(s7@.len() - 4) =~= s7@.skip(4));
        }
        out
    } else {
        proof {
            if s7@.len() >= 4 {
                assert(s7@.take(4)[0] == s7@[0]);
                assert(s7@.take(4)[1] == s7@[1]);
                assert(s7@.take(4)[2] == s7@[2]);
                assert(s7@.take(4)[3] == s7@[3]);
            }
        }
        s7
    }
}

/// Parses the given string into a boolean expression over the allowed
/// terminals, with an explicit bound on how many parenthesis scopes may be
/// open at once. The bound is a resource guard: without it, an adversarial
/// input of endless opening parentheses would grow the scope stack without
/// limit.
#[verifier::loop_isolation(false)]
pub fn parse_bool_expr_str_with_max_nesting(
    raw_expr_str: &str,
    allowed_terminals: &[&str],
    max_nesting: usize,
) -> (r: Result<Expr, BoolExprParseError>)
    ensures
        parse_matches(
            r,
            parse_result(
                raw_expr_str@,
                lower_of(raw_expr_str@),
                allowed_views(allowed_terminals@),
                max_nesting as nat,
            ),
        ),
        r matches Ok(e) ==> laws_simplified(e@) == e@ && nots_only_on_terminals(e@),
        run_parse(
            raw_expr_str@,
            lower_of(raw_expr_str@),
            allowed_views(allowed_terminals@),
            max_nesting as nat,
        ) matches Ok(t) ==> r matches Ok(e) && terminals_of(e@).subset_of(terminals_of(t)),
        r matches Ok(e) ==> terminals_of(e@).subset_of(
            allowed_views(allowed_terminals@).to_set(),
        ),
{
    let ghost raw_s = raw_expr_str@;
    let ghost allowed_v = allowed_views(allowed_terminals@);
    let ghost m = max_nesting as nat;
    let lowered_string = lowercase(raw_expr_str);
    let lowered = str_to_chars(lowered_string.as_str());
    let normalized = normalize(&lowered);
    let ghost norm_s = normalized_input(lower_of(raw_s));

    let mut i: usize = 0;
    while i < normalized.len()
        invariant
            i <= normalized@.len(),
            forall|k: int| 0 <= k < i ==> !is_bad_bracket_char(norm_s[k]),
        decreases normalized@.len() - i,
    {
        if is_bad_bracket(normalized[i]) {
            proof {
                assert(has_bad_bracket(norm_s));
            }
            return Err(BoolExprParseError::InvalidBrackets);
        }
        i = i + 1;
    }
    proof {
        assert(!has_bad_bracket(norm_s));
    }

    let pieces = split_and_trim(&normalized);
    let ghost pieces_v = pieces@.map_values(|p: Vec<char>| p@);
    proof {
        assert(pieces_v == pieces_of(lower_of(raw_s)));
    }

    let mut stacks: Vec<TokenStack> = Vec::new();
    stacks.push(TokenStack::new());
    let ghost full = run_machine(init_stack(), pieces_v, allowed_v, m, raw_s);
    proof {
        assert(stacks@.map_values(|t: TokenStack| t@) =~= init_stack());
        assert(pieces_v.skip(0) =~= pieces_v);
    }

    let mut idx: usize = 0;
    while idx < pieces.len()
        invariant
            idx <= pieces@.len(),
            stacks@.len() >= 1,
            run_machine(
                stacks@.map_values(|t: TokenStack| t@),
                pieces_v.skip(idx as int),
                allowed_v,
                m,
                raw_s,
            ) == full,
        decreases pieces@.len() - idx,
    {
        let ghost models = stacks@.map_values(|t: TokenStack| t@);
        let ghost rem = pieces_v.skip(idx as int);
        proof {
            assert(rem.first() == pieces_v[idx as int]);
            assert(rem.drop_first() =~= pieces_v.skip(idx + 1));
            assert(pieces_v[idx as int] == pieces@[idx as int]@);
            assert(models.len() == stacks@.len());
            assert(models.last() == stacks@.last()@);
        }
        if stacks.len() - 1 > max_nesting {
            return Err(BoolExprParseError::TooMuchNesting);
        }
        let piece = &pieces[idx];
        if piece.len() == 0 {
            idx = idx + 1;
            continue ;
        }
        if is_single(piece, '(') {
            stacks.push(TokenStack::new());
            proof {
                assert(stacks@.map_values(|t: TokenStack| t@) =~= models.push(empty_scope()));
            }
        } else if is_single(piece, ')') {
            if stacks.len() > 1 {
                let unwound = stacks.pop().unwrap();
                proof {
                    assert(unwound@ == models.last());
                    assert(stacks@.map_values(|t: TokenStack| t@) =~= models.drop_last());
                }
                match unwound.finish() {
                    Err(e) => {
                        return Err(e);
                    },
                    Ok(x) => {
                        let mut parent = stacks.pop().unwrap();
                        proof {
                            assert(parent@ == models.drop_last().last());
                        }
                        let res = parent.push(x);
                        match res {
                            Err(e) => {
                                return Err(e);
                            },
                            Ok(()) => {
                                stacks.push(parent);
                                proof {
                                    let popped = models.drop_last();
                                    assert(stacks@.map_values(|t: TokenStack| t@)
                                        =~= popped.update(popped.len() - 1, parent@));
                                }
                            },
                        }
                    },
                }
            } else {
                return Err(
                    BoolExprParseError::UnmatchedBracket { expr: raw_expr_str.to_owned() },
                );
            }
        } else if is_single(piece, '&') {
            let mut top = stacks.pop().unwrap();
            proof {
                assert(top@ == models.last());
            }
            let res = top.push_op(BoolOp::And);
            match res {
                Err(e) => {
                    return Err(e);
                },
                Ok(()) => {
                    stacks.push(top);
                    proof {
                        assert(stacks@.map_values(|t: TokenStack| t@) =~= models.update(
                            models.len() - 1,
                            top@,
                        ));
                    }
                },
            }
        } else if is_single(piece, '|') {
            let mut top = stacks.pop().unwrap();
            proof {
                assert(top@ == models.last());
            }
            let res = top.push_op(BoolOp::Or);
            match res {
                Err(e) => {
                    return Err(e);
                },
                Ok(()) => {
                    stacks.push(top);
                    proof {
                        assert(stacks@.map_values(|t: TokenStack| t@) =~= models.update(
                            models.len() - 1,
                            top@,
                        ));
                    }
                },
            }
        } else if is_true_tok(piece) {
            let mut top = stacks.pop().unwrap();
            proof {
                assert(top@ == models.last());
            }
            let res = top.push(Expr::Const(true));
            match res {
                Err(e) => {
                    return Err(e);
                },
                Ok(()) => {
                    stacks.push(top);
                    proof {
                        assert(stacks@.map_values(|t: TokenStack| t@) =~= models.update(
                            models.len() - 1,
                            top@,
                        ));
                    }
                },
            }
        } else if is_false_tok(piece) {
            let mut top = stacks.pop().unwrap();
            proof {
                assert(top@ == models.last());
            }
            let res = top.push(Expr::Const(false));
            match res {
                Err(e) => {
                    return Err(e);
                },
                Ok(()) => {
                    stacks.push(top);
                    proof {
                        assert(stacks@.map_values(|t: TokenStack| t@) =~= models.update(
                            models.len() - 1,
                            top@,
                        ));
                    }
                },
            }
        } else {
            let mut top = stacks.pop().unwrap();
            proof {
                assert(top@ == models.last());
            }
            let res = top.push_str(piece, allowed_terminals);
            match res {
                Err(e) => {
                    return Err(e);
                },
                Ok(()) => {
                    stacks.push(top);
                    proof {
                        assert(stacks@.map_values(|t: TokenStack| t@) =~= models.update(
                            models.len() - 1,
                            top@,
                        ));
                    }
                },
            }
        }
        idx = idx + 1;
    }
    proof {
        assert(pieces_v.skip(pieces_v.len() as int) =~= Seq::<Seq<char>>::empty());
        assert(stacks@.map_values(|t: TokenStack| t@).len() == stacks@.len());
        assert(stacks@.map_values(|t: TokenStack| t@).last() == stacks@.last()@);
    }
    if stacks.len() > 1 {
        return Err(BoolExprParseError::UnmatchedBracket { expr: raw_expr_str.to_owned() });
    }
    let top = stacks.pop().unwrap();
    match top.finish() {
        Err(e) => Err(e),
        Ok(expr) => {
            proof {
                crate::props::lemma_parse_terminals_allowed(
                    raw_s,
                    lower_of(raw_s),
                    allowed_v,
                    m,
                    model_of(expr),
                );
            }
            Ok(expr.simplify_via_laws())
        },
    }
}

/// Parses the given string into a boolean expression over the allowed
/// terminals, with the default nesting bound of 100.
pub fn parse_bool_expr_str(raw_expr_str: &str, allowed_terminals: &[&str]) -> (r: Result<
    Expr,
    BoolExprParseError,
>)
    ensures
        parse_matches(
            r,
            parse_result(
                raw_expr_str@,
                lower_of(raw_expr_str@),
                allowed_views(allowed_terminals@),
                100,
            ),
        ),
        r matches Ok(e) ==> laws_simplified(e@) == e@ && nots_only_on_terminals(e@),
        run_parse(
            raw_expr_str@,
            lower_of(raw_expr_str@),
            allowed_views(allowed_terminals@),
            100,
        ) matches Ok(t) ==> r matches Ok(e) && terminals_of(e@).subset_of(terminals_of(t)),
        r matches Ok(e) ==> terminals_of(e@).subset_of(
            allowed_views(allowed_terminals@).to_set(),
        ),
{
    parse_bool_expr_str_with_max_nesting(raw_expr_str, allowed_terminals, 100)
}


} // verus!
