//! The parser: tokens to a program tree, by recursive descent with
//! precedence climbing for binary operators.
use vstd::prelude::*;

use crate::ast::{
    binary_of_token, precedence_of, unary_of_token, AstNode, BinaryOperator, Expression, Factor,
    FunctionDecl, Statement, UnaryOperator, VarType,
};
use crate::lexer::{FileToken, Token, TokenView};

verus! {

#[derive(Debug, Clone, Copy, PartialEq, Eq)]
pub enum ParserErrorType {
    ExpectedTypeKeyword,
    ExpectedFunctionName,
    ExpectedChar(char),
    ExpectedStatement,
    NoValidFunctions,
    ExpectedVariableName,
    ExpectedExpression,
    MissingReturnValue,
}

/// A syntax error, at the token where it was found (the last token when
/// the input ended early; line 0 when there is no token at all).
#[derive(Debug, Clone, PartialEq)]
pub struct ParserError {
    pub error: ParserErrorType,
    pub token: Option<Token>,
    pub line: usize,
    pub start_char_in_line: usize,
}

pub struct Parser {
    pub file: String,
    pub file_name: String,
    pub tokens: Vec<FileToken>,
    pub pos: usize,
}

/// The kinds of a list of located tokens.
pub open spec fn kinds(ts: Seq<FileToken>) -> Seq<TokenView> {
    ts.map_values(|t: FileToken| t.token@)
}

pub open spec fn other(t: Token) -> TokenView {
    TokenView::Other(t)
}

pub open spec fn unary_token(op: UnaryOperator) -> TokenView {
    match op {
        UnaryOperator::Negate => other(Token::Hyphen),
        UnaryOperator::Complement => other(Token::Tilde),
        UnaryOperator::Not => other(Token::Not),
    }
}

pub open spec fn binary_token(op: BinaryOperator) -> TokenView {
    match op {
        BinaryOperator::Add => other(Token::Plus),
        BinaryOperator::Substract => other(Token::Hyphen),
        BinaryOperator::Multiply => other(Token::Asteriks),
        BinaryOperator::Divide => other(Token::Slash),
        BinaryOperator::Remainder => other(Token::PercentSign),
        BinaryOperator::And => other(Token::And),
        BinaryOperator::Or => other(Token::Or),
        BinaryOperator::Equal => other(Token::EqualTo),
        BinaryOperator::NotEqual => other(Token::NotEqualTo),
        BinaryOperator::LessThan => other(Token::LessThan),
        BinaryOperator::LessOrEqual => other(Token::LessThanEqualTo),
        BinaryOperator::GreaterThan => other(Token::GreaterThan),
        BinaryOperator::GreaterOrEqual => other(Token::GreaterThanEqualTo),
    }
}

/// The tokens that write an expression, parentheses included.
pub open spec fn expr_tokens(e: Expression) -> Seq<TokenView>
    decreases e,
{
    match e {
        Expression::Factor(Factor::Constant(c)) => seq![other(Token::Constant(c))],
        Expression::Factor(Factor::Unary(op, inner)) => seq![unary_token(op)] + expr_tokens(*inner),
        Expression::Factor(Factor::ParentedExpression(inner)) => seq![other(Token::OpenParenthesis)]
            + expr_tokens(*inner) + seq![other(Token::CloseParenthesis)],
        Expression::Binary(l, op, r) => expr_tokens(*l) + seq![binary_token(op)] + expr_tokens(*r),
    }
}

/// Binding strength of the operator at the top of an expression, if it is binary.
pub open spec fn top_precedence(e: Expression) -> Option<int> {
    match e {
        Expression::Binary(_, op, _) => Some(precedence_of(op) as int),
        _ => None,
    }
}

/// Whether the tree groups as precedence and left associativity say: no
/// binary operand binds looser than its parent, and a right operand binds
/// strictly tighter. A unary operator applies to a factor.
pub open spec fn well_grouped(e: Expression) -> bool
    decreases e,
{
    match e {
        Expression::Factor(Factor::Constant(_)) => true,
        Expression::Factor(Factor::Unary(_, inner)) => (*inner) is Factor && well_grouped(*inner),
        Expression::Factor(Factor::ParentedExpression(inner)) => well_grouped(*inner),
        Expression::Binary(l, op, r) => {
            &&& well_grouped(*l)
            &&& well_grouped(*r)
            &&& (top_precedence(*l) is None || top_precedence(*l)->Some_0 >= precedence_of(op))
            &&& (top_precedence(*r) is None || top_precedence(*r)->Some_0 > precedence_of(op))
        },
    }
}

/// Binding strength of the binary operator at `pos`, if one stands there.
pub open spec fn next_precedence(ts: Seq<FileToken>, pos: int) -> Option<int> {
    if 0 <= pos < ts.len() && binary_of_token(ts[pos].token) is Some {
        Some(precedence_of(binary_of_token(ts[pos].token)->Some_0) as int)
    } else {
        None
    }
}

/// The tokens from `from` to `to` write `e`, which groups well.
pub open spec fn parsed_as(ts: Seq<FileToken>, from: int, to: int, e: Expression) -> bool {
    &&& 0 <= from <= to <= ts.len()
    &&& kinds(ts).subrange(from, to) == expr_tokens(e)
    &&& well_grouped(e)
}

/// `e` is written by the tokens from `p` on: a target for the parser there.
pub open spec fn spelled_at(ts: Seq<FileToken>, p: int, e: Expression) -> bool {
    &&& well_grouped(e)
    &&& 0 <= p
    &&& p + expr_tokens(e).len() <= ts.len()
    &&& kinds(ts).subrange(p, p + expr_tokens(e).len()) == expr_tokens(e)
}

/// `e` is written by the tokens from `p` on, binds at least as tightly as
/// `min`, and no operator that binds that tightly follows it.
pub open spec fn target(ts: Seq<FileToken>, p: int, min: int, e: Expression) -> bool {
    &&& spelled_at(ts, p, e)
    &&& (top_precedence(e) is None || top_precedence(e)->Some_0 >= min)
    &&& (next_precedence(ts, p + expr_tokens(e).len()) is None || next_precedence(
        ts,
        p + expr_tokens(e).len(),
    )->Some_0 < min)
}

/// Whether `x` is `e` or lies on the chain of left operands below it.
pub open spec fn on_left_spine(e: Expression, x: Expression) -> bool
    decreases e,
{
    if e == x {
        true
    } else {
        match e {
            Expression::Binary(l, _, _) => on_left_spine(*l, x),
            _ => false,
        }
    }
}

/// The node of the left spine of `e` whose left operand is `x`.
pub open spec fn spine_parent(e: Expression, x: Expression) -> Expression
    decreases e,
{
    match e {
        Expression::Binary(l, _, _) => if *l == x {
            e
        } else {
            spine_parent(*l, x)
        },
        _ => e,
    }
}

/// The factor at the bottom of the left spine.
pub open spec fn leftmost_factor(e: Expression) -> Expression
    decreases e,
{
    match e {
        Expression::Binary(l, _, _) => leftmost_factor(*l),
        _ => e,
    }
}

proof fn lemma_spine_facts(e: Expression, x: Expression)
    requires
        on_left_spine(e, x),
    ensures
        expr_tokens(x).len() <= expr_tokens(e).len(),
        expr_tokens(e).subrange(0, expr_tokens(x).len() as int) == expr_tokens(x),
        well_grouped(e) ==> well_grouped(x),
        well_grouped(e) && top_precedence(x) is Some && top_precedence(e) is Some
            ==> top_precedence(x)->Some_0 >= top_precedence(e)->Some_0,
        x != e ==> (spine_parent(e, x) matches Expression::Binary(l, _, _) && *l == x),
        x != e ==> on_left_spine(e, spine_parent(e, x)),
    decreases e,
{
    if e != x {
        if let Expression::Binary(l, op, r) = e {
            lemma_spine_facts(*l, x);
            assert(expr_tokens(e).subrange(0, expr_tokens(x).len() as int) =~= expr_tokens(
                *l,
            ).subrange(0, expr_tokens(x).len() as int));
            if *l != x {
                lemma_spine_facts(*l, spine_parent(*l, x));
            }
        }
    } else {
        assert(expr_tokens(e).subrange(0, expr_tokens(x).len() as int) =~= expr_tokens(x));
    }
}

proof fn lemma_leftmost_factor(e: Expression)
    ensures
        on_left_spine(e, leftmost_factor(e)),
        leftmost_factor(e) is Factor,
    decreases e,
{
    if let Expression::Binary(l, _, _) = e {
        lemma_leftmost_factor(*l);
    }
}

proof fn lemma_spelled_prefix(ts: Seq<FileToken>, p: int, e: Expression, x: Expression)
    requires
        spelled_at(ts, p, e),
        on_left_spine(e, x),
    ensures
        spelled_at(ts, p, x),
{
    lemma_spine_facts(e, x);
    assert(kinds(ts).subrange(p, p + expr_tokens(x).len()) =~= kinds(ts).subrange(
        p,
        p + expr_tokens(e).len(),
    ).subrange(0, expr_tokens(x).len() as int));
}

proof fn lemma_token_view_other(ts: Seq<FileToken>, q: int, t: Token)
    requires
        0 <= q < ts.len(),
        kinds(ts)[q] == other(t),
    ensures
        ts[q].token == t,
{
}

/// One step of precedence climbing: above `x` on the spine of a target `e`
/// stands `x op r`, whose operator follows `x` and binds at least as tightly
/// as `min`, and whose right operand is a target one level tighter.
proof fn lemma_climb_step(ts: Seq<FileToken>, p: int, min: int, e: Expression, x: Expression)
    requires
        target(ts, p, min, e),
        on_left_spine(e, x),
        x != e,
    ensures
        spine_parent(e, x) matches Expression::Binary(l, op, r) && *l == x && {
            let q = p + expr_tokens(x).len();
            &&& q < ts.len()
            &&& binary_of_token(ts[q].token) == Some(op)
            &&& precedence_of(op) >= min
            &&& target(ts, q + 1, precedence_of(op) + 1, *r)
            &&& expr_tokens(spine_parent(e, x)).len() == expr_tokens(x).len() + 1 + expr_tokens(*r).len()
        },
        on_left_spine(e, spine_parent(e, x)),
{
    lemma_spine_facts(e, x);
    let par = spine_parent(e, x);
    lemma_spine_facts(e, par);
    lemma_spelled_prefix(ts, p, e, par);
    if let Expression::Binary(l, op, r) = par {
        let q = p + expr_tokens(x).len();
        let n = expr_tokens(par).len() as int;
        assert(expr_tokens(par) == expr_tokens(x) + seq![binary_token(op)] + expr_tokens(*r));
        assert(kinds(ts)[q] == expr_tokens(par)[expr_tokens(x).len() as int]);
        lemma_token_view_other(ts, q, binary_token(op)->Other_0);
        assert(kinds(ts).subrange(q + 1, q + 1 + expr_tokens(*r).len()) =~= kinds(ts).subrange(
            p,
            p + n,
        ).subrange(expr_tokens(x).len() as int + 1, n as int));
        assert(well_grouped(par));
        assert(expr_tokens(par).subrange(expr_tokens(x).len() as int + 1, n) =~= expr_tokens(*r));
        assert(q < ts.len());
        assert(binary_of_token(ts[q].token) == Some(op));
        assert(top_precedence(par) == Some(precedence_of(op) as int));
        assert(precedence_of(op) >= min);
        assert(spelled_at(ts, q + 1, *r));
        assert(top_precedence(*r) is None || top_precedence(*r)->Some_0 >= precedence_of(op) + 1);
        // what follows r: the end of e, or the next operator up the spine
        let after = p + n;
        if par != e {
            lemma_spine_facts(e, spine_parent(e, par));
            let gp = spine_parent(e, par);
            lemma_spelled_prefix(ts, p, e, gp);
            if let Expression::Binary(l2, op2, r2) = gp {
                assert(expr_tokens(gp) == expr_tokens(par) + seq![binary_token(op2)] + expr_tokens(*r2));
                assert(kinds(ts)[after] == expr_tokens(gp)[n]);
                lemma_token_view_other(ts, after, binary_token(op2)->Other_0);
                lemma_spine_facts(e, gp);
                assert(well_grouped(gp));
            }
        }
    }
}

proof fn lemma_unary_spelled(ts: Seq<FileToken>, p: int, op: UnaryOperator, inner: Expression)
    requires
        spelled_at(ts, p, Expression::Factor(Factor::Unary(op, Box::new(inner)))),
    ensures
        spelled_at(ts, p + 1, inner),
        inner is Factor,
        kinds(ts)[p] == unary_token(op),
{
    let f = Expression::Factor(Factor::Unary(op, Box::new(inner)));
    let n = expr_tokens(f).len() as int;
    assert(kinds(ts).subrange(p + 1, p + n) =~= expr_tokens(f).subrange(1, n));
    assert(expr_tokens(f).subrange(1, n) =~= expr_tokens(inner));
    assert(kinds(ts)[p] == expr_tokens(f)[0]);
}

proof fn lemma_paren_spelled(ts: Seq<FileToken>, p: int, inner: Expression)
    requires
        spelled_at(ts, p, Expression::Factor(Factor::ParentedExpression(Box::new(inner)))),
    ensures
        target(ts, p + 1, 0, inner),
        is_token(ts, p + 1 + expr_tokens(inner).len(), Token::CloseParenthesis),
{
    let f = Expression::Factor(Factor::ParentedExpression(Box::new(inner)));
    let n = expr_tokens(f).len() as int;
    let m = expr_tokens(inner).len() as int;
    assert(kinds(ts).subrange(p + 1, p + 1 + m) =~= expr_tokens(f).subrange(1, 1 + m));
    assert(expr_tokens(f).subrange(1, 1 + m) =~= expr_tokens(inner));
    assert(kinds(ts)[p + 1 + m] == expr_tokens(f)[1 + m]);
    lemma_token_view_other(ts, p + 1 + m, Token::CloseParenthesis);
}

/// The tokens from `p` on spell the well-formed statement `st`.
pub open spec fn statement_at(ts: Seq<FileToken>, p: int, st: Statement) -> bool {
    &&& statement_well_formed(st)
    &&& 0 <= p
    &&& p + statement_tokens(st).len() <= ts.len()
    &&& kinds(ts).subrange(p, p + statement_tokens(st).len()) == statement_tokens(st)
}

proof fn lemma_expression_then_semicolon(ts: Seq<FileToken>, p: int, e: Expression)
    requires
        well_grouped(e),
        0 <= p,
        p + expr_tokens(e).len() + 1 <= ts.len(),
        kinds(ts).subrange(p, p + expr_tokens(e).len() + 1) == expr_tokens(e) + seq![other(Token::Semicolon)],
    ensures
        target(ts, p, 0, e),
        is_token(ts, p + expr_tokens(e).len(), Token::Semicolon),
        !is_token(ts, p, Token::Semicolon),
{
    let m = expr_tokens(e).len() as int;
    assert(kinds(ts).subrange(p, p + m) =~= kinds(ts).subrange(p, p + m + 1).subrange(0, m));
    assert((expr_tokens(e) + seq![other(Token::Semicolon)]).subrange(0, m) =~= expr_tokens(e));
    assert(kinds(ts)[p + m] == (expr_tokens(e) + seq![other(Token::Semicolon)])[m]);
    lemma_token_view_other(ts, p + m, Token::Semicolon);
    lemma_expr_starts_factor(ts, p, e);
}

proof fn lemma_expr_starts_factor(ts: Seq<FileToken>, p: int, e: Expression)
    requires
        spelled_at(ts, p, e),
    ensures
        starts_factor(ts, p),
    decreases e,
{
    assert(kinds(ts)[p] == expr_tokens(e)[0]) by {
        assert(expr_tokens(e).len() > 0) by {
            lemma_tokens_nonempty(e);
        }
    }
    match e {
        Expression::Factor(Factor::Constant(c)) => lemma_token_view_other(ts, p, Token::Constant(c)),
        Expression::Factor(Factor::Unary(op, _)) => lemma_token_view_other(ts, p, unary_token(op)->Other_0),
        Expression::Factor(Factor::ParentedExpression(_)) => lemma_token_view_other(
            ts,
            p,
            Token::OpenParenthesis,
        ),
        Expression::Binary(l, _, _) => {
            assert(on_left_spine(*l, *l));
            assert(on_left_spine(e, *l));
            lemma_spine_facts(e, *l);
            lemma_spelled_prefix(ts, p, e, *l);
            lemma_expr_starts_factor(ts, p, *l);
        },
    }
}

proof fn lemma_tokens_nonempty(e: Expression)
    ensures
        expr_tokens(e).len() > 0,
    decreases e,
{
    if let Expression::Binary(l, _, _) = e {
        lemma_tokens_nonempty(*l);
    }
}

/// The tokens from `p` on spell the well-formed statements `v`, and a `}`
/// or the end of input follows them.
pub open spec fn block_at(ts: Seq<FileToken>, p: int, v: Seq<Statement>) -> bool {
    &&& forall|k: int| 0 <= k < v.len() ==> statement_well_formed(#[trigger] v[k])
    &&& 0 <= p
    &&& p + statements_tokens(v).len() <= ts.len()
    &&& kinds(ts).subrange(p, p + statements_tokens(v).len()) == statements_tokens(v)
    &&& (p + statements_tokens(v).len() == ts.len() || is_token(
        ts,
        p + statements_tokens(v).len(),
        Token::CloseBrace,
    ))
}

proof fn lemma_statements_prefix(v: Seq<Statement>, k: int)
    requires
        0 <= k <= v.len(),
    ensures
        statements_tokens(v.take(k)).len() <= statements_tokens(v).len(),
        statements_tokens(v).subrange(0, statements_tokens(v.take(k)).len() as int) == statements_tokens(
            v.take(k),
        ),
        k < v.len() ==> statements_tokens(v.take(k + 1)) == statements_tokens(v.take(k))
            + statement_tokens(v[k]),
    decreases v.len() - k,
{
    if k < v.len() {
        assert(v.take(k + 1).drop_last() =~= v.take(k));
        lemma_statements_prefix(v, k + 1);
        assert(statements_tokens(v).subrange(0, statements_tokens(v.take(k)).len() as int)
            =~= statements_tokens(v).subrange(0, statements_tokens(v.take(k + 1)).len() as int).subrange(
            0,
            statements_tokens(v.take(k)).len() as int,
        ));
    } else {
        assert(v.take(k) =~= v);
        assert(statements_tokens(v).subrange(0, statements_tokens(v).len() as int) =~= statements_tokens(v));
    }
}

proof fn lemma_statement_first_token(st: Statement)
    requires
        statement_well_formed(st),
    ensures
        statement_tokens(st).len() > 0,
        statement_tokens(st)[0] == other(Token::IntKeyword) || statement_tokens(st)[0] == other(
            Token::ReturnKeyWord,
        ),
{
}

/// The statement at index `k` of a block that starts at `p` starts where
/// the tokens of the statements before it end.
proof fn lemma_block_statement(ts: Seq<FileToken>, p: int, v: Seq<Statement>, k: int)
    requires
        block_at(ts, p, v),
        0 <= k < v.len(),
    ensures
        statement_at(ts, p + statements_tokens(v.take(k)).len(), v[k]),
        statements_tokens(v.take(k + 1)).len() == statements_tokens(v.take(k)).len() + statement_tokens(
            v[k],
        ).len(),
        p + statements_tokens(v.take(k)).len() < ts.len(),
        !is_token(ts, p + statements_tokens(v.take(k)).len(), Token::CloseBrace),
{
    lemma_statements_prefix(v, k);
    lemma_statements_prefix(v, k + 1);
    let a = statements_tokens(v.take(k)).len() as int;
    let b = statements_tokens(v.take(k + 1)).len() as int;
    let all = statements_tokens(v);
    assert(kinds(ts).subrange(p + a, p + b) =~= kinds(ts).subrange(p, p + all.len()).subrange(a, b));
    assert(all.subrange(a, b) =~= all.subrange(0, b).subrange(a, b));
    assert(statements_tokens(v.take(k + 1)).subrange(a, b) =~= statement_tokens(v[k]));
    lemma_statement_first_token(v[k]);
    assert(kinds(ts)[p + a] == statement_tokens(v[k])[0]);
}

/// The tokens from `p` on declare a function whose block holds the
/// statements `v`: a type keyword, a name, `(`, parameters up to the first
/// `)`, `{`, the statements and `}`.
pub open spec fn function_at(ts: Seq<FileToken>, p: int, v: Seq<Statement>) -> bool {
    let q = close_paren_from(ts, p + 3);
    &&& 0 <= p && p + 2 < ts.len()
    &&& (is_token(ts, p, Token::IntKeyword) || is_token(ts, p, Token::VoidKeyWord))
    &&& ts[p + 1].token is Identifier
    &&& is_token(ts, p + 2, Token::OpenParenthesis)
    &&& is_token(ts, q + 1, Token::OpenBrace)
    &&& block_at(ts, q + 2, v)
    &&& is_token(ts, q + 2 + statements_tokens(v).len(), Token::CloseBrace)
}

/// Index just past the function of `function_at`.
pub open spec fn function_end(ts: Seq<FileToken>, p: int, v: Seq<Statement>) -> int {
    close_paren_from(ts, p + 3) + 3 + statements_tokens(v).len()
}

/// The tokens from `p` to the end declare functions one after another, the
/// k-th from `bounds[k]` with the statements `bodies[k]`.
pub open spec fn program_at(
    ts: Seq<FileToken>,
    p: int,
    bounds: Seq<int>,
    bodies: Seq<Seq<Statement>>,
) -> bool {
    &&& bodies.len() > 0
    &&& bounds.len() == bodies.len() + 1
    &&& bounds[0] == p
    &&& bounds.last() == ts.len()
    &&& forall|k: int|
        0 <= k < bodies.len() ==> function_at(ts, bounds[k], #[trigger] bodies[k]) && bounds[k + 1]
            == function_end(ts, bounds[k], bodies[k])
}

/// Whether a factor can start at `pos`: a constant, a unary operator or `(`.
pub open spec fn starts_factor(ts: Seq<FileToken>, pos: int) -> bool {
    0 <= pos < ts.len() && (ts[pos].token is Constant || ts[pos].token is Hyphen
        || ts[pos].token is Tilde || ts[pos].token is Not || ts[pos].token is OpenParenthesis)
}

pub open spec fn is_token(ts: Seq<FileToken>, pos: int, t: Token) -> bool {
    0 <= pos < ts.len() && ts[pos].token@ == other(t)
}

proof fn lemma_kinds_concat(ts: Seq<FileToken>, a: int, b: int, c: int)
    requires
        0 <= a <= b <= c <= ts.len(),
    ensures
        kinds(ts).subrange(a, c) == kinds(ts).subrange(a, b) + kinds(ts).subrange(b, c),
{
    assert(kinds(ts).subrange(a, c) =~= kinds(ts).subrange(a, b) + kinds(ts).subrange(b, c));
}

proof fn lemma_kinds_one(ts: Seq<FileToken>, a: int)
    requires
        0 <= a < ts.len(),
    ensures
        kinds(ts).subrange(a, a + 1) == seq![ts[a].token@],
{
    assert(kinds(ts).subrange(a, a + 1) =~= seq![ts[a].token@]);
}

pub open spec fn type_token(t: VarType) -> TokenView {
    match t {
        VarType::Int => other(Token::IntKeyword),
        VarType::Void => other(Token::VoidKeyWord),
    }
}

/// The tokens that write a statement of a block.
pub open spec fn statement_tokens(s: Statement) -> Seq<TokenView> {
    match s {
        Statement::VariableDeclaration { var_type, name, initializer } => seq![
            type_token(var_type),
            TokenView::Identifier(name@),
        ] + (match initializer {
            Some(e) => expr_tokens(e),
            None => seq![],
        }) + seq![other(Token::Semicolon)],
        Statement::ReturnStatement(Some(e)) => seq![other(Token::ReturnKeyWord)] + expr_tokens(e)
            + seq![other(Token::Semicolon)],
        Statement::ReturnStatement(None) => seq![other(Token::ReturnKeyWord), other(Token::Semicolon)],
        Statement::Compound(_) => seq![],
    }
}

/// A statement of a block: a declaration of an `int`, or a return of a
/// value, whose expressions group well.
pub open spec fn statement_well_formed(s: Statement) -> bool {
    match s {
        Statement::VariableDeclaration { var_type, name, initializer } => var_type == VarType::Int
            && (initializer is None || well_grouped(initializer->Some_0)),
        Statement::ReturnStatement(Some(e)) => well_grouped(e),
        _ => false,
    }
}

/// The tokens that write the statements of a block, in order.
pub open spec fn statements_tokens(v: Seq<Statement>) -> Seq<TokenView>
    decreases v.len(),
{
    if v.len() == 0 {
        seq![]
    } else {
        statements_tokens(v.drop_last()) + statement_tokens(v.last())
    }
}

/// The block `{ ... }` from `from` to `to` holds the statements `v`.
pub open spec fn block_parsed_as(ts: Seq<FileToken>, from: int, to: int, v: Seq<Statement>) -> bool {
    &&& 0 <= from <= to <= ts.len()
    &&& kinds(ts).subrange(from, to) == statements_tokens(v)
    &&& forall|k: int| 0 <= k < v.len() ==> statement_well_formed(#[trigger] v[k])
}

/// Index of the first `)` at or after `i`, or the end.
pub open spec fn close_paren_from(ts: Seq<FileToken>, i: int) -> int
    decreases ts.len() - i,
{
    if i >= ts.len() || i < 0 {
        ts.len() as int
    } else if ts[i].token@ == other(Token::CloseParenthesis) {
        i
    } else {
        close_paren_from(ts, i + 1)
    }
}

proof fn lemma_close_paren_found(ts: Seq<FileToken>, i: int)
    requires
        0 <= i <= ts.len(),
    ensures
        i <= close_paren_from(ts, i) <= ts.len(),
        close_paren_from(ts, i) < ts.len() ==> ts[close_paren_from(ts, i)].token@ == other(
            Token::CloseParenthesis,
        ),
    decreases ts.len() - i,
{
    if i < ts.len() && ts[i].token@ != other(Token::CloseParenthesis) {
        lemma_close_paren_found(ts, i + 1);
    }
}

/// The tokens from `from` to `to` declare `f`: its return type, its name,
/// a parameter list (skipped), and a block that holds its statements.
pub open spec fn function_parsed_as(ts: Seq<FileToken>, from: int, to: int, f: FunctionDecl) -> bool {
    let q = close_paren_from(ts, from + 3);
    &&& 0 <= from && from + 3 <= q && q + 2 <= to - 1 && to <= ts.len()
    &&& ts[from].token@ == type_token(f.return_type)
    &&& ts[from + 1].token@ == TokenView::Identifier(f.name@)
    &&& ts[from + 2].token@ == other(Token::OpenParenthesis)
    &&& ts[q].token@ == other(Token::CloseParenthesis)
    &&& ts[q + 1].token@ == other(Token::OpenBrace)
    &&& ts[to - 1].token@ == other(Token::CloseBrace)
    &&& f.parameters@.len() == 0
    &&& (f.body matches Statement::Compound(v) && block_parsed_as(ts, q + 2, to - 1, v@))
}

/// The nodes split the tokens from `from` to the end into consecutive
/// function declarations, the k-th running from `bounds[k]` to `bounds[k + 1]`.
pub open spec fn program_split(ts: Seq<FileToken>, from: int, nodes: Seq<AstNode>, bounds: Seq<int>) -> bool {
    &&& bounds.len() == nodes.len() + 1
    &&& bounds[0] == from
    &&& bounds.last() == ts.len()
    &&& forall|k: int|
        0 <= k < nodes.len() ==> (#[trigger] nodes[k] matches AstNode::FunctionDeclaration(f)
            && function_parsed_as(ts, bounds[k], bounds[k + 1], f))
}

fn copy_token(t: &Token) -> (r: Token)
    ensures
        r@ == t@,
{
    match t {
        Token::Identifier(s) => Token::Identifier(s.clone()),
        Token::Constant(c) => Token::Constant(*c),
        Token::IntKeyword => Token::IntKeyword,
        Token::VoidKeyWord => Token::VoidKeyWord,
        Token::ReturnKeyWord => Token::ReturnKeyWord,
        Token::OpenParenthesis => Token::OpenParenthesis,
        Token::CloseParenthesis => Token::CloseParenthesis,
        Token::OpenBrace => Token::OpenBrace,
        Token::CloseBrace => Token::CloseBrace,
        Token::Semicolon => Token::Semicolon,
        Token::Tilde => Token::Tilde,
        Token::Hyphen => Token::Hyphen,
        Token::Decrement => Token::Decrement,
        Token::Plus => Token::Plus,
        Token::Asteriks => Token::Asteriks,
        Token::Slash => Token::Slash,
        Token::PercentSign => Token::PercentSign,
        Token::Not => Token::Not,
        Token::And => Token::And,
        Token::Or => Token::Or,
        Token::EqualTo => Token::EqualTo,
        Token::NotEqualTo => Token::NotEqualTo,
        Token::LessThan => Token::LessThan,
        Token::GreaterThan => Token::GreaterThan,
        Token::LessThanEqualTo => Token::LessThanEqualTo,
        Token::GreaterThanEqualTo => Token::GreaterThanEqualTo,
    }
}

impl Parser {
    pub fn new(tokens: Vec<FileToken>, file_name: String, file: String) -> (r: Self)
        ensures
            r.tokens@ == tokens@,
            r.pos == 0,
            r.file@ == file@,
            r.file_name@ == file_name@,
    {
        Parser { tokens, pos: 0, file_name, file }
    }

    /// Whether the token at the current position is of the kind of `token`.
    fn check_token(&self, token: &Token) -> (r: bool)
        requires
            !(token is Identifier),
        ensures
            r == is_token(self.tokens@, self.pos as int, *token),
    {
        if self.pos < self.tokens.len() {
            let t = &self.tokens[self.pos].token;
            let same = match (t, token) {
                (Token::Constant(a), Token::Constant(b)) => *a == *b,
                (Token::Identifier(_), _) => false,
                (Token::Constant(_), _) => false,
                (Token::IntKeyword, Token::IntKeyword) => true,
                (Token::VoidKeyWord, Token::VoidKeyWord) => true,
                (Token::ReturnKeyWord, Token::ReturnKeyWord) => true,
                (Token::OpenParenthesis, Token::OpenParenthesis) => true,
                (Token::CloseParenthesis, Token::CloseParenthesis) => true,
                (Token::OpenBrace, Token::OpenBrace) => true,
                (Token::CloseBrace, Token::CloseBrace) => true,
                (Token::Semicolon, Token::Semicolon) => true,
                (Token::Tilde, Token::Tilde) => true,
                (Token::Hyphen, Token::Hyphen) => true,
                (Token::Decrement, Token::Decrement) => true,
                (Token::Plus, Token::Plus) => true,
                (Token::Asteriks, Token::Asteriks) => true,
                (Token::Slash, Token::Slash) => true,
                (Token::PercentSign, Token::PercentSign) => true,
                (Token::Not, Token::Not) => true,
                (Token::And, Token::And) => true,
                (Token::Or, Token::Or) => true,
                (Token::EqualTo, Token::EqualTo) => true,
                (Token::NotEqualTo, Token::NotEqualTo) => true,
                (Token::LessThan, Token::LessThan) => true,
                (Token::GreaterThan, Token::GreaterThan) => true,
                (Token::LessThanEqualTo, Token::LessThanEqualTo) => true,
                (Token::GreaterThanEqualTo, Token::GreaterThanEqualTo) => true,
                _ => false,
            };
            same
        } else {
            false
        }
    }

    /// Steps past the current token, if there is one.
    fn advance(&mut self)
        ensures
            final(self).tokens == old(self).tokens,
            final(self).file == old(self).file,
            final(self).file_name == old(self).file_name,
            final(self).pos == if old(self).pos < old(self).tokens@.len() {
                old(self).pos + 1
            } else {
                old(self).pos as int
            },
    {
        if self.pos < self.tokens.len() {
            self.pos = self.pos + 1;
        }
    }

    /// Steps past the current token if it is of the kind of `token`.
    fn match_token(&mut self, token: &Token) -> (r: bool)
        requires
            !(token is Identifier),
        ensures
            final(self).tokens == old(self).tokens,
            final(self).file == old(self).file,
            final(self).file_name == old(self).file_name,
            r == is_token(old(self).tokens@, old(self).pos as int, *token),
            final(self).pos == if r {
                old(self).pos + 1
            } else {
                old(self).pos as int
            },
    {
        if self.check_token(token) {
            self.advance();
            true
        } else {
            false
        }
    }

    /// The binary operator at the current position, if one stands there.
    fn peek_binary_operator(&self) -> (r: Option<BinaryOperator>)
        ensures
            r == (if self.pos < self.tokens@.len() {
                binary_of_token(self.tokens@[self.pos as int].token)
            } else {
                None
            }),
    {
        if self.pos < self.tokens.len() {
            BinaryOperator::from_token(&self.tokens[self.pos].token)
        } else {
            None
        }
    }

    /// Parses an expression, all binary operators included.
    pub fn parse_expression(&mut self) -> (r: Result<Expression, String>)
        requires
            old(self).pos <= old(self).tokens@.len(),
        ensures
            final(self).tokens == old(self).tokens,
            final(self).file == old(self).file,
            final(self).file_name == old(self).file_name,
            old(self).pos <= final(self).pos <= final(self).tokens@.len(),
            r is Ok ==> parsed_as(final(self).tokens@, old(self).pos as int, final(self).pos as int, r->Ok_0),
            !starts_factor(old(self).tokens@, old(self).pos as int) ==> r is Err,
            forall|e: Expression|
                #[trigger] target(old(self).tokens@, old(self).pos as int, 0, e) ==> r == Ok::<
                    Expression,
                    String,
                >(e) && final(self).pos == old(self).pos + expr_tokens(e).len(),
        decreases old(self).tokens@.len() - old(self).pos, 3int,
    {
        self.parse_binary_expression(0)
    }

    /// Precedence climbing: a factor, then every binary operator that binds
    /// at least as tightly as `min_precedence`, each with a right operand
    /// that binds strictly tighter.
    pub fn parse_binary_expression(&mut self, min_precedence: i32) -> (r: Result<Expression, String>)
        requires
            old(self).pos <= old(self).tokens@.len(),
            min_precedence <= 51,
        ensures
            final(self).tokens == old(self).tokens,
            final(self).file == old(self).file,
            final(self).file_name == old(self).file_name,
            old(self).pos <= final(self).pos <= final(self).tokens@.len(),
            r is Ok ==> parsed_as(final(self).tokens@, old(self).pos as int, final(self).pos as int, r->Ok_0),
            r is Ok ==> top_precedence(r->Ok_0) is None || top_precedence(r->Ok_0)->Some_0 >= min_precedence,
            r is Ok ==> next_precedence(final(self).tokens@, final(self).pos as int) is None
                || next_precedence(final(self).tokens@, final(self).pos as int)->Some_0 < min_precedence,
            !starts_factor(old(self).tokens@, old(self).pos as int) ==> r is Err,
            forall|e: Expression|
                #[trigger] target(old(self).tokens@, old(self).pos as int, min_precedence as int, e)
                    ==> r == Ok::<Expression, String>(e) && final(self).pos == old(self).pos
                    + expr_tokens(e).len(),
        decreases old(self).tokens@.len() - old(self).pos, 2int,
    {
        let ghost start = self.pos as int;
        let ghost ts = self.tokens@;
        let ghost min = min_precedence as int;
        let mut left = match self.parse_factor() {
            Ok(e) => e,
            Err(m) => {
                proof {
                    assert forall|e: Expression| #[trigger] target(ts, start, min, e) implies false by {
                        lemma_leftmost_factor(e);
                        lemma_spelled_prefix(ts, start, e, leftmost_factor(e));
                    }
                }
                return Err(m);
            },
        };
        proof {
            assert forall|e: Expression| #[trigger] target(ts, start, min, e) implies on_left_spine(
                e,
                left,
            ) && self.pos == start + expr_tokens(left).len() by {
                lemma_leftmost_factor(e);
                lemma_spelled_prefix(ts, start, e, leftmost_factor(e));
            }
        }
        loop
            invariant
                self.tokens == old(self).tokens,
                self.file == old(self).file,
                self.file_name == old(self).file_name,
                start == old(self).pos,
                start < self.pos <= self.tokens@.len(),
                starts_factor(self.tokens@, start),
                min_precedence <= 51,
                parsed_as(self.tokens@, start, self.pos as int, left),
                top_precedence(left) is None || top_precedence(left)->Some_0 >= min_precedence,
                top_precedence(left) is Some ==> next_precedence(self.tokens@, self.pos as int) is None
                    || next_precedence(self.tokens@, self.pos as int)->Some_0 <= top_precedence(left)->Some_0,
                ts == self.tokens@,
                min == min_precedence,
                forall|e: Expression| #[trigger] target(ts, start, min, e) ==> on_left_spine(e, left)
                    && self.pos == start + expr_tokens(left).len(),
            decreases self.tokens@.len() - self.pos,
        {
            let operator = match self.peek_binary_operator() {
                Some(o) => o,
                None => {
                    proof {
                        assert forall|e: Expression| #[trigger] target(ts, start, min, e) implies left
                            == e by {
                            if left != e {
                                lemma_climb_step(ts, start, min, e, left);
                            }
                        }
                    }
                    return Ok(left);
                },
            };
            let precedence = operator.precedence();
            if min_precedence > precedence {
                proof {
                    assert forall|e: Expression| #[trigger] target(ts, start, min, e) implies left
                        == e by {
                        if left != e {
                            lemma_climb_step(ts, start, min, e, left);
                        }
                    }
                }
                return Ok(left);
            }
            let ghost op_pos = self.pos as int;
            proof {
                assert forall|e: Expression| #[trigger] target(ts, start, min, e) implies left != e by {
                    if left == e {
                        assert(next_precedence(ts, op_pos) == Some(precedence as int));
                    }
                }
            }
            self.advance();
            let right = match self.parse_binary_expression(precedence + 1) {
                Ok(e) => e,
                Err(m) => {
                    proof {
                        assert forall|e: Expression| #[trigger] target(ts, start, min, e) implies false by {
                            lemma_climb_step(ts, start, min, e, left);
                        }
                    }
                    return Err(m);
                },
            };
            let ghost old_left = left;
            proof {
                let ts = self.tokens@;
                lemma_kinds_one(ts, op_pos);
                lemma_kinds_concat(ts, start, op_pos, op_pos + 1);
                lemma_kinds_concat(ts, start, op_pos + 1, self.pos as int);
            }
            left = Expression::Binary(Box::new(left), operator, Box::new(right));
            proof {
                assert forall|e: Expression| #[trigger] target(ts, start, min, e) implies on_left_spine(
                    e,
                    left,
                ) && self.pos == start + expr_tokens(left).len() by {
                    lemma_climb_step(ts, start, min, e, old_left);
                }
            }
        }
    }

    /// Parses a constant, a unary operator applied to a factor, or a
    /// parenthesized expression.
    pub fn parse_factor(&mut self) -> (r: Result<Expression, String>)
        requires
            old(self).pos <= old(self).tokens@.len(),
        ensures
            final(self).tokens == old(self).tokens,
            final(self).file == old(self).file,
            final(self).file_name == old(self).file_name,
            old(self).pos <= final(self).pos <= final(self).tokens@.len(),
            r is Ok ==> parsed_as(final(self).tokens@, old(self).pos as int, final(self).pos as int, r->Ok_0),
            r is Ok ==> (r->Ok_0 is Factor) && old(self).pos < final(self).pos,
            !starts_factor(old(self).tokens@, old(self).pos as int) ==> r is Err,
            forall|f: Expression|
                (f is Factor) && #[trigger] spelled_at(old(self).tokens@, old(self).pos as int, f)
                    ==> r == Ok::<Expression, String>(f) && final(self).pos == old(self).pos
                    + expr_tokens(f).len(),
            old(self).pos < old(self).tokens@.len() && old(self).tokens@[old(self).pos as int].token is Constant
                ==> r == Ok::<Expression, String>(
                Expression::Factor(
                    Factor::Constant(old(self).tokens@[old(self).pos as int].token->Constant_0),
                ),
            ) && final(self).pos == old(self).pos + 1,
        decreases old(self).tokens@.len() - old(self).pos, 1int,
    {
        if self.pos >= self.tokens.len() {
            return Err(String::from_str("expected an expression, found the end of input"));
        }
        let ghost start = self.pos as int;
        let ghost ts = self.tokens@;
        match &self.tokens[self.pos].token {
            Token::Constant(c) => {
                let c = *c;
                self.advance();
                proof {
                    lemma_kinds_one(ts, start);
                    assert forall|f: Expression|
                        (f is Factor) && #[trigger] spelled_at(ts, start, f) implies f
                            == Expression::Factor(Factor::Constant(c)) && self.pos
                            == start + expr_tokens(f).len() by {
                        assert(kinds(ts)[start] == expr_tokens(f)[0]);
                        match f {
                            Expression::Factor(Factor::Constant(c2)) => {
                                lemma_token_view_other(ts, start, Token::Constant(c2));
                            },
                            Expression::Factor(Factor::Unary(op2, inner2)) => {
                                lemma_unary_spelled(ts, start, op2, *inner2);
                                lemma_token_view_other(ts, start, unary_token(op2)->Other_0);
                            },
                            Expression::Factor(Factor::ParentedExpression(_)) => {
                                lemma_token_view_other(ts, start, Token::OpenParenthesis);
                            },
                            _ => {},
                        }
                    }
                }
                Ok(Expression::Factor(Factor::Constant(c)))
            },
            Token::Hyphen | Token::Tilde | Token::Not => {
                let operator = match UnaryOperator::from_token(&self.tokens[self.pos].token) {
                    Some(o) => o,
                    None => return Err(String::from_str("expected a unary operator")),
                };
                self.advance();
                let inner = match self.parse_factor() {
                    Ok(e) => e,
                    Err(m) => {
                        proof {
                            assert forall|f: Expression|
                                (f is Factor) && #[trigger] spelled_at(ts, start, f) implies false by {
                                assert(kinds(ts)[start] == expr_tokens(f)[0]);
                                if let Expression::Factor(Factor::Unary(op2, inner2)) = f {
                                    lemma_unary_spelled(ts, start, op2, *inner2);
                                }
                            }
                        }
                        return Err(m);
                    },
                };
                proof {
                    lemma_kinds_one(ts, start);
                    lemma_kinds_concat(ts, start, start + 1, self.pos as int);
                    assert forall|f: Expression|
                        (f is Factor) && #[trigger] spelled_at(ts, start, f) implies f
                            == Expression::Factor(Factor::Unary(operator, Box::new(inner))) && self.pos
                            == start + expr_tokens(f).len() by {
                        assert(kinds(ts)[start] == expr_tokens(f)[0]);
                        match f {
                            Expression::Factor(Factor::Constant(c)) => {
                                lemma_token_view_other(ts, start, Token::Constant(c));
                            },
                            Expression::Factor(Factor::Unary(op2, inner2)) => {
                                lemma_unary_spelled(ts, start, op2, *inner2);
                                lemma_token_view_other(ts, start, unary_token(op2)->Other_0);
                            },
                            Expression::Factor(Factor::ParentedExpression(_)) => {
                                lemma_token_view_other(ts, start, Token::OpenParenthesis);
                            },
                            _ => {},
                        }
                    }
                }
                Ok(Expression::Factor(Factor::Unary(operator, Box::new(inner))))
            },
            Token::OpenParenthesis => {
                self.advance();
                let inner = match self.parse_expression() {
                    Ok(e) => e,
                    Err(m) => {
                        proof {
                            assert forall|f: Expression|
                                (f is Factor) && #[trigger] spelled_at(ts, start, f) implies false by {
                                assert(kinds(ts)[start] == expr_tokens(f)[0]);
                                if let Expression::Factor(Factor::ParentedExpression(inner2)) = f {
                                    lemma_paren_spelled(ts, start, *inner2);
                                }
                            }
                        }
                        return Err(m);
                    },
                };
                proof {
                    assert forall|f: Expression|
                        (f is Factor) && #[trigger] spelled_at(ts, start, f) implies (f matches Expression::Factor(
                            Factor::ParentedExpression(inner2),
                        ) && *inner2 == inner && is_token(ts, self.pos as int, Token::CloseParenthesis)
                            && self.pos == start + 1 + expr_tokens(inner).len()) by {
                        assert(kinds(ts)[start] == expr_tokens(f)[0]);
                        if let Expression::Factor(Factor::ParentedExpression(inner2)) = f {
                            lemma_paren_spelled(ts, start, *inner2);
                        }
                    }
                }
                if self.check_token(&Token::CloseParenthesis) {
                    let ghost close = self.pos as int;
                    self.advance();
                    proof {
                        lemma_kinds_one(ts, start);
                        lemma_kinds_one(ts, close);
                        lemma_kinds_concat(ts, start, start + 1, close);
                        lemma_kinds_concat(ts, start, close, close + 1);
                    }
                    proof {
                        assert forall|f: Expression|
                            (f is Factor) && #[trigger] spelled_at(ts, start, f) implies f
                                == Expression::Factor(Factor::ParentedExpression(Box::new(inner)))
                                && self.pos == start + expr_tokens(f).len() by {
                            assert(f matches Expression::Factor(Factor::ParentedExpression(inner2))
                                && *inner2 == inner);
                        }
                    }
                    Ok(Expression::Factor(Factor::ParentedExpression(Box::new(inner))))
                } else {
                    proof {
                        assert forall|f: Expression|
                            (f is Factor) && #[trigger] spelled_at(ts, start, f) implies false by {
                            assert(is_token(ts, self.pos as int, Token::CloseParenthesis));
                        }
                    }
                    Err(String::from_str("expected ')'"))
                }
            },
            _ => {
                proof {
                    assert forall|f: Expression|
                        (f is Factor) && #[trigger] spelled_at(ts, start, f) implies false by {
                        assert(kinds(ts)[start] == expr_tokens(f)[0]);
                        match f {
                            Expression::Factor(Factor::Constant(c)) => {
                                lemma_token_view_other(ts, start, Token::Constant(c));
                            },
                            Expression::Factor(Factor::Unary(op2, inner2)) => {
                                lemma_unary_spelled(ts, start, op2, *inner2);
                                lemma_token_view_other(ts, start, unary_token(op2)->Other_0);
                            },
                            Expression::Factor(Factor::ParentedExpression(_)) => {
                                lemma_token_view_other(ts, start, Token::OpenParenthesis);
                            },
                            _ => {},
                        }
                    }
                }
                Err(String::from_str("expected an expression"))
            },
        }
    }
}

impl Parser {
    /// An error at the current token, or at the last one when the input has ended.
    fn error_here(&self, error: ParserErrorType) -> (r: ParserError)
        ensures
            r.error == error,
    {
        if self.pos < self.tokens.len() {
            let t = &self.tokens[self.pos];
            ParserError {
                error,
                token: Some(copy_token(&t.token)),
                line: t.line,
                start_char_in_line: t.start_char_in_line,
            }
        } else if self.tokens.len() > 0 {
            let t = &self.tokens[self.tokens.len() - 1];
            ParserError {
                error,
                token: Some(copy_token(&t.token)),
                line: t.line,
                start_char_in_line: t.start_char_in_line,
            }
        } else {
            ParserError { error, token: None, line: 0, start_char_in_line: 0 }
        }
    }

    /// Parses `return <expression>;`, the keyword already consumed.
    fn parse_return_statement(&mut self) -> (r: Result<Statement, ParserError>)
        requires
            0 < old(self).pos <= old(self).tokens@.len(),
            is_token(old(self).tokens@, old(self).pos - 1, Token::ReturnKeyWord),
        ensures
            final(self).tokens == old(self).tokens,
            final(self).file == old(self).file,
            final(self).file_name == old(self).file_name,
            old(self).pos <= final(self).pos <= final(self).tokens@.len(),
            r is Ok ==> kinds(final(self).tokens@).subrange(old(self).pos - 1, final(self).pos as int)
                == statement_tokens(r->Ok_0) && statement_well_formed(r->Ok_0),
            forall|st: Statement|
                #[trigger] statement_at(old(self).tokens@, old(self).pos - 1, st) && st is ReturnStatement
                    ==> r is Ok && final(self).pos == old(self).pos - 1 + statement_tokens(st).len(),
    {
        let ghost start = self.pos as int;
        let ghost ts = self.tokens@;
        proof {
            assert forall|st: Statement| #[trigger] statement_at(ts, start - 1, st) && st is ReturnStatement
                implies (st matches Statement::ReturnStatement(Some(e)) && target(ts, start, 0, e)
                && is_token(ts, start + expr_tokens(e).len(), Token::Semicolon) && !is_token(ts, start, Token::Semicolon)) by {
                if let Statement::ReturnStatement(Some(e)) = st {
                    let n = statement_tokens(st).len() as int;
                    assert(kinds(ts).subrange(start, start - 1 + n) =~= kinds(ts).subrange(start - 1, start - 1 + n).subrange(1, n));
                    assert(statement_tokens(st).subrange(1, n) =~= expr_tokens(e) + seq![other(Token::Semicolon)]);
                    lemma_expression_then_semicolon(ts, start, e);
                }
            }
        }
        if self.check_token(&Token::Semicolon) {
            return Err(self.error_here(ParserErrorType::MissingReturnValue));
        }
        let expr = match self.parse_expression() {
            Ok(e) => e,
            Err(_) => return Err(self.error_here(ParserErrorType::MissingReturnValue)),
        };
        if self.check_token(&Token::Semicolon) {
            let ghost semi = self.pos as int;
            self.advance();
            proof {
                let ts = self.tokens@;
                lemma_kinds_one(ts, start - 1);
                lemma_kinds_one(ts, semi);
                lemma_kinds_concat(ts, start - 1, start, semi);
                lemma_kinds_concat(ts, start - 1, semi, semi + 1);
            }
            Ok(Statement::ReturnStatement(Some(expr)))
        } else {
            Err(self.error_here(ParserErrorType::MissingReturnValue))
        }
    }

    /// Parses `<name> [expression];`, the `int` keyword already consumed.
    fn parse_variable_declaration(&mut self) -> (r: Result<Statement, ParserError>)
        requires
            0 < old(self).pos <= old(self).tokens@.len(),
            is_token(old(self).tokens@, old(self).pos - 1, Token::IntKeyword),
        ensures
            final(self).tokens == old(self).tokens,
            final(self).file == old(self).file,
            final(self).file_name == old(self).file_name,
            old(self).pos <= final(self).pos <= final(self).tokens@.len(),
            r is Ok ==> kinds(final(self).tokens@).subrange(old(self).pos - 1, final(self).pos as int)
                == statement_tokens(r->Ok_0) && statement_well_formed(r->Ok_0),
            forall|st: Statement|
                #[trigger] statement_at(old(self).tokens@, old(self).pos - 1, st) && st is VariableDeclaration
                    ==> r is Ok && final(self).pos == old(self).pos - 1 + statement_tokens(st).len(),
    {
        let ghost start = self.pos as int;
        let ghost ts = self.tokens@;
        proof {
            assert forall|st: Statement| #[trigger] statement_at(ts, start - 1, st) && st is VariableDeclaration
                implies (st matches Statement::VariableDeclaration { name, initializer, .. }
                && start + 1 < ts.len() && ts[start].token@ == TokenView::Identifier(name@)
                && (initializer is None ==> is_token(ts, start + 1, Token::Semicolon)
                    && statement_tokens(st).len() == 3)
                && (initializer is Some ==> target(ts, start + 1, 0, initializer->Some_0)
                    && is_token(ts, start + 1 + expr_tokens(initializer->Some_0).len(), Token::Semicolon)
                    && !is_token(ts, start + 1, Token::Semicolon)
                    && statement_tokens(st).len() == 3 + expr_tokens(initializer->Some_0).len())) by {
                if let Statement::VariableDeclaration { var_type, name, initializer } = st {
                    let n = statement_tokens(st).len() as int;
                    assert(kinds(ts)[start] == statement_tokens(st)[1]);
                    if let Some(e) = initializer {
                        assert(kinds(ts).subrange(start + 1, start - 1 + n) =~= kinds(ts).subrange(start - 1, start - 1 + n).subrange(2, n));
                        assert(statement_tokens(st).subrange(2, n) =~= expr_tokens(e) + seq![other(Token::Semicolon)]);
                        lemma_expression_then_semicolon(ts, start + 1, e);
                    } else {
                        assert(kinds(ts)[start + 1] == statement_tokens(st)[2]);
                        lemma_token_view_other(ts, start + 1, Token::Semicolon);
                    }
                }
            }
        }
        if self.pos >= self.tokens.len() {
            return Err(self.error_here(ParserErrorType::ExpectedVariableName));
        }
        let name = match &self.tokens[self.pos].token {
            Token::Identifier(n) => n.clone(),
            _ => return Err(self.error_here(ParserErrorType::ExpectedVariableName)),
        };
        self.advance();
        proof {
            lemma_kinds_one(ts, start - 1);
            lemma_kinds_one(ts, start);
            lemma_kinds_concat(ts, start - 1, start, start + 1);
        }
        if self.match_token(&Token::Semicolon) {
            proof {
                lemma_kinds_one(ts, start + 1);
                lemma_kinds_concat(ts, start - 1, start + 1, start + 2);
            }
            return Ok(
                Statement::VariableDeclaration { var_type: VarType::Int, name, initializer: None },
            );
        }
        let expr = match self.parse_expression() {
            Ok(e) => e,
            Err(_) => return Err(self.error_here(ParserErrorType::ExpectedExpression)),
        };
        let ghost semi = self.pos as int;
        if self.match_token(&Token::Semicolon) {
            proof {
                lemma_kinds_one(ts, semi);
                lemma_kinds_concat(ts, start - 1, start + 1, semi);
                lemma_kinds_concat(ts, start - 1, semi, semi + 1);
            }
            Ok(Statement::VariableDeclaration { var_type: VarType::Int, name, initializer: Some(expr) })
        } else {
            Err(self.error_here(ParserErrorType::ExpectedChar(';')))
        }
    }

    /// Parses one statement of a block.
    fn parse_statement(&mut self) -> (r: Result<Statement, ParserError>)
        requires
            old(self).pos <= old(self).tokens@.len(),
        ensures
            final(self).tokens == old(self).tokens,
            final(self).file == old(self).file,
            final(self).file_name == old(self).file_name,
            old(self).pos <= final(self).pos <= final(self).tokens@.len(),
            r is Ok ==> old(self).pos < final(self).pos,
            r is Ok ==> kinds(final(self).tokens@).subrange(old(self).pos as int, final(self).pos as int)
                == statement_tokens(r->Ok_0) && statement_well_formed(r->Ok_0),
            !is_token(old(self).tokens@, old(self).pos as int, Token::IntKeyword) && !is_token(
                old(self).tokens@,
                old(self).pos as int,
                Token::ReturnKeyWord,
            ) ==> r is Err && r->Err_0.error == ParserErrorType::ExpectedStatement,
            forall|st: Statement|
                #[trigger] statement_at(old(self).tokens@, old(self).pos as int, st) ==> r is Ok
                    && final(self).pos == old(self).pos + statement_tokens(st).len(),
    {
        let ghost ts = self.tokens@;
        let ghost start = self.pos as int;
        proof {
            assert forall|st: Statement| #[trigger] statement_at(ts, start, st) implies (
                st is VariableDeclaration && is_token(ts, start, Token::IntKeyword))
                || (st is ReturnStatement && is_token(ts, start, Token::ReturnKeyWord)) by {
                assert(kinds(ts)[start] == statement_tokens(st)[0]);
                match st {
                    Statement::VariableDeclaration { .. } => lemma_token_view_other(ts, start, Token::IntKeyword),
                    Statement::ReturnStatement(_) => lemma_token_view_other(ts, start, Token::ReturnKeyWord),
                    _ => {},
                }
            }
        }
        if self.match_token(&Token::IntKeyword) {
            proof {
                assert forall|st: Statement| #[trigger] statement_at(ts, start, st) implies statement_at(
                    self.tokens@,
                    self.pos - 1,
                    st,
                ) by {}
            }
            return self.parse_variable_declaration();
        } else if self.match_token(&Token::ReturnKeyWord) {
            proof {
                assert forall|st: Statement| #[trigger] statement_at(ts, start, st) implies statement_at(
                    self.tokens@,
                    self.pos - 1,
                    st,
                ) by {}
            }
            return self.parse_return_statement();
        }
        Err(self.error_here(ParserErrorType::ExpectedStatement))
    }

    /// Parses the statements of a block up to its closing brace or the end.
    fn parse_compound_statement(&mut self) -> (r: Result<Statement, ParserError>)
        requires
            old(self).pos <= old(self).tokens@.len(),
        ensures
            final(self).tokens == old(self).tokens,
            final(self).file == old(self).file,
            final(self).file_name == old(self).file_name,
            old(self).pos <= final(self).pos <= final(self).tokens@.len(),
            r is Ok ==> (r->Ok_0 matches Statement::Compound(v) && block_parsed_as(
                final(self).tokens@,
                old(self).pos as int,
                final(self).pos as int,
                v@,
            )),
            forall|v: Seq<Statement>|
                #[trigger] block_at(old(self).tokens@, old(self).pos as int, v) ==> r is Ok
                    && final(self).pos == old(self).pos + statements_tokens(v).len(),
    {
        let ghost start = self.pos as int;
        let ghost ts = self.tokens@;
        let mut statements: Vec<Statement> = Vec::new();
        assert(kinds(self.tokens@).subrange(start, start) =~= statements_tokens(statements@));
        proof {
            assert forall|v: Seq<Statement>| #[trigger] block_at(ts, start, v) implies statements@.len()
                <= v.len() && self.pos == start + statements_tokens(v.take(statements@.len() as int)).len() by {
                assert(v.take(0) =~= Seq::<Statement>::empty());
            }
        }
        while !self.check_token(&Token::CloseBrace) && self.pos < self.tokens.len()
            invariant
                self.tokens == old(self).tokens,
                self.file == old(self).file,
                self.file_name == old(self).file_name,
                start == old(self).pos,
                start <= self.pos <= self.tokens@.len(),
                block_parsed_as(self.tokens@, start, self.pos as int, statements@),
                ts == self.tokens@,
                forall|v: Seq<Statement>| #[trigger] block_at(ts, start, v) ==> statements@.len() <= v.len()
                    && self.pos == start + statements_tokens(v.take(statements@.len() as int)).len(),
            decreases self.tokens@.len() - self.pos,
        {
            let ghost before = self.pos as int;
            let ghost v0 = statements@;
            let ghost n = statements@.len() as int;
            proof {
                assert forall|v: Seq<Statement>| #[trigger] block_at(ts, start, v) implies n < v.len()
                    && statement_at(ts, before, v[n]) by {
                    if n == v.len() {
                        assert(v.take(n) =~= v);
                    } else {
                        lemma_block_statement(ts, start, v, n);
                    }
                }
            }
            let st = match self.parse_statement() {
                Ok(s) => s,
                Err(e) => return Err(e),
            };
            proof {
                assert forall|v: Seq<Statement>| #[trigger] block_at(ts, start, v) implies self.pos
                    == start + statements_tokens(v.take(n + 1)).len() by {
                    lemma_block_statement(ts, start, v, n);
                }
            }
            statements.push(st);
            proof {
                lemma_kinds_concat(self.tokens@, start, before, self.pos as int);
                assert(statements@.drop_last() =~= v0);
                assert forall|k: int| 0 <= k < statements@.len() implies statement_well_formed(
                    #[trigger] statements@[k],
                ) by {
                    if k < v0.len() {
                        assert(statements@[k] == v0[k]);
                    }
                }
            }
        }
        proof {
            assert forall|v: Seq<Statement>| #[trigger] block_at(ts, start, v) implies self.pos
                == start + statements_tokens(v).len() by {
                let n = statements@.len() as int;
                if n < v.len() {
                    lemma_block_statement(ts, start, v, n);
                } else {
                    assert(v.take(n) =~= v);
                }
            }
        }
        Ok(Statement::Compound(statements))
    }

    /// Steps past the parameter list up to and including its `)`.
    fn skip_parameters(&mut self) -> (r: Result<(), ParserError>)
        requires
            old(self).pos <= old(self).tokens@.len(),
        ensures
            final(self).tokens == old(self).tokens,
            final(self).file == old(self).file,
            final(self).file_name == old(self).file_name,
            r is Ok ==> close_paren_from(old(self).tokens@, old(self).pos as int) < old(self).tokens@.len()
                && final(self).pos == close_paren_from(old(self).tokens@, old(self).pos as int) + 1,
            close_paren_from(old(self).tokens@, old(self).pos as int) < old(self).tokens@.len() ==> r is Ok,
            old(self).pos <= final(self).pos <= final(self).tokens@.len(),
    {
        while !self.match_token(&Token::CloseParenthesis)
            invariant
                self.tokens == old(self).tokens,
                self.file == old(self).file,
                self.file_name == old(self).file_name,
                old(self).pos <= self.pos <= self.tokens@.len(),
                close_paren_from(self.tokens@, old(self).pos as int) == close_paren_from(
                    self.tokens@,
                    self.pos as int,
                ),
            decreases self.tokens@.len() - self.pos,
        {
            if self.pos >= self.tokens.len() {
                return Err(self.error_here(ParserErrorType::ExpectedChar(')')));
            }
            self.advance();
        }
        Ok(())
    }

    /// Parses `<type> <name> ( ... ) { <statements> }`.
    fn parse_function(&mut self) -> (r: Result<FunctionDecl, ParserError>)
        requires
            old(self).pos <= old(self).tokens@.len(),
        ensures
            final(self).tokens == old(self).tokens,
            final(self).file == old(self).file,
            final(self).file_name == old(self).file_name,
            old(self).pos <= final(self).pos <= final(self).tokens@.len(),
            r is Ok ==> function_parsed_as(
                final(self).tokens@,
                old(self).pos as int,
                final(self).pos as int,
                r->Ok_0,
            ),
            !is_token(old(self).tokens@, old(self).pos as int, Token::IntKeyword) && !is_token(
                old(self).tokens@,
                old(self).pos as int,
                Token::VoidKeyWord,
            ) ==> r is Err && r->Err_0.error == ParserErrorType::ExpectedTypeKeyword,
            forall|v: Seq<Statement>|
                #[trigger] function_at(old(self).tokens@, old(self).pos as int, v) ==> r is Ok
                    && final(self).pos == function_end(old(self).tokens@, old(self).pos as int, v),
    {
        let ghost start = self.pos as int;
        let ghost ts = self.tokens@;
        let return_type = if self.match_token(&Token::IntKeyword) {
            VarType::Int
        } else if self.match_token(&Token::VoidKeyWord) {
            VarType::Void
        } else {
            return Err(self.error_here(ParserErrorType::ExpectedTypeKeyword));
        };
        if self.pos >= self.tokens.len() {
            return Err(self.error_here(ParserErrorType::ExpectedFunctionName));
        }
        let name = match &self.tokens[self.pos].token {
            Token::Identifier(n) => n.clone(),
            _ => return Err(self.error_here(ParserErrorType::ExpectedFunctionName)),
        };
        self.advance();
        if !self.match_token(&Token::OpenParenthesis) {
            return Err(self.error_here(ParserErrorType::ExpectedChar('(')));
        }
        assert(self.pos == start + 3);
        match self.skip_parameters() {
            Ok(()) => {},
            Err(e) => return Err(e),
        }
        proof {
            lemma_close_paren_found(self.tokens@, start + 3);
        }
        if !self.match_token(&Token::OpenBrace) {
            return Err(self.error_here(ParserErrorType::ExpectedChar('{')));
        }
        proof {
            assert(self.pos == close_paren_from(ts, start + 3) + 2);
            assert forall|v: Seq<Statement>| #[trigger] function_at(ts, start, v) implies block_at(
                self.tokens@,
                self.pos as int,
                v,
            ) by {}
        }
        let body = match self.parse_compound_statement() {
            Ok(b) => b,
            Err(e) => return Err(e),
        };
        if !self.match_token(&Token::CloseBrace) {
            return Err(self.error_here(ParserErrorType::ExpectedChar('}')));
        }
        let f = FunctionDecl { return_type, name, parameters: Vec::new(), body };
        proof {
            let ts = self.tokens@;
            let q = close_paren_from(ts, start + 3);
            assert(ts[start].token@ == type_token(f.return_type));
            assert(ts[start + 1].token@ == TokenView::Identifier(f.name@));
            assert(ts[start + 2].token@ == other(Token::OpenParenthesis));
            assert(ts[q].token@ == other(Token::CloseParenthesis));
            assert(ts[q + 1].token@ == other(Token::OpenBrace));
        }
        Ok(f)
    }

    /// Parses every function of the token list into a program node.
    pub fn parse(&mut self) -> (r: Result<AstNode, ParserError>)
        requires
            old(self).pos <= old(self).tokens@.len(),
        ensures
            final(self).tokens == old(self).tokens,
            r is Ok ==> final(self).pos == final(self).tokens@.len(),
            r is Ok ==> (r->Ok_0 matches AstNode::Program(nodes) && nodes@.len() > 0 && exists|
                bounds: Seq<int>,
            | program_split(final(self).tokens@, old(self).pos as int, nodes@, bounds)),
            old(self).pos == old(self).tokens@.len() ==> r is Err && r->Err_0.error
                == ParserErrorType::NoValidFunctions,
            forall|b: Seq<int>, v: Seq<Seq<Statement>>|
                #[trigger] program_at(old(self).tokens@, old(self).pos as int, b, v) ==> r is Ok,
    {
        let ghost ts = self.tokens@;
        let ghost p0 = self.pos as int;
        let mut nodes: Vec<AstNode> = Vec::new();
        let ghost mut bounds: Seq<int> = seq![self.pos as int];
        while self.pos < self.tokens.len()
            invariant
                self.tokens == old(self).tokens,
                old(self).pos <= self.pos <= self.tokens@.len(),
                bounds.len() == nodes@.len() + 1,
                nodes@.len() > 0 ==> old(self).pos < self.pos,
                bounds[0] == old(self).pos,
                bounds.last() == self.pos,
                forall|k: int|
                    0 <= k < nodes@.len() ==> (#[trigger] nodes@[k] matches AstNode::FunctionDeclaration(f)
                        && function_parsed_as(self.tokens@, bounds[k], bounds[k + 1], f)),
                ts == self.tokens@,
                p0 == old(self).pos,
                forall|b: Seq<int>, v: Seq<Seq<Statement>>| #[trigger] program_at(ts, p0, b, v)
                    ==> nodes@.len() <= v.len() && self.pos == b[nodes@.len() as int],
            decreases self.tokens@.len() - self.pos,
        {
            let ghost v0 = nodes@;
            let ghost b0 = bounds;
            let ghost n = nodes@.len() as int;
            proof {
                assert forall|b: Seq<int>, v: Seq<Seq<Statement>>| #[trigger] program_at(ts, p0, b, v)
                    implies n < v.len() && function_at(ts, self.pos as int, v[n]) && b[n + 1]
                    == function_end(ts, self.pos as int, v[n]) by {
                    if n == v.len() {
                        assert(b[n] == b.last());
                    }
                }
            }
            match self.parse_function() {
                Ok(f) => nodes.push(AstNode::FunctionDeclaration(f)),
                Err(e) => return Err(e),
            }
            proof {
                bounds = bounds.push(self.pos as int);
                assert forall|k: int| 0 <= k < nodes@.len() implies (#[trigger] nodes@[k] matches AstNode::FunctionDeclaration(f)
                    && function_parsed_as(self.tokens@, bounds[k], bounds[k + 1], f)) by {
                    if k < v0.len() {
                        assert(nodes@[k] == v0[k]);
                        assert(bounds[k] == b0[k] && bounds[k + 1] == b0[k + 1]);
                    }
                }
            }
        }
        if nodes.len() == 0 {
            proof {
                assert forall|b: Seq<int>, v: Seq<Seq<Statement>>| #[trigger] program_at(ts, p0, b, v)
                    implies false by {
                    assert(function_at(ts, b[0], v[0]));
                }
            }
            Err(self.error_here(ParserErrorType::NoValidFunctions))
        } else {
            let ghost ns = nodes@;
            assert(program_split(self.tokens@, old(self).pos as int, ns, bounds));
            assert(exists|b: Seq<int>| program_split(self.tokens@, old(self).pos as int, ns, b));
            let r = AstNode::Program(nodes);
            assert(r->Program_0@ == ns);
            Ok(r)
        }
    }
}

} // verus!
