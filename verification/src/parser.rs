//! Recursive-descent parser from the token stream to the abstract syntax
//! tree.
//!
//! Expressions are parsed by precedence climbing: atoms, then `* / %`, then
//! `+ -`, then the relational operators, then `== !=`, then `&&`, then `||`.
//! The parser walks an immutable token vector with an explicit cursor; each
//! routine returns the parsed node together with the position of the first
//! token it did not consume.

use vstd::prelude::*;
use crate::lexer::{self, Token, LexingError};
use crate::names::hash_free;
use crate::predefined_functions::ExternalFunction;

verus! {

#[derive(Debug, PartialEq)]
pub enum ParseError {
    UnexpectedToken(Token, Token),
    UnexpectedToken2(Vec<Token>, Token),
    TooFewTokens,
    LexingError(LexingError),
}

pub type Parameter = String;

pub type FunctionIdentifier = String;

pub type Parameters = Vec<Parameter>;

pub type VariableName = String;

pub type Arguments = Vec<Expression>;

pub type Block = Vec<Statement>;

pub type TokenStream = Vec<Result<Token, LexingError>>;

#[derive(Debug, Clone, Copy, PartialEq, Eq, Structural)]
pub enum BinaryOperator {
    Addition,
    Subtraction,
    Multiplication,
    Division,
    Modulo,
    Greater,
    GreaterEquals,
    Less,
    LessEquals,
    Equals,
    NotEquals,
    LogicAnd,
    LogicOr,
}

#[derive(Debug, PartialEq)]
pub struct FunctionCall {
    pub name: FunctionIdentifier,
    pub arguments: Arguments,
}

#[derive(Debug, PartialEq)]
pub enum Expression {
    Number(i64),
    Variable(VariableName),
    BinaryOperation(BinaryOperator, Box<(Expression, Expression)>),
    FunctionCall(FunctionCall),
}

#[derive(Debug, PartialEq)]
pub struct Assignment {
    pub variable_name: VariableName,
    pub expression: Expression,
}

#[derive(Debug, PartialEq)]
pub struct IfStatement {
    pub condition: Expression,
    pub block: Block,
}

#[derive(Debug, PartialEq)]
pub struct WhileLoop {
    pub condition: Expression,
    pub block: Block,
}

#[derive(Debug, PartialEq)]
pub enum Statement {
    Assignment(Assignment),
    IfStatement(IfStatement),
    WhileLoop(WhileLoop),
    FunctionCall(FunctionCall),
    Return(Expression),
}

#[derive(Debug, PartialEq)]
pub struct InternalFunction {
    pub name: FunctionIdentifier,
    pub parameters: Parameters,
    pub block: Block,
}

#[derive(Debug, PartialEq)]
pub enum Function {
    Internal(InternalFunction),
    External(ExternalFunction),
}

#[derive(Debug, PartialEq)]
pub struct Program {
    pub functions: Vec<Function>,
}

/// Mathematical model of an expression: the same tree with names as
/// character sequences.  Contracts about the later pipeline stages are
/// stated over these models.
pub enum ExprM {
    Number(i64),
    Variable(Seq<char>),
    Binary(BinaryOperator, Box<(ExprM, ExprM)>),
    Call(Seq<char>, Seq<ExprM>),
}

/// Mathematical model of a statement.
pub enum StmtM {
    Assign(Seq<char>, ExprM),
    If(ExprM, Seq<StmtM>),
    While(ExprM, Seq<StmtM>),
    Call(Seq<char>, Seq<ExprM>),
    Return(ExprM),
}

pub open spec fn expr_m(e: Expression) -> ExprM
    decreases e,
{
    match e {
        Expression::Number(n) => ExprM::Number(n),
        Expression::Variable(v) => ExprM::Variable(v@),
        Expression::BinaryOperation(op, b) => ExprM::Binary(
            op,
            Box::new((expr_m(b.0), expr_m(b.1))),
        ),
        Expression::FunctionCall(fc) => ExprM::Call(fc.name@, exprs_m(fc.arguments@)),
    }
}

pub open spec fn exprs_m(s: Seq<Expression>) -> Seq<ExprM>
    decreases s,
{
    if s.len() == 0 {
        Seq::empty()
    } else {
        exprs_m(s.drop_last()).push(expr_m(s.last()))
    }
}

pub open spec fn stmt_m(s: Statement) -> StmtM
    decreases s,
{
    match s {
        Statement::Assignment(a) => StmtM::Assign(a.variable_name@, expr_m(a.expression)),
        Statement::IfStatement(i) => StmtM::If(expr_m(i.condition), block_m(i.block@)),
        Statement::WhileLoop(w) => StmtM::While(expr_m(w.condition), block_m(w.block@)),
        Statement::FunctionCall(fc) => StmtM::Call(fc.name@, exprs_m(fc.arguments@)),
        Statement::Return(e) => StmtM::Return(expr_m(e)),
    }
}

pub open spec fn block_m(b: Seq<Statement>) -> Seq<StmtM>
    decreases b,
{
    if b.len() == 0 {
        Seq::empty()
    } else {
        block_m(b.drop_last()).push(stmt_m(b.last()))
    }
}

/// The views of a vector of names.
pub open spec fn str_views(s: Seq<String>) -> Seq<Seq<char>> {
    s.map_values(|p: String| p@)
}

// Sizes of the model trees, used as termination measures by the passes
// that walk them.
pub open spec fn expr_size(e: ExprM) -> nat
    decreases e,
{
    match e {
        ExprM::Number(_) => 1,
        ExprM::Variable(_) => 1,
        ExprM::Binary(_, b) => 1 + expr_size(b.0) + expr_size(b.1),
        ExprM::Call(_, args) => 1 + exprs_size(args),
    }
}

pub open spec fn exprs_size(s: Seq<ExprM>) -> nat
    decreases s,
{
    if s.len() == 0 {
        0
    } else {
        exprs_size(s.drop_last()) + expr_size(s.last())
    }
}

pub open spec fn stmt_size(s: StmtM) -> nat
    decreases s,
{
    match s {
        StmtM::Assign(_, e) => 1 + expr_size(e),
        StmtM::If(c, b) => 1 + expr_size(c) + block_size(b),
        StmtM::While(c, b) => 1 + expr_size(c) + block_size(b),
        StmtM::Call(_, args) => 1 + exprs_size(args),
        StmtM::Return(e) => 1 + expr_size(e),
    }
}

pub open spec fn block_size(b: Seq<StmtM>) -> nat
    decreases b,
{
    if b.len() == 0 {
        0
    } else {
        block_size(b.drop_last()) + stmt_size(b.last())
    }
}

pub proof fn lemma_exprs_size_elem(s: Seq<ExprM>, i: int)
    requires
        0 <= i < s.len(),
    ensures
        expr_size(s[i]) <= exprs_size(s),
    decreases s,
{
    if i == s.len() - 1 {
    } else {
        lemma_exprs_size_elem(s.drop_last(), i);
        assert(s.drop_last()[i] == s[i]);
    }
}

pub proof fn lemma_block_size_elem(b: Seq<StmtM>, i: int)
    requires
        0 <= i < b.len(),
    ensures
        stmt_size(b[i]) <= block_size(b),
    decreases b,
{
    if i == b.len() - 1 {
    } else {
        lemma_block_size_elem(b.drop_last(), i);
        assert(b.drop_last()[i] == b[i]);
    }
}

pub proof fn lemma_exprs_m_len(s: Seq<Expression>)
    ensures
        exprs_m(s).len() == s.len(),
        forall|i: int| 0 <= i < s.len() ==> exprs_m(s)[i] == expr_m(#[trigger] s[i]),
    decreases s,
{
    if s.len() > 0 {
        lemma_exprs_m_len(s.drop_last());
        assert forall|i: int| 0 <= i < s.len() implies exprs_m(s)[i] == expr_m(
            #[trigger] s[i],
        ) by {
            if i < s.len() - 1 {
                assert(exprs_m(s)[i] == exprs_m(s.drop_last())[i]);
                assert(s.drop_last()[i] == s[i]);
            } else {
                assert(exprs_m(s)[i] == expr_m(s.last()));
            }
        }
    }
}

pub proof fn lemma_block_m_len(b: Seq<Statement>)
    ensures
        block_m(b).len() == b.len(),
        forall|i: int| 0 <= i < b.len() ==> block_m(b)[i] == stmt_m(#[trigger] b[i]),
    decreases b,
{
    if b.len() > 0 {
        lemma_block_m_len(b.drop_last());
        assert forall|i: int| 0 <= i < b.len() implies block_m(b)[i] == stmt_m(
            #[trigger] b[i],
        ) by {
            if i < b.len() - 1 {
                assert(block_m(b)[i] == block_m(b.drop_last())[i]);
                assert(b.drop_last()[i] == b[i]);
            } else {
                assert(block_m(b)[i] == stmt_m(b.last()));
            }
        }
    }
}

/// A variable name fit for versioning: nonempty and without `#`.
pub open spec fn wf_name(s: Seq<char>) -> bool {
    s.len() >= 1 && hash_free(s)
}

pub open spec fn wf_expr(e: Expression) -> bool
    decreases e,
{
    match e {
        Expression::Number(_) => true,
        Expression::Variable(v) => wf_name(v@),
        Expression::BinaryOperation(_, b) => wf_expr(b.0) && wf_expr(b.1),
        Expression::FunctionCall(fc) => wf_exprs(fc.arguments@),
    }
}

pub open spec fn wf_exprs(s: Seq<Expression>) -> bool
    decreases s,
{
    forall|i: int| 0 <= i < s.len() ==> wf_expr(#[trigger] s[i])
}

pub open spec fn wf_stmt(s: Statement) -> bool
    decreases s,
{
    match s {
        Statement::Assignment(a) => wf_name(a.variable_name@) && wf_expr(a.expression),
        Statement::IfStatement(i) => wf_expr(i.condition) && wf_block(i.block@),
        Statement::WhileLoop(w) => wf_expr(w.condition) && wf_block(w.block@),
        Statement::FunctionCall(fc) => wf_exprs(fc.arguments@),
        Statement::Return(e) => wf_expr(e),
    }
}

pub open spec fn wf_block(b: Seq<Statement>) -> bool
    decreases b,
{
    forall|i: int| 0 <= i < b.len() ==> wf_stmt(#[trigger] b[i])
}

pub open spec fn wf_params(ps: Seq<String>) -> bool {
    forall|i: int| 0 <= i < ps.len() ==> wf_name(#[trigger] ps[i]@)
}

pub open spec fn wf_function(f: Function) -> bool {
    match f {
        Function::Internal(f) => wf_params(f.parameters@) && wf_block(f.block@),
        Function::External(_) => true,
    }
}

pub open spec fn wf_program(p: Program) -> bool {
    forall|i: int| 0 <= i < p.functions@.len() ==> wf_function(#[trigger] p.functions@[i])
}

/// Structural equality of two tokens.
pub open spec fn spec_token_eq(a: Token, b: Token) -> bool {
    match (a, b) {
        (Token::Identifier(x), Token::Identifier(y)) => x@ == y@,
        (Token::Number(x), Token::Number(y)) => x == y,
        (Token::OpeningCurlyBracket, Token::OpeningCurlyBracket) => true,
        (Token::ClosingCurlyBracket, Token::ClosingCurlyBracket) => true,
        (Token::OpeningRoundBracket, Token::OpeningRoundBracket) => true,
        (Token::ClosingRoundBracket, Token::ClosingRoundBracket) => true,
        (Token::Semicolon, Token::Semicolon) => true,
        (Token::Comma, Token::Comma) => true,
        (Token::IfStatement, Token::IfStatement) => true,
        (Token::WhileLoop, Token::WhileLoop) => true,
        (Token::Function, Token::Function) => true,
        (Token::LogicAnd, Token::LogicAnd) => true,
        (Token::LogicOr, Token::LogicOr) => true,
        (Token::Assignment, Token::Assignment) => true,
        (Token::Equals, Token::Equals) => true,
        (Token::NotEquals, Token::NotEquals) => true,
        (Token::Greater, Token::Greater) => true,
        (Token::GreaterEquals, Token::GreaterEquals) => true,
        (Token::Less, Token::Less) => true,
        (Token::LessEquals, Token::LessEquals) => true,
        (Token::Addition, Token::Addition) => true,
        (Token::Subtraction, Token::Subtraction) => true,
        (Token::Multiplication, Token::Multiplication) => true,
        (Token::Division, Token::Division) => true,
        (Token::Modulo, Token::Modulo) => true,
        (Token::Return, Token::Return) => true,
        _ => false,
    }
}

fn token_eq(a: &Token, b: &Token) -> (r: bool)
    ensures
        r == spec_token_eq(*a, *b),
{
    match (a, b) {
        (Token::Identifier(x), Token::Identifier(y)) => *x == *y,
        (Token::Number(x), Token::Number(y)) => *x == *y,
        (Token::OpeningCurlyBracket, Token::OpeningCurlyBracket) => true,
        (Token::ClosingCurlyBracket, Token::ClosingCurlyBracket) => true,
        (Token::OpeningRoundBracket, Token::OpeningRoundBracket) => true,
        (Token::ClosingRoundBracket, Token::ClosingRoundBracket) => true,
        (Token::Semicolon, Token::Semicolon) => true,
        (Token::Comma, Token::Comma) => true,
        (Token::IfStatement, Token::IfStatement) => true,
        (Token::WhileLoop, Token::WhileLoop) => true,
        (Token::Function, Token::Function) => true,
        (Token::LogicAnd, Token::LogicAnd) => true,
        (Token::LogicOr, Token::LogicOr) => true,
        (Token::Assignment, Token::Assignment) => true,
        (Token::Equals, Token::Equals) => true,
        (Token::NotEquals, Token::NotEquals) => true,
        (Token::Greater, Token::Greater) => true,
        (Token::GreaterEquals, Token::GreaterEquals) => true,
        (Token::Less, Token::Less) => true,
        (Token::LessEquals, Token::LessEquals) => true,
        (Token::Addition, Token::Addition) => true,
        (Token::Subtraction, Token::Subtraction) => true,
        (Token::Multiplication, Token::Multiplication) => true,
        (Token::Division, Token::Division) => true,
        (Token::Modulo, Token::Modulo) => true,
        (Token::Return, Token::Return) => true,
        _ => false,
    }
}

/// Returns the token at `pos`, or the error that stands in its place.
pub fn get_token(toks: &TokenStream, pos: usize) -> (r: Result<Token, ParseError>)
    ensures
        r is Ok <==> pos < toks@.len() && toks@[pos as int] is Ok,
{
    if pos >= toks.len() {
        return Err(ParseError::TooFewTokens);
    }
    match &toks[pos] {
        Ok(t) => Ok(t.clone()),
        Err(e) => Err(ParseError::LexingError(e.clone())),
    }
}

/// Looks at the token at `pos` without consuming it; identical to
/// `get_token` on an indexed stream, and kept for callers that phrase their
/// intent as peeking.
pub fn get_peak_token(toks: &TokenStream, pos: usize) -> (r: Result<Token, ParseError>)
    ensures
        r is Ok <==> pos < toks@.len() && toks@[pos as int] is Ok,
{
    get_token(toks, pos)
}

/// Unwraps an identifier token into the name it carries.
pub fn get_identifier(token: Token) -> (r: Result<String, ParseError>)
    ensures
        r matches Ok(s) ==> token matches Token::Identifier(w) && s == w,
{
    match token {
        Token::Identifier(v) => Ok(v),
        t => Err(ParseError::UnexpectedToken(Token::Identifier(String::from_str("")), t)),
    }
}

/// Fails unless the two tokens are equal.
pub fn check_token(token: Token, expected_token: Token) -> (r: Result<(), ParseError>)
    ensures
        r is Ok <==> spec_token_eq(token, expected_token),
{
    if !token_eq(&token, &expected_token) {
        return Err(ParseError::UnexpectedToken(expected_token, token));
    }
    Ok(())
}

/// Reads the identifier at `pos` as an owned name.
fn take_identifier(toks: &TokenStream, pos: usize) -> (r: Result<String, ParseError>)
    requires
        pos < toks@.len(),
    ensures
        r matches Ok(s) ==> toks@[pos as int] matches Ok(t) && t matches Token::Identifier(w)
            && s@ == w@,
{
    match &toks[pos] {
        Ok(Token::Identifier(w)) => Ok(w.clone()),
        Ok(t) => Err(
            ParseError::UnexpectedToken(Token::Identifier(String::from_str("")), t.clone()),
        ),
        Err(e) => Err(ParseError::LexingError(e.clone())),
    }
}

/// Consumes the expected token at `pos` or fails.
fn expect_token(toks: &TokenStream, pos: usize, expected: Token) -> (r: Result<usize, ParseError>)
    ensures
        r matches Ok(p2) ==> p2 == pos + 1 && pos < toks@.len(),
{
    if pos >= toks.len() {
        return Err(ParseError::TooFewTokens);
    }
    match &toks[pos] {
        Ok(t) => {
            if token_eq(t, &expected) {
                Ok(pos + 1)
            } else {
                Err(ParseError::UnexpectedToken(expected, t.clone()))
            }
        },
        Err(e) => Err(ParseError::LexingError(e.clone())),
    }
}

/// Parses the comma-separated parameter names of a function header.
pub fn parse_argument(toks: &TokenStream, pos: usize) -> (r: Result<
    (Parameters, usize),
    ParseError,
>)
    requires
        pos <= toks@.len(),
        lexer::wf_tokens(toks@),
    ensures
        r matches Ok((ps, p2)) ==> pos <= p2 <= toks@.len() && wf_params(ps@),
{
    let mut parameters: Parameters = Vec::new();
    let mut p = pos;
    loop
        invariant
            pos <= p <= toks@.len(),
            lexer::wf_tokens(toks@),
            wf_params(parameters@),
        decreases toks@.len() - p,
    {
        if p >= toks.len() {
            return Err(ParseError::TooFewTokens);
        }
        match &toks[p] {
            Ok(Token::Identifier(w)) => {
                parameters.push(w.clone());
            },
            Ok(_) => {
                return Ok((parameters, p));
            },
            Err(e) => {
                return Err(ParseError::LexingError(e.clone()));
            },
        }
        p += 1;
        if p >= toks.len() {
            return Err(ParseError::TooFewTokens);
        }
        match &toks[p] {
            Ok(Token::Comma) => {
                p += 1;
            },
            Ok(_) => {
                return Ok((parameters, p));
            },
            Err(e) => {
                return Err(ParseError::LexingError(e.clone()));
            },
        }
    }
}

/// Parses an atom: a number, a variable, a function call, or a
/// parenthesised expression.
pub fn parse_expression_p1(toks: &TokenStream, pos: usize) -> (r: Result<
    (Expression, usize),
    ParseError,
>)
    requires
        pos <= toks@.len(),
        lexer::wf_tokens(toks@),
    ensures
        r matches Ok((e, p2)) ==> pos < p2 <= toks@.len() && wf_expr(e),
    decreases toks@.len() - pos, 3int,
{
    if pos >= toks.len() {
        return Err(ParseError::TooFewTokens);
    }
    match &toks[pos] {
        Ok(Token::Identifier(w)) => {
            // look one token ahead to tell a call from a plain variable
            if pos + 1 >= toks.len() {
                return Err(ParseError::TooFewTokens);
            }
            match &toks[pos + 1] {
                Ok(Token::OpeningRoundBracket) => {
                    let (fc, p2) = parse_function_call(toks, pos)?;
                    Ok((Expression::FunctionCall(fc), p2))
                },
                Ok(_) => Ok((Expression::Variable(w.clone()), pos + 1)),
                Err(e) => Err(ParseError::LexingError(e.clone())),
            }
        },
        Ok(Token::Number(n)) => Ok((Expression::Number(*n), pos + 1)),
        Ok(Token::OpeningRoundBracket) => {
            let (e, p2) = parse_expression(toks, pos + 1)?;
            let p3 = expect_token(toks, p2, Token::ClosingRoundBracket)?;
            Ok((e, p3))
        },
        Ok(t) => Err(
            ParseError::UnexpectedToken2(
                vec![
                    Token::Identifier(String::from_str("")),
                    Token::Number(0),
                    Token::OpeningRoundBracket,
                ],
                t.clone(),
            ),
        ),
        Err(e) => Err(ParseError::LexingError(e.clone())),
    }
}

/// Parses `* / %` chains, left associative.
pub fn parse_expression_p2(toks: &TokenStream, pos: usize) -> (r: Result<
    (Expression, usize),
    ParseError,
>)
    requires
        pos <= toks@.len(),
        lexer::wf_tokens(toks@),
    ensures
        r matches Ok((e, p2)) ==> pos < p2 <= toks@.len() && wf_expr(e),
    decreases toks@.len() - pos, 4int,
{
    let (first, first_pos) = parse_expression_p1(toks, pos)?;
    let mut left_side = first;
    let mut p = first_pos;
    loop
        invariant
            pos < p <= toks@.len(),
            lexer::wf_tokens(toks@),
            wf_expr(left_side),
        decreases toks@.len() - p,
    {
        if p >= toks.len() {
            return Err(ParseError::TooFewTokens);
        }
        let op = match &toks[p] {
            Ok(Token::Multiplication) => BinaryOperator::Multiplication,
            Ok(Token::Division) => BinaryOperator::Division,
            Ok(Token::Modulo) => BinaryOperator::Modulo,
            Ok(_) => {
                return Ok((left_side, p));
            },
            Err(e) => {
                return Err(ParseError::LexingError(e.clone()));
            },
        };
        let (right_side, p2) = parse_expression_p1(toks, p + 1)?;
        left_side = Expression::BinaryOperation(op, Box::new((left_side, right_side)));
        p = p2;
    }
}

/// Parses `+ -` chains, left associative.
pub fn parse_expression_p3(toks: &TokenStream, pos: usize) -> (r: Result<
    (Expression, usize),
    ParseError,
>)
    requires
        pos <= toks@.len(),
        lexer::wf_tokens(toks@),
    ensures
        r matches Ok((e, p2)) ==> pos < p2 <= toks@.len() && wf_expr(e),
    decreases toks@.len() - pos, 5int,
{
    let (first, first_pos) = parse_expression_p2(toks, pos)?;
    let mut left_side = first;
    let mut p = first_pos;
    loop
        invariant
            pos < p <= toks@.len(),
            lexer::wf_tokens(toks@),
            wf_expr(left_side),
        decreases toks@.len() - p,
    {
        if p >= toks.len() {
            return Err(ParseError::TooFewTokens);
        }
        let op = match &toks[p] {
            Ok(Token::Addition) => BinaryOperator::Addition,
            Ok(Token::Subtraction) => BinaryOperator::Subtraction,
            Ok(_) => {
                return Ok((left_side, p));
            },
            Err(e) => {
                return Err(ParseError::LexingError(e.clone()));
            },
        };
        let (right_side, p2) = parse_expression_p2(toks, p + 1)?;
        left_side = Expression::BinaryOperation(op, Box::new((left_side, right_side)));
        p = p2;
    }
}

/// Parses `> >= < <=` chains, left associative.
pub fn parse_expression_p4(toks: &TokenStream, pos: usize) -> (r: Result<
    (Expression, usize),
    ParseError,
>)
    requires
        pos <= toks@.len(),
        lexer::wf_tokens(toks@),
    ensures
        r matches Ok((e, p2)) ==> pos < p2 <= toks@.len() && wf_expr(e),
    decreases toks@.len() - pos, 6int,
{
    let (first, first_pos) = parse_expression_p3(toks, pos)?;
    let mut left_side = first;
    let mut p = first_pos;
    loop
        invariant
            pos < p <= toks@.len(),
            lexer::wf_tokens(toks@),
            wf_expr(left_side),
        decreases toks@.len() - p,
    {
        if p >= toks.len() {
            return Err(ParseError::TooFewTokens);
        }
        let op = match &toks[p] {
            Ok(Token::Greater) => BinaryOperator::Greater,
            Ok(Token::GreaterEquals) => BinaryOperator::GreaterEquals,
            Ok(Token::Less) => BinaryOperator::Less,
            Ok(Token::LessEquals) => BinaryOperator::LessEquals,
            Ok(_) => {
                return Ok((left_side, p));
            },
            Err(e) => {
                return Err(ParseError::LexingError(e.clone()));
            },
        };
        let (right_side, p2) = parse_expression_p3(toks, p + 1)?;
        left_side = Expression::BinaryOperation(op, Box::new((left_side, right_side)));
        p = p2;
    }
}

/// Parses `== !=` chains, left associative.
pub fn parse_expression_p5(toks: &TokenStream, pos: usize) -> (r: Result<
    (Expression, usize),
    ParseError,
>)
    requires
        pos <= toks@.len(),
        lexer::wf_tokens(toks@),
    ensures
        r matches Ok((e, p2)) ==> pos < p2 <= toks@.len() && wf_expr(e),
    decreases toks@.len() - pos, 7int,
{
    let (first, first_pos) = parse_expression_p4(toks, pos)?;
    let mut left_side = first;
    let mut p = first_pos;
    loop
        invariant
            pos < p <= toks@.len(),
            lexer::wf_tokens(toks@),
            wf_expr(left_side),
        decreases toks@.len() - p,
    {
        if p >= toks.len() {
            return Err(ParseError::TooFewTokens);
        }
        let op = match &toks[p] {
            Ok(Token::Equals) => BinaryOperator::Equals,
            Ok(Token::NotEquals) => BinaryOperator::NotEquals,
            Ok(_) => {
                return Ok((left_side, p));
            },
            Err(e) => {
                return Err(ParseError::LexingError(e.clone()));
            },
        };
        let (right_side, p2) = parse_expression_p4(toks, p + 1)?;
        left_side = Expression::BinaryOperation(op, Box::new((left_side, right_side)));
        p = p2;
    }
}

/// Parses an optional `&&`.
pub fn parse_expression_p6(toks: &TokenStream, pos: usize) -> (r: Result<
    (Expression, usize),
    ParseError,
>)
    requires
        pos <= toks@.len(),
        lexer::wf_tokens(toks@),
    ensures
        r matches Ok((e, p2)) ==> pos < p2 <= toks@.len() && wf_expr(e),
    decreases toks@.len() - pos, 8int,
{
    let (left_side, p) = parse_expression_p5(toks, pos)?;
    if p >= toks.len() {
        return Err(ParseError::TooFewTokens);
    }
    match &toks[p] {
        Ok(Token::LogicAnd) => {
            let (right_side, p2) = parse_expression_p5(toks, p + 1)?;
            Ok(
                (
                    Expression::BinaryOperation(
                        BinaryOperator::LogicAnd,
                        Box::new((left_side, right_side)),
                    ),
                    p2,
                ),
            )
        },
        Ok(_) => Ok((left_side, p)),
        Err(e) => Err(ParseError::LexingError(e.clone())),
    }
}

/// Parses an optional `||`.
pub fn parse_expression_p7(toks: &TokenStream, pos: usize) -> (r: Result<
    (Expression, usize),
    ParseError,
>)
    requires
        pos <= toks@.len(),
        lexer::wf_tokens(toks@),
    ensures
        r matches Ok((e, p2)) ==> pos < p2 <= toks@.len() && wf_expr(e),
    decreases toks@.len() - pos, 9int,
{
    let (left_side, p) = parse_expression_p6(toks, pos)?;
    if p >= toks.len() {
        return Err(ParseError::TooFewTokens);
    }
    match &toks[p] {
        Ok(Token::LogicOr) => {
            let (right_side, p2) = parse_expression_p6(toks, p + 1)?;
            Ok(
                (
                    Expression::BinaryOperation(
                        BinaryOperator::LogicOr,
                        Box::new((left_side, right_side)),
                    ),
                    p2,
                ),
            )
        },
        Ok(_) => Ok((left_side, p)),
        Err(e) => Err(ParseError::LexingError(e.clone())),
    }
}

/// Parses a full expression.
pub fn parse_expression(toks: &TokenStream, pos: usize) -> (r: Result<
    (Expression, usize),
    ParseError,
>)
    requires
        pos <= toks@.len(),
        lexer::wf_tokens(toks@),
    ensures
        r matches Ok((e, p2)) ==> pos < p2 <= toks@.len() && wf_expr(e),
    decreases toks@.len() - pos, 10int,
{
    parse_expression_p7(toks, pos)
}

/// Parses the comma-separated argument expressions of a call, up to the
/// closing bracket.
pub fn parse_arguments(toks: &TokenStream, pos: usize) -> (r: Result<
    (Arguments, usize),
    ParseError,
>)
    requires
        pos <= toks@.len(),
        lexer::wf_tokens(toks@),
    ensures
        r matches Ok((args, p2)) ==> pos <= p2 <= toks@.len() && wf_exprs(args@),
    decreases toks@.len() - pos, 11int,
{
    let mut arguments: Arguments = Vec::new();
    let mut p = pos;
    loop
        invariant
            pos <= p <= toks@.len(),
            lexer::wf_tokens(toks@),
            wf_exprs(arguments@),
        decreases toks@.len() - p,
    {
        if p >= toks.len() {
            return Err(ParseError::TooFewTokens);
        }
        match &toks[p] {
            Ok(Token::ClosingRoundBracket) => {
                return Ok((arguments, p));
            },
            Ok(_) => {},
            Err(e) => {
                return Err(ParseError::LexingError(e.clone()));
            },
        }
        let (expression, p2) = parse_expression(toks, p)?;
        if p2 >= toks.len() {
            return Err(ParseError::TooFewTokens);
        }
        let p3 = match &toks[p2] {
            Ok(Token::Comma) => p2 + 1,
            Ok(Token::ClosingRoundBracket) => p2,
            Ok(t) => {
                return Err(
                    ParseError::UnexpectedToken2(
                        vec![Token::Comma, Token::ClosingRoundBracket],
                        t.clone(),
                    ),
                );
            },
            Err(e) => {
                return Err(ParseError::LexingError(e.clone()));
            },
        };
        arguments.push(expression);
        p = p3;
    }
}

/// Parses `name ( arguments )`.
pub fn parse_function_call(toks: &TokenStream, pos: usize) -> (r: Result<
    (FunctionCall, usize),
    ParseError,
>)
    requires
        pos <= toks@.len(),
        lexer::wf_tokens(toks@),
    ensures
        r matches Ok((fc, p2)) ==> pos < p2 <= toks@.len() && wf_exprs(fc.arguments@),
    decreases toks@.len() - pos, 2int,
{
    if pos >= toks.len() {
        return Err(ParseError::TooFewTokens);
    }
    let name = take_identifier(toks, pos)?;
    let p1 = expect_token(toks, pos + 1, Token::OpeningRoundBracket)?;
    let (arguments, p2) = parse_arguments(toks, p1)?;
    let p3 = expect_token(toks, p2, Token::ClosingRoundBracket)?;
    Ok((FunctionCall { name, arguments }, p3))
}

/// Parses `name ( arguments ) ;` as a statement.
pub fn parse_function_call_statement(toks: &TokenStream, pos: usize) -> (r: Result<
    (Statement, usize),
    ParseError,
>)
    requires
        pos <= toks@.len(),
        lexer::wf_tokens(toks@),
    ensures
        r matches Ok((s, p2)) ==> pos < p2 <= toks@.len() && wf_stmt(s),
    decreases toks@.len() - pos, 17int,
{
    let (function_call, p) = parse_function_call(toks, pos)?;
    let p2 = expect_token(toks, p, Token::Semicolon)?;
    Ok((Statement::FunctionCall(function_call), p2))
}

/// Parses `name = expression ;`.
pub fn parse_assignment(toks: &TokenStream, pos: usize) -> (r: Result<
    (Statement, usize),
    ParseError,
>)
    requires
        pos <= toks@.len(),
        lexer::wf_tokens(toks@),
    ensures
        r matches Ok((s, p2)) ==> pos < p2 <= toks@.len() && wf_stmt(s),
    decreases toks@.len() - pos, 17int,
{
    if pos >= toks.len() {
        return Err(ParseError::TooFewTokens);
    }
    let variable_name = take_identifier(toks, pos)?;
    let p1 = expect_token(toks, pos + 1, Token::Assignment)?;
    let (expression, p2) = parse_expression(toks, p1)?;
    let p3 = expect_token(toks, p2, Token::Semicolon)?;
    Ok((Statement::Assignment(Assignment { variable_name, expression }), p3))
}

/// Parses `if ( condition ) { block }`.
pub fn parse_if_statement(toks: &TokenStream, pos: usize) -> (r: Result<
    (Statement, usize),
    ParseError,
>)
    requires
        pos <= toks@.len(),
        lexer::wf_tokens(toks@),
    ensures
        r matches Ok((s, p2)) ==> pos < p2 <= toks@.len() && wf_stmt(s),
    decreases toks@.len() - pos, 18int,
{
    let p1 = expect_token(toks, pos, Token::IfStatement)?;
    let p2 = expect_token(toks, p1, Token::OpeningRoundBracket)?;
    let (condition, p3) = parse_expression(toks, p2)?;
    let p4 = expect_token(toks, p3, Token::ClosingRoundBracket)?;
    let p5 = expect_token(toks, p4, Token::OpeningCurlyBracket)?;
    let (block, p6) = parse_block(toks, p5)?;
    let p7 = expect_token(toks, p6, Token::ClosingCurlyBracket)?;
    Ok((Statement::IfStatement(IfStatement { condition, block }), p7))
}

/// Parses `while ( condition ) { block }`.
pub fn parse_while_loop(toks: &TokenStream, pos: usize) -> (r: Result<
    (Statement, usize),
    ParseError,
>)
    requires
        pos <= toks@.len(),
        lexer::wf_tokens(toks@),
    ensures
        r matches Ok((s, p2)) ==> pos < p2 <= toks@.len() && wf_stmt(s),
    decreases toks@.len() - pos, 18int,
{
    let p1 = expect_token(toks, pos, Token::WhileLoop)?;
    let p2 = expect_token(toks, p1, Token::OpeningRoundBracket)?;
    let (condition, p3) = parse_expression(toks, p2)?;
    let p4 = expect_token(toks, p3, Token::ClosingRoundBracket)?;
    let p5 = expect_token(toks, p4, Token::OpeningCurlyBracket)?;
    let (block, p6) = parse_block(toks, p5)?;
    let p7 = expect_token(toks, p6, Token::ClosingCurlyBracket)?;
    Ok((Statement::WhileLoop(WhileLoop { condition, block }), p7))
}

/// Parses one statement, dispatching on the first token.
pub fn parse_statement(toks: &TokenStream, pos: usize) -> (r: Result<
    (Statement, usize),
    ParseError,
>)
    requires
        pos <= toks@.len(),
        lexer::wf_tokens(toks@),
    ensures
        r matches Ok((s, p2)) ==> pos < p2 <= toks@.len() && wf_stmt(s),
    decreases toks@.len() - pos, 19int,
{
    if pos >= toks.len() {
        return Err(ParseError::TooFewTokens);
    }
    match &toks[pos] {
        Ok(Token::Identifier(_)) => {
            if pos + 1 >= toks.len() {
                return Err(ParseError::TooFewTokens);
            }
            match &toks[pos + 1] {
                Ok(Token::Assignment) => parse_assignment(toks, pos),
                Ok(Token::OpeningRoundBracket) => parse_function_call_statement(toks, pos),
                Ok(t) => Err(
                    ParseError::UnexpectedToken2(
                        vec![Token::Assignment, Token::OpeningRoundBracket],
                        t.clone(),
                    ),
                ),
                Err(e) => Err(ParseError::LexingError(e.clone())),
            }
        },
        Ok(Token::IfStatement) => parse_if_statement(toks, pos),
        Ok(Token::WhileLoop) => parse_while_loop(toks, pos),
        Ok(Token::Return) => {
            let (expression, p2) = parse_expression(toks, pos + 1)?;
            let p3 = expect_token(toks, p2, Token::Semicolon)?;
            Ok((Statement::Return(expression), p3))
        },
        Ok(t) => Err(
            ParseError::UnexpectedToken2(
                vec![
                    Token::Identifier(String::from_str("")),
                    Token::IfStatement,
                    Token::WhileLoop,
                ],
                t.clone(),
            ),
        ),
        Err(e) => Err(ParseError::LexingError(e.clone())),
    }
}

/// Parses statements up to the closing curly bracket.
pub fn parse_block(toks: &TokenStream, pos: usize) -> (r: Result<(Block, usize), ParseError>)
    requires
        pos <= toks@.len(),
        lexer::wf_tokens(toks@),
    ensures
        r matches Ok((b, p2)) ==> pos <= p2 <= toks@.len() && wf_block(b@),
    decreases toks@.len() - pos, 20int,
{
    let mut block: Block = Vec::new();
    let mut p = pos;
    loop
        invariant
            pos <= p <= toks@.len(),
            lexer::wf_tokens(toks@),
            wf_block(block@),
        decreases toks@.len() - p,
    {
        if p >= toks.len() {
            return Err(ParseError::TooFewTokens);
        }
        match &toks[p] {
            Ok(Token::ClosingCurlyBracket) => {
                return Ok((block, p));
            },
            Ok(_) => {},
            Err(e) => {
                return Err(ParseError::LexingError(e.clone()));
            },
        }
        let (statement, p2) = parse_statement(toks, p)?;
        block.push(statement);
        p = p2;
    }
}

/// Parses `fun name ( parameters ) { block }`.
pub fn parse_function(toks: &TokenStream, pos: usize) -> (r: Result<
    (InternalFunction, usize),
    ParseError,
>)
    requires
        pos <= toks@.len(),
        lexer::wf_tokens(toks@),
    ensures
        r matches Ok((f, p2)) ==> pos < p2 <= toks@.len() && wf_params(f.parameters@) && wf_block(
            f.block@,
        ),
    decreases toks@.len() - pos, 21int,
{
    let p1 = expect_token(toks, pos, Token::Function)?;
    if p1 >= toks.len() {
        return Err(ParseError::TooFewTokens);
    }
    let name = take_identifier(toks, p1)?;
    let p2 = expect_token(toks, p1 + 1, Token::OpeningRoundBracket)?;
    let (parameters, p3) = parse_argument(toks, p2)?;
    let p4 = expect_token(toks, p3, Token::ClosingRoundBracket)?;
    let p5 = expect_token(toks, p4, Token::OpeningCurlyBracket)?;
    let (block, p6) = parse_block(toks, p5)?;
    let p7 = expect_token(toks, p6, Token::ClosingCurlyBracket)?;
    Ok((InternalFunction { name, parameters, block }, p7))
}

/// Parses a whole program: a sequence of function definitions covering the
/// entire token stream.
pub fn parse(toks: &TokenStream) -> (r: Result<Program, ParseError>)
    requires
        lexer::wf_tokens(toks@),
    ensures
        r matches Ok(p) ==> wf_program(p),
{
    let mut functions: Vec<Function> = Vec::new();
    let mut pos: usize = 0;
    loop
        invariant
            pos <= toks@.len(),
            lexer::wf_tokens(toks@),
            forall|i: int|
                0 <= i < functions@.len() ==> wf_function(#[trigger] functions@[i]),
        decreases toks@.len() - pos,
    {
        if pos >= toks.len() {
            return Ok(Program { functions });
        }
        let (f, p2) = parse_function(toks, pos)?;
        functions.push(Function::Internal(f));
        pos = p2;
    }
}

} // verus!
