//! The expression parser: turns a token sequence into a strictly
//! left-associative binary-expression tree over numeric literals.
//!
//! No operator precedence exists: `a op1 b op2 c` always parses as
//! `(a op1 b) op2 c`, whatever the operators are. The first token must be an
//! integer or floating-point literal; after that, operators and integer
//! literals alternate until the tokens run out.

use vstd::prelude::*;

use crate::LiteralType;
use crate::Symbol;
use crate::Token;
use crate::TokenModel;
use crate::token_models;

verus! {

/// An integer literal node.
pub struct IntegerLiteral {
    pub value: i64,
}

/// A binary operator of an expression tree.
#[derive(Debug, Clone, Copy, PartialEq, Eq)]
pub enum BinOperators {
    Add,
    Subtract,
    Multiply,
    Divide,
}

/// A literal expression value. As in the token stream, a floating-point
/// literal keeps its exact source spelling.
#[derive(Debug, Clone, PartialEq)]
pub enum Literal {
    Integer(i64),
    Float(String),
    Str(String),
    Boolean(bool),
}

/// An expression tree: a literal leaf or a binary operation over two
/// exclusively owned sub-trees.
#[derive(Debug, PartialEq)]
pub enum Expression {
    Literal(Literal),
    BinaryExpr(BinaryExpr),
}

/// A binary operation: left operand, right operand, operator.
#[derive(Debug, PartialEq)]
pub struct BinaryExpr {
    pub left: Box<Expression>,
    pub right: Box<Expression>,
    pub operator: BinOperators,
}

/// An infix expression written with the operator kept as text.
pub struct InfixExpression {
    pub left: Box<Expression>,
    pub operator: String,
    pub right: Box<Expression>,
}

/// The mathematical value of a literal expression.
pub enum LiteralModel {
    Integer(int),
    Float(Seq<char>),
    Str(Seq<char>),
    Boolean(bool),
}

/// The mathematical value of an expression tree.
pub enum ExprModel {
    Literal(LiteralModel),
    Binary(Box<ExprModel>, Box<ExprModel>, BinOperators),
}

impl View for Literal {
    type V = LiteralModel;

    open spec fn view(&self) -> LiteralModel {
        match self {
            Literal::Integer(n) => LiteralModel::Integer(*n as int),
            Literal::Float(t) => LiteralModel::Float(t@),
            Literal::Str(t) => LiteralModel::Str(t@),
            Literal::Boolean(b) => LiteralModel::Boolean(*b),
        }
    }
}

impl View for Expression {
    type V = ExprModel;

    open spec fn view(&self) -> ExprModel
        decreases self,
    {
        match self {
            Expression::Literal(l) => ExprModel::Literal(l@),
            Expression::BinaryExpr(b) => ExprModel::Binary(
                Box::new((*b.left)@),
                Box::new((*b.right)@),
                b.operator,
            ),
        }
    }
}

/// Why parsing failed. Every syntax error aborts the parse; a malformed
/// token sequence yields no tree.
#[derive(Debug, Clone, Copy, PartialEq, Eq)]
pub enum ParseError {
    /// A numeric literal was owed: as the first token, or right after an
    /// operator, where only an integer literal is accepted.
    ExpectedNumber,
    /// The token standing where one of the four arithmetic operators was
    /// owed is no such operator.
    UnsupportedOperator,
}

impl ParseError {
    /// A short diagnostic text for the error kind.
    pub fn message(&self) -> (r: &'static str)
        ensures
            r@ == match self {
                ParseError::ExpectedNumber => "expected a numeric value"@,
                ParseError::UnsupportedOperator => "unsupported operator"@,
            },
    {
        match self {
            ParseError::ExpectedNumber => "expected a numeric value",
            ParseError::UnsupportedOperator => "unsupported operator",
        }
    }
}

/// The operator a symbol stands for, if the parser accepts it.
pub open spec fn op_of(sym: Symbol) -> Option<BinOperators> {
    match sym {
        Symbol::Plus => Some(BinOperators::Add),
        Symbol::Minus => Some(BinOperators::Subtract),
        Symbol::Asterisk => Some(BinOperators::Multiply),
        Symbol::Slash => Some(BinOperators::Divide),
        _ => None,
    }
}

/// The operator a token stands for: only a symbol token can hold one.
pub open spec fn op_of_token(t: TokenModel) -> Option<BinOperators> {
    match t {
        TokenModel::Symbol(sym) => op_of(sym),
        _ => None,
    }
}

/// The integer an integer-literal token carries.
pub open spec fn int_lit_of(t: TokenModel) -> Option<int> {
    match t {
        TokenModel::IntLit(n) => Some(n),
        _ => None,
    }
}

/// The leading operand an expression starts from: an integer or
/// floating-point literal, and nothing else.
pub open spec fn operand_of(t: TokenModel) -> Option<ExprModel> {
    match t {
        TokenModel::IntLit(n) => Some(ExprModel::Literal(LiteralModel::Integer(n))),
        TokenModel::FloatLit(s) => Some(ExprModel::Literal(LiteralModel::Float(s))),
        _ => None,
    }
}

/// Continues a parse from position `i` with `acc` as the expression built so
/// far: while tokens remain, an accepted operator and an integer literal must
/// follow, and each pair wraps `acc` as the left operand of a new node.
pub open spec fn parse_from(toks: Seq<TokenModel>, i: int, acc: ExprModel) -> Result<
    ExprModel,
    ParseError,
>
    decreases toks.len() - i,
{
    if i >= toks.len() {
        Ok(acc)
    } else {
        match op_of_token(toks[i]) {
            Some(op) => if i + 1 < toks.len() && int_lit_of(toks[i + 1]) is Some {
                parse_from(
                    toks,
                    i + 2,
                    ExprModel::Binary(
                        Box::new(acc),
                        Box::new(
                            ExprModel::Literal(LiteralModel::Integer(int_lit_of(toks[i + 1])->0)),
                        ),
                        op,
                    ),
                )
            } else {
                Err(ParseError::ExpectedNumber)
            },
            None => Err(ParseError::UnsupportedOperator),
        }
    }
}

/// What parsing a whole token sequence yields: the first token must be a
/// numeric literal, and the rest is a left-associative chain of operators
/// and integer literals.
pub open spec fn parse_tokens(toks: Seq<TokenModel>) -> Result<ExprModel, ParseError> {
    if toks.len() == 0 {
        Err(ParseError::ExpectedNumber)
    } else {
        match operand_of(toks[0]) {
            Some(first) => parse_from(toks, 1, first),
            None => Err(ParseError::ExpectedNumber),
        }
    }
}

/// The operator a token stands for, if the parser accepts it.
fn op_for(t: &Token) -> (r: Option<BinOperators>)
    ensures
        r == op_of_token(t@),
{
    match t {
        Token::Symbol(Symbol::Plus) => Some(BinOperators::Add),
        Token::Symbol(Symbol::Minus) => Some(BinOperators::Subtract),
        Token::Symbol(Symbol::Asterisk) => Some(BinOperators::Multiply),
        Token::Symbol(Symbol::Slash) => Some(BinOperators::Divide),
        _ => None,
    }
}

/// The integer an integer-literal token carries.
fn int_for(t: &Token) -> (r: Option<i64>)
    ensures
        match r {
            Some(v) => int_lit_of(t@) == Some(v as int),
            None => int_lit_of(t@) is None,
        },
{
    match t {
        Token::Literal(LiteralType::Int(v)) => Some(*v),
        _ => None,
    }
}

/// The leading operand a token opens, if it is a numeric literal.
fn operand_for(t: &Token) -> (r: Option<Expression>)
    ensures
        match r {
            Some(e) => operand_of(t@) == Some(e@),
            None => operand_of(t@) is None,
        },
{
    match t {
        Token::Literal(LiteralType::Int(v)) => Some(Expression::Literal(Literal::Integer(*v))),
        Token::Literal(LiteralType::Float(s)) => Some(
            Expression::Literal(Literal::Float(s.clone())),
        ),
        _ => None,
    }
}

/// Parses a token sequence into the expression tree that `parse_tokens`
/// describes, or reports exactly the syntax error it describes.
pub fn binary_expr_parse(token: &[Token]) -> (r: Result<Expression, ParseError>)
    ensures
        match r {
            Ok(e) => parse_tokens(token_models(token@)) == Ok::<ExprModel, ParseError>(e@),
            Err(pe) => parse_tokens(token_models(token@)) == Err::<ExprModel, ParseError>(pe),
        },
{
    let ghost toks = token_models(token@);
    let n = token.len();
    if n == 0 {
        return Err(ParseError::ExpectedNumber);
    }
    assert(toks[0] == token@[0]@);
    let mut expr: Expression = match operand_for(&token[0]) {
        Some(e) => e,
        None => {
            return Err(ParseError::ExpectedNumber);
        },
    };
    let mut i: usize = 1;
    while i < n
        invariant
            1 <= i <= n,
            n == token@.len(),
            toks == token_models(token@),
            parse_tokens(toks) == parse_from(toks, i as int, expr@),
        decreases n - i,
    {
        let ghost acc0 = expr@;
        assert(toks[i as int] == token@[i as int]@);
        let op = match op_for(&token[i]) {
            Some(op) => op,
            None => {
                return Err(ParseError::UnsupportedOperator);
            },
        };
        if i + 1 >= n {
            return Err(ParseError::ExpectedNumber);
        }
        assert(toks[i as int + 1] == token@[i as int + 1]@);
        let right = match int_for(&token[i + 1]) {
            Some(v) => Expression::Literal(Literal::Integer(v)),
            None => {
                return Err(ParseError::ExpectedNumber);
            },
        };
        let ghost rhs = right@;
        expr = Expression::BinaryExpr(
            BinaryExpr { left: Box::new(expr), right: Box::new(right), operator: op },
        );
        proof {
            assert(expr@ == ExprModel::Binary(Box::new(acc0), Box::new(rhs), op));
            assert(parse_from(toks, i as int, acc0) == parse_from(toks, i as int + 2, expr@));
        }
        i = i + 2;
    }
    Ok(expr)
}

} // verus!
