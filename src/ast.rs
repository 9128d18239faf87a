use vstd::prelude::*;

use crate::lexer::Token;

verus! {

/// A name: of a temporary, a label or a function.
#[derive(Debug, Clone, Hash, PartialEq, PartialOrd, Ord, Eq)]
pub struct Identifier(pub String);

impl View for Identifier {
    type V = Seq<char>;

    open spec fn view(&self) -> Seq<char> {
        self.0@
    }
}

/// A node of the program tree handed over by the front end.
#[derive(Debug)]
pub enum AstNode {
    Expression(Expression),
    Statement(Statement),
    FunctionDeclaration(FunctionDecl),
    Program(Vec<AstNode>),
}

#[derive(Debug, Clone, Copy, PartialEq, Eq, Structural)]
pub enum UnaryOperator {
    /// Bitwise complement, `~x`.
    Complement,
    /// Arithmetic negation, `-x`.
    Negate,
    /// Logical not, `!x`.
    Not,
}

/// The unary operator that a token stands for, if any.
pub open spec fn unary_of_token(token: Token) -> Option<UnaryOperator> {
    match token {
        Token::Hyphen => Some(UnaryOperator::Negate),
        Token::Tilde => Some(UnaryOperator::Complement),
        Token::Not => Some(UnaryOperator::Not),
        _ => None,
    }
}

impl UnaryOperator {
    pub fn from_token(token: &Token) -> (r: Option<Self>)
        ensures
            r == unary_of_token(*token),
    {
        match token {
            Token::Hyphen => Some(UnaryOperator::Negate),
            Token::Tilde => Some(UnaryOperator::Complement),
            Token::Not => Some(UnaryOperator::Not),
            _ => None,
        }
    }
}

#[derive(Debug, Clone, Copy, PartialEq, Eq, Structural)]
pub enum BinaryOperator {
    Add,
    Substract,
    Multiply,
    Divide,
    Remainder,
    And,
    Or,
    Equal,
    NotEqual,
    LessThan,
    LessOrEqual,
    GreaterThan,
    GreaterOrEqual,
}

/// Binding strength of a binary operator: a higher value binds tighter.
pub open spec fn precedence_of(op: BinaryOperator) -> i32 {
    match op {
        BinaryOperator::Add | BinaryOperator::Substract => 45,
        BinaryOperator::Multiply | BinaryOperator::Divide | BinaryOperator::Remainder => 50,
        BinaryOperator::And => 10,
        BinaryOperator::Or => 5,
        BinaryOperator::Equal | BinaryOperator::NotEqual => 30,
        BinaryOperator::LessThan
        | BinaryOperator::LessOrEqual
        | BinaryOperator::GreaterThan
        | BinaryOperator::GreaterOrEqual => 35,
    }
}

/// The binary operator that a token stands for, if any.
pub open spec fn binary_of_token(token: Token) -> Option<BinaryOperator> {
    match token {
        Token::Plus => Some(BinaryOperator::Add),
        Token::Slash => Some(BinaryOperator::Divide),
        Token::Hyphen => Some(BinaryOperator::Substract),
        Token::PercentSign => Some(BinaryOperator::Remainder),
        Token::Asteriks => Some(BinaryOperator::Multiply),
        Token::And => Some(BinaryOperator::And),
        Token::Or => Some(BinaryOperator::Or),
        Token::EqualTo => Some(BinaryOperator::Equal),
        Token::NotEqualTo => Some(BinaryOperator::NotEqual),
        Token::LessThan => Some(BinaryOperator::LessThan),
        Token::LessThanEqualTo => Some(BinaryOperator::LessOrEqual),
        Token::GreaterThan => Some(BinaryOperator::GreaterThan),
        Token::GreaterThanEqualTo => Some(BinaryOperator::GreaterOrEqual),
        _ => None,
    }
}

impl BinaryOperator {
    pub fn precedence(&self) -> (r: i32)
        ensures
            r == precedence_of(*self),
    {
        match self {
            BinaryOperator::Add => 45,
            BinaryOperator::Substract => 45,
            BinaryOperator::Multiply => 50,
            BinaryOperator::Divide => 50,
            BinaryOperator::Remainder => 50,
            BinaryOperator::And => 10,
            BinaryOperator::Or => 5,
            BinaryOperator::Equal => 30,
            BinaryOperator::NotEqual => 30,
            BinaryOperator::LessThan => 35,
            BinaryOperator::LessOrEqual => 35,
            BinaryOperator::GreaterThan => 35,
            BinaryOperator::GreaterOrEqual => 35,
        }
    }

    pub fn from_token(token: &Token) -> (r: Option<Self>)
        ensures
            r == binary_of_token(*token),
    {
        match token {
            Token::Plus => Some(BinaryOperator::Add),
            Token::Slash => Some(BinaryOperator::Divide),
            Token::Hyphen => Some(BinaryOperator::Substract),
            Token::PercentSign => Some(BinaryOperator::Remainder),
            Token::Asteriks => Some(BinaryOperator::Multiply),
            Token::And => Some(BinaryOperator::And),
            Token::Or => Some(BinaryOperator::Or),
            Token::EqualTo => Some(BinaryOperator::Equal),
            Token::NotEqualTo => Some(BinaryOperator::NotEqual),
            Token::LessThan => Some(BinaryOperator::LessThan),
            Token::LessThanEqualTo => Some(BinaryOperator::LessOrEqual),
            Token::GreaterThan => Some(BinaryOperator::GreaterThan),
            Token::GreaterThanEqualTo => Some(BinaryOperator::GreaterOrEqual),
            _ => None,
        }
    }
}

#[derive(Debug)]
pub enum Expression {
    Factor(Factor),
    Binary(Box<Expression>, BinaryOperator, Box<Expression>),
}

#[derive(Debug)]
pub enum Factor {
    Constant(i32),
    Unary(UnaryOperator, Box<Expression>),
    ParentedExpression(Box<Expression>),
}

#[derive(Debug)]
pub enum Statement {
    VariableDeclaration { var_type: VarType, name: String, initializer: Option<Expression> },
    ReturnStatement(Option<Expression>),
    Compound(Vec<Statement>),
}

#[derive(Debug)]
pub struct FunctionDecl {
    pub return_type: VarType,
    pub name: String,
    pub parameters: Vec<(VarType, String)>,
    pub body: Statement,
}

#[derive(Debug, Clone, Copy, PartialEq, Eq, Structural)]
pub enum VarType {
    Int,
    Void,
}

} // verus!
