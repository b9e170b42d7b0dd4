use crate::interner::Interner;
use crate::rational::Ratio;
use crate::span::Spanned;
use vstd::prelude::*;

verus! {

/// One parsed line.
#[derive(Debug)]
pub enum Statement {
    Expression(Spanned<Expression>),
    Assign { name: Spanned<Identifier>, value: Spanned<Expression> },
    SetPrecision(Spanned<Expression>),
    FullPrecision,
    Help,
    Exit,
    Vars,
}

#[derive(Debug)]
pub enum Expression {
    Number(Ratio),
    Variable(Spanned<Identifier>),
    BinaryOp { op: Spanned<BinaryOp>, lhs: Spanned<Box<Expression>>, rhs: Spanned<Box<Expression>> },
    UnaryOp { op: Spanned<UnaryOp>, expr: Spanned<Box<Expression>> },
}

#[derive(Clone, Copy, Debug, Hash, PartialEq, Eq, Structural, PartialOrd, Ord)]
pub enum BinaryOp {
    Add,
    Sub,
    Mul,
    Div,
}

#[derive(Clone, Copy, Debug, Hash, PartialEq, Eq, Structural, PartialOrd, Ord)]
pub enum UnaryOp {
    Neg,
}

/// A variable name, held as its key in an `Interner`: identifiers compare
/// by key.
#[derive(Clone, Copy, Debug, Hash, PartialEq, Eq, Structural, PartialOrd, Ord)]
pub struct Identifier(pub usize);

impl Identifier {
    pub fn new(key: usize) -> (r: Identifier)
        ensures
            r.0 == key,
    {
        Identifier(key)
    }

    /// The name's text.
    pub fn resolve<'a>(&self, names: &'a Interner) -> (r: &'a str)
        requires
            self.0 < names.names().len(),
        ensures
            r@ == names.names()[self.0 as int],
    {
        names.resolve(self.0)
    }
}

pub open spec fn binary_symbol(op: BinaryOp) -> char {
    match op {
        BinaryOp::Add => '+',
        BinaryOp::Sub => '-',
        BinaryOp::Mul => '*',
        BinaryOp::Div => '/',
    }
}

impl BinaryOp {
    /// The operator as written.
    pub fn symbol(self) -> (r: &'static str)
        ensures
            r@ == seq![binary_symbol(self)],
    {
        proof {
            reveal_strlit("+");
            reveal_strlit("-");
            reveal_strlit("*");
            reveal_strlit("/");
        }
        match self {
            BinaryOp::Add => "+",
            BinaryOp::Sub => "-",
            BinaryOp::Mul => "*",
            BinaryOp::Div => "/",
        }
    }
}

impl UnaryOp {
    /// The operator as written.
    pub fn symbol(self) -> (r: &'static str)
        ensures
            r@ == seq!['-'],
    {
        proof {
            reveal_strlit("-");
        }
        match self {
            UnaryOp::Neg => "-",
        }
    }
}

/// Every number in the expression is a well-formed rational.
pub open spec fn numbers_wf(e: Expression) -> bool
    decreases e,
{
    match e {
        Expression::Number(n) => n.wf(),
        Expression::Variable(_) => true,
        Expression::BinaryOp { op, lhs, rhs } => numbers_wf(*lhs.0) && numbers_wf(*rhs.0),
        Expression::UnaryOp { op, expr } => numbers_wf(*expr.0),
    }
}

pub open spec fn statement_numbers_wf(s: Statement) -> bool {
    match s {
        Statement::Expression(e) => numbers_wf(e.0),
        Statement::Assign { name, value } => numbers_wf(value.0),
        Statement::SetPrecision(e) => numbers_wf(e.0),
        _ => true,
    }
}

/// Every variable in the expression has a key below `n`.
pub open spec fn names_below(e: Expression, n: nat) -> bool
    decreases e,
{
    match e {
        Expression::Number(_) => true,
        Expression::Variable(id) => id.0.0 < n,
        Expression::BinaryOp { op, lhs, rhs } => names_below(*lhs.0, n) && names_below(*rhs.0, n),
        Expression::UnaryOp { op, expr } => names_below(*expr.0, n),
    }
}

pub open spec fn statement_names_below(s: Statement, n: nat) -> bool {
    match s {
        Statement::Expression(e) => names_below(e.0, n),
        Statement::Assign { name, value } => name.0.0 < n && names_below(value.0, n),
        Statement::SetPrecision(e) => names_below(e.0, n),
        _ => true,
    }
}

} // verus!
