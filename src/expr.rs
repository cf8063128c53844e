use vstd::prelude::*;

verus! {

/// The four binary operators.
#[derive(Clone, Copy, Debug, PartialEq, Eq, Structural)]
pub enum BinOp {
    Add,
    Sub,
    Mul,
    Div,
}

/// The character that writes `op`.
pub open spec fn op_char(op: BinOp) -> char {
    match op {
        BinOp::Add => '+',
        BinOp::Sub => '-',
        BinOp::Mul => '*',
        BinOp::Div => '/',
    }
}

/// The operator that `c` writes, if any.
pub open spec fn op_of(c: char) -> Option<BinOp> {
    if c == '+' {
        Some(BinOp::Add)
    } else if c == '-' {
        Some(BinOp::Sub)
    } else if c == '*' {
        Some(BinOp::Mul)
    } else if c == '/' {
        Some(BinOp::Div)
    } else {
        None
    }
}

impl BinOp {
    /// The operator that `c` writes, if any.
    pub fn from_char(c: char) -> (r: Option<BinOp>)
        ensures
            r == op_of(c),
    {
        match c {
            '+' => Some(BinOp::Add),
            '-' => Some(BinOp::Sub),
            '*' => Some(BinOp::Mul),
            '/' => Some(BinOp::Div),
            _ => None,
        }
    }

    /// The character that writes this operator.
    pub fn symbol(&self) -> (r: char)
        ensures
            r == op_char(*self),
    {
        match self {
            BinOp::Add => '+',
            BinOp::Sub => '-',
            BinOp::Mul => '*',
            BinOp::Div => '/',
        }
    }
}

/// An expression tree: a number literal as written, or an operator applied
/// to a left and a right operand.
#[derive(Debug, PartialEq, Eq)]
pub enum Expr {
    Number(String),
    Binary(BinOp, Box<Expr>, Box<Expr>),
}

/// The mathematical value of an [`Expr`]: the same tree over character
/// sequences.
pub enum Term {
    Number(Seq<char>),
    Binary(BinOp, Box<Term>, Box<Term>),
}

pub open spec fn term_of(e: Expr) -> Term
    decreases e,
{
    match e {
        Expr::Number(s) => Term::Number(s@),
        Expr::Binary(op, l, r) => Term::Binary(op, Box::new(term_of(*l)), Box::new(term_of(*r))),
    }
}

impl View for Expr {
    type V = Term;

    open spec fn view(&self) -> Term {
        term_of(*self)
    }
}

/// The postfix tokens that write the tree `t`.
pub open spec fn postfix(t: Term) -> Seq<Seq<char>>
    decreases t,
{
    match t {
        Term::Number(s) => seq![s],
        Term::Binary(op, l, r) => postfix(*l) + postfix(*r) + seq![seq![op_char(op)]],
    }
}

/// The tree written in infix form with every operation in parentheses.
pub open spec fn parenthesized(t: Term) -> Seq<char>
    decreases t,
{
    match t {
        Term::Number(s) => s,
        Term::Binary(op, l, r) => seq!['('] + parenthesized(*l) + seq![op_char(op)] + parenthesized(
            *r,
        ) + seq![')'],
    }
}

} // verus!
