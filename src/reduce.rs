use vstd::prelude::*;
use crate::convert::tokens_view;
use crate::error::CalcError;
use crate::expr::{op_of, BinOp, Expr, Term};
use crate::literal::{is_number_literal, number_literal};
use crate::text::chars_of;

verus! {

/// Why a postfix sequence did not reduce to one tree, with the operands on
/// the stack at that moment, bottom first. They were all built before the
/// failure, so a caller that computes values can find a failure among them
/// that came earlier.
#[derive(Debug, PartialEq, Eq)]
pub struct TreeError {
    pub error: CalcError,
    pub operands: Vec<Expr>,
}

pub open spec fn exprs_view(v: Seq<Expr>) -> Seq<Term> {
    v.map_values(|e: Expr| e@)
}

/// The stack after one token: a number is pushed; an operator replaces the
/// two topmost operands (left below right) by their combination.
pub open spec fn reduce_token(stack: Seq<Term>, t: Seq<char>) -> Result<Seq<Term>, CalcError> {
    if is_number_literal(t) {
        Ok(stack.push(Term::Number(t)))
    } else if t.len() == 1 && op_of(t[0]) is Some {
        if stack.len() < 2 {
            Err(CalcError::InsufficientOperands)
        } else {
            let n = stack.len();
            Ok(
                stack.take(n - 2).push(
                    Term::Binary(op_of(t[0])->0, Box::new(stack[n - 2]), Box::new(stack[n - 1])),
                ),
            )
        }
    } else {
        Err(CalcError::InvalidToken)
    }
}

/// Reduces `tokens` in order from `stack`; a failure carries the stack as it
/// was before the failing token.
pub open spec fn reduce_from(tokens: Seq<Seq<char>>, stack: Seq<Term>) -> Result<
    Seq<Term>,
    (CalcError, Seq<Term>),
>
    decreases tokens.len(),
{
    if tokens.len() == 0 {
        Ok(stack)
    } else {
        match reduce_token(stack, tokens[0]) {
            Ok(next) => reduce_from(tokens.drop_first(), next),
            Err(e) => Err((e, stack)),
        }
    }
}

/// The one tree that the postfix `tokens` write, or why there is none.
pub open spec fn postfix_tree(tokens: Seq<Seq<char>>) -> Result<Term, (CalcError, Seq<Term>)> {
    match reduce_from(tokens, seq![]) {
        Ok(stack) => if stack.len() == 1 {
            Ok(stack[0])
        } else {
            Err((CalcError::InvalidExpressionShape, stack))
        },
        Err(f) => Err(f),
    }
}

pub open spec fn reduction_view(r: Result<Expr, TreeError>) -> Result<Term, (CalcError, Seq<Term>)> {
    match r {
        Ok(e) => Ok(e@),
        Err(f) => Err((f.error, exprs_view(f.operands@))),
    }
}

/// Reduces a postfix token sequence to its expression tree.
pub fn reduce_rpn(rpn: &Vec<String>) -> (r: Result<Expr, TreeError>)
    ensures
        reduction_view(r) == postfix_tree(tokens_view(rpn@)),
{
    let ghost all = tokens_view(rpn@);
    let mut stack: Vec<Expr> = Vec::new();
    let n = rpn.len();
    let mut i: usize = 0;
    assert(exprs_view(stack@) =~= Seq::<Term>::empty());
    assert(all.subrange(0, n as int) =~= all);
    while i < n
        invariant
            n == rpn@.len() == all.len(),
            all == tokens_view(rpn@),
            i <= n,
            reduce_from(all, seq![]) == reduce_from(
                all.subrange(i as int, n as int),
                exprs_view(stack@),
            ),
        decreases n - i,
    {
        let ghost st = exprs_view(stack@);
        let token = &rpn[i];
        assert(all.subrange(i as int, n as int).drop_first() =~= all.subrange(i + 1, n as int));
        assert(all.subrange(i as int, n as int)[0] == token@);
        if number_literal(token.as_str()) {
            stack.push(Expr::Number(token.clone()));
            assert(exprs_view(stack@) =~= st.push(Term::Number(token@)));
        } else {
            let chars = chars_of(token.as_str());
            let op = if chars.len() == 1 {
                BinOp::from_char(chars[0])
            } else {
                None
            };
            match op {
                Some(op) => {
                    if stack.len() < 2 {
                        return Err(TreeError { error: CalcError::InsufficientOperands, operands: stack });
                    }
                    let right = stack.pop().unwrap();
                    let left = stack.pop().unwrap();
                    let ghost k = st.len();
                    assert(exprs_view(stack@) =~= st.take(k - 2));
                    stack.push(Expr::Binary(op, Box::new(left), Box::new(right)));
                    assert(exprs_view(stack@) =~= st.take(k - 2).push(
                        Term::Binary(op, Box::new(st[k - 2]), Box::new(st[k - 1])),
                    ));
                },
                None => {
                    return Err(TreeError { error: CalcError::InvalidToken, operands: stack });
                },
            }
        }
        i = i + 1;
    }
    assert(all.subrange(n as int, n as int) =~= Seq::<Seq<char>>::empty());
    if stack.len() == 1 {
        let e = stack.pop().unwrap();
        Ok(e)
    } else {
        Err(TreeError { error: CalcError::InvalidExpressionShape, operands: stack })
    }
}

} // verus!
