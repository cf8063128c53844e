use vstd::prelude::*;
use crate::convert::{infix_to_rpn, postfix_of};
use crate::error::CalcError;
use crate::expr::{Expr, Term};
use crate::reduce::{postfix_tree, reduce_rpn, reduction_view, TreeError};

verus! {

/// The tree of the infix expression `s`: its postfix tokens reduced, or the
/// first failure, with the operands built by then (none where the
/// conversion fails).
pub open spec fn expression_tree(s: Seq<char>) -> Result<Term, (CalcError, Seq<Term>)> {
    match postfix_of(s) {
        Ok(tokens) => postfix_tree(tokens),
        Err(e) => Err((e, seq![])),
    }
}

/// Converts the infix expression to postfix tokens and reduces them to a
/// tree.
pub fn parse_expression(expression: &str) -> (r: Result<Expr, TreeError>)
    ensures
        reduction_view(r) == expression_tree(expression@),
{
    match infix_to_rpn(expression) {
        Ok(tokens) => reduce_rpn(&tokens),
        Err(error) => {
            let r = Err(TreeError { error, operands: Vec::new() });
            assert(reduction_view(r)->Err_0.1 =~= Seq::<Term>::empty());
            r
        },
    }
}

} // verus!
