use vstd::prelude::*;
use crate::convert::{
    drain, finish, flush, initial_scan, is_number_char, pop_binding, pop_to_open, postfix_of,
    precedence, scan_char, scan_from, Scan,
};
use crate::error::CalcError;
use crate::expr::{op_char, op_of, parenthesized, postfix, BinOp, Expr, Term};
use crate::literal::is_number_literal;
use crate::parse::expression_tree;
use crate::reduce::{postfix_tree, reduce_from, reduce_token, reduction_view, TreeError};

verus! {

/// A literal made of digits and `.` that reads as a number.
pub open spec fn plain_literal(s: Seq<char>) -> bool {
    &&& s.len() > 0
    &&& forall|i: int| 0 <= i < s.len() ==> is_number_char(s[i])
    &&& is_number_literal(s)
}

/// A tree whose literals are all plain.
pub open spec fn plain_term(t: Term) -> bool
    decreases t,
{
    match t {
        Term::Number(s) => plain_literal(s),
        Term::Binary(_, l, r) => plain_term(*l) && plain_term(*r),
    }
}

proof fn lemma_scan_append(st: Scan, a: Seq<char>, b: Seq<char>)
    ensures
        scan_from(st, a + b) == (match scan_from(st, a) {
            Ok(mid) => scan_from(mid, b),
            Err(e) => Err(e),
        }),
    decreases a.len(),
{
    if a.len() == 0 {
        assert(a + b =~= b);
    } else {
        assert((a + b).drop_first() =~= a.drop_first() + b);
        assert((a + b)[0] == a[0]);
        if let Ok(next) = scan_char(st, a[0]) {
            lemma_scan_append(next, a.drop_first(), b);
        }
    }
}

proof fn lemma_scan_one(st: Scan, c: char)
    ensures
        scan_from(st, seq![c]) == scan_char(st, c),
{
    assert(seq![c].drop_first() =~= Seq::<char>::empty());
    if let Ok(next) = scan_char(st, c) {
        assert(scan_from(next, Seq::<char>::empty()) == Ok::<Scan, CalcError>(next));
    }
}

proof fn lemma_scan_literal(st: Scan, s: Seq<char>)
    requires
        forall|i: int| 0 <= i < s.len() ==> is_number_char(s[i]),
    ensures
        scan_from(st, s) == Ok::<Scan, CalcError>(Scan { num: st.num + s, ..st }),
    decreases s.len(),
{
    if s.len() == 0 {
        assert(st.num + s =~= st.num);
    } else {
        let next = Scan { num: st.num.push(s[0]), ..st };
        assert(scan_char(st, s[0]) == Ok::<Scan, CalcError>(next));
        lemma_scan_literal(next, s.drop_first());
        assert(next.num + s.drop_first() =~= st.num + s);
    }
}

/// The state that scanning `parenthesized(t)` leaves: a literal stays in
/// the number buffer, anything else is emitted in postfix order.
pub open spec fn after_term(st: Scan, t: Term) -> Scan {
    match t {
        Term::Number(s) => Scan { num: s, ..st },
        Term::Binary(..) => Scan { out: st.out + postfix(t), ..st },
    }
}

proof fn lemma_scan_term(st: Scan, t: Term)
    requires
        st.num.len() == 0,
        plain_term(t),
    ensures
        scan_from(st, parenthesized(t)) == Ok::<Scan, CalcError>(after_term(st, t)),
        flush(after_term(st, t).out, after_term(st, t).num) == st.out + postfix(t),
    decreases t,
{
    match t {
        Term::Number(s) => {
            lemma_scan_literal(st, s);
            assert(st.num + s =~= s);
        },
        Term::Binary(op, l, r) => {
            let c = op_char(op);
            assert(st.num =~= Seq::<char>::empty());
            let pl = parenthesized(*l);
            let pr = parenthesized(*r);
            let s1 = Scan { ops: st.ops.push('('), ..st };
            lemma_scan_one(st, '(');
            lemma_scan_term(s1, *l);
            let sl = after_term(s1, *l);
            let s2 = Scan { out: st.out + postfix(*l), ops: s1.ops.push(c), num: seq![], ..st };
            lemma_scan_one(sl, c);
            assert(pop_binding(st.out + postfix(*l), s1.ops, precedence(c)) == (
                st.out + postfix(*l),
                s1.ops,
            ));
            lemma_scan_term(s2, *r);
            let sr = after_term(s2, *r);
            let out_r = st.out + postfix(*l) + postfix(*r);
            lemma_scan_one(sr, ')');
            assert(s2.ops.drop_last() =~= s1.ops);
            assert(s1.ops.drop_last() =~= st.ops);
            assert(pop_to_open(out_r, s2.ops) == pop_to_open(out_r.push(seq![c]), s1.ops));
            assert(pop_to_open(out_r.push(seq![c]), s1.ops) == (out_r.push(seq![c]), st.ops, true));
            assert(out_r.push(seq![c]) =~= st.out + postfix(t));
            lemma_scan_append(st, seq!['('], pl + seq![c] + pr + seq![')']);
            lemma_scan_append(s1, pl, seq![c] + pr + seq![')']);
            lemma_scan_append(sl, seq![c], pr + seq![')']);
            lemma_scan_append(s2, pr, seq![')']);
            assert(parenthesized(t) =~= seq!['('] + (pl + (seq![c] + (pr + seq![')']))));
            assert(pl + seq![c] + pr + seq![')'] =~= pl + (seq![c] + (pr + seq![')'])));
            assert(seq![c] + pr + seq![')'] =~= seq![c] + (pr + seq![')']));
        },
    }
}

proof fn lemma_reduce_append(a: Seq<Seq<char>>, b: Seq<Seq<char>>, stack: Seq<Term>)
    ensures
        reduce_from(a + b, stack) == (match reduce_from(a, stack) {
            Ok(mid) => reduce_from(b, mid),
            Err(f) => Err(f),
        }),
    decreases a.len(),
{
    if a.len() == 0 {
        assert(a + b =~= b);
    } else {
        assert((a + b).drop_first() =~= a.drop_first() + b);
        assert((a + b)[0] == a[0]);
        if let Ok(next) = reduce_token(stack, a[0]) {
            lemma_reduce_append(a.drop_first(), b, next);
        }
    }
}

proof fn lemma_operator_token(op: BinOp)
    ensures
        !is_number_literal(seq![op_char(op)]),
        op_of(op_char(op)) == Some(op),
{
    let s = seq![op_char(op)];
    assert(s[0] == op_char(op));
    if op is Add || op is Sub {
        assert(s.drop_first() =~= Seq::<char>::empty());
    }
}

proof fn lemma_reduce_term(t: Term, stack: Seq<Term>)
    requires
        plain_term(t),
    ensures
        reduce_from(postfix(t), stack) == Ok::<Seq<Term>, (CalcError, Seq<Term>)>(stack.push(t)),
    decreases t,
{
    match t {
        Term::Number(s) => {
            assert(seq![s].drop_first() =~= Seq::<Seq<char>>::empty());
            assert(postfix(t) == seq![s]);
            assert(reduce_token(stack, s) == Ok::<Seq<Term>, CalcError>(stack.push(t)));
            assert(reduce_from(Seq::<Seq<char>>::empty(), stack.push(t)) == Ok::<
                Seq<Term>,
                (CalcError, Seq<Term>),
            >(stack.push(t)));
        },
        Term::Binary(op, l, r) => {
            let c = op_char(op);
            lemma_reduce_append(postfix(*l) + postfix(*r), seq![seq![c]], stack);
            lemma_reduce_append(postfix(*l), postfix(*r), stack);
            lemma_reduce_term(*l, stack);
            lemma_reduce_term(*r, stack.push(*l));
            lemma_operator_token(op);
            let st2 = stack.push(*l).push(*r);
            assert(st2.take(st2.len() - 2) =~= stack);
            assert(seq![seq![c]].drop_first() =~= Seq::<Seq<char>>::empty());
        },
    }
}

/// A fully parenthesised expression converts to the postfix form of its
/// tree, and that postfix form reduces back to the same tree: every
/// operation is applied to exactly the operands its parentheses enclose.
pub proof fn lemma_parenthesized_round_trip(t: Term)
    requires
        plain_term(t),
    ensures
        postfix_of(parenthesized(t)) == Ok::<Seq<Seq<char>>, CalcError>(postfix(t)),
        postfix_tree(postfix(t)) == Ok::<Term, (CalcError, Seq<Term>)>(t),
        expression_tree(parenthesized(t)) == Ok::<Term, (CalcError, Seq<Term>)>(t),
{
    let st = initial_scan();
    lemma_scan_term(st, t);
    let fin = after_term(st, t);
    assert(st.out + postfix(t) =~= postfix(t));
    assert(drain(postfix(t), seq![]) == Ok::<Seq<Seq<char>>, CalcError>(postfix(t)));
    assert(finish(fin) == Ok::<Seq<Seq<char>>, CalcError>(postfix(t)));
    lemma_reduce_term(t, seq![]);
    assert(seq![].push(t)[0] == t);
}

/// How tightly `op` binds.
pub open spec fn binding(op: BinOp) -> i32 {
    precedence(op_char(op))
}

/// The tree of `a o1 b o2 c` written without parentheses: the second
/// operator applies first only where it binds more tightly.
pub open spec fn chain_tree(a: Seq<char>, o1: BinOp, b: Seq<char>, o2: BinOp, c: Seq<char>) -> Term {
    let (ta, tb, tc) = (Term::Number(a), Term::Number(b), Term::Number(c));
    if binding(o2) > binding(o1) {
        Term::Binary(o1, Box::new(ta), Box::new(Term::Binary(o2, Box::new(tb), Box::new(tc))))
    } else {
        Term::Binary(o2, Box::new(Term::Binary(o1, Box::new(ta), Box::new(tb))), Box::new(tc))
    }
}

/// Of two operators written without parentheses, the one that binds more
/// tightly is applied first (`*` and `/` before `+` and `-`); of two that
/// bind equally, the left one is applied first.
pub proof fn lemma_precedence_and_left_association(
    a: Seq<char>,
    o1: BinOp,
    b: Seq<char>,
    o2: BinOp,
    c: Seq<char>,
)
    requires
        plain_literal(a),
        plain_literal(b),
        plain_literal(c),
    ensures
        expression_tree(a + seq![op_char(o1)] + b + seq![op_char(o2)] + c) == Ok::<
            Term,
            (CalcError, Seq<Term>),
        >(chain_tree(a, o1, b, o2, c)),
{
    let (c1, c2) = (op_char(o1), op_char(o2));
    let t = chain_tree(a, o1, b, o2, c);
    let text = a + seq![c1] + b + seq![c2] + c;
    assert(text =~= a + (seq![c1] + (b + (seq![c2] + c))));
    let s0 = initial_scan();
    lemma_scan_literal(s0, a);
    let sa = Scan { num: s0.num + a, ..s0 };
    assert(s0.num + a =~= a);
    lemma_scan_one(sa, c1);
    let s1 = Scan { out: seq![a], ops: seq![c1], num: seq![], stray_close: false };
    assert(flush(sa.out, sa.num) =~= seq![a]);
    assert(scan_char(sa, c1) == Ok::<Scan, CalcError>(s1));
    lemma_scan_literal(s1, b);
    let sb = Scan { num: s1.num + b, ..s1 };
    assert(s1.num + b =~= b);
    lemma_scan_one(sb, c2);
    let ab = seq![a, b];
    assert(flush(sb.out, sb.num) =~= ab);
    let s2 = if binding(o1) >= binding(o2) {
        assert(seq![c1].drop_last() =~= Seq::<char>::empty());
        assert(pop_binding(ab.push(seq![c1]), Seq::<char>::empty(), precedence(c2)) == (
            ab.push(seq![c1]),
            Seq::<char>::empty(),
        ));
        assert(pop_binding(ab, seq![c1], precedence(c2)) == (ab.push(seq![c1]), Seq::<char>::empty()));
        Scan { out: ab.push(seq![c1]), ops: seq![c2], num: seq![], stray_close: false }
    } else {
        assert(pop_binding(ab, seq![c1], precedence(c2)) == (ab, seq![c1]));
        Scan { out: ab, ops: seq![c1, c2], num: seq![], stray_close: false }
    };
    assert(Seq::<char>::empty().push(c2) =~= seq![c2]);
    assert(seq![c1].push(c2) =~= seq![c1, c2]);
    assert(scan_char(sb, c2) == Ok::<Scan, CalcError>(s2));
    lemma_scan_literal(s2, c);
    let sc = Scan { num: s2.num + c, ..s2 };
    assert(s2.num + c =~= c);
    lemma_scan_append(sb, seq![c2], c);
    lemma_scan_append(s1, b, seq![c2] + c);
    lemma_scan_append(sa, seq![c1], b + (seq![c2] + c));
    lemma_scan_append(s0, a, seq![c1] + (b + (seq![c2] + c)));
    assert(scan_from(s0, text) == Ok::<Scan, CalcError>(sc));
    lemma_operator_token(o1);
    lemma_operator_token(o2);
    let (ta, tb, tc) = (Term::Number(a), Term::Number(b), Term::Number(c));
    assert(postfix(ta) == seq![a] && postfix(tb) == seq![b] && postfix(tc) == seq![c]);
    assert(plain_term(ta) && plain_term(tb) && plain_term(tc));
    if binding(o1) >= binding(o2) {
        let out = seq![a, b, seq![c1], c];
        assert(flush(sc.out, sc.num) =~= out);
        assert(seq![c2].drop_last() =~= Seq::<char>::empty());
        assert(drain(out, seq![c2]) == drain(out.push(seq![c2]), Seq::<char>::empty()));
        let left = Term::Binary(o1, Box::new(ta), Box::new(tb));
        assert(postfix(left) =~= seq![a, b, seq![c1]]);
        assert(plain_term(left));
        assert(out.push(seq![c2]) =~= postfix(t));
    } else {
        let out = seq![a, b, c];
        assert(flush(sc.out, sc.num) =~= out);
        assert(seq![c1, c2].drop_last() =~= seq![c1]);
        assert(seq![c1].drop_last() =~= Seq::<char>::empty());
        assert(drain(out, seq![c1, c2]) == drain(out.push(seq![c2]), seq![c1]));
        assert(drain(out.push(seq![c2]), seq![c1]) == drain(
            out.push(seq![c2]).push(seq![c1]),
            Seq::<char>::empty(),
        ));
        let right = Term::Binary(o2, Box::new(tb), Box::new(tc));
        assert(postfix(right) =~= seq![b, c, seq![c2]]);
        assert(plain_term(right));
        assert(out.push(seq![c2]).push(seq![c1]) =~= postfix(t));
    }
    assert(postfix_of(text) == Ok::<Seq<Seq<char>>, CalcError>(postfix(t)));
    assert(plain_term(t));
    lemma_reduce_term(t, seq![]);
    assert(seq![].push(t)[0] == t);
}

/// Parsing depends on the text alone: any two results that meet the
/// contract of `parse_expression` on the same text are the same tree, or the
/// same failure with the same operands.
pub proof fn lemma_same_text_same_result(
    text: Seq<char>,
    first: Result<Expr, TreeError>,
    second: Result<Expr, TreeError>,
)
    requires
        reduction_view(first) == expression_tree(text),
        reduction_view(second) == expression_tree(text),
    ensures
        reduction_view(first) == reduction_view(second),
{
}

} // verus!
