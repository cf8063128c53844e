use vstd::prelude::*;
use crate::error::CalcError;
use crate::text::{chars_of, push_char};

verus! {

/// Binding strength of an operator character: `*` and `/` bind tighter than
/// `+` and `-`; `(` and every other character rank lowest.
pub open spec fn precedence(c: char) -> i32 {
    if c == '+' || c == '-' {
        1
    } else if c == '*' || c == '/' {
        2
    } else {
        0
    }
}

pub open spec fn is_operator_char(c: char) -> bool {
    c == '+' || c == '-' || c == '*' || c == '/' || c == '(' || c == ')'
}

pub open spec fn is_number_char(c: char) -> bool {
    ('0' <= c && c <= '9') || c == '.'
}

/// The state of a left-to-right scan: tokens emitted so far, pending
/// operators (top of stack last), the number being read, and whether a `)`
/// has met no `(`.
pub struct Scan {
    pub out: Seq<Seq<char>>,
    pub ops: Seq<char>,
    pub num: Seq<char>,
    pub stray_close: bool,
}

pub open spec fn initial_scan() -> Scan {
    Scan { out: seq![], ops: seq![], num: seq![], stray_close: false }
}

/// Emits the number being read, if there is one.
pub open spec fn flush(out: Seq<Seq<char>>, num: Seq<char>) -> Seq<Seq<char>> {
    if num.len() > 0 {
        out.push(num)
    } else {
        out
    }
}

/// Pops operators into the output down to the nearest `(`, which is dropped.
/// The flag tells whether a `(` was found.
pub open spec fn pop_to_open(out: Seq<Seq<char>>, ops: Seq<char>) -> (Seq<Seq<char>>, Seq<char>, bool)
    decreases ops.len(),
{
    if ops.len() == 0 {
        (out, ops, false)
    } else if ops.last() == '(' {
        (out, ops.drop_last(), true)
    } else {
        pop_to_open(out.push(seq![ops.last()]), ops.drop_last())
    }
}

/// Pops operators into the output while the top one binds at least as
/// tightly as `p`.
pub open spec fn pop_binding(out: Seq<Seq<char>>, ops: Seq<char>, p: i32) -> (Seq<Seq<char>>, Seq<char>)
    decreases ops.len(),
{
    if ops.len() > 0 && precedence(ops.last()) >= p {
        pop_binding(out.push(seq![ops.last()]), ops.drop_last(), p)
    } else {
        (out, ops)
    }
}

/// One character of the scan.
pub open spec fn scan_char(st: Scan, c: char) -> Result<Scan, CalcError> {
    if is_number_char(c) {
        Ok(Scan { num: st.num.push(c), ..st })
    } else if c == '(' {
        Ok(Scan { ops: st.ops.push(c), ..st })
    } else if c == ')' {
        let (out, ops, found) = pop_to_open(flush(st.out, st.num), st.ops);
        Ok(Scan { out, ops, num: seq![], stray_close: st.stray_close || !found })
    } else if is_operator_char(c) {
        let (out, ops) = pop_binding(flush(st.out, st.num), st.ops, precedence(c));
        Ok(Scan { out, ops: ops.push(c), num: seq![], stray_close: st.stray_close })
    } else {
        Err(CalcError::InvalidCharacter)
    }
}

/// Scans `s` from state `st`, stopping at the first invalid character.
pub open spec fn scan_from(st: Scan, s: Seq<char>) -> Result<Scan, CalcError>
    decreases s.len(),
{
    if s.len() == 0 {
        Ok(st)
    } else {
        match scan_char(st, s[0]) {
            Ok(next) => scan_from(next, s.drop_first()),
            Err(e) => Err(e),
        }
    }
}

/// Pops the remaining operators into the output; a parenthesis among them
/// is unmatched.
pub open spec fn drain(out: Seq<Seq<char>>, ops: Seq<char>) -> Result<Seq<Seq<char>>, CalcError>
    decreases ops.len(),
{
    if ops.len() == 0 {
        Ok(out)
    } else if ops.last() == '(' || ops.last() == ')' {
        Err(CalcError::MismatchedParentheses)
    } else {
        drain(out.push(seq![ops.last()]), ops.drop_last())
    }
}

pub open spec fn finish(st: Scan) -> Result<Seq<Seq<char>>, CalcError> {
    if st.stray_close {
        Err(CalcError::MismatchedParentheses)
    } else {
        drain(flush(st.out, st.num), st.ops)
    }
}

/// The postfix tokens of the infix expression `s`, or the error that stops
/// its conversion.
pub open spec fn postfix_of(s: Seq<char>) -> Result<Seq<Seq<char>>, CalcError> {
    match scan_from(initial_scan(), s) {
        Ok(st) => finish(st),
        Err(e) => Err(e),
    }
}

pub open spec fn tokens_view(v: Seq<String>) -> Seq<Seq<char>> {
    v.map_values(|t: String| t@)
}

pub open spec fn conversion_view(r: Result<Vec<String>, CalcError>) -> Result<Seq<Seq<char>>, CalcError> {
    match r {
        Ok(v) => Ok(tokens_view(v@)),
        Err(e) => Err(e),
    }
}

/// How tightly the operator `op` binds.
pub fn get_precedence(op: char) -> (r: i32)
    ensures
        r == precedence(op),
{
    match op {
        '+' | '-' => 1,
        '*' | '/' => 2,
        _ => 0,
    }
}

/// Whether `c` is one of `+ - * / ( )`.
pub fn is_operator(c: char) -> (r: bool)
    ensures
        r == is_operator_char(c),
{
    c == '+' || c == '-' || c == '*' || c == '/' || c == '(' || c == ')'
}

fn single(c: char) -> (r: String)
    ensures
        r@ == seq![c],
{
    let mut s = String::new();
    push_char(&mut s, c);
    s
}

/// Converts the infix expression to postfix tokens: number literals as
/// written, operators as one-character tokens.
pub fn infix_to_rpn(expression: &str) -> (r: Result<Vec<String>, CalcError>)
    ensures
        conversion_view(r) == postfix_of(expression@),
{
    let chars = chars_of(expression);
    let mut output: Vec<String> = Vec::new();
    let mut operators: Vec<char> = Vec::new();
    let mut number = String::new();
    let mut stray_close = false;
    let n = chars.len();
    let mut i: usize = 0;
    assert(tokens_view(output@) =~= Seq::<Seq<char>>::empty());
    assert(expression@.subrange(0, n as int) =~= expression@);
    while i < n
        invariant
            n == chars@.len(),
            chars@ == expression@,
            i <= n,
            scan_from(initial_scan(), expression@) == scan_from(
                Scan { out: tokens_view(output@), ops: operators@, num: number@, stray_close },
                expression@.subrange(i as int, n as int),
            ),
        decreases n - i,
    {
        let ghost st = Scan { out: tokens_view(output@), ops: operators@, num: number@, stray_close };
        let ch = chars[i];
        assert(expression@.subrange(i as int, n as int).drop_first() =~= expression@.subrange(
            i + 1,
            n as int,
        ));
        assert(expression@.subrange(i as int, n as int)[0] == ch);
        if ('0' <= ch && ch <= '9') || ch == '.' {
            push_char(&mut number, ch);
        } else if ch == '(' {
            operators.push(ch);
        } else if ch == ')' {
            flush_number(&mut output, &mut number);
            let ghost start_out = tokens_view(output@);
            let ghost start_ops = operators@;
            let mut found = false;
            while operators.len() > 0
                invariant_except_break
                    !found,
                    pop_to_open(start_out, start_ops) == pop_to_open(
                        tokens_view(output@),
                        operators@,
                    ),
                ensures
                    pop_to_open(start_out, start_ops) == (tokens_view(output@), operators@, found),
                decreases operators.len(),
            {
                let op = operators.pop().unwrap();
                if op == '(' {
                    found = true;
                    break;
                }
                push_token(&mut output, single(op));
            }
            if !found {
                stray_close = true;
            }
        } else if is_operator(ch) {
            flush_number(&mut output, &mut number);
            let p = get_precedence(ch);
            let ghost start_out = tokens_view(output@);
            let ghost start_ops = operators@;
            while operators.len() > 0 && get_precedence(operators[operators.len() - 1]) >= p
                invariant
                    p == precedence(ch),
                    pop_binding(start_out, start_ops, p) == pop_binding(
                        tokens_view(output@),
                        operators@,
                        p,
                    ),
                decreases operators.len(),
            {
                let op = operators.pop().unwrap();
                push_token(&mut output, single(op));
            }
            operators.push(ch);
        } else {
            return Err(CalcError::InvalidCharacter);
        }
        i = i + 1;
    }
    assert(expression@.subrange(n as int, n as int) =~= Seq::<char>::empty());
    if stray_close {
        return Err(CalcError::MismatchedParentheses);
    }
    flush_number(&mut output, &mut number);
    let ghost start_out = tokens_view(output@);
    let ghost start_ops = operators@;
    assert(postfix_of(expression@) == drain(start_out, start_ops));
    while operators.len() > 0
        invariant
            postfix_of(expression@) == drain(start_out, start_ops),
            drain(start_out, start_ops) == drain(tokens_view(output@), operators@),
        decreases operators.len(),
    {
        let ghost before = operators@;
        let op = operators.pop().unwrap();
        if op == '(' || op == ')' {
            assert(drain(tokens_view(output@), before) == Err::<Seq<Seq<char>>, CalcError>(
                CalcError::MismatchedParentheses,
            ));
            return Err(CalcError::MismatchedParentheses);
        }
        push_token(&mut output, single(op));
    }
    Ok(output)
}

fn push_token(output: &mut Vec<String>, t: String)
    ensures
        tokens_view(final(output)@) == tokens_view(old(output)@).push(t@),
{
    output.push(t);
    assert(tokens_view(output@) =~= tokens_view(old(output)@).push(t@));
}

/// Moves the number being read, if any, to the output.
fn flush_number(output: &mut Vec<String>, number: &mut String)
    ensures
        tokens_view(final(output)@) == flush(tokens_view(old(output)@), old(number)@),
        final(number)@ == Seq::<char>::empty(),
{
    if !number.as_str().is_empty() {
        push_token(output, number.clone());
    }
    *number = String::new();
}

} // verus!
