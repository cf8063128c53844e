use rpn_calc::convert::{get_precedence, infix_to_rpn, is_operator};
use rpn_calc::error::CalcError;
use rpn_calc::expr::{BinOp, Expr};
use rpn_calc::literal::number_literal;
use rpn_calc::parse::parse_expression;
use rpn_calc::reduce::reduce_rpn;

fn num(s: &str) -> Expr {
    Expr::Number(s.to_string())
}

fn bin(op: BinOp, l: Expr, r: Expr) -> Expr {
    Expr::Binary(op, Box::new(l), Box::new(r))
}

fn tokens(v: &[&str]) -> Vec<String> {
    v.iter().map(|s| s.to_string()).collect()
}

fn value(e: &Expr) -> Result<f64, CalcError> {
    match e {
        Expr::Number(s) => Ok(s.parse::<f64>().unwrap()),
        Expr::Binary(op, l, r) => {
            let a = value(l)?;
            let b = value(r)?;
            match op {
                BinOp::Add => Ok(a + b),
                BinOp::Sub => Ok(a - b),
                BinOp::Mul => Ok(a * b),
                BinOp::Div => {
                    if b == 0.0 {
                        Err(CalcError::DivisionByZero)
                    } else {
                        Ok(a / b)
                    }
                }
            }
        }
    }
}

fn eval(text: &str) -> Result<f64, CalcError> {
    match parse_expression(text) {
        Ok(e) => value(&e),
        Err(f) => {
            for e in &f.operands {
                value(e)?;
            }
            Err(f.error)
        }
    }
}

fn failure(text: &str) -> CalcError {
    match parse_expression(text) {
        Ok(_) => panic!("expected a failure for {}", text),
        Err(f) => f.error,
    }
}

#[test]
fn parenthesized_expressions_evaluate() {
    assert_eq!(
        parse_expression("(1+2)*3").unwrap(),
        bin(BinOp::Mul, bin(BinOp::Add, num("1"), num("2")), num("3"))
    );
    assert_eq!(eval("(1+2)*3"), Ok(9.0));
    assert_eq!(eval("10/2-3"), Ok(2.0));
    assert_eq!(eval("2*(3+4)-5"), Ok(9.0));
    assert_eq!(eval("((1+2)*(3-4))"), Ok(-3.0));
}

#[test]
fn equal_precedence_associates_left() {
    assert_eq!(
        parse_expression("8-3-2").unwrap(),
        bin(BinOp::Sub, bin(BinOp::Sub, num("8"), num("3")), num("2"))
    );
    assert_eq!(eval("8-3-2"), Ok(3.0));
    assert_eq!(
        parse_expression("8/4/2").unwrap(),
        bin(BinOp::Div, bin(BinOp::Div, num("8"), num("4")), num("2"))
    );
    assert_eq!(eval("8/4/2"), Ok(1.0));
}

#[test]
fn multiplication_binds_tighter() {
    assert_eq!(
        parse_expression("2+3*4").unwrap(),
        bin(BinOp::Add, num("2"), bin(BinOp::Mul, num("3"), num("4")))
    );
    assert_eq!(eval("2+3*4"), Ok(14.0));
    assert_eq!(eval("2*3+4"), Ok(10.0));
}

#[test]
fn division_by_zero() {
    assert_eq!(
        parse_expression("5/0").unwrap(),
        bin(BinOp::Div, num("5"), num("0"))
    );
    assert_eq!(eval("5/0"), Err(CalcError::DivisionByZero));
    assert_eq!(eval("1/(2-2)"), Err(CalcError::DivisionByZero));
}

#[test]
fn division_by_zero_before_a_later_failure() {
    let f = parse_expression("5/0+").unwrap_err();
    assert_eq!(f.error, CalcError::InsufficientOperands);
    assert_eq!(f.operands, vec![bin(BinOp::Div, num("5"), num("0"))]);
    assert_eq!(eval("5/0+"), Err(CalcError::DivisionByZero));
}

#[test]
fn mismatched_parentheses() {
    assert_eq!(infix_to_rpn("(1+2"), Err(CalcError::MismatchedParentheses));
    assert_eq!(infix_to_rpn("1+2)"), Err(CalcError::MismatchedParentheses));
    assert_eq!(infix_to_rpn(")("), Err(CalcError::MismatchedParentheses));
    assert_eq!(failure("((1)"), CalcError::MismatchedParentheses);
}

#[test]
fn insufficient_operands() {
    assert_eq!(failure("1+"), CalcError::InsufficientOperands);
    assert_eq!(failure("+"), CalcError::InsufficientOperands);
    assert_eq!(infix_to_rpn("1+"), Ok(tokens(&["1", "+"])));
}

#[test]
fn invalid_character() {
    assert_eq!(infix_to_rpn("1&2"), Err(CalcError::InvalidCharacter));
    assert_eq!(infix_to_rpn("1 + 2"), Err(CalcError::InvalidCharacter));
    assert_eq!(infix_to_rpn("x"), Err(CalcError::InvalidCharacter));
    assert_eq!(failure("(1&2"), CalcError::InvalidCharacter);
}

#[test]
fn decimal_literals() {
    assert_eq!(infix_to_rpn("0.1+0.2"), Ok(tokens(&["0.1", "0.2", "+"])));
    let v = eval("0.1+0.2").unwrap();
    assert!((v - 0.3).abs() < 1e-9);
}

#[test]
fn same_text_same_result() {
    for text in ["2*(3+4)-5", "1+", "5/0", "(1+2", "1&2", ""] {
        assert_eq!(parse_expression(text), parse_expression(text));
        assert_eq!(infix_to_rpn(text), infix_to_rpn(text));
    }
}

#[test]
fn postfix_order() {
    assert_eq!(infix_to_rpn("2+3*4"), Ok(tokens(&["2", "3", "4", "*", "+"])));
    assert_eq!(infix_to_rpn("8-3-2"), Ok(tokens(&["8", "3", "-", "2", "-"])));
    assert_eq!(infix_to_rpn("(12+3.5)/7"), Ok(tokens(&["12", "3.5", "+", "7", "/"])));
    assert_eq!(infix_to_rpn(""), Ok(Vec::new()));
}

#[test]
fn malformed_numbers_fail_at_reduction() {
    assert_eq!(infix_to_rpn("1.2.3"), Ok(tokens(&["1.2.3"])));
    assert_eq!(failure("1.2.3"), CalcError::InvalidToken);
    assert_eq!(failure("."), CalcError::InvalidToken);
    assert_eq!(failure("1+.+2"), CalcError::InvalidToken);
}

#[test]
fn shape_errors() {
    let f = parse_expression("").unwrap_err();
    assert_eq!(f.error, CalcError::InvalidExpressionShape);
    assert!(f.operands.is_empty());
    let f = parse_expression("(1)(2)").unwrap_err();
    assert_eq!(f.error, CalcError::InvalidExpressionShape);
    assert_eq!(f.operands, vec![num("1"), num("2")]);
}

#[test]
fn open_parenthesis_does_not_end_a_number() {
    assert_eq!(infix_to_rpn("2(3)"), Ok(tokens(&["23"])));
}

#[test]
fn reduce_tokens_directly() {
    assert_eq!(
        reduce_rpn(&tokens(&["1", "2", "-"])).unwrap(),
        bin(BinOp::Sub, num("1"), num("2"))
    );
    let f = reduce_rpn(&tokens(&["1", "x"])).unwrap_err();
    assert_eq!(f.error, CalcError::InvalidToken);
    assert_eq!(f.operands, vec![num("1")]);
    assert_eq!(reduce_rpn(&tokens(&["1", "2", "++"])).unwrap_err().error, CalcError::InvalidToken);
    assert_eq!(reduce_rpn(&tokens(&["1e3", "-2.5", "*"])).unwrap(), bin(BinOp::Mul, num("1e3"), num("-2.5")));
    assert_eq!(reduce_rpn(&tokens(&["1", "2", "3", "+"])).unwrap_err().error, CalcError::InvalidExpressionShape);
}

#[test]
fn number_literal_grammar() {
    for t in ["0", "12", "1.5", ".5", "5.", "1e3", "1E-3", "+2", "-2.5e+10", "inf", "-Infinity", "NaN", "nAn"] {
        assert!(number_literal(t), "{}", t);
    }
    for t in ["", ".", "+", "-", "*", "1.2.3", "e5", "1e", "1e+", "in", "infinit", "1x", "..5", "1e5.0"] {
        assert!(!number_literal(t), "{}", t);
    }
}

#[test]
fn precedence_values() {
    assert_eq!(get_precedence('+'), 1);
    assert_eq!(get_precedence('-'), 1);
    assert_eq!(get_precedence('*'), 2);
    assert_eq!(get_precedence('/'), 2);
    assert_eq!(get_precedence('('), 0);
    assert_eq!(get_precedence('x'), 0);
}

#[test]
fn operator_characters() {
    for c in ['+', '-', '*', '/', '(', ')'] {
        assert!(is_operator(c));
    }
    for c in ['1', '.', '&', ' ', 'a'] {
        assert!(!is_operator(c));
    }
}

#[test]
fn operator_symbols() {
    for (c, op) in [('+', BinOp::Add), ('-', BinOp::Sub), ('*', BinOp::Mul), ('/', BinOp::Div)] {
        assert_eq!(BinOp::from_char(c), Some(op));
        assert_eq!(op.symbol(), c);
    }
    assert_eq!(BinOp::from_char('('), None);
}
