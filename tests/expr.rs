use exprolution::expr::{
    eval_postfix, get_number, get_operator, get_paren, get_var, is_operator_char, parse, postfix,
    skip_whitespace, tok, Expr, ExprError, Op, Tok,
};

fn number(d: &[u8]) -> f64 {
    let mut v = 0f64;
    for x in d {
        v = v * 10f64 + *x as f64;
    }
    v
}

fn value(e: &Expr) -> f64 {
    match e {
        Expr::Num(d) => number(d),
        Expr::Bin(op, a, b) => {
            let (a, b) = (value(a), value(b));
            match op {
                Op::Add => a + b,
                Op::Sub => a - b,
                Op::Div => a / b,
                Op::Mul => a * b,
                Op::Exp => num::pow(a, b as usize),
                Op::UnNeg => panic!("unary operator in a tree"),
            }
        }
    }
}

fn chars(s: &str) -> Vec<char> {
    s.chars().collect()
}

fn num(d: &[u8]) -> Expr {
    Expr::Num(d.to_vec())
}

fn bin(op: Op, a: Expr, b: Expr) -> Expr {
    Expr::Bin(op, Box::new(a), Box::new(b))
}

#[test]
fn test_tokenize() {
    let expr = "1 + 2 - 5 + (7 +8)";
    let toks = tok(expr).unwrap();
    let expected = vec![
        Tok::Num(vec![1]),
        Tok::Op(Op::Add),
        Tok::Num(vec![2]),
        Tok::Op(Op::Sub),
        Tok::Num(vec![5]),
        Tok::Op(Op::Add),
        Tok::LParen,
        Tok::Num(vec![7]),
        Tok::Op(Op::Add),
        Tok::Num(vec![8]),
        Tok::RParen,
    ];
    assert_eq!(toks, expected);
}

#[test]
fn multiplication_binds_tighter() {
    let e = parse("2+3*4").unwrap();
    assert_eq!(e, bin(Op::Add, num(&[2]), bin(Op::Mul, num(&[3]), num(&[4]))));
    assert_eq!(value(&e), 14f64);
}

#[test]
fn parentheses_group() {
    let e = parse("(2+3)*4").unwrap();
    assert_eq!(value(&e), 20f64);
}

#[test]
fn power() {
    let e = parse("2**3").unwrap();
    assert_eq!(e, bin(Op::Exp, num(&[2]), num(&[3])));
    assert_eq!(value(&e), 8f64);
}

#[test]
fn division_by_zero_is_infinite() {
    let e = parse("1/0").unwrap();
    assert_eq!(value(&e), f64::INFINITY);
}

#[test]
fn malformed_input_is_an_error() {
    assert_eq!(parse("+"), Err(ExprError::PrematureStackEnd));
    assert_eq!(parse("(1+2"), Err(ExprError::Syntax));
}

#[test]
fn equal_precedence_groups_to_the_right() {
    let e = parse("1-2+3").unwrap();
    assert_eq!(value(&e), -4f64);
}

#[test]
fn multi_digit_numbers() {
    assert_eq!(tok("120").unwrap(), vec![Tok::Num(vec![1, 2, 0])]);
    assert_eq!(value(&parse("12*10").unwrap()), 120f64);
}

#[test]
fn unknown_operator_run() {
    assert_eq!(tok("1+-2"), Err(ExprError::InvalidOperator("+-".to_string())));
}

#[test]
fn stuck_on_other_characters() {
    assert_eq!(tok("1.5"), Err(ExprError::Stuck(".5".to_string())));
    assert_eq!(tok("1 "), Err(ExprError::Stuck(String::new())));
}

#[test]
fn empty_text_has_no_tokens() {
    assert_eq!(tok(""), Ok(vec![]));
    assert_eq!(parse(""), Err(ExprError::NoResult));
    assert_eq!(parse("()"), Err(ExprError::NoResult));
}

#[test]
fn unmatched_right_parenthesis() {
    assert_eq!(postfix("1)"), Err(ExprError::Syntax));
    assert_eq!(postfix("((1)"), Err(ExprError::Syntax));
    assert_eq!(value(&parse("((1))").unwrap()), 1f64);
}

#[test]
fn unary_operator_is_not_binary() {
    let post = vec![Tok::Num(vec![1]), Tok::Num(vec![2]), Tok::Op(Op::UnNeg)];
    assert_eq!(eval_postfix(&post), Err(ExprError::NotBinary));
}

#[test]
fn postfix_order() {
    assert_eq!(
        postfix("1+2*3").unwrap(),
        vec![
            Tok::Num(vec![1]),
            Tok::Num(vec![2]),
            Tok::Num(vec![3]),
            Tok::Op(Op::Mul),
            Tok::Op(Op::Add),
        ]
    );
}

#[test]
fn names_are_tokens_but_not_values() {
    assert_eq!(
        tok("x_y+1").unwrap(),
        vec![Tok::Var("x_y".to_string()), Tok::Op(Op::Add), Tok::Num(vec![1])]
    );
    assert_eq!(parse("x+1"), Err(ExprError::PrematureStackEnd));
}

#[test]
fn operators_by_spelling() {
    assert_eq!(Op::from_str("+"), Some(Op::Add));
    assert_eq!(Op::from_str("-"), Some(Op::Sub));
    assert_eq!(Op::from_str("/"), Some(Op::Div));
    assert_eq!(Op::from_str("*"), Some(Op::Mul));
    assert_eq!(Op::from_str("**"), Some(Op::Exp));
    assert_eq!(Op::from_str("***"), None);
    assert_eq!(Op::from_str(""), None);
    assert_eq!(Op::Add.precedence(), 0);
    assert_eq!(Op::Mul.precedence(), 1);
    assert_eq!(Op::Exp.precedence(), 2);
    assert_eq!(Op::UnNeg.precedence(), 3);
    assert!(is_operator_char(&'*'));
    assert!(!is_operator_char(&'('));
}

#[test]
fn matchers() {
    let s = chars("  42x");
    assert_eq!(skip_whitespace(&s), &s[2..]);
    let (t, rest) = get_number(&s).unwrap();
    assert_eq!(t, Tok::Num(vec![4, 2]));
    assert_eq!(rest, &s[4..]);
    assert!(get_number(&chars(" +")).is_none());
    let o = chars(" ** 1");
    let (t, rest) = get_operator(&o).unwrap().unwrap();
    assert_eq!(t, Tok::Op(Op::Exp));
    assert_eq!(rest, &o[3..]);
    let p = chars("\t)");
    let (t, rest) = get_paren(&p).unwrap();
    assert_eq!(t, Tok::RParen);
    assert!(rest.is_empty());
    let v = chars(" ab1");
    let (t, rest) = get_var(&v).unwrap();
    assert_eq!(t, Tok::Var("ab".to_string()));
    assert_eq!(rest, &v[3..]);
}
