use biot_savart::engine::components::curve::CompiledExpr;
use biot_savart::engine::components::expr::{BinaryOp, Expr, ExprError};
use biot_savart::engine::components::lexer::tokenize;
use biot_savart::engine::components::token::Token;

fn tree(src: &str) -> String {
    match CompiledExpr::compile(src) {
        Ok(c) => format!("{:?}", c.expr()),
        Err(e) => panic!("{src:?} did not compile: {e:?}"),
    }
}

fn num(s: &str) -> Expr {
    Expr::Num(s.to_string())
}

fn bin(op: BinaryOp, l: Expr, r: Expr) -> Expr {
    Expr::BinOp { op, lhs: Box::new(l), rhs: Box::new(r) }
}

#[test]
fn non_ascii_letters_continue_names() {
    // 'é' and 'ß' are alphabetic, so they continue a name
    assert_eq!(tokenize("xéß2").unwrap(), vec![Token::Ident("xéß2".to_string())]);
    // '€' is neither alphabetic nor numeric: it ends the name and starts no token
    assert_eq!(tokenize("x€"), Err(ExprError::UnexpectedChar('€')));
}

#[test]
fn non_ascii_white_space_is_blank() {
    assert_eq!(CompiledExpr::compile("\u{3000}\u{a0} ").unwrap_err(), ExprError::Empty);
    // a non-ASCII letter is not white space, so the text is not blank
    assert_eq!(CompiledExpr::compile("é").unwrap_err(), ExprError::UnexpectedChar('é'));
    // white space other than blank and tab does not separate tokens
    assert_eq!(CompiledExpr::compile("1\u{a0}+ 2").unwrap_err(), ExprError::UnexpectedChar('\u{a0}'));
}

#[test]
fn joined_texts_tokenize_as_joined_tokens() {
    let a = "2*t";
    let b = "sin(t)";
    let mut joined = tokenize(a).unwrap();
    joined.extend(tokenize(b).unwrap());
    assert_eq!(tokenize(&format!("{a} {b}")).unwrap(), joined);
    // an error in the first text is the error of the whole
    assert_eq!(tokenize("1.2.3 #"), Err(ExprError::InvalidNumber("1.2.3".to_string())));
    assert_eq!(tokenize("1 #"), Err(ExprError::UnexpectedChar('#')));
}

#[test]
fn respaced_tokens_tokenize_the_same() {
    let toks = tokenize("3.5e2*(t-pi)^2").unwrap();
    assert_eq!(tokenize("3.5e2 * ( t - pi ) ^ 2 ").unwrap(), toks);
}

#[test]
fn written_tree_compiles_to_the_same_tree() {
    // 1+2*t is (1) + ((2) * (t)); its written text compiles to the same tree
    assert_eq!(tree("1+2*t"), tree("( 1 ) + ( ( 2 ) * ( t ) ) "));
    assert_eq!(tree("-t^2/e"), tree("( - ( ( t ) ^ ( 2 ) ) ) / ( e ) "));
}

#[test]
fn grouping_of_three_operands() {
    let a = || num("1");
    let b = || Expr::T;
    let c = || num("3");
    assert_eq!(
        tree("(1) - (t) + (3)"),
        format!("{:?}", bin(BinaryOp::Add, bin(BinaryOp::Sub, a(), b()), c()))
    );
    assert_eq!(
        tree("(1) - (t) * (3)"),
        format!("{:?}", bin(BinaryOp::Sub, a(), bin(BinaryOp::Mul, b(), c())))
    );
    assert_eq!(
        tree("(1) ^ (t) * (3)"),
        format!("{:?}", bin(BinaryOp::Mul, bin(BinaryOp::Pow, a(), b()), c()))
    );
    assert_eq!(
        tree("(1) ^ (t) ^ (3)"),
        format!("{:?}", bin(BinaryOp::Pow, a(), bin(BinaryOp::Pow, b(), c())))
    );
    assert_eq!(
        tree("(1) / (t) / (3)"),
        format!("{:?}", bin(BinaryOp::Div, bin(BinaryOp::Div, a(), b()), c()))
    );
}

#[test]
fn leading_minus_grouping() {
    let neg = |e: Expr| Expr::UnaryMinus(Box::new(e));
    assert_eq!(tree("-(1) ^ (t)"), format!("{:?}", neg(bin(BinaryOp::Pow, num("1"), Expr::T))));
    assert_eq!(tree("-(1) * (t)"), format!("{:?}", bin(BinaryOp::Mul, neg(num("1")), Expr::T)));
    assert_eq!(tree("-(1) - (t)"), format!("{:?}", bin(BinaryOp::Sub, neg(num("1")), Expr::T)));
}

#[test]
fn compiles_exactly_what_the_grammar_derives() {
    // derived by the grammar
    for src in ["t", "pi", "e", "2.5", "sin(t)", "-(t)^-2", "1+2*3-4/5", "((t))", "exp(-t^2)*cos(3*t)", "--t"] {
        assert!(CompiledExpr::compile(src).is_ok(), "{src:?}");
    }
    // not derived: a constant is not called, a call needs its parenthesis,
    // an operator needs operands, and no token may be left over
    assert_eq!(CompiledExpr::compile("pi(t)").unwrap_err(), ExprError::TrailingToken(Token::LParen));
    assert_eq!(
        CompiledExpr::compile("sin t").unwrap_err(),
        ExprError::Expected { expected: Token::LParen, found: Some(Token::T) }
    );
    assert_eq!(CompiledExpr::compile("t+").unwrap_err(), ExprError::UnexpectedEnd);
    assert_eq!(CompiledExpr::compile("t t").unwrap_err(), ExprError::TrailingToken(Token::T));
    assert_eq!(CompiledExpr::compile("()").unwrap_err(), ExprError::UnexpectedToken(Token::RParen));
    assert_eq!(CompiledExpr::compile("t^").unwrap_err(), ExprError::UnexpectedEnd);
    assert_eq!(CompiledExpr::compile("(t").unwrap_err(), ExprError::Expected { expected: Token::RParen, found: None });
}
