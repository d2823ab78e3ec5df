use biot_savart::engine::components::curve::{compile_axes, lookup_function, Axis, CompiledExpr, Function};
use biot_savart::engine::components::expr::{BinaryOp, Expr, ExprError};
use biot_savart::engine::components::lexer::tokenize;
use biot_savart::engine::components::token::Token;

fn num(s: &str) -> Expr {
    Expr::Num(s.to_string())
}

fn bin(op: BinaryOp, l: Expr, r: Expr) -> Expr {
    Expr::BinOp { op, lhs: Box::new(l), rhs: Box::new(r) }
}

fn neg(e: Expr) -> Expr {
    Expr::UnaryMinus(Box::new(e))
}

fn call(name: &str, e: Expr) -> Expr {
    Expr::Call { name: name.to_string(), arg: Box::new(e) }
}

fn compiled(src: &str) -> Expr {
    match CompiledExpr::compile(src) {
        Ok(c) => match c.expr() {
            e => clone_expr(e),
        },
        Err(e) => panic!("{src:?} did not compile: {e:?}"),
    }
}

fn clone_expr(e: &Expr) -> Expr {
    match e {
        Expr::Num(s) => Expr::Num(s.clone()),
        Expr::Pi => Expr::Pi,
        Expr::Euler => Expr::Euler,
        Expr::T => Expr::T,
        Expr::BinOp { op, lhs, rhs } => bin(*op, clone_expr(lhs), clone_expr(rhs)),
        Expr::UnaryMinus(x) => neg(clone_expr(x)),
        Expr::Call { name, arg } => call(name, clone_expr(arg)),
    }
}

fn compile_failure(src: &str) -> ExprError {
    match CompiledExpr::compile(src) {
        Ok(c) => panic!("{src:?} compiled to {:?}", c.expr()),
        Err(e) => e,
    }
}

#[test]
fn tokenize_operators_numbers_and_names() {
    let toks = tokenize("2.5*sin(t) - x_1^ 3").unwrap();
    assert_eq!(
        toks,
        vec![
            Token::Num("2.5".to_string()),
            Token::Star,
            Token::Ident("sin".to_string()),
            Token::LParen,
            Token::T,
            Token::RParen,
            Token::Minus,
            Token::Ident("x_1".to_string()),
            Token::Caret,
            Token::Num("3".to_string()),
        ]
    );
}

#[test]
fn tokenize_exponent_literals() {
    assert_eq!(tokenize("1.5e-3").unwrap(), vec![Token::Num("1.5e-3".to_string())]);
    assert_eq!(tokenize("2E+10").unwrap(), vec![Token::Num("2E+10".to_string())]);
    assert_eq!(tokenize(".5").unwrap(), vec![Token::Num(".5".to_string())]);
    assert_eq!(tokenize("5.").unwrap(), vec![Token::Num("5.".to_string())]);
    // the sign after an exponent mark is part of the literal, elsewhere it is an operator
    assert_eq!(
        tokenize("1e2+3").unwrap(),
        vec![Token::Num("1e2".to_string()), Token::Plus, Token::Num("3".to_string())]
    );
    assert_eq!(
        tokenize("1e+3").unwrap(),
        vec![Token::Num("1e+3".to_string())]
    );
}

#[test]
fn tokenize_invalid_number_literals() {
    assert_eq!(tokenize("1.2.3"), Err(ExprError::InvalidNumber("1.2.3".to_string())));
    assert_eq!(tokenize("."), Err(ExprError::InvalidNumber(".".to_string())));
    assert_eq!(tokenize("3e"), Err(ExprError::InvalidNumber("3e".to_string())));
    assert_eq!(tokenize("3e+"), Err(ExprError::InvalidNumber("3e+".to_string())));
    assert_eq!(tokenize("1e5e2"), Err(ExprError::InvalidNumber("1e5e2".to_string())));
}

#[test]
fn tokenize_unexpected_characters() {
    assert_eq!(tokenize("t # 2"), Err(ExprError::UnexpectedChar('#')));
    assert_eq!(tokenize("1\n"), Err(ExprError::UnexpectedChar('\n')));
    // the first error from the left is reported
    assert_eq!(tokenize("$ 1.2.3"), Err(ExprError::UnexpectedChar('$')));
    assert_eq!(tokenize("1.2.3 $"), Err(ExprError::InvalidNumber("1.2.3".to_string())));
}

#[test]
fn tokenize_blanks_and_unicode_names() {
    assert_eq!(tokenize(" \t ").unwrap(), vec![]);
    assert_eq!(tokenize("tt").unwrap(), vec![Token::Ident("tt".to_string())]);
    assert_eq!(tokenize("t2").unwrap(), vec![Token::Ident("t2".to_string())]);
    assert_eq!(tokenize("té").unwrap(), vec![Token::Ident("té".to_string())]);
    // a name must start with an ASCII letter or an underscore
    assert_eq!(tokenize("é"), Err(ExprError::UnexpectedChar('é')));
}

#[test]
fn compile_precedence_and_grouping() {
    assert_eq!(compiled("1+2*3"), bin(BinaryOp::Add, num("1"), bin(BinaryOp::Mul, num("2"), num("3"))));
    assert_eq!(compiled("1-2-3"), bin(BinaryOp::Sub, bin(BinaryOp::Sub, num("1"), num("2")), num("3")));
    assert_eq!(compiled("8/4/2"), bin(BinaryOp::Div, bin(BinaryOp::Div, num("8"), num("4")), num("2")));
    assert_eq!(compiled("2^3^2"), bin(BinaryOp::Pow, num("2"), bin(BinaryOp::Pow, num("3"), num("2"))));
    assert_eq!(compiled("-2^2"), neg(bin(BinaryOp::Pow, num("2"), num("2"))));
    assert_eq!(compiled("2^-t"), bin(BinaryOp::Pow, num("2"), neg(Expr::T)));
    assert_eq!(compiled("(1+2)*3"), bin(BinaryOp::Mul, bin(BinaryOp::Add, num("1"), num("2")), num("3")));
    assert_eq!(compiled("--t"), neg(neg(Expr::T)));
}

#[test]
fn compile_constants_and_calls() {
    assert_eq!(compiled("cos(t)"), call("cos", Expr::T));
    assert_eq!(compiled("pi"), Expr::Pi);
    assert_eq!(compiled("e"), Expr::Euler);
    assert_eq!(compiled("2*pi*t"), bin(BinaryOp::Mul, bin(BinaryOp::Mul, num("2"), Expr::Pi), Expr::T));
    // unknown function names are accepted here and refused when evaluated
    assert_eq!(compiled("foo(1)"), call("foo", num("1")));
    assert_eq!(compiled("sqrt(abs(t - e))"), call("sqrt", call("abs", bin(BinaryOp::Sub, Expr::T, Expr::Euler))));
}

#[test]
fn compile_failures() {
    assert_eq!(compile_failure(""), ExprError::Empty);
    assert_eq!(compile_failure("   "), ExprError::Empty);
    assert_eq!(compile_failure("\n\t "), ExprError::Empty);
    assert_eq!(compile_failure("\u{3000}"), ExprError::Empty);
    assert_eq!(
        compile_failure("(1"),
        ExprError::Expected { expected: Token::RParen, found: None }
    );
    assert_eq!(
        compile_failure("sin t"),
        ExprError::Expected { expected: Token::LParen, found: Some(Token::T) }
    );
    assert_eq!(
        compile_failure("sin(t"),
        ExprError::Expected { expected: Token::RParen, found: None }
    );
    assert_eq!(compile_failure("1 2"), ExprError::TrailingToken(Token::Num("2".to_string())));
    assert_eq!(compile_failure("pi(2)"), ExprError::TrailingToken(Token::LParen));
    assert_eq!(compile_failure("*2"), ExprError::UnexpectedToken(Token::Star));
    assert_eq!(compile_failure("1+"), ExprError::UnexpectedEnd);
    assert_eq!(compile_failure("()"), ExprError::UnexpectedToken(Token::RParen));
    assert_eq!(compile_failure("1 ? 2"), ExprError::UnexpectedChar('?'));
}

#[test]
fn written_text_reads_back() {
    // the text of a tree, every operand in parentheses and tokens separated by spaces
    let tree = bin(
        BinaryOp::Sub,
        call("sin", bin(BinaryOp::Pow, Expr::T, num("2"))),
        neg(bin(BinaryOp::Div, Expr::Pi, num("1.5e-3"))),
    );
    let text = "( sin ( ( t ) ^ ( 2 ) ) ) - ( - ( ( pi ) / ( 1.5e-3 ) ) ) ";
    assert_eq!(compiled(text), tree);
    let tree2 = bin(BinaryOp::Add, Expr::Euler, call("ln", Expr::T));
    assert_eq!(compiled("( e ) + ( ln ( t ) ) "), tree2);
}

#[test]
fn function_lookup() {
    assert_eq!(lookup_function("sin"), Some(Function::Sin));
    assert_eq!(lookup_function("cos"), Some(Function::Cos));
    assert_eq!(lookup_function("tan"), Some(Function::Tan));
    assert_eq!(lookup_function("sqrt"), Some(Function::Sqrt));
    assert_eq!(lookup_function("abs"), Some(Function::Abs));
    assert_eq!(lookup_function("exp"), Some(Function::Exp));
    assert_eq!(lookup_function("ln"), Some(Function::Ln));
    assert_eq!(lookup_function("log"), Some(Function::Log));
    assert_eq!(lookup_function("floor"), Some(Function::Floor));
    assert_eq!(lookup_function("ceil"), Some(Function::Ceil));
    assert_eq!(lookup_function("Sin"), None);
    assert_eq!(lookup_function("sinh"), None);
    assert_eq!(lookup_function(""), None);
}

#[test]
fn axes_compile_in_order() {
    let ok = compile_axes("cos(t)", "sin(t)", "0").unwrap();
    assert_eq!(*ok.x.expr(), call("cos", Expr::T));
    assert_eq!(*ok.y.expr(), call("sin", Expr::T));
    assert_eq!(*ok.z.expr(), num("0"));
    let err = compile_axes("t", "", "(").unwrap_err();
    assert_eq!(err.axis, Axis::Y);
    assert_eq!(err.error, ExprError::Empty);
    let err = compile_axes("1..2", "", "").unwrap_err();
    assert_eq!(err.axis, Axis::X);
    assert_eq!(err.error, ExprError::InvalidNumber("1..2".to_string()));
    let err = compile_axes("t", "t", "t)").unwrap_err();
    assert_eq!(err.axis, Axis::Z);
    assert_eq!(err.error, ExprError::TrailingToken(Token::RParen));
}
