//! Compiled expressions of the parametric-curve language.
use vstd::prelude::*;
use crate::engine::components::chars::{blank, is_blank, str_equal};
use crate::engine::components::expr::{ErrorModel, Expr, ExprError, ExprModel};
use crate::engine::components::lexer::{lex, tokenize};
use crate::engine::components::parser::{parse_tokens, parsed, Parser, lemma_expr_progress};
use crate::engine::components::token::tokens_view;

verus! {

/// What compiling the text `s` gives: an error if it is blank, the first
/// tokenizing error, the first parsing error, an error for tokens left over
/// after a complete expression, or else the expression tree.
pub open spec fn compile_spec(s: Seq<char>) -> Result<ExprModel, ErrorModel> {
    if is_blank(s) {
        Err(ErrorModel::Empty)
    } else {
        match lex(s) {
            Err(e) => Err(e),
            Ok(toks) => parse_tokens(toks),
        }
    }
}

/// An expression that has been checked and parsed, ready to be evaluated
/// at any value of `t`.
#[derive(Debug)]
pub struct CompiledExpr(Expr);

impl View for CompiledExpr {
    type V = ExprModel;

    closed spec fn view(&self) -> ExprModel {
        self.0@
    }
}

pub open spec fn compiled_view(r: Result<CompiledExpr, ExprError>) -> Result<ExprModel, ErrorModel> {
    match r {
        Ok(c) => Ok(c@),
        Err(e) => Err(e@),
    }
}

impl CompiledExpr {
    /// Tokenizes and parses the text of an expression in `t`.
    pub fn compile(src: &str) -> (r: Result<CompiledExpr, ExprError>)
        ensures
            compiled_view(r) == compile_spec(src@),
    {
        if blank(src) {
            return Err(ExprError::Empty);
        }
        let tokens = match tokenize(src) {
            Ok(ts) => ts,
            Err(e) => return Err(e),
        };
        let ghost toks = tokens_view(tokens@);
        let mut parser = Parser::new(tokens);
        let expr = match parser.parse_expr() {
            Ok(e) => e,
            Err(e) => return Err(e),
        };
        proof {
            lemma_expr_progress(toks, 0);
        }
        if parser.pos < parser.tokens.len() {
            return Err(ExprError::TrailingToken(parser.tokens[parser.pos].duplicate()));
        }
        Ok(CompiledExpr(expr))
    }

    /// The expression tree.
    pub fn expr(&self) -> (r: &Expr)
        ensures
            r@ == self@,
    {
        &self.0
    }
}


/// The one-argument functions that expressions may call.
#[derive(Clone, Copy, Debug, PartialEq, Eq, Structural)]
pub enum Function {
    Sin,
    Cos,
    Tan,
    Sqrt,
    Abs,
    Exp,
    /// Natural logarithm.
    Ln,
    /// Base-ten logarithm.
    Log,
    Floor,
    Ceil,
}

/// The function that a name denotes, if any.
pub open spec fn function_named(name: Seq<char>) -> Option<Function> {
    if name == seq!['s', 'i', 'n'] {
        Some(Function::Sin)
    } else if name == seq!['c', 'o', 's'] {
        Some(Function::Cos)
    } else if name == seq!['t', 'a', 'n'] {
        Some(Function::Tan)
    } else if name == seq!['s', 'q', 'r', 't'] {
        Some(Function::Sqrt)
    } else if name == seq!['a', 'b', 's'] {
        Some(Function::Abs)
    } else if name == seq!['e', 'x', 'p'] {
        Some(Function::Exp)
    } else if name == seq!['l', 'n'] {
        Some(Function::Ln)
    } else if name == seq!['l', 'o', 'g'] {
        Some(Function::Log)
    } else if name == seq!['f', 'l', 'o', 'o', 'r'] {
        Some(Function::Floor)
    } else if name == seq!['c', 'e', 'i', 'l'] {
        Some(Function::Ceil)
    } else {
        None
    }
}

/// The name under which each function is called.
pub open spec fn function_text(f: Function) -> Seq<char> {
    match f {
        Function::Sin => seq!['s', 'i', 'n'],
        Function::Cos => seq!['c', 'o', 's'],
        Function::Tan => seq!['t', 'a', 'n'],
        Function::Sqrt => seq!['s', 'q', 'r', 't'],
        Function::Abs => seq!['a', 'b', 's'],
        Function::Exp => seq!['e', 'x', 'p'],
        Function::Ln => seq!['l', 'n'],
        Function::Log => seq!['l', 'o', 'g'],
        Function::Floor => seq!['f', 'l', 'o', 'o', 'r'],
        Function::Ceil => seq!['c', 'e', 'i', 'l'],
    }
}

/// A name denotes a function exactly when it is that function's name,
/// letter for letter; any other name denotes none.
pub proof fn lemma_function_named_exactly(name: Seq<char>, f: Function)
    ensures
        (function_named(name) == Some(f)) == (name == function_text(f)),
        function_named(name) is None == (forall|g: Function| name != #[trigger] function_text(g)),
{
    if function_named(name) is None {
        assert forall|g: Function| name != #[trigger] function_text(g) by {}
    } else {
        let g = function_named(name)->Some_0;
        assert(name == function_text(g));
    }
}

/// Looks up the function that a call names; `None` for an unknown name.
pub fn lookup_function(name: &str) -> (r: Option<Function>)
    ensures
        r == function_named(name@),
{
    proof {
        reveal_strlit("sin");
        reveal_strlit("cos");
        reveal_strlit("tan");
        reveal_strlit("sqrt");
        reveal_strlit("abs");
        reveal_strlit("exp");
        reveal_strlit("ln");
        reveal_strlit("log");
        reveal_strlit("floor");
        reveal_strlit("ceil");
        assert("sin"@ =~= seq!['s', 'i', 'n']);
        assert("cos"@ =~= seq!['c', 'o', 's']);
        assert("tan"@ =~= seq!['t', 'a', 'n']);
        assert("sqrt"@ =~= seq!['s', 'q', 'r', 't']);
        assert("abs"@ =~= seq!['a', 'b', 's']);
        assert("exp"@ =~= seq!['e', 'x', 'p']);
        assert("ln"@ =~= seq!['l', 'n']);
        assert("log"@ =~= seq!['l', 'o', 'g']);
        assert("floor"@ =~= seq!['f', 'l', 'o', 'o', 'r']);
        assert("ceil"@ =~= seq!['c', 'e', 'i', 'l']);
    }
    if str_equal(name, "sin") {
        Some(Function::Sin)
    } else if str_equal(name, "cos") {
        Some(Function::Cos)
    } else if str_equal(name, "tan") {
        Some(Function::Tan)
    } else if str_equal(name, "sqrt") {
        Some(Function::Sqrt)
    } else if str_equal(name, "abs") {
        Some(Function::Abs)
    } else if str_equal(name, "exp") {
        Some(Function::Exp)
    } else if str_equal(name, "ln") {
        Some(Function::Ln)
    } else if str_equal(name, "log") {
        Some(Function::Log)
    } else if str_equal(name, "floor") {
        Some(Function::Floor)
    } else if str_equal(name, "ceil") {
        Some(Function::Ceil)
    } else {
        None
    }
}

/// A coordinate of a parametric curve.
#[derive(Clone, Copy, Debug, PartialEq, Eq, Structural)]
pub enum Axis {
    X,
    Y,
    Z,
}

/// A coordinate expression that did not compile, and why.
#[derive(Debug, PartialEq)]
pub struct AxisError {
    pub axis: Axis,
    pub error: ExprError,
}

/// The three compiled coordinate expressions of a curve.
#[derive(Debug)]
pub struct CurveExprs {
    pub x: CompiledExpr,
    pub y: CompiledExpr,
    pub z: CompiledExpr,
}

/// What compiling the three coordinate texts gives: the first of `x`, `y`,
/// `z` that does not compile, with its error, or the three trees.
pub open spec fn compile_axes_spec(x: Seq<char>, y: Seq<char>, z: Seq<char>) -> Result<
    (ExprModel, ExprModel, ExprModel),
    (Axis, ErrorModel),
> {
    match compile_spec(x) {
        Err(e) => Err((Axis::X, e)),
        Ok(ex) => match compile_spec(y) {
            Err(e) => Err((Axis::Y, e)),
            Ok(ey) => match compile_spec(z) {
                Err(e) => Err((Axis::Z, e)),
                Ok(ez) => Ok((ex, ey, ez)),
            },
        },
    }
}

pub open spec fn axes_view(r: Result<CurveExprs, AxisError>) -> Result<
    (ExprModel, ExprModel, ExprModel),
    (Axis, ErrorModel),
> {
    match r {
        Ok(c) => Ok((c.x@, c.y@, c.z@)),
        Err(e) => Err((e.axis, e.error@)),
    }
}

/// Compiles the coordinate expressions of a parametric curve in the order
/// `x`, `y`, `z`, stopping at the first that fails.
pub fn compile_axes(x_expr: &str, y_expr: &str, z_expr: &str) -> (r: Result<CurveExprs, AxisError>)
    ensures
        axes_view(r) == compile_axes_spec(x_expr@, y_expr@, z_expr@),
{
    let x = match CompiledExpr::compile(x_expr) {
        Ok(c) => c,
        Err(error) => return Err(AxisError { axis: Axis::X, error }),
    };
    let y = match CompiledExpr::compile(y_expr) {
        Ok(c) => c,
        Err(error) => return Err(AxisError { axis: Axis::Y, error }),
    };
    let z = match CompiledExpr::compile(z_expr) {
        Ok(c) => c,
        Err(error) => return Err(AxisError { axis: Axis::Z, error }),
    };
    Ok(CurveExprs { x, y, z })
}

} // verus!
