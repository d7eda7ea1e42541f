//! The syntax tree of a program: what the parser produces and the compiler
//! reads.

use vstd::prelude::*;
use crate::value::{Value, ValueView};

verus! {

/// An expression.
#[derive(Debug)]
pub enum ExprAst {
    Constant(Value),
    Variable(String),
    Function(FunctionAst),
    /// The value that an entity has for an attribute.
    Dot(Box<ExprAst>, Box<ExprAst>),
}

/// The application of a named function to arguments.
#[derive(Debug)]
pub struct FunctionAst {
    pub name: String,
    pub args: Vec<ExprAst>,
}

/// A statement: two expressions that must be equal, or a triple to emit.
#[derive(Debug)]
pub enum StatementAst {
    Pattern([ExprAst; 2]),
    Assert([ExprAst; 3]),
}

/// A block: its statements, each parsed or left as the error it gave.
#[derive(Debug)]
pub struct BlockAst {
    pub statements: Vec<Result<StatementAst, String>>,
}

/// A program: its blocks, and the block that holds the cursor.
#[derive(Debug)]
pub struct CodeAst {
    pub blocks: Vec<BlockAst>,
    pub focused: Option<usize>,
}

/// The mathematical model of an [`ExprAst`].
pub enum ExprView {
    Constant(ValueView),
    Variable(Seq<char>),
    Function(Seq<char>, Seq<ExprView>),
    Dot(Box<ExprView>, Box<ExprView>),
}

/// The model of one expression.
pub open spec fn expr_view(e: ExprAst) -> ExprView
    decreases e,
{
    match e {
        ExprAst::Constant(v) => ExprView::Constant(v@),
        ExprAst::Variable(name) => ExprView::Variable(name@),
        ExprAst::Function(f) => ExprView::Function(f.name@, exprs_view(f.args@)),
        ExprAst::Dot(a, b) => ExprView::Dot(Box::new(expr_view(*a)), Box::new(expr_view(*b))),
    }
}

/// The models of a list of expressions.
pub open spec fn exprs_view(es: Seq<ExprAst>) -> Seq<ExprView>
    decreases es,
{
    if es.len() == 0 {
        Seq::empty()
    } else {
        exprs_view(es.drop_last()).push(expr_view(es.last()))
    }
}

impl View for ExprAst {
    type V = ExprView;

    open spec fn view(&self) -> ExprView {
        expr_view(*self)
    }
}

/// `exprs_view` maps the expressions one by one.
pub proof fn lemma_exprs_view(es: Seq<ExprAst>)
    ensures
        exprs_view(es).len() == es.len(),
        forall|i: int| 0 <= i < es.len() ==> #[trigger] exprs_view(es)[i] == es[i]@,
    decreases es.len(),
{
    if es.len() > 0 {
        lemma_exprs_view(es.drop_last());
    }
}

/// The mathematical model of a [`StatementAst`].
pub enum StatementView {
    Pattern(ExprView, ExprView),
    Assert(ExprView, ExprView, ExprView),
}

impl View for StatementAst {
    type V = StatementView;

    open spec fn view(&self) -> StatementView {
        match *self {
            StatementAst::Pattern(es) => StatementView::Pattern(es[0]@, es[1]@),
            StatementAst::Assert(es) => StatementView::Assert(es[0]@, es[1]@, es[2]@),
        }
    }
}

/// The model of a statement that may have failed to parse.
pub open spec fn parsed_view(s: Result<StatementAst, String>) -> Result<StatementView, Seq<char>> {
    match s {
        Ok(statement) => Ok(statement@),
        Err(message) => Err(message@),
    }
}

impl View for BlockAst {
    type V = Seq<Result<StatementView, Seq<char>>>;

    open spec fn view(&self) -> Seq<Result<StatementView, Seq<char>>> {
        self.statements@.map_values(|s: Result<StatementAst, String>| parsed_view(s))
    }
}

} // verus!
