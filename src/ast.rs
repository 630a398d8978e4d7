use vstd::prelude::*;

verus! {

broadcast use vstd::std_specs::vec::axiom_vec_index_decreases;

/// The operators an expression may hold.
#[derive(Debug, Clone, Copy, PartialEq, Eq, Structural)]
pub enum Operator {
    Add,
    Sub,
    Mul,
    Div,
    Mod,
    Equal,
    Greater,
    Less,
}

/// A literal value. A float keeps the text it was written with, which reads
/// as a 64-bit float.
#[derive(Debug, Clone, PartialEq)]
pub enum Type {
    Integer(i64),
    Float(String),
    String(String),
    Symbol(String),
}

/// One node of an expression: a nested expression, an operator or a literal.
#[derive(Debug)]
pub enum Expr {
    Expr(Vec<Expr>),
    Operator(Operator),
    Literal(Type),
}

/// One statement of a program.
#[derive(Debug)]
pub enum Instruction {
    /// Write the value of an expression.
    Print(Expr),
    /// Give a variable a value.
    Let(String, Expr),
    /// A condition, the block run when it holds, and an optional other block.
    If(Expr, Block, Option<Block>),
    /// A condition and the block repeated while it holds.
    While(Expr, Block),
    /// A block to run, and the block run if it raises an error.
    TryError(Block, Block),
    /// A function's name, its parameter names and its body.
    Function(String, Vec<String>, Block),
    /// Leave a function, with an optional value.
    Return(Option<Expr>),
}

/// Instructions in the order they run.
pub type Block = Vec<Instruction>;

/// A literal as its tag and plain value.
pub ghost enum LiteralModel {
    Integer(i64),
    Float(Seq<char>),
    Str(Seq<char>),
    Symbol(Seq<char>),
}

/// An expression node as a mathematical value.
pub ghost enum ExprModel {
    Group(Seq<ExprModel>),
    Op(Operator),
    Lit(LiteralModel),
}

impl View for Type {
    type V = LiteralModel;

    open spec fn view(&self) -> LiteralModel {
        match self {
            Type::Integer(i) => LiteralModel::Integer(*i),
            Type::Float(s) => LiteralModel::Float(s@),
            Type::String(s) => LiteralModel::Str(s@),
            Type::Symbol(s) => LiteralModel::Symbol(s@),
        }
    }
}

/// The model of an expression node.
pub open spec fn expr_model(e: Expr) -> ExprModel
    decreases e,
{
    match e {
        Expr::Expr(v) => ExprModel::Group(group_model(v@)),
        Expr::Operator(o) => ExprModel::Op(o),
        Expr::Literal(t) => ExprModel::Lit(t@),
    }
}

/// The models of a sequence of expression nodes, in order.
pub open spec fn group_model(v: Seq<Expr>) -> Seq<ExprModel>
    decreases v,
{
    Seq::new(v.len(), |i: int| if 0 <= i < v.len() { expr_model(v[i]) } else { ExprModel::Group(seq![]) })
}

impl View for Expr {
    type V = ExprModel;

    open spec fn view(&self) -> ExprModel {
        expr_model(*self)
    }
}

/// The model of a group is the sequence of the models of its nodes.
pub proof fn lemma_group_view(v: Vec<Expr>)
    ensures
        Expr::Expr(v)@ == ExprModel::Group(Seq::new(v@.len(), |i: int| v@[i]@)),
{
    assert(group_model(v@) =~= Seq::new(v@.len(), |i: int| v@[i]@));
}

} // verus!
