//! The syntax tree of a program, as the parser hands it over.

use vstd::prelude::*;
use crate::number::Number;
use crate::span::Span;

verus! {

#[derive(Debug)]
pub struct ProgramNode<'p> {
    pub relations: Vec<RelationNode<'p>>,
}

/// `name(params) ~ values;` or `name(params) { statements };`
#[derive(Debug)]
pub struct RelationNode<'p> {
    pub span: Span<'p>,
    pub relation: RelationId<'p>,
    pub params: ConstList<'p>,
    pub block: RelationBlock<'p>,
}

#[derive(Debug)]
pub enum RelationBlock<'p> {
    Const(ConstList<'p>),
    Block(BlockNode<'p>),
}

#[derive(Debug)]
pub struct RelationId<'p> {
    pub span: Span<'p>,
    pub name: String,
}

#[derive(Debug)]
pub struct ConstList<'p> {
    pub span: Span<'p>,
    pub constants: Vec<ConstantNode<'p>>,
}

#[derive(Debug)]
pub struct BlockNode<'p> {
    pub span: Span<'p>,
    pub statements: Vec<StatementNode<'p>>,
}

/// A pattern.
#[derive(Debug)]
pub struct ConstantNode<'p> {
    pub span: Span<'p>,
    pub contents: ConstantContents<'p>,
}

#[derive(Debug)]
pub enum ConstantContents<'p> {
    /// The wildcard `_`.
    EmptyPattern,
    Atom(String),
    Var(String),
    Literal(Number),
    /// `[e0, e1, ...]`
    List(Vec<ConstantNode<'p>>),
    /// `(e0:e1:...:tail)`, the tail last.
    ConsList(Vec<ConstantNode<'p>>),
}

#[derive(Debug)]
pub enum StatementNode<'p> {
    Assignment(AssignmentNode<'p>),
    Relate(RelateNode<'p>),
    Refute(RefuteNode<'p>),
    BinaryFact(BinaryFactNode<'p>),
    Relation(RelationCallNode<'p>),
}

/// `pattern ~ expression` or `(patterns) ~ call(args)`.
#[derive(Debug)]
pub struct AssignmentNode<'p> {
    pub span: Span<'p>,
    pub lhs: ConstList<'p>,
    pub rhs: ExpressionNode<'p>,
}

/// `relate e` or `relate (e0, e1, ...)`.
#[derive(Debug)]
pub struct RelateNode<'p> {
    pub span: Span<'p>,
    pub result: Vec<ExpressionNode<'p>>,
}

/// `refute call(args)`.
#[derive(Debug)]
pub struct RefuteNode<'p> {
    pub span: Span<'p>,
    pub statement: Box<RelationCallNode<'p>>,
}

/// `lhs op rhs`, a comparison.
#[derive(Debug)]
pub struct BinaryFactNode<'p> {
    pub span: Span<'p>,
    pub lhs: ExpressionNode<'p>,
    pub rhs: ExpressionNode<'p>,
    pub op: BinaryFactOperation,
}

#[derive(Debug, Clone, Copy, PartialEq, Eq, Structural)]
pub enum BinaryFactOperation {
    Gt,
    Lt,
    Leq,
    Geq,
    Equ,
    Neq,
}

#[derive(Debug)]
pub struct ExpressionNode<'p> {
    pub span: Span<'p>,
    pub contents: ExpressionContents<'p>,
}

#[derive(Debug)]
pub enum ExpressionContents<'p> {
    Const(ConstantNode<'p>),
    Operation {
        op: BinaryOperation,
        lhs: Box<ExpressionNode<'p>>,
        rhs: Box<ExpressionNode<'p>>,
    },
    Call { rel: RelationId<'p>, args: Vec<ExpressionNode<'p>> },
    List { vals: Vec<ExpressionNode<'p>> },
    /// `(e0, e1, ..., tail)`, the tail last.
    ConsList { vals: Vec<ExpressionNode<'p>> },
}

/// `name(args)`.
#[derive(Debug)]
pub struct RelationCallNode<'p> {
    pub span: Span<'p>,
    pub rel: RelationId<'p>,
    pub args: Vec<ExpressionNode<'p>>,
}

#[derive(Debug, Clone, Copy, PartialEq, Eq, Structural)]
pub enum BinaryOperation {
    Add,
    Sub,
    Mul,
    Div,
    Mod,
}

/// Number of results of the first `relate` of the block, 0 where it has none.
pub open spec fn num_results(statements: Seq<StatementNode>) -> nat
    decreases statements.len(),
{
    if statements.len() == 0 {
        0
    } else {
        match statements[0] {
            StatementNode::Relate(r) => r.result.len() as nat,
            _ => num_results(statements.drop_first()),
        }
    }
}

/// The number of output arguments of a block-bodied relation: the arity
/// of its first `relate`.
pub fn find_num_results<'p>(bnode: &BlockNode<'p>) -> (r: usize)
    ensures
        r == num_results(bnode.statements@),
{
    let mut i: usize = 0;
    proof {
        assert(bnode.statements@.skip(0) =~= bnode.statements@);
    }
    while i < bnode.statements.len()
        invariant
            i <= bnode.statements.len(),
            num_results(bnode.statements@) == num_results(bnode.statements@.skip(i as int)),
        decreases bnode.statements.len() - i,
    {
        proof {
            assert(bnode.statements@.skip(i as int).drop_first() =~= bnode.statements@.skip(
                i + 1,
            ));
        }
        if let StatementNode::Relate(rnode) = &bnode.statements[i] {
            return rnode.result.len();
        }
        i = i + 1;
    }
    0
}

} // verus!
