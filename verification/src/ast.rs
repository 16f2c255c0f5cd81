use vstd::prelude::*;
use crate::codec::CellRef;

verus! {

/// A prefix operator.
#[derive(Debug, Clone, Copy, PartialEq, Eq, Structural)]
pub enum UnaryOpKind {
    Plus,
    Neg,
}

/// An infix operator, in the fixed precedence order of the grammar.
#[derive(Debug, Clone, Copy, PartialEq, Eq, Structural)]
pub enum BinaryOpKind {
    Add,
    Sub,
    Mul,
    Div,
    Pow,
    Concat,
    CmpEq,
    CmpNe,
    CmpLt,
    CmpGt,
    CmpLe,
    CmpGe,
}

/// A node of a parsed expression tree. The tree owns its children and is
/// immutable after parsing.
#[derive(Debug)]
pub enum AstNode {
    Number(i64),
    Text(String),
    Bool(bool),
    CellRef(CellRef),
    Unary(UnaryOpKind, Box<AstNode>),
    Binary(BinaryOpKind, Box<AstNode>, Box<AstNode>),
    FuncCall(String, Vec<AstNode>),
}

/// A parsed formula: an expression tree whose relative references carry
/// offsets baked against the anchor the text was parsed at.
#[derive(Debug)]
pub struct Formula {
    pub ast: AstNode,
}

/// The mathematical model of an expression tree: children as sequences,
/// text as character sequences, numbers unbounded.
pub enum SpecAst {
    Num(int),
    Text(Seq<char>),
    Bool(bool),
    CellRef(CellRef),
    Unary(UnaryOpKind, Seq<SpecAst>),
    Binary(BinaryOpKind, Seq<SpecAst>),
    FuncCall(Seq<char>, Seq<SpecAst>),
}

/// The model of a tree node.
pub open spec fn ast_view(a: AstNode) -> SpecAst
    decreases a,
{
    match a {
        AstNode::Number(n) => SpecAst::Num(n as int),
        AstNode::Text(s) => SpecAst::Text(s@),
        AstNode::Bool(b) => SpecAst::Bool(b),
        AstNode::CellRef(r) => SpecAst::CellRef(r),
        AstNode::Unary(op, a1) => SpecAst::Unary(op, seq![ast_view(*a1)]),
        AstNode::Binary(op, a1, a2) => SpecAst::Binary(op, seq![ast_view(*a1), ast_view(*a2)]),
        AstNode::FuncCall(name, args) => SpecAst::FuncCall(name@, ast_view_list(args@)),
    }
}

/// The models of a sequence of nodes, element by element.
pub open spec fn ast_view_list(s: Seq<AstNode>) -> Seq<SpecAst>
    decreases s,
{
    if s.len() == 0 {
        Seq::empty()
    } else {
        seq![ast_view(s[0])] + ast_view_list(s.subrange(1, s.len() as int))
    }
}

pub proof fn lemma_ast_view_list(s: Seq<AstNode>)
    ensures
        ast_view_list(s).len() == s.len(),
        forall|i: int| 0 <= i < s.len() ==> ast_view_list(s)[i] == ast_view(s[i]),
    decreases s,
{
    if s.len() > 0 {
        let t = s.subrange(1, s.len() as int);
        lemma_ast_view_list(t);
        assert forall|i: int| 0 <= i < s.len() implies ast_view_list(s)[i] == ast_view(s[i]) by {
            if i > 0 {
                assert(t[i - 1] == s[i]);
                assert(ast_view_list(s)[i] == ast_view_list(t)[i - 1]);
            }
        }
    }
}

pub proof fn lemma_ast_view_list_push(s: Seq<AstNode>, a: AstNode)
    ensures
        ast_view_list(s.push(a)) == ast_view_list(s).push(ast_view(a)),
{
    lemma_ast_view_list(s);
    lemma_ast_view_list(s.push(a));
    assert(ast_view_list(s.push(a)) =~= ast_view_list(s).push(ast_view(a)));
}

} // verus!
