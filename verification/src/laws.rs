use vstd::prelude::*;
use crate::ast::ast_view;
use crate::ast::ast_view_list;
use crate::ast::lemma_ast_view_list;
use crate::ast::AstNode;
use crate::codec::CellRef;
use crate::codec::CellRefCoord;
use crate::error::FormulaErrorMsg;
use crate::eval::if_name;
use crate::eval::spec_eval;
use crate::eval::spec_read_cell;
use crate::eval::spec_sum_args;
use crate::eval::sum_name;
use crate::value::spec_to_bool;
use crate::pos::Pos;

verus! {

/// Two trees with the same model evaluate alike: evaluation is a function
/// of a tree's model, so the tree [`crate::parser::spec_parse_formula`]
/// names determines the evaluation result completely.
pub proof fn lemma_eval_view_determined(a: AstNode, b: AstNode, grid: Map<Pos, Seq<char>>, pos: Pos)
    requires
        ast_view(a) == ast_view(b),
    ensures
        spec_eval(a, grid, pos) == spec_eval(b, grid, pos),
    decreases a,
{
    match (a, b) {
        (AstNode::Unary(op1, x1), AstNode::Unary(op2, x2)) => {
            assert(ast_view(*x1) == ast_view(*x2)) by {
                assert(seq![ast_view(*x1)][0] == seq![ast_view(*x2)][0]);
            }
            lemma_eval_view_determined(*x1, *x2, grid, pos);
        },
        (AstNode::Binary(op1, x1, y1), AstNode::Binary(op2, x2, y2)) => {
            assert(ast_view(*x1) == ast_view(*x2) && ast_view(*y1) == ast_view(*y2)) by {
                assert(seq![ast_view(*x1), ast_view(*y1)][0] == seq![
                    ast_view(*x2),
                    ast_view(*y2),
                ][0]);
                assert(seq![ast_view(*x1), ast_view(*y1)][1] == seq![
                    ast_view(*x2),
                    ast_view(*y2),
                ][1]);
            }
            lemma_eval_view_determined(*x1, *x2, grid, pos);
            lemma_eval_view_determined(*y1, *y2, grid, pos);
        },
        (AstNode::FuncCall(n1, args1), AstNode::FuncCall(n2, args2)) => {
            assert(n1@ == n2@);
            lemma_ast_view_list(args1@);
            lemma_ast_view_list(args2@);
            assert(args1@.len() == args2@.len());
            assert forall|q: int| 0 <= q < args1@.len() implies ast_view(#[trigger] args1@[q])
                == ast_view(args2@[q]) by {
                assert(ast_view_list(args1@)[q] == ast_view_list(args2@)[q]);
            }
            if n1@ == sum_name() {
                lemma_sum_view_determined(args1@, args2@, grid, pos);
            } else if n1@ == if_name() {
                if args1@.len() == 3 {
                    assert(decreases_to!(a => args1@[0]));
                    lemma_eval_view_determined(args1@[0], args2@[0], grid, pos);
                    lemma_eval_view_determined(args1@[1], args2@[1], grid, pos);
                    lemma_eval_view_determined(args1@[2], args2@[2], grid, pos);
                }
            }
        },
        _ => {},
    }
}

proof fn lemma_sum_view_determined(
    s1: Seq<AstNode>,
    s2: Seq<AstNode>,
    grid: Map<Pos, Seq<char>>,
    pos: Pos,
)
    requires
        s1.len() == s2.len(),
        forall|q: int| 0 <= q < s1.len() ==> ast_view(#[trigger] s1[q]) == ast_view(s2[q]),
    ensures
        spec_sum_args(s1, grid, pos) == spec_sum_args(s2, grid, pos),
    decreases s1,
{
    if s1.len() > 0 {
        lemma_eval_view_determined(s1[0], s2[0], grid, pos);
        let t1 = s1.subrange(1, s1.len() as int);
        let t2 = s2.subrange(1, s2.len() as int);
        assert(forall|q: int| 0 <= q < t1.len() ==> ast_view(#[trigger] t1[q]) == ast_view(t2[q]))
            by {
            assert(forall|q: int| 0 <= q < t1.len() ==> t1[q] == s1[q + 1] && t2[q] == s2[q + 1]);
        }
        lemma_sum_view_determined(t1, t2, grid, pos);
    }
}

/// Self-reference: a formula that is one fully absolute reference to the
/// cell at `(x, y)` fails with CircularReference exactly when evaluated at
/// that position, and at every other position succeeds, producing the value
/// read from that absolute target.
pub proof fn lemma_absolute_self_reference(
    x: i64,
    y: i64,
    grid: Map<Pos, Seq<char>>,
    pos: Pos,
)
    ensures
        ({
            let r = CellRef {
                x: CellRefCoord { is_absolute: true, coord: x },
                y: CellRefCoord { is_absolute: true, coord: y },
            };
            let target = Pos { x, y };
            &&& pos == target ==> spec_eval(AstNode::CellRef(r), grid, pos) == Err::<
                crate::value::SpecValue,
                _,
            >(FormulaErrorMsg::CircularReference)
            &&& pos != target ==> spec_eval(AstNode::CellRef(r), grid, pos) == Ok::<
                _,
                FormulaErrorMsg,
            >(spec_read_cell(grid, target))
        }),
{
}

/// Lazy conditional: when the condition of the conditional function comes
/// out true, the call evaluates to exactly the second argument's value, and
/// the third argument has no influence at all — two calls that differ only
/// in their third argument evaluate alike, whatever errors that argument
/// might contain.
pub proof fn lemma_conditional_lazy(
    name: String,
    args1: Vec<AstNode>,
    args2: Vec<AstNode>,
    grid: Map<Pos, Seq<char>>,
    pos: Pos,
)
    requires
        name@ == if_name(),
        args1@.len() == 3,
        args2@.len() == 3,
        args1@[0] == args2@[0],
        args1@[1] == args2@[1],
        ({
            &&& spec_eval(args1@[0], grid, pos) matches Ok(v)
            &&& spec_to_bool(spec_eval(args1@[0], grid, pos)->Ok_0) == Some(true)
        }),
    ensures
        spec_eval(AstNode::FuncCall(name, args1), grid, pos) == spec_eval(args1@[1], grid, pos),
        spec_eval(AstNode::FuncCall(name, args1), grid, pos) == spec_eval(
            AstNode::FuncCall(name, args2),
            grid,
            pos,
        ),
{
    assert(name@ != crate::eval::sum_name());
}

} // verus!
