//! Static checks on the syntax tree, run before lowering: every `relate`
//! of a block gives the same number of results, and no arithmetic takes a
//! list literal as an operand.

use vstd::prelude::*;
use crate::ast::{
    RelationNode, BlockNode, ExpressionContents, ExpressionNode, ProgramNode, RelationBlock, StatementNode,
};
use crate::span::{union_spans, Span};

verus! {

/// What a check found, with the places to show.
#[derive(Debug)]
pub enum CheckError<'p> {
    /// Two `relate` statements of one block give different numbers of results.
    RelateMismatch { first: Span<'p>, first_count: usize, second: Span<'p>, second_count: usize },
    /// Arithmetic on a list literal, over the span of both operands.
    OddOps { span: Span<'p> },
}

/// The `relate` statements of `ss` in order: their spans and result counts.
pub open spec fn relates<'p>(ss: Seq<StatementNode<'p>>) -> Seq<(Span<'p>, nat)>
    decreases ss.len(),
{
    if ss.len() == 0 {
        Seq::empty()
    } else {
        let r = relates(ss.drop_last());
        match ss.last() {
            StatementNode::Relate(rn) => r.push((rn.span, rn.result.len() as nat)),
            _ => r,
        }
    }
}

/// Every `relate` of the relation's block (if it has one) gives as many
/// results as the first.
pub open spec fn relates_consistent<'p>(r: RelationNode<'p>) -> bool {
    match r.block {
        RelationBlock::Block(b) => {
            let rs = relates(b.statements@);
            forall|j: int| 0 <= j < rs.len() ==> (#[trigger] rs[j]).1 == rs[0].1
        },
        RelationBlock::Const(_) => true,
    }
}

/// Checks that every `relate` of the block gives as many results as the
/// first; otherwise names the first and the first that differs.
pub fn check_relates_block<'p>(block: &BlockNode<'p>) -> (r: Result<(), CheckError<'p>>)
    ensures
        ({
            let rs = relates(block.statements@);
            &&& r is Ok == (forall|i: int| 0 <= i < rs.len() ==> (#[trigger] rs[i]).1 == rs[0].1)
            &&& r matches Err(e) ==> e matches CheckError::RelateMismatch {
                first,
                first_count,
                second,
                second_count,
            } && rs.len() > 0 && first == rs[0].0 && first_count == rs[0].1 && exists|k: int|
                0 < k < rs.len() && rs[k] == (second, second_count as nat) && second_count
                    != first_count && forall|j: int| 0 <= j < k ==> (#[trigger] rs[j]).1 == rs[0].1
        }),
{
    let ghost ss = block.statements@;
    let mut first: Option<(Span<'p>, usize)> = None;
    let mut i: usize = 0;
    while i < block.statements.len()
        invariant
            ss == block.statements@,
            i <= ss.len(),
            ({
                let rs = relates(ss.subrange(0, i as int));
                &&& first is None == (rs.len() == 0)
                &&& first matches Some((sp, n)) ==> rs[0] == (sp, n as nat)
                &&& forall|j: int| 0 <= j < rs.len() ==> (#[trigger] rs[j]).1 == rs[0].1
            }),
        decreases ss.len() - i,
    {
        let ghost before = relates(ss.subrange(0, i as int));
        proof {
            assert(ss.subrange(0, i + 1).drop_last() =~= ss.subrange(0, i as int));
        }
        if let StatementNode::Relate(rnode) = &block.statements[i] {
            let count = rnode.result.len();
            match first {
                None => {
                    first = Some((rnode.span, count));
                },
                Some((sp, n)) => {
                    if n != count {
                        proof {
                            lemma_relates_prefix(ss, i + 1);
                            let rs = relates(ss);
                            let k = before.len() as int;
                            assert(rs.subrange(0, k + 1) == before.push((rnode.span, count as nat)));
                            assert(rs.subrange(0, k + 1)[k] == rs[k]);
                            assert(rs.subrange(0, k + 1)[0] == rs[0]);
                            assert(rs[k] == (rnode.span, count as nat));
                            assert(rs[0] == before[0]);
                            assert forall|j: int| 0 <= j < k implies (#[trigger] rs[j]).1 == rs[0].1 by {
                                assert(rs.subrange(0, k + 1)[j] == rs[j]);
                                assert(rs[j] == before[j]);
                            }
                        }
                        return Err(
                            CheckError::RelateMismatch {
                                first: sp,
                                first_count: n,
                                second: rnode.span,
                                second_count: count,
                            },
                        );
                    }
                },
            }
        }
        i = i + 1;
    }
    proof {
        assert(ss.subrange(0, i as int) =~= ss);
    }
    Ok(())
}

/// The `relate`s of a prefix of `ss` are a prefix of those of `ss`.
proof fn lemma_relates_prefix<'p>(ss: Seq<StatementNode<'p>>, k: int)
    requires
        0 <= k <= ss.len(),
    ensures
        relates(ss.subrange(0, k)).len() <= relates(ss).len(),
        relates(ss).subrange(0, relates(ss.subrange(0, k)).len() as int) == relates(
            ss.subrange(0, k),
        ),
    decreases ss.len(),
{
    if k == ss.len() {
        assert(ss.subrange(0, k) =~= ss);
        assert(relates(ss).subrange(0, relates(ss).len() as int) =~= relates(ss));
    } else {
        lemma_relates_prefix(ss.drop_last(), k);
        assert(ss.drop_last().subrange(0, k) =~= ss.subrange(0, k));
        let a = relates(ss.drop_last());
        let p = relates(ss.subrange(0, k));
        assert(relates(ss).subrange(0, p.len() as int) =~= a.subrange(0, p.len() as int));
    }
}

/// The relate check on each block-bodied relation of the program.
pub fn check_proc_relates<'p>(program: &ProgramNode<'p>) -> (r: Vec<CheckError<'p>>)
    ensures
        r@.len() <= program.relations@.len(),
        (r@.len() == 0) == (forall|i: int|
            0 <= i < program.relations@.len() ==> relates_consistent(
                #[trigger] program.relations@[i],
            )),
{
    let mut result: Vec<CheckError<'p>> = Vec::new();
    let mut i: usize = 0;
    while i < program.relations.len()
        invariant
            i <= program.relations@.len(),
            result@.len() <= i,
            (result@.len() == 0) == (forall|j: int|
                0 <= j < i ==> relates_consistent(#[trigger] program.relations@[j])),
        decreases program.relations@.len() - i,
    {
        match &program.relations[i].block {
            RelationBlock::Const(_) => {},
            RelationBlock::Block(bnode) => {
                match check_relates_block(bnode) {
                    Err(e) => {
                        result.push(e);
                    },
                    Ok(()) => {},
                }
            },
        }
        i = i + 1;
    }
    result
}

/// A list literal as an operand.
pub open spec fn is_list_literal(e: ExpressionNode) -> bool {
    e.contents is List || e.contents is ConsList
}

/// The spans of arithmetic on list literals in `e`, outermost first, then
/// left to right.
pub open spec fn odd_ops<'p>(e: ExpressionNode<'p>) -> Seq<Span<'p>>
    decreases e, 0int,
{
    match e.contents {
        ExpressionContents::Const(_) => Seq::empty(),
        ExpressionContents::Operation { op: _, lhs, rhs } => (if is_list_literal(*lhs)
            || is_list_literal(*rhs) {
            seq![Span { input: lhs.span.input, start: lhs.span.start, end: rhs.span.end }]
        } else {
            Seq::empty()
        }) + odd_ops(*lhs) + odd_ops(*rhs),
        ExpressionContents::Call { rel: _, args } => odd_ops_each(args@, args.len() as int),
        ExpressionContents::List { vals } => odd_ops_each(vals@, vals.len() as int),
        ExpressionContents::ConsList { vals } => odd_ops_each(vals@, vals.len() as int),
    }
}

/// `odd_ops` of the first `k` expressions of `es`, in order.
pub open spec fn odd_ops_each<'p>(es: Seq<ExpressionNode<'p>>, k: int) -> Seq<Span<'p>>
    decreases es, k,
{
    if k <= 0 || k > es.len() {
        Seq::empty()
    } else {
        odd_ops_each(es, k - 1) + odd_ops(es[k - 1])
    }
}

/// The expressions of a statement, in order.
pub open spec fn statement_odd_ops<'p>(st: StatementNode<'p>) -> Seq<Span<'p>> {
    match st {
        StatementNode::Assignment(a) => odd_ops(a.rhs),
        StatementNode::Relate(r) => odd_ops_each(r.result@, r.result.len() as int),
        StatementNode::Refute(r) => odd_ops_each(r.statement.args@, r.statement.args.len() as int),
        StatementNode::BinaryFact(b) => odd_ops(b.lhs) + odd_ops(b.rhs),
        StatementNode::Relation(rc) => odd_ops_each(rc.args@, rc.args.len() as int),
    }
}

/// No statement of the relation's block (if it has one) does arithmetic on
/// a list literal.
pub open spec fn lists_kept_out_of_arithmetic<'p>(r: RelationNode<'p>) -> bool {
    match r.block {
        RelationBlock::Block(b) => forall|j: int|
            0 <= j < b.statements@.len() ==> (#[trigger] statement_odd_ops(b.statements@[j])).len()
                == 0,
        RelationBlock::Const(_) => true,
    }
}

/// Appends the spans of arithmetic on list literals in `expression`.
fn visit_expr<'p>(expression: &ExpressionNode<'p>, res: &mut Vec<Span<'p>>)
    ensures
        final(res)@ == old(res)@ + odd_ops(*expression),
    decreases expression,
{
    let ghost r0 = res@;
    match &expression.contents {
        ExpressionContents::Const(_) => {
            proof {
                assert(res@ =~= r0 + Seq::<Span<'p>>::empty());
            }
        },
        ExpressionContents::Operation { op: _, lhs, rhs } => {
            let lhs_list = match &lhs.contents {
                ExpressionContents::List { .. } => true,
                ExpressionContents::ConsList { .. } => true,
                _ => false,
            };
            let rhs_list = match &rhs.contents {
                ExpressionContents::List { .. } => true,
                ExpressionContents::ConsList { .. } => true,
                _ => false,
            };
            if lhs_list || rhs_list {
                res.push(union_spans(&lhs.span, &rhs.span));
            }
            visit_expr(lhs, res);
            visit_expr(rhs, res);
            proof {
                assert(res@ =~= r0 + odd_ops(*expression));
            }
        },
        ExpressionContents::Call { rel: _, args } => {
            visit_exprs(args, res);
        },
        ExpressionContents::List { vals } => {
            visit_exprs(vals, res);
        },
        ExpressionContents::ConsList { vals } => {
            visit_exprs(vals, res);
        },
    }
}

fn visit_exprs<'p>(es: &Vec<ExpressionNode<'p>>, res: &mut Vec<Span<'p>>)
    ensures
        final(res)@ == old(res)@ + odd_ops_each(es@, es.len() as int),
    decreases es,
{
    let ghost r0 = res@;
    let mut i: usize = 0;
    proof {
        assert(res@ =~= r0 + Seq::<Span<'p>>::empty());
    }
    while i < es.len()
        invariant
            i <= es.len(),
            res@ == r0 + odd_ops_each(es@, i as int),
        decreases es.len() - i,
    {
        visit_expr(&es[i], res);
        proof {
            assert(res@ =~= r0 + odd_ops_each(es@, i + 1));
        }
        i = i + 1;
    }
}

/// The spans of arithmetic on list literals, statement by statement, in
/// each block-bodied relation of the program: none exactly when every
/// relation keeps lists out of arithmetic.
pub fn check_odd_ops<'p>(program: &ProgramNode<'p>) -> (r: Vec<CheckError<'p>>)
    ensures
        forall|i: int| 0 <= i < r@.len() ==> (#[trigger] r@[i]) is OddOps,
        (r@.len() == 0) == (forall|i: int|
            0 <= i < program.relations@.len() ==> lists_kept_out_of_arithmetic(
                #[trigger] program.relations@[i],
            )),
{
    let mut spans: Vec<Span<'p>> = Vec::new();
    let mut i: usize = 0;
    while i < program.relations.len()
        invariant
            i <= program.relations@.len(),
            (spans@.len() == 0) == (forall|a: int|
                0 <= a < i ==> lists_kept_out_of_arithmetic(#[trigger] program.relations@[a])),
        decreases program.relations@.len() - i,
    {
        let ghost before_rel = spans@;
        if let RelationBlock::Block(bnode) = &program.relations[i].block {
            let mut j: usize = 0;
            while j < bnode.statements.len()
                invariant
                    i < program.relations@.len(),
                    program.relations@[i as int].block == RelationBlock::Block(*bnode),
                    j <= bnode.statements@.len(),
                    (spans@.len() == 0) == ((forall|a: int|
                        0 <= a < i ==> lists_kept_out_of_arithmetic(#[trigger] program.relations@[a]))
                        && forall|b: int|
                        0 <= b < j ==> (#[trigger] statement_odd_ops(bnode.statements@[b])).len() == 0),
                decreases bnode.statements@.len() - j,
            {
                let ghost before = spans@;
                match &bnode.statements[j] {
                    StatementNode::Assignment(a) => visit_expr(&a.rhs, &mut spans),
                    StatementNode::Relate(r) => visit_exprs(&r.result, &mut spans),
                    StatementNode::Refute(r) => visit_exprs(&r.statement.args, &mut spans),
                    StatementNode::BinaryFact(b) => {
                        visit_expr(&b.lhs, &mut spans);
                        visit_expr(&b.rhs, &mut spans);
                    },
                    StatementNode::Relation(rc) => visit_exprs(&rc.args, &mut spans),
                }
                proof {
                    assert(spans@ =~= before + statement_odd_ops(bnode.statements@[j as int]));
                }
                j = j + 1;
            }
            proof {
                let rel = program.relations@[i as int];
                let b = rel.block->Block_0;
                assert(b.statements@ == bnode.statements@);
                if lists_kept_out_of_arithmetic(rel) {
                    assert forall|k: int| 0 <= k < bnode.statements@.len() implies (#[trigger] statement_odd_ops(
                        bnode.statements@[k],
                    )).len() == 0 by {
                        assert(statement_odd_ops(b.statements@[k]).len() == 0);
                    }
                }
                assert forall|a: int| 0 <= a < i + 1 && (spans@.len() == 0) implies lists_kept_out_of_arithmetic(
                    #[trigger] program.relations@[a],
                ) by {
                    if a == i {
                        assert forall|k: int| 0 <= k < b.statements@.len() implies (#[trigger] statement_odd_ops(
                            b.statements@[k],
                        )).len() == 0 by {
                            assert(statement_odd_ops(bnode.statements@[k]).len() == 0);
                        }
                    }
                }
            }
        } else {
            proof {
                assert(lists_kept_out_of_arithmetic(program.relations@[i as int]));
            }
        }
        i = i + 1;
    }
    let mut result: Vec<CheckError<'p>> = Vec::new();
    let mut k: usize = 0;
    while k < spans.len()
        invariant
            k <= spans@.len(),
            result@.len() == k,
            forall|m: int| 0 <= m < result@.len() ==> (#[trigger] result@[m]) is OddOps,
        decreases spans@.len() - k,
    {
        result.push(CheckError::OddOps { span: spans[k] });
        k = k + 1;
    }
    result
}

/// All the static checks: the relate counts, then arithmetic on lists.
pub fn perform_checks<'p>(program: &ProgramNode<'p>) -> (r: Vec<CheckError<'p>>)
    ensures
        (r@.len() == 0) == ((forall|i: int|
            0 <= i < program.relations@.len() ==> relates_consistent(
                #[trigger] program.relations@[i],
            )) && (forall|i: int|
            0 <= i < program.relations@.len() ==> lists_kept_out_of_arithmetic(
                #[trigger] program.relations@[i],
            ))),
{
    let mut result = check_proc_relates(program);
    let mut more = check_odd_ops(program);
    result.append(&mut more);
    result
}

} // verus!
