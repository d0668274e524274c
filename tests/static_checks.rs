use bevel::ast::{
    BinaryFactNode, BinaryFactOperation, BinaryOperation, BlockNode, ConstList, ConstantContents,
    ConstantNode, ExpressionContents, ExpressionNode, ProgramNode, RelateNode, RelationBlock,
    RelationId, RelationNode, StatementNode,
};
use bevel::checks::{perform_checks, CheckError};
use bevel::number::Number;
use bevel::span::{union_spans, Span};

fn span_of<'p>(source: &'p str, text: &str) -> Span<'p> {
    let start = source.find(text).expect("text in source");
    Span { input: source, start, end: start + text.len() }
}

fn konst<'p>(s: Span<'p>, contents: ConstantContents<'p>) -> ExpressionNode<'p> {
    ExpressionNode { span: s, contents: ExpressionContents::Const(ConstantNode { span: s, contents }) }
}

fn relation<'p>(source: &'p str, name: &str, params: Vec<ConstantNode<'p>>, statements: Vec<StatementNode<'p>>) -> ProgramNode<'p> {
    let s = span_of(source, name);
    ProgramNode {
        relations: vec![RelationNode {
            span: s,
            relation: RelationId { span: s, name: name.to_string() },
            params: ConstList { span: s, constants: params },
            block: RelationBlock::Block(BlockNode { span: s, statements }),
        }],
    }
}

#[test]
fn invoke_relate_mismatch() {
    let source = "\nimpossible(x) {\n    x > 1\n    relate [1, x]\n    relate (x, 2)\n};\n";
    let x = span_of(source, "x");
    let one = Number::from_int(1);
    let two = Number::from_int(2);
    let cmp = StatementNode::BinaryFact(BinaryFactNode {
        span: span_of(source, "x > 1"),
        lhs: konst(x, ConstantContents::Var("x".to_string())),
        rhs: konst(x, ConstantContents::Literal(one)),
        op: BinaryFactOperation::Gt,
    });
    let first = StatementNode::Relate(RelateNode {
        span: span_of(source, "relate [1, x]"),
        result: vec![ExpressionNode {
            span: span_of(source, "[1, x]"),
            contents: ExpressionContents::List {
                vals: vec![
                    konst(x, ConstantContents::Literal(one)),
                    konst(x, ConstantContents::Var("x".to_string())),
                ],
            },
        }],
    });
    let second = StatementNode::Relate(RelateNode {
        span: span_of(source, "relate (x, 2)"),
        result: vec![
            konst(x, ConstantContents::Var("x".to_string())),
            konst(x, ConstantContents::Literal(two)),
        ],
    });
    let prog = relation(source, "impossible", vec![ConstantNode { span: x, contents: ConstantContents::Var("x".to_string()) }], vec![cmp, first, second]);
    let errs = perform_checks(&prog);
    assert_eq!(errs.len(), 1);
    match &errs[0] {
        CheckError::RelateMismatch { first, first_count, second, second_count } => {
            assert_eq!(first.as_str(), "relate [1, x]");
            assert_eq!(second.as_str(), "relate (x, 2)");
            assert_eq!((*first_count, *second_count), (1, 2));
            assert_eq!(first.line_no(), 4);
        }
        other => panic!("unexpected {:?}", other),
    }
}

#[test]
fn invoke_oddops_error() {
    let source = "\nimpossible(sthing) {\n    relate sthing + [1, 2]\n};\n";
    let sthing = span_of(source, "sthing +");
    let sthing = Span { input: source, start: sthing.start, end: sthing.start + 6 };
    let list_span = span_of(source, "[1, 2]");
    let one = Number::from_int(1);
    let two = Number::from_int(2);
    let sum = ExpressionNode {
        span: span_of(source, "+"),
        contents: ExpressionContents::Operation {
            op: BinaryOperation::Add,
            lhs: Box::new(konst(sthing, ConstantContents::Var("sthing".to_string()))),
            rhs: Box::new(ExpressionNode {
                span: list_span,
                contents: ExpressionContents::List {
                    vals: vec![konst(list_span, ConstantContents::Literal(one)), konst(list_span, ConstantContents::Literal(two))],
                },
            }),
        },
    };
    let stmt = StatementNode::Relate(RelateNode { span: span_of(source, "relate sthing + [1, 2]"), result: vec![sum] });
    let prog = relation(source, "impossible", vec![ConstantNode { span: sthing, contents: ConstantContents::Var("sthing".to_string()) }], vec![stmt]);
    let errs = perform_checks(&prog);
    assert_eq!(errs.len(), 1);
    match &errs[0] {
        CheckError::OddOps { span } => assert_eq!(span.as_str(), "sthing + [1, 2]"),
        other => panic!("unexpected {:?}", other),
    }
}

#[test]
fn spans_locate_text() {
    let source = "ab\ncd\nef";
    let s = Span { input: source, start: 4, end: 8 };
    assert_eq!(s.as_str(), "d\nef");
    assert_eq!(s.line_no(), 2);
    let w = s.from_line_begin();
    assert_eq!((w.start, w.end), (3, 8));
    assert_eq!(w.distance_from_start(6), 4);
    let u = union_spans(&Span { input: source, start: 0, end: 1 }, &s);
    assert_eq!(u.as_str(), "ab\ncd\nef");
    assert_eq!(Span { input: source, start: 1, end: 2 }.from_line_begin().start, 0);
}
