use bevel::ast::{
    AssignmentNode, BinaryFactNode, BinaryFactOperation, BinaryOperation, BlockNode, ConstList,
    ConstantContents, ConstantNode, ExpressionContents, ExpressionNode, ProgramNode, RefuteNode,
    RelateNode, RelationBlock, RelationCallNode, RelationId, RelationNode, StatementNode,
};
use bevel::lower::{parse_program, parse_query};
use bevel::number::Number;
use bevel::optimize::{apply_optimizations, apply_unneccessary_variable_opt};
use bevel::term::Term;
use bevel::program::Rules;
use bevel::render::fmt_unifier;
use bevel::solve::{new_solver_state, solve, Solution, SolverStateOwner};

const STEPS: u64 = 1_000_000;

fn sp() -> bevel::span::Span<'static> {
    bevel::span::Span { input: "", start: 0, end: 0 }
}

fn c(contents: ConstantContents<'static>) -> ConstantNode<'static> {
    ConstantNode { span: sp(), contents }
}

fn var(n: &str) -> ConstantNode<'static> {
    c(ConstantContents::Var(n.to_string()))
}

fn atom(n: &str) -> ConstantNode<'static> {
    c(ConstantContents::Atom(n.to_string()))
}

fn num(n: i32) -> ConstantNode<'static> {
    c(ConstantContents::Literal(Number::from_int(n)))
}

fn wildcard() -> ConstantNode<'static> {
    c(ConstantContents::EmptyPattern)
}

fn cons(items: Vec<ConstantNode<'static>>) -> ConstantNode<'static> {
    c(ConstantContents::ConsList(items))
}

fn plist(items: Vec<ConstantNode<'static>>) -> ConstantNode<'static> {
    c(ConstantContents::List(items))
}

fn clist(items: Vec<ConstantNode<'static>>) -> ConstList<'static> {
    ConstList { span: sp(), constants: items }
}

fn e(contents: ExpressionContents<'static>) -> ExpressionNode<'static> {
    ExpressionNode { span: sp(), contents }
}

fn ev(n: &str) -> ExpressionNode<'static> {
    e(ExpressionContents::Const(var(n)))
}

fn en(n: i32) -> ExpressionNode<'static> {
    e(ExpressionContents::Const(num(n)))
}

fn ea(n: &str) -> ExpressionNode<'static> {
    e(ExpressionContents::Const(atom(n)))
}

fn eop(op: BinaryOperation, l: ExpressionNode<'static>, r: ExpressionNode<'static>) -> ExpressionNode<'static> {
    e(ExpressionContents::Operation { op, lhs: Box::new(l), rhs: Box::new(r) })
}

fn rid(n: &str) -> RelationId<'static> {
    RelationId { span: sp(), name: n.to_string() }
}

fn ecall(n: &str, args: Vec<ExpressionNode<'static>>) -> ExpressionNode<'static> {
    e(ExpressionContents::Call { rel: rid(n), args })
}

fn elist(vals: Vec<ExpressionNode<'static>>) -> ExpressionNode<'static> {
    e(ExpressionContents::List { vals })
}

fn fact(n: &str, params: Vec<ConstantNode<'static>>, vals: Vec<ConstantNode<'static>>) -> RelationNode<'static> {
    RelationNode {
        span: sp(),
        relation: rid(n),
        params: clist(params),
        block: RelationBlock::Const(clist(vals)),
    }
}

fn rule(n: &str, params: Vec<ConstantNode<'static>>, stmts: Vec<StatementNode<'static>>) -> RelationNode<'static> {
    RelationNode {
        span: sp(),
        relation: rid(n),
        params: clist(params),
        block: RelationBlock::Block(BlockNode { span: sp(), statements: stmts }),
    }
}

fn assign(lhs: Vec<ConstantNode<'static>>, rhs: ExpressionNode<'static>) -> StatementNode<'static> {
    StatementNode::Assignment(AssignmentNode { span: sp(), lhs: clist(lhs), rhs })
}

fn relate(exprs: Vec<ExpressionNode<'static>>) -> StatementNode<'static> {
    StatementNode::Relate(RelateNode { span: sp(), result: exprs })
}

fn call(n: &str, args: Vec<ExpressionNode<'static>>) -> StatementNode<'static> {
    StatementNode::Relation(RelationCallNode { span: sp(), rel: rid(n), args })
}

fn compare(op: BinaryFactOperation, l: ExpressionNode<'static>, r: ExpressionNode<'static>) -> StatementNode<'static> {
    StatementNode::BinaryFact(BinaryFactNode { span: sp(), lhs: l, rhs: r, op })
}

fn refute(n: &str, args: Vec<ExpressionNode<'static>>) -> StatementNode<'static> {
    StatementNode::Refute(RefuteNode {
        span: sp(),
        statement: Box::new(RelationCallNode { span: sp(), rel: rid(n), args }),
    })
}

fn program(relations: Vec<RelationNode<'static>>) -> Rules {
    let mut rules = parse_program(&ProgramNode { relations });
    apply_optimizations(&mut rules);
    rules
}

fn text_of(solution: Solution) -> String {
    match solution {
        Solution::Found(u) => {
            let s = fmt_unifier(&u);
            if s.trim().is_empty() {
                "success".to_string()
            } else {
                s
            }
        }
        Solution::NoMore => "fail".to_string(),
        Solution::OutOfSteps => "out of steps".to_string(),
    }
}

fn first_answer(rules: &Rules, query: Vec<StatementNode<'static>>) -> String {
    let q = parse_query(&query);
    let mut state = new_solver_state(q);
    let mut out = Vec::new();
    text_of(solve(rules, &mut state, &mut out, STEPS))
}

fn next_answer(rules: &Rules, state: &mut SolverStateOwner) -> String {
    match state.choice_points.pop() {
        None => "fail".to_string(),
        Some(cp) => {
            state.master = cp.0;
            state.curr_query = cp.1;
            state.fact_indx = cp.2;
            let mut out = Vec::new();
            text_of(solve(rules, state, &mut out, STEPS))
        }
    }
}

fn fib_program() -> Rules {
    program(vec![
        fact("fib", vec![num(0)], vec![num(1)]),
        fact("fib", vec![num(1)], vec![num(1)]),
        rule(
            "fib",
            vec![var("x")],
            vec![
                compare(BinaryFactOperation::Gt, ev("x"), en(1)),
                relate(vec![eop(
                    BinaryOperation::Add,
                    ecall("fib", vec![eop(BinaryOperation::Sub, ev("x"), en(1))]),
                    ecall("fib", vec![eop(BinaryOperation::Sub, ev("x"), en(2))]),
                )]),
            ],
        ),
    ])
}

fn family_program() -> Rules {
    program(vec![
        fact("parent", vec![atom("'matt")], vec![atom("'kathy")]),
        fact("parent", vec![atom("'kathy")], vec![atom("'gdad")]),
        fact("parent", vec![atom("'kathy")], vec![atom("'gmom")]),
        fact("male", vec![], vec![atom("'matt")]),
        fact("male", vec![], vec![atom("'gdad")]),
        fact("female", vec![], vec![atom("'kathy")]),
        fact("female", vec![], vec![atom("'gmom")]),
        rule(
            "grandfather",
            vec![var("x")],
            vec![
                assign(vec![var("gparent")], ecall("parent", vec![ecall("parent", vec![ev("x")])])),
                call("male", vec![ev("gparent")]),
                relate(vec![ev("gparent")]),
            ],
        ),
    ])
}

fn list_program() -> Rules {
    program(vec![
        fact("head", vec![cons(vec![var("x"), wildcard()])], vec![var("x")]),
        rule(
            "sameleading",
            vec![cons(vec![var("x"), var("y"), var("z")])],
            vec![compare(BinaryFactOperation::Equ, ev("x"), ev("y"))],
        ),
        fact("samehead", vec![cons(vec![var("x"), wildcard()])], vec![cons(vec![var("x"), wildcard()])]),
        fact("swaptwo", vec![plist(vec![var("x"), var("y")])], vec![plist(vec![var("y"), var("x")])]),
    ])
}

fn arithmetic_program() -> Rules {
    program(vec![
        rule(
            "transform",
            vec![var("z")],
            vec![relate(vec![eop(
                BinaryOperation::Mod,
                eop(
                    BinaryOperation::Div,
                    eop(BinaryOperation::Mul, eop(BinaryOperation::Add, ev("z"), en(2)), en(3)),
                    en(4),
                ),
                en(5),
            )])],
        ),
        rule(
            "aroundzero",
            vec![var("x")],
            vec![
                compare(BinaryFactOperation::Lt, ev("x"), en(1)),
                compare(BinaryFactOperation::Gt, ev("x"), en(-1)),
                compare(BinaryFactOperation::Leq, ev("x"), en(1)),
                compare(BinaryFactOperation::Geq, ev("x"), en(-1)),
                compare(BinaryFactOperation::Neq, ev("x"), en(1)),
                compare(BinaryFactOperation::Equ, ev("x"), en(0)),
            ],
        ),
    ])
}

fn head_of(items: Vec<ExpressionNode<'static>>) -> ExpressionNode<'static> {
    ecall("head", vec![elist(items)])
}

#[test]
fn test_executions() {
    let fib = fib_program();
    let ans = first_answer(
        &fib,
        vec![
            assign(vec![var("x")], ecall("fib", vec![en(7)])),
            call("fib", vec![en(7), ev("y")]),
            assign(vec![num(7), var("z")], ecall("fib", vec![])),
        ],
    );
    for s in ["x = 21", "y = 21", "z = 21"] {
        assert!(ans.contains(s), "{}", ans);
    }

    let family = family_program();
    assert_eq!(first_answer(&family, vec![assign(vec![var("gfather")], ecall("grandfather", vec![ea("'kathy")]))]), "fail");
    let ans = first_answer(&family, vec![assign(vec![var("gfather")], ecall("grandfather", vec![ea("'matt")]))]);
    assert!(ans.contains("gfather = gdad"), "{}", ans);
    assert_eq!(
        first_answer(
            &family,
            vec![
                assign(vec![var("nbody")], ecall("grandfather", vec![ea("'matt")])),
                assign(vec![var("nbody")], ecall("parent", vec![ea("'matt")])),
            ],
        ),
        "fail"
    );

    let lists = list_program();
    let ans = first_answer(&lists, vec![assign(vec![var("x")], head_of(vec![elist(vec![en(1), en(2)]), en(3)]))]);
    assert!(ans.contains("x = [1, 2]"), "{}", ans);
    assert_eq!(first_answer(&lists, vec![call("sameleading", vec![elist(vec![en(1), en(1), en(200)])])]), "success");
    let ans = first_answer(
        &lists,
        vec![
            assign(vec![var("x")], head_of(vec![elist(vec![en(1), en(2)]), en(3), en(4)])),
            assign(vec![var("y")], head_of(vec![elist(vec![en(1), en(3)]), en(10), en(5)])),
            call("samehead", vec![ev("x"), ev("y")]),
        ],
    );
    assert!(ans.contains("x = [1, 2]"), "{}", ans);
    assert!(ans.contains("y = [1, 3]"), "{}", ans);
}

#[test]
fn test_builtins_executions() {
    let rules = arithmetic_program();
    let ans = first_answer(
        &rules,
        vec![
            assign(vec![var("x")], ecall("transform", vec![en(10)])),
            call("aroundzero", vec![en(0)]),
        ],
    );
    assert!(ans.contains("x = 4"), "{}", ans);
}

#[test]
fn execution_tests_test_fib() {
    let fib = fib_program();
    let ans = first_answer(&fib, vec![assign(vec![var("y")], ecall("fib", vec![en(7)]))]);
    assert_eq!(ans, "y = 21");
    let ans = first_answer(
        &fib,
        vec![
            assign(vec![var("y")], ecall("fib", vec![en(7)])),
            assign(
                vec![var("z")],
                eop(BinaryOperation::Sub, eop(BinaryOperation::Mul, en(2), ev("y")), en(20)),
            ),
        ],
    );
    assert!(ans.contains("y = 21"), "{}", ans);
    assert!(ans.contains("z = 22"), "{}", ans);
}

#[test]
fn execution_tests_test_family() {
    let family = family_program();
    let ans = first_answer(&family, vec![assign(vec![var("gfather")], ecall("grandfather", vec![ea("'matt")]))]);
    assert_eq!(ans, "gfather = gdad");
    let ans = first_answer(&family, vec![assign(vec![var("gfather")], ecall("grandfather", vec![ea("'kathy")]))]);
    assert_eq!(ans, "fail");
    let ans = first_answer(
        &family,
        vec![
            assign(vec![var("nbody")], ecall("grandfather", vec![ea("'matt")])),
            assign(vec![var("nbody")], ecall("parent", vec![ea("'matt")])),
        ],
    );
    assert_eq!(ans, "fail");
}

#[test]
fn execution_tests_test_listy() {
    let lists = list_program();
    let ans = first_answer(&lists, vec![assign(vec![var("x")], head_of(vec![elist(vec![en(1), en(2)]), en(3)]))]);
    assert_eq!(ans, "x = [1, 2]");
    let ans = first_answer(&lists, vec![call("sameleading", vec![elist(vec![en(1), en(1), en(200)])])]);
    assert_eq!(ans, "success");
    let ans = first_answer(
        &lists,
        vec![
            assign(vec![var("x")], head_of(vec![elist(vec![en(1), en(2)]), en(3)])),
            assign(
                vec![var("y")],
                elist(vec![en(1), eop(BinaryOperation::Add, en(1), eop(BinaryOperation::Mul, en(1), en(1)))]),
            ),
            call("sameleading", vec![elist(vec![ev("x"), ev("y"), en(200)])]),
        ],
    );
    assert!(ans.contains("x = [1, 2]"), "{}", ans);
    assert!(ans.contains("y = [1, 2]"), "{}", ans);
    let ans = first_answer(
        &lists,
        vec![
            assign(vec![var("x")], head_of(vec![elist(vec![en(1), en(2)]), en(3), en(4)])),
            assign(vec![var("y")], head_of(vec![elist(vec![en(1), en(3)]), en(10), en(5)])),
            call("samehead", vec![ev("x"), ev("y")]),
        ],
    );
    assert!(ans.contains("x = [1, 2]"), "{}", ans);
    assert!(ans.contains("y = [1, 3]"), "{}", ans);
}

#[test]
fn negation_as_failure() {
    let rules = program(vec![
        fact("p", vec![atom("'a")], vec![]),
        fact("p", vec![atom("'b")], vec![]),
    ]);
    assert_eq!(first_answer(&rules, vec![refute("p", vec![ea("'c")])]), "success");
    assert_eq!(first_answer(&rules, vec![refute("p", vec![ea("'a")])]), "fail");
}

#[test]
fn multi_answer_enumeration() {
    let rules = program(vec![
        fact("color", vec![atom("'red")], vec![]),
        fact("color", vec![atom("'green")], vec![]),
        fact("color", vec![atom("'blue")], vec![]),
    ]);
    let q = parse_query(&vec![assign(vec![var("c")], ecall("color", vec![]))]);
    let mut state = new_solver_state(q);
    let mut out = Vec::new();
    assert_eq!(text_of(solve(&rules, &mut state, &mut out, STEPS)), "c = red");
    assert_eq!(next_answer(&rules, &mut state), "c = green");
    assert_eq!(next_answer(&rules, &mut state), "c = blue");
    assert_eq!(next_answer(&rules, &mut state), "fail");
}

#[test]
fn answers_are_the_same_across_runs() {
    let fib = fib_program();
    let a = first_answer(&fib, vec![assign(vec![var("y")], ecall("fib", vec![en(6)]))]);
    let b = first_answer(&fib, vec![assign(vec![var("y")], ecall("fib", vec![en(6)]))]);
    assert_eq!(a, "y = 13");
    assert_eq!(a, b);
}

#[test]
fn fractions_and_negative_numbers_print_exactly() {
    let rules = program(vec![]);
    let ans = first_answer(
        &rules,
        vec![
            assign(vec![var("h")], eop(BinaryOperation::Div, en(3), en(4))),
            assign(vec![var("n")], eop(BinaryOperation::Sub, en(2), en(9))),
        ],
    );
    assert_eq!(ans, "h = 3/4, n = -7");
}

#[test]
fn print_goals_are_collected() {
    let rules = program(vec![rule(
        "say",
        vec![var("x")],
        vec![call("print", vec![ev("x"), en(5)])],
    )]);
    let q = parse_query(&vec![call("say", vec![ea("'hi")])]);
    let mut state = new_solver_state(q);
    let mut out = Vec::new();
    assert_eq!(text_of(solve(&rules, &mut state, &mut out, STEPS)), "success");
    assert_eq!(out.len(), 1);
    let line: Vec<String> = out[0].iter().map(bevel::render::term_string).collect();
    assert_eq!(line, vec!["hi".to_string(), "5".to_string()]);
}

#[test]
fn step_budget_runs_out() {
    let rules = program(vec![rule("loop", vec![], vec![call("loop", vec![])])]);
    let q = parse_query(&vec![call("loop", vec![])]);
    let mut state = new_solver_state(q);
    let mut out = Vec::new();
    assert!(matches!(solve(&rules, &mut state, &mut out, 50), Solution::OutOfSteps));
}

#[test]
fn query_lowering_names_fresh_variables() {
    let q = parse_query(&vec![assign(vec![var("y")], ecall("fib", vec![en(7)]))]);
    let texts: Vec<String> = q.goals.iter().map(bevel::render::term_string).collect();
    assert_eq!(texts, vec!["=(7, <Free>0)".to_string(), "fib(<Free>0, y)".to_string()]);
}

#[test]
fn relate_lowering_and_alias_removal() {
    let mut rules = parse_program(&ProgramNode {
        relations: vec![rule("same", vec![var("x")], vec![relate(vec![ev("x")])])],
    });
    let body: Vec<String> = rules.contents[0].requires.goals.iter().map(bevel::render::term_string).collect();
    assert_eq!(body, vec!["=(x, <Free>0)".to_string(), "=(Result0, <Free>0)".to_string()]);
    let show = |r: &bevel::program::Rule| -> (String, Vec<String>) {
        let head = bevel::render::term_string(&Term::Compound(bevel::term::CompoundTerm {
            name: r.gives.name.clone(),
            args: bevel::term::copy_terms(&r.gives.args),
        }));
        (head, r.requires.goals.iter().map(bevel::render::term_string).collect())
    };
    assert!(apply_unneccessary_variable_opt(&mut rules.contents[0]));
    assert_eq!(show(&rules.contents[0]), ("same(x, Result0)".to_string(), vec!["=(x, Result0)".to_string()]));
    assert!(!apply_unneccessary_variable_opt(&mut rules.contents[0]));
    assert_eq!(show(&rules.contents[0]), ("same(x, Result0)".to_string(), vec!["=(x, Result0)".to_string()]));
}

#[test]
fn registered_builtins() {
    let names: Vec<String> = bevel::builtins::builtins().into_iter().map(|(n, _)| n).collect();
    assert_eq!(names.len(), 13);
    assert!(names.contains(&"print".to_string()));
    assert!(names.contains(&"!=".to_string()));
    assert_eq!(
        bevel::render::term_string(&Term::List(bevel::term::ListTerm::empty())),
        "[]"
    );
}

#[test]
fn empty_query_succeeds_and_unknown_relation_fails() {
    let rules = program(vec![]);
    assert_eq!(first_answer(&rules, vec![]), "success");
    assert_eq!(first_answer(&rules, vec![call("missing", vec![en(1)])]), "fail");
}
