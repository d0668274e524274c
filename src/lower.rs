//! Lowering: from the syntax tree to clauses whose bodies are flat
//! sequences of goals over fresh variables.
//!
//! Variables introduced here are named `<Free>n` (the value of an
//! expression) and `<Tmp_WC>n` (a wildcard), numbered by a counter that runs
//! through one relation or one query; output arguments are `Result0`, ...

use vstd::prelude::*;
use crate::ast::{
    find_num_results, num_results, AssignmentNode, BinaryFactNode, BinaryFactOperation,
    BinaryOperation, ConstList, ConstantContents, ConstantNode, ExpressionContents,
    ExpressionNode, ProgramNode, RefuteNode, RelateNode, RelationBlock, RelationCallNode, RelationId,
    RelationNode, StatementNode,
};
use crate::program::{Query, Rule, Rules};
use crate::solve::fresh_frame_id;
use crate::term::{
    occurs,
    lemma_compound_view, lemma_list_view, lemma_views_append, lemma_views_push, views,
    CompoundTerm, ListTail, ListTerm, Term, TermView, UnknownContents, VarView,
};

verus! {

pub open spec fn digit_char(d: nat) -> char {
    seq!['0', '1', '2', '3', '4', '5', '6', '7', '8', '9'][d as int]
}

/// `n` written in decimal.
pub open spec fn decimal(n: nat) -> Seq<char>
    decreases n,
{
    if n < 10 {
        seq![digit_char(n)]
    } else {
        decimal(n / 10).push(digit_char(n % 10))
    }
}

proof fn lemma_decimal_len(n: nat)
    ensures
        decimal(n).len() >= 1,
        n >= 10 ==> decimal(n).len() >= 2,
    decreases n,
{
    if n >= 10 {
        lemma_decimal_len(n / 10);
    }
}

proof fn lemma_digit_injective(a: nat, b: nat)
    requires
        a < 10,
        b < 10,
        digit_char(a) == digit_char(b),
    ensures
        a == b,
{
    let ds = seq!['0', '1', '2', '3', '4', '5', '6', '7', '8', '9'];
    assert(ds[0] == '0' && ds[1] == '1' && ds[2] == '2' && ds[3] == '3' && ds[4] == '4');
    assert(ds[5] == '5' && ds[6] == '6' && ds[7] == '7' && ds[8] == '8' && ds[9] == '9');
}

/// Different numbers are written differently.
pub proof fn lemma_decimal_injective(a: nat, b: nat)
    requires
        decimal(a) == decimal(b),
    ensures
        a == b,
    decreases a,
{
    lemma_decimal_len(a);
    lemma_decimal_len(b);
    if a < 10 && b < 10 {
        assert(decimal(a) == seq![digit_char(a)]);
        assert(decimal(b) == seq![digit_char(b)]);
        assert(decimal(a)[0] == digit_char(a));
        assert(decimal(b)[0] == digit_char(b));
        lemma_digit_injective(a, b);
    } else if a >= 10 && b >= 10 {
        let (da, db) = (decimal(a), decimal(b));
        assert(da.last() == digit_char(a % 10));
        assert(db.last() == digit_char(b % 10));
        lemma_digit_injective(a % 10, b % 10);
        assert(da.drop_last() =~= decimal(a / 10));
        assert(db.drop_last() =~= decimal(b / 10));
        lemma_decimal_injective(a / 10, b / 10);
    }
}

/// The `<Free>` variable named with `ctr` is none of those named below it.
proof fn lemma_fresh_not_below(goals: Seq<TermView>, f: u32, ctr: u64)
    ensures
        free_names_below(goals, f, ctr) ==> forall|i: int|
            0 <= i < goals.len() ==> !#[trigger] occurs(
                goals[i],
                VarView { name: free_prefix() + decimal(ctr as nat), frame_id: f },
            ),
{
    let v = VarView { name: free_prefix() + decimal(ctr as nat), frame_id: f };
    if free_names_below(goals, f, ctr) {
        assert forall|i: int| 0 <= i < goals.len() implies !#[trigger] occurs(goals[i], v) by {
            if occurs(goals[i], v) {
                assert(v.name.subrange(0, free_prefix().len() as int) =~= free_prefix());
                let k = choose|k: nat| k < ctr && v.name == free_prefix() + decimal(k);
                lemma_fresh_names_differ(free_prefix(), k, ctr as nat);
            }
        }
    }
}

/// Fresh names made from different counter values differ.
pub proof fn lemma_fresh_names_differ(prefix: Seq<char>, c1: nat, c2: nat)
    requires
        c1 != c2,
    ensures
        prefix + decimal(c1) != prefix + decimal(c2),
{
    if prefix + decimal(c1) == prefix + decimal(c2) {
        assert((prefix + decimal(c1)).subrange(prefix.len() as int, (prefix + decimal(c1)).len() as int) =~= decimal(c1));
        assert((prefix + decimal(c2)).subrange(prefix.len() as int, (prefix + decimal(c2)).len() as int) =~= decimal(c2));
        lemma_decimal_injective(c1, c2);
    }
}

/// Lowering a pattern never moves the counter back.
proof fn lemma_constant_counter(c: ConstantNode, f: u32, ctr: u64)
    ensures
        lower_constant(c, f, ctr).1 >= ctr,
    decreases c, 0int,
{
    match c.contents {
        ConstantContents::List(cs) => {
            lemma_constants_counter(cs@, cs.len() as int, f, ctr);
        },
        ConstantContents::ConsList(cs) => {
            if cs.len() > 0 {
                lemma_constants_counter(cs@, cs.len() - 1, f, ctr);
                let c2 = lower_constants(cs@, cs.len() - 1, f, ctr).1;
                lemma_constant_counter(cs@[cs.len() - 1], f, c2);
            }
        },
        _ => {},
    }
}

proof fn lemma_constants_counter(cs: Seq<ConstantNode>, k: int, f: u32, ctr: u64)
    ensures
        lower_constants(cs, k, f, ctr).1 >= ctr,
    decreases cs, k,
{
    if !(k <= 0 || k > cs.len()) {
        lemma_constants_counter(cs, k - 1, f, ctr);
        let c2 = lower_constants(cs, k - 1, f, ctr).1;
        lemma_constant_counter(cs[k - 1], f, c2);
    }
}

/// Lowering an expression takes a counter value of its own: the counter
/// after it is past the one its variable was named with.
pub proof fn lemma_expr_counter(e: ExpressionNode, f: u32, ctr: u64)
    ensures
        lower_expr(e, f, ctr).2 >= bump(ctr),
    decreases e, 0int,
{
    let c1 = bump(ctr);
    match e.contents {
        ExpressionContents::Const(c) => {
            lemma_constant_counter(c, f, c1);
        },
        ExpressionContents::Operation { op, lhs, rhs } => {
            lemma_expr_counter(*lhs, f, c1);
            let c2 = lower_expr(*lhs, f, c1).2;
            lemma_expr_counter(*rhs, f, c2);
        },
        ExpressionContents::Call { rel, args } => {
            lemma_exprs_counter(args@, args.len() as int, f, c1);
        },
        ExpressionContents::List { vals } => {
            lemma_exprs_counter(vals@, vals.len() as int, f, c1);
        },
        ExpressionContents::ConsList { vals } => {
            if vals.len() > 0 {
                lemma_exprs_counter(vals@, vals.len() - 1, f, c1);
                let c2 = lower_exprs(vals@, vals.len() - 1, f, c1).2;
                let last = vals@[vals.len() - 1];
                match last.contents {
                    ExpressionContents::List { vals: v2 } => {
                        lemma_exprs_counter(v2@, v2.len() as int, f, c2);
                    },
                    ExpressionContents::Const(cn) => {
                        if cn.contents is List {
                            let l = cn.contents->List_0;
                            lemma_constants_counter(l@, l.len() as int, f, c2);
                        } else if !(cn.contents is Var) {
                            lemma_expr_counter(last, f, c2);
                        }
                    },
                    _ => {
                        lemma_expr_counter(last, f, c2);
                    },
                }
            }
        },
    }
}

proof fn lemma_exprs_counter(es: Seq<ExpressionNode>, k: int, f: u32, ctr: u64)
    ensures
        lower_exprs(es, k, f, ctr).2 >= ctr,
    decreases es, k,
{
    if !(k <= 0 || k > es.len()) {
        lemma_exprs_counter(es, k - 1, f, ctr);
        let c2 = lower_exprs(es, k - 1, f, ctr).2;
        lemma_expr_counter(es[k - 1], f, c2);
    }
}

/// Appends `n` in decimal to `s`.
pub fn push_decimal(s: &mut String, n: u64)
    ensures
        final(s)@ == old(s)@ + decimal(n as nat),
    decreases n,
{
    if n >= 10 {
        push_decimal(s, n / 10);
    }
    let d = n % 10;
    proof {
        reveal_strlit("0");
        reveal_strlit("1");
        reveal_strlit("2");
        reveal_strlit("3");
        reveal_strlit("4");
        reveal_strlit("5");
        reveal_strlit("6");
        reveal_strlit("7");
        reveal_strlit("8");
        reveal_strlit("9");
    }
    let t: &str = match d {
        0 => "0",
        1 => "1",
        2 => "2",
        3 => "3",
        4 => "4",
        5 => "5",
        6 => "6",
        7 => "7",
        8 => "8",
        _ => "9",
    };
    proof {
        assert(t@ =~= seq![digit_char(d as nat)]);
    }
    s.append(t);
    proof {
        if n >= 10 {
            assert(decimal(n as nat) == decimal((n / 10) as nat).push(digit_char((n % 10) as nat)));
        }
        assert(final(s)@ =~= old(s)@ + decimal(n as nat));
    }
}

/// `prefix` followed by `n` in decimal.
fn numbered(prefix: &str, n: u64) -> (r: String)
    ensures
        r@ == prefix@ + decimal(n as nat),
{
    let mut s = String::from_str(prefix);
    push_decimal(&mut s, n);
    s
}

/// `s` begins with `p`.
pub open spec fn starts_with(s: Seq<char>, p: Seq<char>) -> bool {
    p.len() <= s.len() && s.subrange(0, p.len() as int) == p
}

/// Every `<Free>` variable of frame `f` in `goals` was named with a counter
/// value below `ctr`.
pub open spec fn free_names_below(goals: Seq<TermView>, f: u32, ctr: u64) -> bool {
    forall|i: int, v: VarView|
        0 <= i < goals.len() && #[trigger] occurs(goals[i], v) && v.frame_id == f && starts_with(
            v.name,
            free_prefix(),
        ) ==> exists|k: nat| k < ctr && v.name == free_prefix() + decimal(k)
}

pub open spec fn free_prefix() -> Seq<char> {
    seq!['<', 'F', 'r', 'e', 'e', '>']
}

pub open spec fn wildcard_prefix() -> Seq<char> {
    seq!['<', 'T', 'm', 'p', '_', 'W', 'C', '>']
}

pub open spec fn result_prefix() -> Seq<char> {
    seq!['R', 'e', 's', 'u', 'l', 't']
}

/// The counter after one fresh name.
pub open spec fn bump(c: u64) -> u64 {
    if c < u64::MAX {
        (c + 1) as u64
    } else {
        c
    }
}

pub open spec fn var_term(name: Seq<char>, f: u32) -> TermView {
    TermView::Var(VarView { name, frame_id: f })
}

/// The goal `=(a, b)`.
pub open spec fn eq_goal(a: TermView, b: TermView) -> TermView {
    TermView::Compound(seq!['='], seq![a, b])
}

pub open spec fn vars_of(ns: Seq<VarView>) -> Seq<TermView> {
    ns.map_values(|v: VarView| TermView::Var(v))
}

/// The list `front` followed by the pattern `last` as its tail.
pub open spec fn cons_onto(front: Seq<TermView>, last: TermView) -> TermView {
    match last {
        TermView::Var(v) => TermView::List(front, Some(v)),
        TermView::List(f2, t2) => TermView::List(front + f2, t2),
        _ => TermView::List(front.push(last), None),
    }
}

/// The term of a pattern, and the counter after it.
pub open spec fn lower_constant(c: ConstantNode, f: u32, ctr: u64) -> (TermView, u64)
    decreases c, 0int,
{
    match c.contents {
        ConstantContents::EmptyPattern => (
            var_term(wildcard_prefix() + decimal(ctr as nat), f),
            bump(ctr),
        ),
        ConstantContents::Atom(s) => (TermView::Atom(s@), ctr),
        ConstantContents::Var(s) => (var_term(s@, f), ctr),
        ConstantContents::Literal(n) => (TermView::Num(n), ctr),
        ConstantContents::List(cs) => {
            let (ts, c2) = lower_constants(cs@, cs.len() as int, f, ctr);
            (TermView::List(ts, None), c2)
        },
        ConstantContents::ConsList(cs) => if cs.len() == 0 {
            (TermView::List(Seq::empty(), None), ctr)
        } else {
            let (ts, c2) = lower_constants(cs@, cs.len() - 1, f, ctr);
            let (last, c3) = lower_constant(cs@[cs.len() - 1], f, c2);
            (cons_onto(ts, last), c3)
        },
    }
}

/// The terms of the first `k` patterns of `cs`, in order.
pub open spec fn lower_constants(cs: Seq<ConstantNode>, k: int, f: u32, ctr: u64) -> (
    Seq<TermView>,
    u64,
)
    decreases cs, k,
{
    if k <= 0 || k > cs.len() {
        (Seq::empty(), ctr)
    } else {
        let (ts, c2) = lower_constants(cs, k - 1, f, ctr);
        let (t, c3) = lower_constant(cs[k - 1], f, c2);
        (ts.push(t), c3)
    }
}

pub open spec fn op_name(op: BinaryOperation) -> Seq<char> {
    match op {
        BinaryOperation::Add => seq!['+'],
        BinaryOperation::Sub => seq!['-'],
        BinaryOperation::Mul => seq!['*'],
        BinaryOperation::Div => seq!['/'],
        BinaryOperation::Mod => seq!['%'],
    }
}

pub open spec fn fact_name(op: BinaryFactOperation) -> Seq<char> {
    match op {
        BinaryFactOperation::Gt => seq!['>'],
        BinaryFactOperation::Lt => seq!['<'],
        BinaryFactOperation::Leq => seq!['<', '='],
        BinaryFactOperation::Geq => seq!['>', '='],
        BinaryFactOperation::Equ => seq!['=', '='],
        BinaryFactOperation::Neq => seq!['!', '='],
    }
}

/// Lowering of an expression: the goals that compute it, the variable that
/// holds its value, and the counter after it.
pub open spec fn lower_expr(e: ExpressionNode, f: u32, ctr: u64) -> (Seq<TermView>, VarView, u64)
    decreases e, 0int,
{
    let name = VarView { name: free_prefix() + decimal(ctr as nat), frame_id: f };
    let c1 = bump(ctr);
    match e.contents {
        ExpressionContents::Const(c) => {
            let (t, c2) = lower_constant(c, f, c1);
            (seq![eq_goal(t, TermView::Var(name))], name, c2)
        },
        ExpressionContents::Operation { op, lhs, rhs } => {
            let (g1, n1, c2) = lower_expr(*lhs, f, c1);
            let (g2, n2, c3) = lower_expr(*rhs, f, c2);
            (
                g1 + g2 + seq![
                    TermView::Compound(
                        op_name(op),
                        seq![TermView::Var(n1), TermView::Var(n2), TermView::Var(name)],
                    ),
                ],
                name,
                c3,
            )
        },
        ExpressionContents::Call { rel, args } => {
            let (gs, ns, c2) = lower_exprs(args@, args.len() as int, f, c1);
            (gs.push(TermView::Compound(rel.name@, vars_of(ns).push(TermView::Var(name)))), name, c2)
        },
        ExpressionContents::List { vals } => {
            let (gs, ns, c2) = lower_exprs(vals@, vals.len() as int, f, c1);
            (gs.push(eq_goal(TermView::List(vars_of(ns), None), TermView::Var(name))), name, c2)
        },
        ExpressionContents::ConsList { vals } => if vals.len() == 0 {
            (seq![eq_goal(TermView::List(Seq::empty(), None), TermView::Var(name))], name, c1)
        } else {
            let (gs, ns, c2) = lower_exprs(vals@, vals.len() - 1, f, c1);
            let last = vals@[vals.len() - 1];
            match last.contents {
                ExpressionContents::List { vals: v2 } => {
                    let (gs2, ns2, c3) = lower_exprs(v2@, v2.len() as int, f, c2);
                    (
                        gs + gs2 + seq![
                            eq_goal(TermView::List(vars_of(ns + ns2), None), TermView::Var(name)),
                        ],
                        name,
                        c3,
                    )
                },
                ExpressionContents::Const(cn) if cn.contents is Var => (
                    gs.push(
                        eq_goal(
                            TermView::List(
                                vars_of(ns),
                                Some(VarView { name: cn.contents->Var_0@, frame_id: f }),
                            ),
                            TermView::Var(name),
                        ),
                    ),
                    name,
                    c2,
                ),
                ExpressionContents::Const(cn) if cn.contents is List => {
                    let l = cn.contents->List_0;
                    let (ts, c3) = lower_constants(l@, l.len() as int, f, c2);
                    (
                        gs.push(eq_goal(TermView::List(vars_of(ns) + ts, None), TermView::Var(name))),
                        name,
                        c3,
                    )
                },
                _ => {
                    let (gl, nl, c3) = lower_expr(last, f, c2);
                    (
                        gs + gl + seq![
                            eq_goal(TermView::List(vars_of(ns), Some(nl)), TermView::Var(name)),
                        ],
                        name,
                        c3,
                    )
                },
            }
        },
    }
}

/// Lowering of the first `k` expressions of `es`, in order: all their goals,
/// the variables that hold their values, and the counter after them.
pub open spec fn lower_exprs(es: Seq<ExpressionNode>, k: int, f: u32, ctr: u64) -> (
    Seq<TermView>,
    Seq<VarView>,
    u64,
)
    decreases es, k,
{
    if k <= 0 || k > es.len() {
        (Seq::empty(), Seq::empty(), ctr)
    } else {
        let (gs, ns, c2) = lower_exprs(es, k - 1, f, ctr);
        let (g, n, c3) = lower_expr(es[k - 1], f, c2);
        (gs + g, ns.push(n), c3)
    }
}

fn fresh_name(prefix: &str, f: u32, ctr: &mut u64) -> (r: UnknownContents)
    ensures
        r@ == (VarView { name: prefix@ + decimal(*old(ctr) as nat), frame_id: f }),
        *final(ctr) == bump(*old(ctr)),
{
    let name = numbered(prefix, *ctr);
    if *ctr < u64::MAX {
        *ctr = *ctr + 1;
    }
    UnknownContents { name, frame_id: f }
}

fn eq_goal_term(a: Term, b: Term) -> (r: Term)
    ensures
        r@ == eq_goal(a@, b@),
{
    let mut args: Vec<Term> = Vec::new();
    let ghost (av, bv) = (a@, b@);
    args.push(a);
    args.push(b);
    proof {
        reveal_strlit("=");
        assert("="@ =~= seq!['=']);
        assert(views(args@) =~= seq![av, bv]);
    }
    compound_term(String::from_str("="), args)
}

fn compound_term(name: String, args: Vec<Term>) -> (r: Term)
    ensures
        r@ == TermView::Compound(name@, views(args@)),
{
    let c = CompoundTerm { name, args };
    proof {
        lemma_compound_view(c);
    }
    Term::Compound(c)
}

fn list_term(front: Vec<Term>, tail: ListTail) -> (r: Term)
    ensures
        r@ == TermView::List(views(front@), crate::term::tail_view(tail)),
{
    let l = ListTerm { front, tail };
    proof {
        lemma_list_view(l);
    }
    Term::List(l)
}

fn var_terms(ns: &Vec<UnknownContents>) -> (r: Vec<Term>)
    ensures
        views(r@) == vars_of(crate::term::var_views(ns@)),
{
    let mut r: Vec<Term> = Vec::new();
    let mut i: usize = 0;
    while i < ns.len()
        invariant
            i <= ns.len(),
            views(r@) == vars_of(crate::term::var_views(ns@)).subrange(0, i as int),
        decreases ns.len() - i,
    {
        let t = Term::Unknown(ns[i].copy());
        let ghost prev = r@;
        r.push(t);
        proof {
            lemma_views_push(prev, t);
            assert(views(r@) =~= vars_of(crate::term::var_views(ns@)).subrange(0, i + 1));
        }
        i = i + 1;
    }
    proof {
        assert(vars_of(crate::term::var_views(ns@)).subrange(0, i as int) =~= vars_of(
            crate::term::var_views(ns@),
        ));
    }
    r
}

/// The term of a pattern (see `lower_constant`): variables get frame
/// `frame_id`, wildcards fresh names.
pub fn parse_constant<'p>(cnode: &ConstantNode<'p>, frame_id: u32, ctr: &mut u64) -> (r: Term)
    ensures
        (r@, *final(ctr)) == lower_constant(*cnode, frame_id, *old(ctr)),
    decreases cnode,
{
    match &cnode.contents {
        ConstantContents::EmptyPattern => {
            proof {
                reveal_strlit("<Tmp_WC>");
                assert("<Tmp_WC>"@ =~= wildcard_prefix());
            }
            Term::Unknown(fresh_name("<Tmp_WC>", frame_id, ctr))
        },
        ConstantContents::Atom(s) => Term::Atom(s.clone()),
        ConstantContents::Var(s) => Term::Unknown(UnknownContents { name: s.clone(), frame_id }),
        ConstantContents::Literal(n) => Term::Number(*n),
        ConstantContents::List(cs) => {
            let front = parse_constants(cs, cs.len(), frame_id, ctr);
            list_term(front, ListTail::End)
        },
        ConstantContents::ConsList(cs) => {
            if cs.len() == 0 {
                let empty: Vec<Term> = Vec::new();
                proof {
                    assert(views(empty@) =~= Seq::<TermView>::empty());
                }
                return list_term(empty, ListTail::End);
            }
            let mut front = parse_constants(cs, cs.len() - 1, frame_id, ctr);
            let last = parse_constant(&cs[cs.len() - 1], frame_id, ctr);
            match last {
                Term::Unknown(v) => list_term(front, ListTail::Unknown(v)),
                Term::List(l2) => {
                    proof {
                        lemma_list_view(l2);
                    }
                    let mut more = l2.front;
                    let ghost mv = more@;
                    let ghost pre = front@;
                    front.append(&mut more);
                    proof {
                        lemma_views_append(pre, mv);
                    }
                    list_term(front, l2.tail)
                },
                other => {
                    let ghost pre = front@;
                    front.push(other);
                    proof {
                        lemma_views_push(pre, other);
                    }
                    list_term(front, ListTail::End)
                },
            }
        },
    }
}

/// The terms of the first `k` patterns of `cs` (see `lower_constants`).
pub fn parse_constants<'p>(cs: &Vec<ConstantNode<'p>>, k: usize, frame_id: u32, ctr: &mut u64) -> (r: Vec<Term>)
    requires
        k <= cs.len(),
    ensures
        (views(r@), *final(ctr)) == lower_constants(cs@, k as int, frame_id, *old(ctr)),
    decreases cs,
{
    let ghost c0 = *ctr;
    let mut r: Vec<Term> = Vec::new();
    let mut i: usize = 0;
    proof {
        assert(views(r@) =~= Seq::<TermView>::empty());
    }
    while i < k
        invariant
            k <= cs.len(),
            i <= k,
            (views(r@), *ctr) == lower_constants(cs@, i as int, frame_id, c0),
        decreases k - i,
    {
        let t = parse_constant(&cs[i], frame_id, ctr);
        let ghost prev = r@;
        r.push(t);
        proof {
            lemma_views_push(prev, t);
        }
        i = i + 1;
    }
    r
}

fn op_string(op: BinaryOperation) -> (r: String)
    ensures
        r@ == op_name(op),
{
    proof {
        reveal_strlit("+");
        reveal_strlit("-");
        reveal_strlit("*");
        reveal_strlit("/");
        reveal_strlit("%");
    }
    let s = match op {
        BinaryOperation::Add => "+",
        BinaryOperation::Sub => "-",
        BinaryOperation::Mul => "*",
        BinaryOperation::Div => "/",
        BinaryOperation::Mod => "%",
    };
    proof {
        assert(s@ =~= op_name(op));
    }
    String::from_str(s)
}

fn fact_string(op: BinaryFactOperation) -> (r: String)
    ensures
        r@ == fact_name(op),
{
    proof {
        reveal_strlit(">");
        reveal_strlit("<");
        reveal_strlit("<=");
        reveal_strlit(">=");
        reveal_strlit("==");
        reveal_strlit("!=");
    }
    let s = match op {
        BinaryFactOperation::Gt => ">",
        BinaryFactOperation::Lt => "<",
        BinaryFactOperation::Leq => "<=",
        BinaryFactOperation::Geq => ">=",
        BinaryFactOperation::Equ => "==",
        BinaryFactOperation::Neq => "!=",
    };
    proof {
        assert(s@ =~= fact_name(op));
    }
    String::from_str(s)
}

/// Lowers `expr`, appending the goals that compute it to `res`, and
/// returns the variable that holds its value (see `lower_expr`). Its name
/// is `<Free>` and the counter's value, which the counter then passes, so
/// that no other variable of the same lowering gets it (see
/// `lemma_fresh_names_differ`).
pub fn parse_expr_name<'p>(
    expr: &ExpressionNode<'p>,
    frame_id: u32,
    res: &mut Vec<Term>,
    ctr: &mut u64,
) -> (r: UnknownContents)
    ensures
        ({
            let (g, n, c) = lower_expr(*expr, frame_id, *old(ctr));
            &&& views(final(res)@) == views(old(res)@) + g
            &&& r@ == n
            &&& *final(ctr) == c
        }),
        r@.name == free_prefix() + decimal(*old(ctr) as nat),
        r@.frame_id == frame_id,
        *final(ctr) >= bump(*old(ctr)),
        free_names_below(views(old(res)@), frame_id, *old(ctr)) ==> forall|i: int|
            0 <= i < views(old(res)@).len() ==> !#[trigger] occurs(views(old(res)@)[i], r@),
    decreases expr,
{
    let ghost r0 = views(res@);
    let ghost c0 = *ctr;
    proof {
        lemma_fresh_not_below(r0, frame_id, *ctr);
        lemma_expr_counter(*expr, frame_id, *ctr);
        reveal_strlit("<Free>");
        assert("<Free>"@ =~= free_prefix());
    }
    let name = fresh_name("<Free>", frame_id, ctr);
    match &expr.contents {
        ExpressionContents::Const(cnode) => {
            let t = parse_constant(cnode, frame_id, ctr);
            let g = eq_goal_term(t, Term::Unknown(name.copy()));
            let ghost prev = res@;
            res.push(g);
            proof {
                lemma_views_push(prev, g);
                assert(views(res@) =~= r0 + seq![g@]);
            }
        },
        ExpressionContents::Operation { op, lhs, rhs } => {
            let u1 = parse_expr_name(lhs, frame_id, res, ctr);
            let u2 = parse_expr_name(rhs, frame_id, res, ctr);
            let mut args: Vec<Term> = Vec::new();
            args.push(Term::Unknown(u1));
            args.push(Term::Unknown(u2));
            args.push(Term::Unknown(name.copy()));
            proof {
                assert(views(args@) =~= seq![
                    TermView::Var(u1@),
                    TermView::Var(u2@),
                    TermView::Var(name@),
                ]);
            }
            let g = compound_term(op_string(*op), args);
            let ghost prev = res@;
            res.push(g);
            proof {
                lemma_views_push(prev, g);
                let (g1, n1, c2) = lower_expr(**lhs, frame_id, bump(c0));
                let (g2, n2, c3) = lower_expr(**rhs, frame_id, c2);
                assert(views(res@) =~= r0 + (g1 + g2 + seq![g@]));
            }
        },
        ExpressionContents::Call { rel, args } => {
            let ns = parse_exprs(args, args.len(), frame_id, res, ctr);
            let mut vs = var_terms(&ns);
            let ghost pv = vs@;
            let vn = Term::Unknown(name.copy());
            vs.push(vn);
            proof {
                lemma_views_push(pv, vn);
            }
            let g = compound_term(rel.name.clone(), vs);
            let ghost prev = res@;
            res.push(g);
            proof {
                lemma_views_push(prev, g);
            }
        },
        ExpressionContents::List { vals } => {
            let ns = parse_exprs(vals, vals.len(), frame_id, res, ctr);
            let l = list_term(var_terms(&ns), ListTail::End);
            let g = eq_goal_term(l, Term::Unknown(name.copy()));
            let ghost prev = res@;
            res.push(g);
            proof {
                lemma_views_push(prev, g);
            }
        },
        ExpressionContents::ConsList { vals } => {
            if vals.len() == 0 {
                let empty: Vec<Term> = Vec::new();
                proof {
                    assert(views(empty@) =~= Seq::<TermView>::empty());
                }
                let g = eq_goal_term(list_term(empty, ListTail::End), Term::Unknown(name.copy()));
                let ghost prev = res@;
                res.push(g);
                proof {
                    lemma_views_push(prev, g);
                    assert(views(res@) =~= r0 + seq![g@]);
                }
                return name;
            }
            let mut ns = parse_exprs(vals, vals.len() - 1, frame_id, res, ctr);
            let ghost r1 = views(res@);
            let ghost c2 = *ctr;
            let last = &vals[vals.len() - 1];
            let g = match &last.contents {
                ExpressionContents::List { vals: v2 } => {
                    let mut ns2 = parse_exprs(v2, v2.len(), frame_id, res, ctr);
                    let ghost (a, b) = (ns@, ns2@);
                    ns.append(&mut ns2);
                    proof {
                        assert(crate::term::var_views(a + b) =~= crate::term::var_views(a)
                            + crate::term::var_views(b));
                    }
                    eq_goal_term(list_term(var_terms(&ns), ListTail::End), Term::Unknown(name.copy()))
                },
                ExpressionContents::Const(cn) => {
                    match &cn.contents {
                        ConstantContents::Var(v) => {
                            let tail = ListTail::Unknown(
                                UnknownContents { name: v.clone(), frame_id },
                            );
                            eq_goal_term(list_term(var_terms(&ns), tail), Term::Unknown(name.copy()))
                        },
                        ConstantContents::List(l) => {
                            let mut front = var_terms(&ns);
                            let mut ts = parse_constants(l, l.len(), frame_id, ctr);
                            let ghost (a, b) = (front@, ts@);
                            front.append(&mut ts);
                            proof {
                                lemma_views_append(a, b);
                            }
                            eq_goal_term(list_term(front, ListTail::End), Term::Unknown(name.copy()))
                        },
                        _ => {
                            let nl = parse_expr_name(last, frame_id, res, ctr);
                            eq_goal_term(
                                list_term(var_terms(&ns), ListTail::Unknown(nl)),
                                Term::Unknown(name.copy()),
                            )
                        },
                    }
                },
                _ => {
                    let nl = parse_expr_name(last, frame_id, res, ctr);
                    eq_goal_term(
                        list_term(var_terms(&ns), ListTail::Unknown(nl)),
                        Term::Unknown(name.copy()),
                    )
                },
            };
            let ghost prev = res@;
            res.push(g);
            proof {
                lemma_views_push(prev, g);
                let (gs, nsv, c2s) = lower_exprs(vals@, vals.len() - 1, frame_id, bump(c0));
                assert(views(res@) =~= r0 + (gs + (views(prev).subrange(r1.len() as int, views(prev).len() as int)) + seq![g@]));
            }
        },
    }
    name
}

/// Lowers the first `k` expressions of `es` in order (see `lower_exprs`),
/// returning the variables that hold their values.
pub fn parse_exprs<'p>(
    es: &Vec<ExpressionNode<'p>>,
    k: usize,
    frame_id: u32,
    res: &mut Vec<Term>,
    ctr: &mut u64,
) -> (r: Vec<UnknownContents>)
    requires
        k <= es.len(),
    ensures
        ({
            let (g, ns, c) = lower_exprs(es@, k as int, frame_id, *old(ctr));
            &&& views(final(res)@) == views(old(res)@) + g
            &&& crate::term::var_views(r@) == ns
            &&& *final(ctr) == c
        }),
    decreases es,
{
    let ghost r0 = views(res@);
    let ghost c0 = *ctr;
    let mut r: Vec<UnknownContents> = Vec::new();
    let mut i: usize = 0;
    proof {
        assert(r0 + Seq::<TermView>::empty() =~= r0);
        assert(crate::term::var_views(r@) =~= Seq::<VarView>::empty());
    }
    while i < k
        invariant
            k <= es.len(),
            i <= k,
            ({
                let (g, ns, c) = lower_exprs(es@, i as int, frame_id, c0);
                &&& views(res@) == r0 + g
                &&& crate::term::var_views(r@) == ns
                &&& *ctr == c
            }),
        decreases k - i,
    {
        let ghost rb = views(res@);
        let n = parse_expr_name(&es[i], frame_id, res, ctr);
        let ghost prev = r@;
        r.push(n);
        proof {
            let (g, ns, c) = lower_exprs(es@, i as int, frame_id, c0);
            let (g1, n1, c1) = lower_expr(es@[i as int], frame_id, c);
            assert(views(res@) =~= r0 + (g + g1));
            assert(crate::term::var_views(r@) =~= crate::term::var_views(prev).push(n@));
        }
        i = i + 1;
    }
    r
}

pub open spec fn lower_relcall(rc: RelationCallNode, f: u32, ctr: u64) -> (Seq<TermView>, u64) {
    let (gs, ns, c2) = lower_exprs(rc.args@, rc.args.len() as int, f, ctr);
    (gs.push(TermView::Compound(rc.rel.name@, vars_of(ns))), c2)
}

/// The `i`-th output variable of a relation, `Result<i>`.
pub open spec fn result_var(i: nat, f: u32) -> TermView {
    var_term(result_prefix() + decimal(i), f)
}

pub open spec fn lower_relate(rn: RelateNode, f: u32, ctr: u64) -> (Seq<TermView>, u64) {
    let (gs, ns, c2) = lower_exprs(rn.result@, rn.result.len() as int, f, ctr);
    (
        gs + Seq::new(
            ns.len(),
            |i: int| eq_goal(result_var(i as nat, f), TermView::Var(ns[i])),
        ),
        c2,
    )
}

pub open spec fn lower_bfact(b: BinaryFactNode, f: u32, ctr: u64) -> (Seq<TermView>, u64) {
    let (g1, n1, c2) = lower_expr(b.lhs, f, ctr);
    let (g2, n2, c3) = lower_expr(b.rhs, f, c2);
    (
        g1 + g2 + seq![
            TermView::Compound(fact_name(b.op), seq![TermView::Var(n1), TermView::Var(n2)]),
        ],
        c3,
    )
}

pub open spec fn lower_assignment(a: AssignmentNode, f: u32, ctr: u64) -> (Seq<TermView>, u64) {
    match a.rhs.contents {
        ExpressionContents::Call { rel, args } => {
            let (gs, ns, c2) = lower_exprs(args@, args.len() as int, f, ctr);
            let (ts, c3) = lower_constants(a.lhs.constants@, a.lhs.constants.len() as int, f, c2);
            (gs.push(TermView::Compound(rel.name@, vars_of(ns) + ts)), c3)
        },
        _ => {
            let (g, n, c2) = lower_expr(a.rhs, f, ctr);
            if a.lhs.constants.len() == 0 {
                (g, c2)
            } else {
                let (t, c3) = lower_constant(a.lhs.constants@[0], f, c2);
                (g.push(eq_goal(t, TermView::Var(n))), c3)
            }
        },
    }
}

/// The name of the negation-as-failure goal, `\+`.
pub open spec fn refute_name() -> Seq<char> {
    seq!['\\', '+']
}

pub open spec fn lower_refute(rn: RefuteNode, f: u32, ctr: u64) -> (Seq<TermView>, u64) {
    let rc = *rn.statement;
    let (gs, ns, c2) = lower_exprs(rc.args@, rc.args.len() as int, f, ctr);
    (
        gs.push(
            TermView::Compound(
                refute_name(),
                seq![TermView::Compound(rc.rel.name@, vars_of(ns))],
            ),
        ),
        c2,
    )
}

/// The goals of one statement, and the counter after it.
pub open spec fn lower_statement(st: StatementNode, f: u32, ctr: u64) -> (Seq<TermView>, u64) {
    match st {
        StatementNode::Assignment(a) => lower_assignment(a, f, ctr),
        StatementNode::Relate(r) => lower_relate(r, f, ctr),
        StatementNode::Refute(r) => lower_refute(r, f, ctr),
        StatementNode::BinaryFact(b) => lower_bfact(b, f, ctr),
        StatementNode::Relation(rc) => lower_relcall(rc, f, ctr),
    }
}

/// The goals of the first `k` statements, in order.
pub open spec fn lower_statements(ss: Seq<StatementNode>, k: int, f: u32, ctr: u64) -> (
    Seq<TermView>,
    u64,
)
    decreases k,
{
    if k <= 0 || k > ss.len() {
        (Seq::empty(), ctr)
    } else {
        let (gs, c2) = lower_statements(ss, k - 1, f, ctr);
        let (g, c3) = lower_statement(ss[k - 1], f, c2);
        (gs + g, c3)
    }
}

/// The clause of a relation whose variables are in frame `f`: its
/// parameters, then its constant values or its `Result` variables, as the
/// head; the goals of its statements as the body.
pub open spec fn lower_relation(r: RelationNode, f: u32) -> (TermView, Seq<TermView>) {
    let (ps, c1) = lower_constants(r.params.constants@, r.params.constants.len() as int, f, 0);
    match r.block {
        RelationBlock::Const(cl) => {
            let (vs, c2) = lower_constants(cl.constants@, cl.constants.len() as int, f, c1);
            (TermView::Compound(r.relation.name@, ps + vs), Seq::empty())
        },
        RelationBlock::Block(b) => (
            TermView::Compound(
                r.relation.name@,
                ps + Seq::new(num_results(b.statements@), |i: int| result_var(i as nat, f)),
            ),
            lower_statements(b.statements@, b.statements.len() as int, f, c1).0,
        ),
    }
}

/// The goals of a relation call: its arguments computed, then the call.
pub fn parse_relationcall<'p>(rcallnode: &RelationCallNode<'p>, frame_id: u32, ctr: &mut u64) -> (r: Vec<Term>)
    ensures
        (views(r@), *final(ctr)) == lower_relcall(*rcallnode, frame_id, *old(ctr)),
{
    let mut res: Vec<Term> = Vec::new();
    proof {
        assert(views(res@) =~= Seq::<TermView>::empty());
    }
    let ns = parse_exprs(&rcallnode.args, rcallnode.args.len(), frame_id, &mut res, ctr);
    let g = compound_term(rcallnode.rel.name.clone(), var_terms(&ns));
    let ghost prev = res@;
    res.push(g);
    proof {
        lemma_views_push(prev, g);
        assert(Seq::<TermView>::empty() + views(prev) =~= views(prev));
    }
    res
}

/// The goals of `relate e0, ...`: each expression computed, then bound to
/// the output variable at its position.
pub fn parse_relate<'p>(rnode: &RelateNode<'p>, frame_id: u32, ctr: &mut u64) -> (r: Vec<Term>)
    ensures
        (views(r@), *final(ctr)) == lower_relate(*rnode, frame_id, *old(ctr)),
{
    let mut res: Vec<Term> = Vec::new();
    proof {
        assert(views(res@) =~= Seq::<TermView>::empty());
    }
    let ns = parse_exprs(&rnode.result, rnode.result.len(), frame_id, &mut res, ctr);
    let ghost base = views(res@);
    let ghost nsv = crate::term::var_views(ns@);
    proof {
        reveal_strlit("Result");
        assert("Result"@ =~= result_prefix());
        assert(Seq::<TermView>::empty() + base =~= base);
    }
    let mut i: usize = 0;
    while i < ns.len()
        invariant
            i <= ns.len(),
            nsv == crate::term::var_views(ns@),
            views(res@) == base + Seq::new(
                i as nat,
                |j: int| eq_goal(result_var(j as nat, frame_id), TermView::Var(nsv[j])),
            ),
        decreases ns.len() - i,
    {
        proof {
            reveal_strlit("Result");
            assert("Result"@ =~= result_prefix());
        }
        let rv = Term::Unknown(UnknownContents { name: numbered("Result", i as u64), frame_id });
        let g = eq_goal_term(rv, Term::Unknown(ns[i].copy()));
        let ghost prev = res@;
        res.push(g);
        proof {
            lemma_views_push(prev, g);
            assert(views(res@) =~= base + Seq::new(
                (i + 1) as nat,
                |j: int| eq_goal(result_var(j as nat, frame_id), TermView::Var(nsv[j])),
            ));
        }
        i = i + 1;
    }
    res
}

/// The goals of a comparison: both sides computed, then compared.
pub fn parse_bfactnode<'p>(brnode: &BinaryFactNode<'p>, frame_id: u32, ctr: &mut u64) -> (r: Vec<Term>)
    ensures
        (views(r@), *final(ctr)) == lower_bfact(*brnode, frame_id, *old(ctr)),
{
    let mut res: Vec<Term> = Vec::new();
    proof {
        assert(views(res@) =~= Seq::<TermView>::empty());
    }
    let left = parse_expr_name(&brnode.lhs, frame_id, &mut res, ctr);
    let right = parse_expr_name(&brnode.rhs, frame_id, &mut res, ctr);
    let mut args: Vec<Term> = Vec::new();
    args.push(Term::Unknown(left));
    args.push(Term::Unknown(right));
    proof {
        assert(views(args@) =~= seq![TermView::Var(left@), TermView::Var(right@)]);
    }
    let g = compound_term(fact_string(brnode.op), args);
    let ghost prev = res@;
    res.push(g);
    proof {
        lemma_views_push(prev, g);
        let (g1, n1, c2) = lower_expr(brnode.lhs, frame_id, *old(ctr));
        let (g2, n2, c3) = lower_expr(brnode.rhs, frame_id, c2);
        assert(views(res@) =~= g1 + g2 + seq![g@]);
    }
    res
}

/// The goals of `pattern ~ expression`, or of `(patterns) ~ call(args)`
/// where the patterns become the trailing arguments of the call.
pub fn parse_assignment<'p>(assignment: &AssignmentNode<'p>, frame_id: u32, ctr: &mut u64) -> (r: Vec<Term>)
    ensures
        (views(r@), *final(ctr)) == lower_assignment(*assignment, frame_id, *old(ctr)),
{
    let mut res: Vec<Term> = Vec::new();
    proof {
        assert(views(res@) =~= Seq::<TermView>::empty());
    }
    match &assignment.rhs.contents {
        ExpressionContents::Call { rel, args } => {
            let ns = parse_exprs(args, args.len(), frame_id, &mut res, ctr);
            let mut names = var_terms(&ns);
            let mut extra = parse_constants(
                &assignment.lhs.constants,
                assignment.lhs.constants.len(),
                frame_id,
                ctr,
            );
            let ghost (a, b) = (names@, extra@);
            names.append(&mut extra);
            proof {
                lemma_views_append(a, b);
            }
            let g = compound_term(rel.name.clone(), names);
            let ghost prev = res@;
            res.push(g);
            proof {
                lemma_views_push(prev, g);
                assert(Seq::<TermView>::empty() + views(prev) =~= views(prev));
            }
            res
        },
        _ => {
            let name = parse_expr_name(&assignment.rhs, frame_id, &mut res, ctr);
            proof {
                assert(Seq::<TermView>::empty() + views(res@) =~= views(res@));
            }
            if assignment.lhs.constants.len() == 0 {
                return res;
            }
            let t = parse_constant(&assignment.lhs.constants[0], frame_id, ctr);
            let g = eq_goal_term(t, Term::Unknown(name));
            let ghost prev = res@;
            res.push(g);
            proof {
                lemma_views_push(prev, g);
            }
            res
        },
    }
}

/// The goals of `refute call(args)`: the arguments computed, then
/// `\+(call(...))`.
pub fn parse_refute<'p>(rnode: &RefuteNode<'p>, frame_id: u32, ctr: &mut u64) -> (r: Vec<Term>)
    ensures
        (views(r@), *final(ctr)) == lower_refute(*rnode, frame_id, *old(ctr)),
{
    let rc: &RelationCallNode<'p> = &rnode.statement;
    let mut res: Vec<Term> = Vec::new();
    proof {
        assert(views(res@) =~= Seq::<TermView>::empty());
    }
    let ns = parse_exprs(&rc.args, rc.args.len(), frame_id, &mut res, ctr);
    let call = compound_term(rc.rel.name.clone(), var_terms(&ns));
    let mut inner: Vec<Term> = Vec::new();
    let ghost cv = call@;
    inner.push(call);
    proof {
        assert(views(inner@) =~= seq![cv]);
        reveal_strlit("\\+");
        assert("\\+"@ =~= refute_name());
    }
    let g = compound_term(String::from_str("\\+"), inner);
    let ghost prev = res@;
    res.push(g);
    proof {
        lemma_views_push(prev, g);
        assert(Seq::<TermView>::empty() + views(prev) =~= views(prev));
    }
    res
}

/// The goals of one statement (see `lower_statement`).
pub fn parse_statement<'p>(statement: &StatementNode<'p>, frame_id: u32, ctr: &mut u64) -> (r: Vec<Term>)
    ensures
        (views(r@), *final(ctr)) == lower_statement(*statement, frame_id, *old(ctr)),
{
    match statement {
        StatementNode::Assignment(anode) => parse_assignment(anode, frame_id, ctr),
        StatementNode::Relate(rnode) => parse_relate(rnode, frame_id, ctr),
        StatementNode::Refute(rnode) => parse_refute(rnode, frame_id, ctr),
        StatementNode::BinaryFact(brnode) => parse_bfactnode(brnode, frame_id, ctr),
        StatementNode::Relation(rcallnode) => parse_relationcall(rcallnode, frame_id, ctr),
    }
}

/// The goals of the statements of `ss`, in order.
pub fn parse_statements<'p>(ss: &Vec<StatementNode<'p>>, frame_id: u32, ctr: &mut u64) -> (r: Vec<Term>)
    ensures
        (views(r@), *final(ctr)) == lower_statements(ss@, ss.len() as int, frame_id, *old(ctr)),
{
    let ghost c0 = *ctr;
    let mut goals: Vec<Term> = Vec::new();
    let mut i: usize = 0;
    proof {
        assert(views(goals@) =~= Seq::<TermView>::empty());
    }
    while i < ss.len()
        invariant
            i <= ss.len(),
            (views(goals@), *ctr) == lower_statements(ss@, i as int, frame_id, c0),
        decreases ss.len() - i,
    {
        let mut more = parse_statement(&ss[i], frame_id, ctr);
        let ghost (a, b) = (goals@, more@);
        goals.append(&mut more);
        proof {
            lemma_views_append(a, b);
        }
        i = i + 1;
    }
    goals
}

/// The clause of `rnode` with its variables in frame `frame_id` (see
/// `lower_relation`).
pub fn lower_relation_in<'p>(rnode: &RelationNode<'p>, frame_id: u32) -> (r: Rule)
    ensures
        (r.gives@, r.requires@) == lower_relation(*rnode, frame_id),
{
    let mut ctr: u64 = 0;
    let mut cterm = parse_relation_pattern(&rnode.relation, &rnode.params, frame_id, &mut ctr);
    let subquery = parse_relation_block(&rnode.block, frame_id, &mut cterm, &mut ctr);
    proof {
        lemma_compound_view(cterm);
    }
    Rule { gives: cterm, requires: subquery }
}

/// The head of a relation's clause before its outputs: the name applied to
/// the parameter patterns.
pub fn parse_relation_pattern<'p>(
    rid: &RelationId<'p>,
    clist: &ConstList<'p>,
    frame_id: u32,
    ctr: &mut u64,
) -> (r: CompoundTerm)
    ensures
        r.name@ == rid.name@,
        (views(r.args@), *final(ctr)) == lower_constants(
            clist.constants@,
            clist.constants.len() as int,
            frame_id,
            *old(ctr),
        ),
{
    let args = parse_constants(&clist.constants, clist.constants.len(), frame_id, ctr);
    CompoundTerm { name: rid.name.clone(), args }
}

/// Appends the outputs of the relation to the head `cterm` and returns the
/// body: constant values and no goals, or the `Result` variables and the
/// goals of the block.
pub fn parse_relation_block<'p>(
    rblock: &RelationBlock<'p>,
    frame_id: u32,
    cterm: &mut CompoundTerm,
    ctr: &mut u64,
) -> (r: Query)
    ensures
        final(cterm).name == old(cterm).name,
        match *rblock {
            RelationBlock::Const(cl) => {
                let (vs, c2) = lower_constants(cl.constants@, cl.constants.len() as int, frame_id, *old(ctr));
                views(final(cterm).args@) == views(old(cterm).args@) + vs && r@ == Seq::<TermView>::empty()
            },
            RelationBlock::Block(b) => {
                views(final(cterm).args@) == views(old(cterm).args@) + Seq::new(
                    num_results(b.statements@),
                    |i: int| result_var(i as nat, frame_id),
                ) && r@ == lower_statements(b.statements@, b.statements.len() as int, frame_id, *old(ctr)).0
            },
        },
{
    match rblock {
        RelationBlock::Const(clist) => {
            let mut vals = parse_constants(&clist.constants, clist.constants.len(), frame_id, ctr);
            let ghost (a, b) = (cterm.args@, vals@);
            cterm.args.append(&mut vals);
            proof {
                lemma_views_append(a, b);
            }
            let q = Query { goals: Vec::new() };
            proof {
                assert(q@ =~= Seq::<TermView>::empty());
            }
            q
        },
        RelationBlock::Block(bnode) => {
            let num_results = find_num_results(bnode);
            let ghost a0 = views(cterm.args@);
            proof {
                reveal_strlit("Result");
                assert("Result"@ =~= result_prefix());
                assert(a0 + Seq::new(0, |i: int| result_var(i as nat, frame_id)) =~= a0);
            }
            let mut i: usize = 0;
            while i < num_results
                invariant
                    i <= num_results,
                    cterm.name == old(cterm).name,
                    views(cterm.args@) == a0 + Seq::new(i as nat, |j: int| result_var(j as nat, frame_id)),
                decreases num_results - i,
            {
                proof {
                    reveal_strlit("Result");
                    assert("Result"@ =~= result_prefix());
                }
                let v = Term::Unknown(UnknownContents { name: numbered("Result", i as u64), frame_id });
                let ghost prev = cterm.args@;
                cterm.args.push(v);
                proof {
                    lemma_views_push(prev, v);
                    assert(views(cterm.args@) =~= a0 + Seq::new(
                        (i + 1) as nat,
                        |j: int| result_var(j as nat, frame_id),
                    ));
                }
                i = i + 1;
            }
            let goals = parse_statements(&bnode.statements, frame_id, ctr);
            Query { goals }
        },
    }
}

/// `r` is the clause of `n`, in some frame other than the query's.
pub open spec fn lowers(r: Rule, n: RelationNode) -> bool {
    exists|f: u32| f != crate::REPL_FRAME_ID && (r.gives@, r.requires@) == lower_relation(n, f)
}

/// The clause of a relation, with its variables in a fresh random frame
/// (never the frame of the top-level query).
pub fn parse_relation<'p>(rnode: &RelationNode<'p>) -> (r: Rule)
    ensures
        lowers(r, *rnode),
{
    let frame_id = fresh_frame_id();
    lower_relation_in(rnode, frame_id)
}

/// The clause database of a program: one clause per relation, in order.
pub fn parse_program<'p>(pnode: &ProgramNode<'p>) -> (r: Rules)
    ensures
        r.contents.len() == pnode.relations.len(),
        forall|i: int| 0 <= i < r.contents.len() ==> lowers(#[trigger] r.contents@[i], pnode.relations@[i]),
{
    let mut contents: Vec<Rule> = Vec::new();
    let mut i: usize = 0;
    while i < pnode.relations.len()
        invariant
            i <= pnode.relations.len(),
            contents.len() == i,
            forall|j: int| 0 <= j < i ==> lowers(#[trigger] contents@[j], pnode.relations@[j]),
        decreases pnode.relations.len() - i,
    {
        let rule = parse_relation(&pnode.relations[i]);
        contents.push(rule);
        i = i + 1;
    }
    Rules { contents }
}

/// The goals of a top-level query, a sequence of assignments and relation
/// calls, with every variable in the frame `REPL_FRAME_ID`.
pub fn parse_query<'p>(items: &Vec<StatementNode<'p>>) -> (r: Query)
    ensures
        r@ == lower_statements(items@, items.len() as int, crate::REPL_FRAME_ID, 0).0,
{
    let mut ctr: u64 = 0;
    let goals = parse_statements(items, crate::REPL_FRAME_ID, &mut ctr);
    Query { goals }
}

} // verus!
