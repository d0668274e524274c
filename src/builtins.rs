//! Builtin relations: unification, relational arithmetic, comparisons and
//! printing. Each one maps a goal to a unifier, or fails.
//!
//! Where an arithmetic or comparison goal is not ground enough (more than
//! one unknown, or an argument of the wrong kind), it fails like any goal.

use vstd::prelude::*;
use crate::number::{
    difference_of, lemma_mul_fits_i64, product_of, quotient_of, remainder_of, sum_of, trunc_rem,
    Number,
};
use crate::term::{
    copy_term, copy_terms, lemma_list_view, views, CompoundTerm, ListTail, Term, TermView, UnknownContents,
    VarView,
};
use crate::unifier::{Bindings, Unifier};
use crate::unify::{compute_most_gen_unifier, equation_views, mgu};

verus! {

/// The five arithmetic relations.
#[derive(Clone, Copy, Debug, PartialEq, Eq, Structural)]
pub enum ArithOp {
    Add,
    Sub,
    Mul,
    Div,
    Mod,
}

/// `a op b == c` holds exactly. Division and remainder by zero never hold.
pub open spec fn holds(op: ArithOp, a: Number, b: Number, c: Number) -> bool {
    match op {
        ArithOp::Add => (a.num * b.den + b.num * a.den) * c.den == c.num * (a.den * b.den),
        ArithOp::Sub => (a.num * b.den - b.num * a.den) * c.den == c.num * (a.den * b.den),
        ArithOp::Mul => a.num * b.num * c.den == c.num * (a.den * b.den),
        ArithOp::Div => b.num != 0 && a.num * b.den * c.den == c.num * (a.den * b.num),
        ArithOp::Mod => b.num != 0 && trunc_rem(a.num * b.den, b.num * a.den) * c.den == c.num * (
        a.den * b.den),
    }
}

/// The unifier binds exactly `s`, to a number `n` with `pred(n)`.
pub open spec fn binds_number(u: Bindings, s: VarView, pred: spec_fn(Number) -> bool) -> bool {
    &&& u.len() == 1
    &&& u[0].0 == s
    &&& u[0].1 is Num
    &&& u[0].1->Num_0.wf()
    &&& pred(u[0].1->Num_0)
}

/// What the relational arithmetic builtin `op` may answer on the goal
/// arguments `args`: with three numbers, success (binding nothing) exactly
/// when the relation holds; with one unknown and two numbers, a binding of
/// the unknown that makes it hold; otherwise failure. The remainder is
/// computed forward only.
pub open spec fn arith_answer(op: ArithOp, args: Seq<TermView>, r: Option<Bindings>) -> bool {
    if args.len() != 3 {
        r is None
    } else {
        match (args[0], args[1], args[2]) {
            (TermView::Num(a), TermView::Num(b), TermView::Num(c)) => {
                &&& r is Some ==> r == Some(Seq::<(VarView, TermView)>::empty())
                &&& r is Some ==> holds(op, a, b, c)
                &&& a.wf() && b.wf() && c.wf() && op != ArithOp::Mod && holds(op, a, b, c)
                    ==> r is Some
            },
            (TermView::Var(s), TermView::Num(b), TermView::Num(c)) => {
                &&& op == ArithOp::Mod ==> r is None
                &&& r matches Some(u) ==> binds_number(u, s, |n: Number| holds(op, n, b, c))
            },
            (TermView::Num(a), TermView::Var(s), TermView::Num(c)) => {
                &&& op == ArithOp::Mod ==> r is None
                &&& r matches Some(u) ==> binds_number(u, s, |n: Number| holds(op, a, n, c))
            },
            (TermView::Num(a), TermView::Num(b), TermView::Var(s)) => {
                r matches Some(u) ==> binds_number(u, s, |n: Number| holds(op, a, b, n))
            },
            _ => r is None,
        }
    }
}

/// The number `n` with `n op b == c`, as computed: `None` where a divisor
/// is zero, the result does not fit, or the operation is the remainder.
pub open spec fn first_of(op: ArithOp, b: Number, c: Number) -> Option<Number> {
    match op {
        ArithOp::Add => difference_of(c, b),
        ArithOp::Sub => sum_of(c, b),
        ArithOp::Mul => quotient_of(c, b),
        ArithOp::Div => if b.num == 0 {
            None
        } else {
            product_of(c, b)
        },
        ArithOp::Mod => None,
    }
}

/// The number `n` with `a op n == c`, as computed (see `first_of`).
pub open spec fn second_of(op: ArithOp, a: Number, c: Number) -> Option<Number> {
    match op {
        ArithOp::Add => difference_of(c, a),
        ArithOp::Sub => difference_of(a, c),
        ArithOp::Mul => quotient_of(c, a),
        ArithOp::Div => if a.num == 0 {
            None
        } else {
            quotient_of(a, c)
        },
        ArithOp::Mod => None,
    }
}

/// The number `a op b`, as computed: `None` where a divisor is zero or the
/// result does not fit.
pub open spec fn third_of(op: ArithOp, a: Number, b: Number) -> Option<Number> {
    match op {
        ArithOp::Add => sum_of(a, b),
        ArithOp::Sub => difference_of(a, b),
        ArithOp::Mul => product_of(a, b),
        ArithOp::Div => quotient_of(a, b),
        ArithOp::Mod => remainder_of(a, b),
    }
}

pub open spec fn binding_of(s: VarView, n: Option<Number>) -> Option<Bindings> {
    match n {
        Some(n) => Some(seq![(s, TermView::Num(n))]),
        None => None,
    }
}

/// What the relational arithmetic builtin `op` answers on the goal
/// arguments `args`: with three well-formed numbers, success binding nothing
/// exactly when the relation holds; with one unknown and two well-formed
/// numbers, the unknown bound to the value computed in lowest terms, or
/// failure where a divisor is zero or the value does not fit; otherwise
/// failure.
pub open spec fn arith_result(op: ArithOp, args: Seq<TermView>) -> Option<Bindings> {
    if args.len() != 3 {
        None
    } else {
        match (args[0], args[1], args[2]) {
            (TermView::Num(a), TermView::Num(b), TermView::Num(c)) => if a.wf() && b.wf() && c.wf()
                && holds(op, a, b, c) {
                Some(Seq::empty())
            } else {
                None
            },
            (TermView::Var(s), TermView::Num(b), TermView::Num(c)) => if b.wf() && c.wf() {
                binding_of(s, first_of(op, b, c))
            } else {
                None
            },
            (TermView::Num(a), TermView::Var(s), TermView::Num(c)) => if a.wf() && c.wf() {
                binding_of(s, second_of(op, a, c))
            } else {
                None
            },
            (TermView::Num(a), TermView::Num(b), TermView::Var(s)) => if a.wf() && b.wf() {
                binding_of(s, third_of(op, a, b))
            } else {
                None
            },
            _ => None,
        }
    }
}

pub open spec fn opt_view(r: Option<Unifier>) -> Option<Bindings> {
    match r {
        Some(u) => Some(u@),
        None => None,
    }
}

/// Structural equality of numbers, atoms and lists that end, element by
/// element; false on anything else.
pub open spec fn equal_as_terms(a: TermView, b: TermView) -> bool
    decreases a,
{
    match (a, b) {
        (TermView::Num(x), TermView::Num(y)) => x == y,
        (TermView::Atom(x), TermView::Atom(y)) => x == y,
        (TermView::List(f1, None), TermView::List(f2, None)) => f1.len() == f2.len() && all_true(
            equal_each(f1, f2),
        ),
        _ => false,
    }
}

/// For each position of `f1`, whether its element equals that of `f2`.
pub open spec fn equal_each(f1: Seq<TermView>, f2: Seq<TermView>) -> Seq<bool>
    decreases f1,
{
    Seq::new(
        f1.len(),
        |i: int|
            if 0 <= i < f1.len() && i < f2.len() {
                equal_as_terms(f1[i], f2[i])
            } else {
                false
            },
    )
}

pub open spec fn all_true(bs: Seq<bool>) -> bool {
    forall|i: int| 0 <= i < bs.len() ==> bs[i]
}

/// The comparison relations on numbers.
#[derive(Clone, Copy, Debug, PartialEq, Eq, Structural)]
pub enum CompareOp {
    Gt,
    Lt,
    Leq,
    Geq,
    Neq,
}

/// `a op b` holds of the two rationals.
pub open spec fn compares(op: CompareOp, a: Number, b: Number) -> bool {
    let l = a.num * b.den;
    let r = b.num * a.den;
    match op {
        CompareOp::Gt => l > r,
        CompareOp::Lt => l < r,
        CompareOp::Leq => l <= r,
        CompareOp::Geq => l >= r,
        CompareOp::Neq => l != r,
    }
}

fn single_binding(s: &UnknownContents, n: Number) -> (u: Unifier)
    ensures
        u.wf(),
        u@ == seq![(s@, TermView::Num(n))],
{
    let mut u = Unifier::new();
    u.insert(s.copy(), Term::Number(n));
    proof {
        assert(u@ =~= seq![(s@, TermView::Num(n))]);
    }
    u
}

fn bind_result(s: &UnknownContents, n: Option<Number>) -> (r: Option<Unifier>)
    ensures
        r matches Some(u) ==> n is Some && u.wf() && u@ == seq![(s@, TermView::Num(n->Some_0))],
        n is Some ==> r is Some,
{
    match n {
        Some(n) => Some(single_binding(s, n)),
        None => None,
    }
}

/// Whether `a op b == c` holds, computed exactly.
fn check_arith(op: ArithOp, a: Number, b: Number, c: Number) -> (r: bool)
    requires
        a.wf(),
        b.wf(),
        c.wf(),
    ensures
        r == holds(op, a, b, c),
{
    let (an, ad, bn, bd, cn, cd) = (
        a.num as i128,
        a.den as i128,
        b.num as i128,
        b.den as i128,
        c.num as i128,
        c.den as i128,
    );
    proof {
        lemma_products_fit(a.num as int, a.den as int, b.num as int, b.den as int, c.num as int, c.den as int);
    }
    match op {
        ArithOp::Add => (an * bd + bn * ad) * cd == cn * (ad * bd),
        ArithOp::Sub => (an * bd - bn * ad) * cd == cn * (ad * bd),
        ArithOp::Mul => an * bn * cd == cn * (ad * bd),
        ArithOp::Div => bn != 0 && an * bd * cd == cn * (ad * bn),
        ArithOp::Mod => {
            if bn == 0 {
                return false;
            }
            proof {
                lemma_mul_fits_i64(a.num as int, b.den as int);
                lemma_mul_fits_i64(b.num as int, a.den as int);
            }
            let x: i64 = (a.num as i64) * (b.den as i64);
            let y: i64 = (b.num as i64) * (a.den as i64);
            proof {
                assert(y != 0) by (nonlinear_arith)
                    requires y == b.num * a.den, b.num != 0, a.den > 0;
            }
            let m: u64 = if y < 0 {
                (-y) as u64
            } else {
                y as u64
            };
            let xa: u64 = if x < 0 {
                (-x) as u64
            } else {
                x as u64
            };
            let rm = xa % m;
            let tr: i128 = if x >= 0 {
                rm as i128
            } else {
                -(rm as i128)
            };
            proof {
                assert(tr == trunc_rem(x as int, y as int));
                assert(-0x8000_0000_0000_0000 < tr < 0x8000_0000_0000_0000);
                assert(-0x4_0000_0000_0000_0000_0000_0000 <= tr * cd <= 0x4_0000_0000_0000_0000_0000_0000) by (nonlinear_arith)
                    requires -0x8000_0000_0000_0000 < tr < 0x8000_0000_0000_0000, -0x8000_0000 <= cd <= 0x8000_0000;
            }
            tr * cd == cn * (ad * bd)
        },
    }
}

proof fn lemma_products_fit(an: int, ad: int, bn: int, bd: int, cn: int, cd: int)
    requires
        i32::MIN <= an <= i32::MAX,
        i32::MIN <= ad <= i32::MAX,
        i32::MIN <= bn <= i32::MAX,
        i32::MIN <= bd <= i32::MAX,
        i32::MIN <= cn <= i32::MAX,
        i32::MIN <= cd <= i32::MAX,
    ensures
        -0x4_0000_0000_0000_0000 <= an * bd <= 0x4_0000_0000_0000_0000,
        -0x4_0000_0000_0000_0000 <= bn * ad <= 0x4_0000_0000_0000_0000,
        -0x4_0000_0000_0000_0000 <= ad * bd <= 0x4_0000_0000_0000_0000,
        -0x4_0000_0000_0000_0000 <= an * bn <= 0x4_0000_0000_0000_0000,
        -0x4_0000_0000_0000_0000 <= ad * bn <= 0x4_0000_0000_0000_0000,
        -0x4_0000_0000_0000_0000_0000_0000 <= (an * bd + bn * ad) * cd <= 0x4_0000_0000_0000_0000_0000_0000,
        -0x4_0000_0000_0000_0000_0000_0000 <= (an * bd - bn * ad) * cd <= 0x4_0000_0000_0000_0000_0000_0000,
        -0x4_0000_0000_0000_0000_0000_0000 <= cn * (ad * bd) <= 0x4_0000_0000_0000_0000_0000_0000,
        -0x4_0000_0000_0000_0000_0000_0000 <= an * bn * cd <= 0x4_0000_0000_0000_0000_0000_0000,
        -0x4_0000_0000_0000_0000_0000_0000 <= an * bd * cd <= 0x4_0000_0000_0000_0000_0000_0000,
        -0x4_0000_0000_0000_0000_0000_0000 <= cn * (ad * bn) <= 0x4_0000_0000_0000_0000_0000_0000,
{
    assert(-0x4000_0000_0000_0000 <= an * bd <= 0x4000_0000_0000_0000) by (nonlinear_arith)
        requires -0x8000_0000 <= an <= 0x8000_0000, -0x8000_0000 <= bd <= 0x8000_0000;
    assert(-0x4000_0000_0000_0000 <= bn * ad <= 0x4000_0000_0000_0000) by (nonlinear_arith)
        requires -0x8000_0000 <= bn <= 0x8000_0000, -0x8000_0000 <= ad <= 0x8000_0000;
    assert(-0x4000_0000_0000_0000 <= ad * bd <= 0x4000_0000_0000_0000) by (nonlinear_arith)
        requires -0x8000_0000 <= ad <= 0x8000_0000, -0x8000_0000 <= bd <= 0x8000_0000;
    assert(-0x4000_0000_0000_0000 <= an * bn <= 0x4000_0000_0000_0000) by (nonlinear_arith)
        requires -0x8000_0000 <= an <= 0x8000_0000, -0x8000_0000 <= bn <= 0x8000_0000;
    assert(-0x4000_0000_0000_0000 <= ad * bn <= 0x4000_0000_0000_0000) by (nonlinear_arith)
        requires -0x8000_0000 <= ad <= 0x8000_0000, -0x8000_0000 <= bn <= 0x8000_0000;
    let s1 = an * bd + bn * ad;
    let s2 = an * bd - bn * ad;
    assert(-0x4_0000_0000_0000_0000_0000_0000 <= s1 * cd <= 0x4_0000_0000_0000_0000_0000_0000) by (nonlinear_arith)
        requires -0x8000_0000_0000_0000 <= s1 <= 0x8000_0000_0000_0000, -0x8000_0000 <= cd <= 0x8000_0000;
    assert(-0x4_0000_0000_0000_0000_0000_0000 <= s2 * cd <= 0x4_0000_0000_0000_0000_0000_0000) by (nonlinear_arith)
        requires -0x8000_0000_0000_0000 <= s2 <= 0x8000_0000_0000_0000, -0x8000_0000 <= cd <= 0x8000_0000;
    let dd = ad * bd;
    let nn2 = an * bn;
    let nd = an * bd;
    let dn = ad * bn;
    assert(-0x4_0000_0000_0000_0000_0000_0000 <= cn * dd <= 0x4_0000_0000_0000_0000_0000_0000) by (nonlinear_arith)
        requires -0x4000_0000_0000_0000 <= dd <= 0x4000_0000_0000_0000, -0x8000_0000 <= cn <= 0x8000_0000;
    assert(-0x4_0000_0000_0000_0000_0000_0000 <= nn2 * cd <= 0x4_0000_0000_0000_0000_0000_0000) by (nonlinear_arith)
        requires -0x4000_0000_0000_0000 <= nn2 <= 0x4000_0000_0000_0000, -0x8000_0000 <= cd <= 0x8000_0000;
    assert(-0x4_0000_0000_0000_0000_0000_0000 <= nd * cd <= 0x4_0000_0000_0000_0000_0000_0000) by (nonlinear_arith)
        requires -0x4000_0000_0000_0000 <= nd <= 0x4000_0000_0000_0000, -0x8000_0000 <= cd <= 0x8000_0000;
    assert(-0x4_0000_0000_0000_0000_0000_0000 <= cn * dn <= 0x4_0000_0000_0000_0000_0000_0000) by (nonlinear_arith)
        requires -0x4000_0000_0000_0000 <= dn <= 0x4000_0000_0000_0000, -0x8000_0000 <= cn <= 0x8000_0000;
}


/// The number `n` that makes `n op b == c` hold, where one is computed.
fn solve_first(op: ArithOp, b: Number, c: Number) -> (r: Option<Number>)
    requires
        b.wf(),
        c.wf(),
    ensures
        r matches Some(n) ==> n.wf() && holds(op, n, b, c),
        op == ArithOp::Mod ==> r is None,
        r == first_of(op, b, c),
{
    match op {
        ArithOp::Add => {
            let r = c.checked_sub(b);
            if let Some(n) = r {
                proof {
                    let (nn, nd, bn, bd, cn, cd) = (n.num as int, n.den as int, b.num as int, b.den as int, c.num as int, c.den as int);
                    assert((nn * bd + bn * nd) * cd == nn * (cd * bd) + bn * cd * nd) by (nonlinear_arith);
                    assert((cn * bd - bn * cd) * nd == cn * (nd * bd) - bn * cd * nd) by (nonlinear_arith);
                }
            }
            r
        },
        ArithOp::Sub => {
            let r = c.checked_add(b);
            if let Some(n) = r {
                proof {
                    let (nn, nd, bn, bd, cn, cd) = (n.num as int, n.den as int, b.num as int, b.den as int, c.num as int, c.den as int);
                    assert((nn * bd - bn * nd) * cd == nn * (cd * bd) - bn * cd * nd) by (nonlinear_arith);
                    assert((cn * bd + bn * cd) * nd == cn * (nd * bd) + bn * cd * nd) by (nonlinear_arith);
                }
            }
            r
        },
        ArithOp::Mul => {
            let r = c.checked_div(b);
            if let Some(n) = r {
                proof {
                    let (nn, nd, bn, bd, cn, cd) = (n.num as int, n.den as int, b.num as int, b.den as int, c.num as int, c.den as int);
                    assert(nn * bn * cd == cn * (nd * bd)) by (nonlinear_arith)
                        requires nn * (cd * bn) == cn * bd * nd;
                }
            }
            r
        },
        ArithOp::Div => {
            if b.num == 0 {
                return None;
            }
            let r = c.checked_mul(b);
            if let Some(n) = r {
                proof {
                    let (nn, nd, bn, bd, cn, cd) = (n.num as int, n.den as int, b.num as int, b.den as int, c.num as int, c.den as int);
                    assert(nn * bd * cd == cn * (nd * bn)) by (nonlinear_arith)
                        requires nn * (cd * bd) == cn * bn * nd;
                }
            }
            r
        },
        ArithOp::Mod => None,
    }
}

/// The number `n` that makes `a op n == c` hold, where one is computed.
fn solve_second(op: ArithOp, a: Number, c: Number) -> (r: Option<Number>)
    requires
        a.wf(),
        c.wf(),
    ensures
        r matches Some(n) ==> n.wf() && holds(op, a, n, c),
        op == ArithOp::Mod ==> r is None,
        r == second_of(op, a, c),
{
    match op {
        ArithOp::Add => {
            let r = c.checked_sub(a);
            if let Some(n) = r {
                proof {
                    let (nn, nd, an, ad, cn, cd) = (n.num as int, n.den as int, a.num as int, a.den as int, c.num as int, c.den as int);
                    assert((an * nd + nn * ad) * cd == an * cd * nd + nn * (cd * ad)) by (nonlinear_arith);
                    assert((cn * ad - an * cd) * nd == cn * (ad * nd) - an * cd * nd) by (nonlinear_arith);
                }
            }
            r
        },
        ArithOp::Sub => {
            let r = a.checked_sub(c);
            if let Some(n) = r {
                proof {
                    let (nn, nd, an, ad, cn, cd) = (n.num as int, n.den as int, a.num as int, a.den as int, c.num as int, c.den as int);
                    assert((an * nd - nn * ad) * cd == an * cd * nd - nn * (ad * cd)) by (nonlinear_arith);
                    assert((an * cd - cn * ad) * nd == an * cd * nd - cn * (ad * nd)) by (nonlinear_arith);
                }
            }
            r
        },
        ArithOp::Mul => {
            let r = c.checked_div(a);
            if let Some(n) = r {
                proof {
                    let (nn, nd, an, ad, cn, cd) = (n.num as int, n.den as int, a.num as int, a.den as int, c.num as int, c.den as int);
                    assert(an * nn * cd == cn * (ad * nd)) by (nonlinear_arith)
                        requires nn * (cd * an) == cn * ad * nd;
                }
            }
            r
        },
        ArithOp::Div => {
            if a.num == 0 {
                return None;
            }
            let r = a.checked_div(c);
            if let Some(n) = r {
                proof {
                    let (nn, nd, an, ad, cn, cd) = (n.num as int, n.den as int, a.num as int, a.den as int, c.num as int, c.den as int);
                    assert(nn != 0 && an * nd * cd == cn * (ad * nn)) by (nonlinear_arith)
                        requires nn * (ad * cn) == an * cd * nd, an != 0, cd > 0, nd > 0;
                }
            }
            r
        },
        ArithOp::Mod => None,
    }
}

/// The number `n` with `a op b == n`, where it is computed.
fn solve_third(op: ArithOp, a: Number, b: Number) -> (r: Option<Number>)
    requires
        a.wf(),
        b.wf(),
    ensures
        r matches Some(n) ==> n.wf() && holds(op, a, b, n),
        r == third_of(op, a, b),
{
    let r = match op {
        ArithOp::Add => a.checked_add(b),
        ArithOp::Sub => a.checked_sub(b),
        ArithOp::Mul => a.checked_mul(b),
        ArithOp::Div => a.checked_div(b),
        ArithOp::Mod => a.checked_rem(b),
    };
    r
}

/// The relational arithmetic builtin `op` on the goal `cterm` (see
/// `arith_result`; every binding it makes satisfies the relation, see
/// `arith_answer`).
pub fn relational_arith(op: ArithOp, cterm: &CompoundTerm) -> (r: Option<Unifier>)
    ensures
        opt_view(r) == arith_result(op, views(cterm.args@)),
        arith_answer(op, views(cterm.args@), opt_view(r)),
        r matches Some(u) ==> u.wf(),
{
    if cterm.args.len() != 3 {
        return None;
    }
    proof {
        assert(views(cterm.args@)[0] == cterm.args@[0]@);
        assert(views(cterm.args@)[1] == cterm.args@[1]@);
        assert(views(cterm.args@)[2] == cterm.args@[2]@);
    }
    match (&cterm.args[0], &cterm.args[1], &cterm.args[2]) {
        (Term::Number(a), Term::Number(b), Term::Number(c)) => {
            if a.is_wf() && b.is_wf() && c.is_wf() && check_arith(op, *a, *b, *c) {
                let u = Unifier::new();
                Some(u)
            } else {
                None
            }
        },
        (Term::Unknown(s), Term::Number(b), Term::Number(c)) => {
            if !b.is_wf() || !c.is_wf() {
                return None;
            }
            bind_result(s, solve_first(op, *b, *c))
        },
        (Term::Number(a), Term::Unknown(s), Term::Number(c)) => {
            if !a.is_wf() || !c.is_wf() {
                return None;
            }
            bind_result(s, solve_second(op, *a, *c))
        },
        (Term::Number(a), Term::Number(b), Term::Unknown(s)) => {
            if !a.is_wf() || !b.is_wf() {
                return None;
            }
            bind_result(s, solve_third(op, *a, *b))
        },
        _ => None,
    }
}

/// The comparison builtin `op` on the goal `cterm`: succeeds, binding
/// nothing, exactly when both arguments are well-formed numbers in relation `op`.
pub fn compare_numbers(op: CompareOp, cterm: &CompoundTerm) -> (r: Option<Unifier>)
    ensures
        r matches Some(u) ==> u.wf() && u@ == Seq::<(VarView, TermView)>::empty(),
        r is Some == (views(cterm.args@).len() == 2 && views(cterm.args@)[0] is Num && views(
            cterm.args@,
        )[1] is Num && ({
            let (a, b) = (views(cterm.args@)[0]->Num_0, views(cterm.args@)[1]->Num_0);
            a.wf() && b.wf() && compares(op, a, b)
        })),
{
    if cterm.args.len() != 2 {
        return None;
    }
    proof {
        assert(views(cterm.args@)[0] == cterm.args@[0]@);
        assert(views(cterm.args@)[1] == cterm.args@[1]@);
    }
    match (&cterm.args[0], &cterm.args[1]) {
        (Term::Number(a), Term::Number(b)) => {
            if !a.is_wf() || !b.is_wf() {
                return None;
            }
            let (a, b) = (*a, *b);
            let ok = match op {
                CompareOp::Gt => b.less_than(a),
                CompareOp::Lt => a.less_than(b),
                CompareOp::Leq => !b.less_than(a),
                CompareOp::Geq => !a.less_than(b),
                CompareOp::Neq => !a.same_as(b),
            };
            if ok {
                Some(Unifier::new())
            } else {
                None
            }
        },
        _ => None,
    }
}

/// `equal_as_terms`, computed.
pub fn equal_terms(a: &Term, b: &Term) -> (r: bool)
    ensures
        r == equal_as_terms(a@, b@),
    decreases a,
{
    match (a, b) {
        (Term::Number(x), Term::Number(y)) => *x == *y,
        (Term::Atom(x), Term::Atom(y)) => *x == *y,
        (Term::List(l1), Term::List(l2)) => {
            proof {
                lemma_list_view(*l1);
                lemma_list_view(*l2);
                assert(a@ == l1@);
                assert(b@ == l2@);
            }
            match (&l1.tail, &l2.tail) {
                (ListTail::End, ListTail::End) => {},
                _ => {
                    return false;
                },
            }
            if l1.front.len() != l2.front.len() {
                return false;
            }
            let ghost f1 = views(l1.front@);
            let ghost f2 = views(l2.front@);
            let mut i: usize = 0;
            while i < l1.front.len()
                invariant
                    i <= l1.front.len() == l2.front.len(),
                    *a == Term::List(*l1),
                    a@ == TermView::List(f1, None),
                    b@ == TermView::List(f2, None),
                    f1 == views(l1.front@),
                    f2 == views(l2.front@),
                    forall|j: int| 0 <= j < i ==> #[trigger] equal_each(f1, f2)[j],
                decreases l1.front.len() - i,
            {
                if !equal_terms(&l1.front[i], &l2.front[i]) {
                    proof {
                        assert(!equal_each(f1, f2)[i as int]);
                    }
                    return false;
                }
                proof {
                    assert(equal_each(f1, f2)[i as int]);
                }
                i = i + 1;
            }
            proof {
                assert(all_true(equal_each(f1, f2)));
            }
            true
        },
        _ => false,
    }
}

/// The builtin `==`: structural equality of two numbers, two atoms or two
/// lists that end (see `equal_as_terms`).
pub fn builtin_equ(cterm: &CompoundTerm) -> (r: Option<Unifier>)
    ensures
        r matches Some(u) ==> u.wf() && u@ == Seq::<(VarView, TermView)>::empty(),
        r is Some == (views(cterm.args@).len() == 2 && equal_as_terms(
            views(cterm.args@)[0],
            views(cterm.args@)[1],
        )),
{
    if cterm.args.len() != 2 {
        return None;
    }
    proof {
        assert(views(cterm.args@)[0] == cterm.args@[0]@);
        assert(views(cterm.args@)[1] == cterm.args@[1]@);
    }
    if equal_terms(&cterm.args[0], &cterm.args[1]) {
        Some(Unifier::new())
    } else {
        None
    }
}

/// The builtin `=`: the most general unifier of its two arguments.
pub fn builtin_eq(cterm: &CompoundTerm) -> (r: Option<Unifier>)
    ensures
        views(cterm.args@).len() != 2 ==> r is None,
        views(cterm.args@).len() == 2 ==> opt_view(r) == mgu(
            seq![(views(cterm.args@)[0], views(cterm.args@)[1])],
        ),
        r matches Some(u) ==> u.wf(),
{
    if cterm.args.len() != 2 {
        return None;
    }
    let a = copy_term(&cterm.args[0]);
    let b = copy_term(&cterm.args[1]);
    let ghost e = (a@, b@);
    let goal = vec![(a, b)];
    proof {
        assert(views(cterm.args@)[0] == cterm.args@[0]@);
        assert(views(cterm.args@)[1] == cterm.args@[1]@);
        assert(equation_views(goal@) =~= seq![e]);
    }
    compute_most_gen_unifier(goal)
}

pub fn builtin_add(cterm: &CompoundTerm) -> (r: Option<Unifier>)
    ensures
        opt_view(r) == arith_result(ArithOp::Add, views(cterm.args@)),
        arith_answer(ArithOp::Add, views(cterm.args@), opt_view(r)),
        r matches Some(u) ==> u.wf(),
{
    relational_arith(ArithOp::Add, cterm)
}

pub fn builtin_sub(cterm: &CompoundTerm) -> (r: Option<Unifier>)
    ensures
        opt_view(r) == arith_result(ArithOp::Sub, views(cterm.args@)),
        arith_answer(ArithOp::Sub, views(cterm.args@), opt_view(r)),
        r matches Some(u) ==> u.wf(),
{
    relational_arith(ArithOp::Sub, cterm)
}

pub fn builtin_mul(cterm: &CompoundTerm) -> (r: Option<Unifier>)
    ensures
        opt_view(r) == arith_result(ArithOp::Mul, views(cterm.args@)),
        arith_answer(ArithOp::Mul, views(cterm.args@), opt_view(r)),
        r matches Some(u) ==> u.wf(),
{
    relational_arith(ArithOp::Mul, cterm)
}

pub fn builtin_div(cterm: &CompoundTerm) -> (r: Option<Unifier>)
    ensures
        opt_view(r) == arith_result(ArithOp::Div, views(cterm.args@)),
        arith_answer(ArithOp::Div, views(cterm.args@), opt_view(r)),
        r matches Some(u) ==> u.wf(),
{
    relational_arith(ArithOp::Div, cterm)
}

pub fn builtin_mod(cterm: &CompoundTerm) -> (r: Option<Unifier>)
    ensures
        opt_view(r) == arith_result(ArithOp::Mod, views(cterm.args@)),
        arith_answer(ArithOp::Mod, views(cterm.args@), opt_view(r)),
        r matches Some(u) ==> u.wf(),
{
    relational_arith(ArithOp::Mod, cterm)
}

pub fn builtin_gt(cterm: &CompoundTerm) -> (r: Option<Unifier>)
    ensures
        r matches Some(u) ==> u.wf() && u@ == Seq::<(VarView, TermView)>::empty(),
        r is Some == compare_succeeds(CompareOp::Gt, views(cterm.args@)),
{
    compare_numbers(CompareOp::Gt, cterm)
}

pub fn builtin_lt(cterm: &CompoundTerm) -> (r: Option<Unifier>)
    ensures
        r matches Some(u) ==> u.wf() && u@ == Seq::<(VarView, TermView)>::empty(),
        r is Some == compare_succeeds(CompareOp::Lt, views(cterm.args@)),
{
    compare_numbers(CompareOp::Lt, cterm)
}

pub fn builtin_leq(cterm: &CompoundTerm) -> (r: Option<Unifier>)
    ensures
        r matches Some(u) ==> u.wf() && u@ == Seq::<(VarView, TermView)>::empty(),
        r is Some == compare_succeeds(CompareOp::Leq, views(cterm.args@)),
{
    compare_numbers(CompareOp::Leq, cterm)
}

pub fn builtin_geq(cterm: &CompoundTerm) -> (r: Option<Unifier>)
    ensures
        r matches Some(u) ==> u.wf() && u@ == Seq::<(VarView, TermView)>::empty(),
        r is Some == compare_succeeds(CompareOp::Geq, views(cterm.args@)),
{
    compare_numbers(CompareOp::Geq, cterm)
}

pub fn builtin_neq(cterm: &CompoundTerm) -> (r: Option<Unifier>)
    ensures
        r matches Some(u) ==> u.wf() && u@ == Seq::<(VarView, TermView)>::empty(),
        r is Some == compare_succeeds(CompareOp::Neq, views(cterm.args@)),
{
    compare_numbers(CompareOp::Neq, cterm)
}

/// The builtin `print`: always succeeds, binding nothing; the line it
/// prints, its arguments, is added to `out` for the caller to write.
pub fn builtin_print(cterm: &CompoundTerm, out: &mut Vec<Vec<Term>>) -> (r: Option<Unifier>)
    ensures
        r matches Some(u) ==> u.wf() && u@ == Seq::<(VarView, TermView)>::empty(),
        r is Some,
        final(out)@.len() == old(out)@.len() + 1,
        final(out)@.subrange(0, old(out)@.len() as int) == old(out)@,
        views(final(out)@.last()@) == views(cterm.args@),
{
    let line = copy_terms(&cterm.args);
    out.push(line);
    proof {
        assert(final(out)@.subrange(0, old(out)@.len() as int) =~= old(out)@);
    }
    Some(Unifier::new())
}

/// The builtin relations, by the name a goal calls them with.
#[derive(Clone, Copy, Debug, PartialEq, Eq, Structural)]
pub enum Builtin {
    Unify,
    Arith(ArithOp),
    Compare(CompareOp),
    Equal,
    Print,
}

/// The builtin registered under `name`, if any.
pub open spec fn builtin_of(name: Seq<char>) -> Option<Builtin> {
    if name == seq!['='] {
        Some(Builtin::Unify)
    } else if name == seq!['+'] {
        Some(Builtin::Arith(ArithOp::Add))
    } else if name == seq!['-'] {
        Some(Builtin::Arith(ArithOp::Sub))
    } else if name == seq!['*'] {
        Some(Builtin::Arith(ArithOp::Mul))
    } else if name == seq!['/'] {
        Some(Builtin::Arith(ArithOp::Div))
    } else if name == seq!['%'] {
        Some(Builtin::Arith(ArithOp::Mod))
    } else if name == seq!['>'] {
        Some(Builtin::Compare(CompareOp::Gt))
    } else if name == seq!['<'] {
        Some(Builtin::Compare(CompareOp::Lt))
    } else if name == seq!['<', '='] {
        Some(Builtin::Compare(CompareOp::Leq))
    } else if name == seq!['>', '='] {
        Some(Builtin::Compare(CompareOp::Geq))
    } else if name == seq!['=', '='] {
        Some(Builtin::Equal)
    } else if name == seq!['!', '='] {
        Some(Builtin::Compare(CompareOp::Neq))
    } else if name == seq!['p', 'r', 'i', 'n', 't'] {
        Some(Builtin::Print)
    } else {
        None
    }
}

pub open spec fn compare_succeeds(op: CompareOp, args: Seq<TermView>) -> bool {
    args.len() == 2 && args[0] is Num && args[1] is Num && ({
        let (a, b) = (args[0]->Num_0, args[1]->Num_0);
        a.wf() && b.wf() && compares(op, a, b)
    })
}

/// What builtin `b` may answer on the goal arguments `args`.
pub open spec fn builtin_answer(b: Builtin, args: Seq<TermView>, r: Option<Bindings>) -> bool {
    match b {
        Builtin::Unify => if args.len() == 2 {
            r == mgu(seq![(args[0], args[1])])
        } else {
            r is None
        },
        Builtin::Arith(op) => r == arith_result(op, args),
        Builtin::Compare(op) => r == if compare_succeeds(op, args) {
            Some(Seq::<(VarView, TermView)>::empty())
        } else {
            None
        },
        Builtin::Equal => r == if args.len() == 2 && equal_as_terms(args[0], args[1]) {
            Some(Seq::<(VarView, TermView)>::empty())
        } else {
            None
        },
        Builtin::Print => r == Some(Seq::<(VarView, TermView)>::empty()),
    }
}

/// The names of the builtins, in the order `builtins` lists them.
pub open spec fn builtin_names() -> Seq<Seq<char>> {
    seq![seq!['='], seq!['+'], seq!['-'], seq!['*'], seq!['/'], seq!['%'], seq!['>'], seq!['<'], seq!['<', '='], seq!['>', '='], seq!['=', '='], seq!['!', '='], seq!['p', 'r', 'i', 'n', 't']]
}

pub open spec fn names_of(r: Seq<(String, Builtin)>) -> Seq<Seq<char>> {
    r.map_values(|e: (String, Builtin)| e.0@)
}

/// Adds `name` and the builtin registered under it to `r`.
fn push_entry(r: &mut Vec<(String, Builtin)>, name: &str)
    requires
        builtin_of(name@) is Some,
        forall|i: int| 0 <= i < old(r)@.len() ==> builtin_of((#[trigger] old(r)@[i]).0@) == Some(old(r)@[i].1),
    ensures
        names_of(final(r)@) == names_of(old(r)@).push(name@),
        forall|i: int| 0 <= i < final(r)@.len() ==> builtin_of((#[trigger] final(r)@[i]).0@) == Some(final(r)@[i].1),
{
    let s = String::from_str(name);
    let b = match builtin_named(&s) {
        Some(b) => b,
        None => Builtin::Unify,
    };
    r.push((s, b));
    proof {
        assert(names_of(final(r)@) =~= names_of(old(r)@).push(name@));
    }
}

/// The registered builtins, each under its name: the names are exactly
/// `builtin_names()`, all different.
pub fn builtins() -> (r: Vec<(String, Builtin)>)
    ensures
        names_of(r@) == builtin_names(),
        forall|i: int| 0 <= i < r@.len() ==> builtin_of((#[trigger] r@[i]).0@) == Some(r@[i].1),
{
    let mut r: Vec<(String, Builtin)> = Vec::new();
    proof {
        assert(names_of(r@) =~= Seq::<Seq<char>>::empty());
    }
    proof {
        reveal_strlit("=");
        assert("="@ =~= seq!['=']);
    }
    push_entry(&mut r, "=");
    proof {
        reveal_strlit("+");
        assert("+"@ =~= seq!['+']);
    }
    push_entry(&mut r, "+");
    proof {
        reveal_strlit("-");
        assert("-"@ =~= seq!['-']);
    }
    push_entry(&mut r, "-");
    proof {
        reveal_strlit("*");
        assert("*"@ =~= seq!['*']);
    }
    push_entry(&mut r, "*");
    proof {
        reveal_strlit("/");
        assert("/"@ =~= seq!['/']);
    }
    push_entry(&mut r, "/");
    proof {
        reveal_strlit("%");
        assert("%"@ =~= seq!['%']);
    }
    push_entry(&mut r, "%");
    proof {
        reveal_strlit(">");
        assert(">"@ =~= seq!['>']);
    }
    push_entry(&mut r, ">");
    proof {
        reveal_strlit("<");
        assert("<"@ =~= seq!['<']);
    }
    push_entry(&mut r, "<");
    proof {
        reveal_strlit("<=");
        assert("<="@ =~= seq!['<', '=']);
    }
    push_entry(&mut r, "<=");
    proof {
        reveal_strlit(">=");
        assert(">="@ =~= seq!['>', '=']);
    }
    push_entry(&mut r, ">=");
    proof {
        reveal_strlit("==");
        assert("=="@ =~= seq!['=', '=']);
    }
    push_entry(&mut r, "==");
    proof {
        reveal_strlit("!=");
        assert("!="@ =~= seq!['!', '=']);
    }
    push_entry(&mut r, "!=");
    proof {
        reveal_strlit("print");
        assert("print"@ =~= seq!['p', 'r', 'i', 'n', 't']);
    }
    push_entry(&mut r, "print");
    proof {
        assert(names_of(r@) =~= builtin_names());
    }
    r
}

/// The builtin registered under `name` (see `builtin_of`).
pub fn builtin_named(name: &String) -> (r: Option<Builtin>)
    ensures
        r == builtin_of(name@),
{
    let t = name.as_str();
    let n = t.unicode_len();
    if n == 1 {
        let c = t.get_char(0);
        proof {
            assert(name@ =~= seq![c]);
        }
        if c == '=' {
            Some(Builtin::Unify)
        } else if c == '+' {
            Some(Builtin::Arith(ArithOp::Add))
        } else if c == '-' {
            Some(Builtin::Arith(ArithOp::Sub))
        } else if c == '*' {
            Some(Builtin::Arith(ArithOp::Mul))
        } else if c == '/' {
            Some(Builtin::Arith(ArithOp::Div))
        } else if c == '%' {
            Some(Builtin::Arith(ArithOp::Mod))
        } else if c == '>' {
            Some(Builtin::Compare(CompareOp::Gt))
        } else if c == '<' {
            Some(Builtin::Compare(CompareOp::Lt))
        } else {
            None
        }
    } else if n == 2 {
        let c0 = t.get_char(0);
        let c1 = t.get_char(1);
        proof {
            assert(name@ =~= seq![c0, c1]);
        }
        if c1 != '=' {
            None
        } else if c0 == '<' {
            Some(Builtin::Compare(CompareOp::Leq))
        } else if c0 == '>' {
            Some(Builtin::Compare(CompareOp::Geq))
        } else if c0 == '=' {
            Some(Builtin::Equal)
        } else if c0 == '!' {
            Some(Builtin::Compare(CompareOp::Neq))
        } else {
            None
        }
    } else if n == 5 {
        let (c0, c1, c2, c3, c4) = (
            t.get_char(0),
            t.get_char(1),
            t.get_char(2),
            t.get_char(3),
            t.get_char(4),
        );
        proof {
            assert(name@ =~= seq![c0, c1, c2, c3, c4]);
        }
        if c0 == 'p' && c1 == 'r' && c2 == 'i' && c3 == 'n' && c4 == 't' {
            Some(Builtin::Print)
        } else {
            None
        }
    } else {
        proof {
            assert(name@.len() != 1 && name@.len() != 2 && name@.len() != 5);
        }
        None
    }
}

/// Runs builtin `b` on the goal `cterm`; `print` adds its line to `out`.
pub fn call_builtin(b: Builtin, cterm: &CompoundTerm, out: &mut Vec<Vec<Term>>) -> (r: Option<
    Unifier,
>)
    ensures
        builtin_answer(b, views(cterm.args@), opt_view(r)),
        r matches Some(u) ==> u.wf(),
        b != Builtin::Print ==> final(out)@ == old(out)@,
{
    match b {
        Builtin::Unify => builtin_eq(cterm),
        Builtin::Arith(op) => relational_arith(op, cterm),
        Builtin::Compare(op) => compare_numbers(op, cterm),
        Builtin::Equal => builtin_equ(cterm),
        Builtin::Print => builtin_print(cterm, out),
    }
}

} // verus!
