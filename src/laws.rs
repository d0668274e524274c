//! Properties of unification, substitution and the builtins, proved over
//! the specifications that the executable functions meet.

use vstd::prelude::*;
use crate::builtins::{all_true, arith_answer, builtin_answer, equal_as_terms, equal_each, holds, ArithOp, Builtin};
use crate::number::Number;
use crate::term::{
    any, occurs, occurs_each, subst, subst_ok, subst_seq, tail_occurs, tail_occurs_each,
    TermView, VarView,
};
use crate::unifier::{
    has_key, key_index, keys_unique, lookup, resolve, resolve_each, resolved, subst_all, Bindings,
};
use crate::unify::{bindings_of, equations_subst, equations_subst_ok, list_tail_equations, mgu, mgu_run, mgu_step, zip_equations, MGU_STEP_LIMIT};
use crate::term::{empty_list, reframe, reframe_seq};
use crate::unifier::bind;
use crate::program::{subst_all_each, RuleView};
use crate::frames::max2;
use crate::solve::{fresh_frame, lemma_fresh_frame_unused, next_frame, state_max_frame, answer_of, repl_only, backtrack, first_match, goal_builtin, refuted_goal, step_spec, StateView, StepView};

verus! {

/// Every bound variable that occurs in the term bound to `k` ranks below
/// `k`: the bindings of `u` have no cycle.
pub open spec fn ranked(u: Bindings, rank: spec_fn(VarView) -> nat) -> bool {
    forall|i: int, z: VarView|
        0 <= i < u.len() && has_key(u, z) && #[trigger] occurs(u[i].1, z) ==> rank(z) < rank(u[i].0)
}

/// Every bound variable that stands as a list tail inside a bound term is
/// itself bound to a list.
pub open spec fn tails_bound_to_lists(u: Bindings) -> bool {
    forall|i: int, y: VarView|
        0 <= i < u.len() && has_key(u, y) && #[trigger] tail_occurs(u[i].1, y) ==> (lookup(u, y)
            matches Some(t) && t is List)
}

proof fn lemma_lookup_in(u: Bindings, y: VarView) -> (j: int)
    requires
        keys_unique(u),
        has_key(u, y),
    ensures
        0 <= j < u.len(),
        u[j].0 == y,
        lookup(u, y) == Some(u[j].1),
{
    let j = key_index(u, y);
    j
}

/// Resolving a term whose bound variables all rank below `fuel` leaves no
/// bound variable in it.
proof fn lemma_resolve_clears(u: Bindings, rank: spec_fn(VarView) -> nat, t: TermView, fuel: nat)
    requires
        keys_unique(u),
        ranked(u, rank),
        tails_bound_to_lists(u),
        forall|z: VarView| has_key(u, z) && #[trigger] occurs(t, z) ==> rank(z) < fuel,
        forall|z: VarView| has_key(u, z) && #[trigger] tail_occurs(t, z) ==> (lookup(u, z)
            matches Some(v) && v is List),
    ensures
        forall|z: VarView| has_key(u, z) ==> !#[trigger] occurs(resolve(t, u, fuel), z),
    decreases fuel, t,
{
    match t {
        TermView::Var(y) => {
            assert(occurs(t, y));
            if has_key(u, y) {
                let j = lemma_lookup_in(u, y);
                let v = u[j].1;
                assert forall|z: VarView| has_key(u, z) && #[trigger] occurs(v, z) implies rank(z) < (
                fuel - 1) as nat by {
                    assert(occurs(u[j].1, z));
                }
                assert forall|z: VarView| has_key(u, z) && #[trigger] tail_occurs(v, z) implies (lookup(
                    u,
                    z,
                ) matches Some(w) && w is List) by {
                    assert(tail_occurs(u[j].1, z));
                }
                lemma_resolve_clears(u, rank, v, (fuel - 1) as nat);
            }
        },
        TermView::List(front, tail) => {
            let f = resolve_each(front, u, fuel);
            assert forall|k: int, zz: VarView| 0 <= k < front.len() && has_key(u, zz) implies !#[trigger] occurs(
                f[k],
                zz,
            ) by {
                assert forall|z: VarView| has_key(u, z) && #[trigger] occurs(front[k], z) implies rank(z)
                    < fuel by {
                    assert(occurs_each(front, z)[k]);
                    assert(any(occurs_each(front, z)));
                    assert(occurs(t, z));
                }
                assert forall|z: VarView| has_key(u, z) && #[trigger] tail_occurs(front[k], z) implies (
                lookup(u, z) matches Some(w) && w is List) by {
                    assert(tail_occurs_each(front, z)[k]);
                    assert(any(tail_occurs_each(front, z)));
                    assert(tail_occurs(t, z));
                }
                lemma_resolve_clears(u, rank, front[k], fuel);
            }
            let r = resolve(t, u, fuel);
            if let Some(y) = tail {
                if has_key(u, y) {
                    assert(tail_occurs(t, y));
                    assert(occurs(t, y));
                    let j = lemma_lookup_in(u, y);
                    let v = u[j].1;
                    assert forall|z: VarView| has_key(u, z) && #[trigger] occurs(v, z) implies rank(z) < (
                    fuel - 1) as nat by {
                        assert(occurs(u[j].1, z));
                    }
                    assert forall|z: VarView| has_key(u, z) && #[trigger] tail_occurs(v, z) implies (
                    lookup(u, z) matches Some(w) && w is List) by {
                        assert(tail_occurs(u[j].1, z));
                    }
                    lemma_resolve_clears(u, rank, v, (fuel - 1) as nat);
                    let rv = resolve(v, u, (fuel - 1) as nat);
                    assert(rv is List);
                    let f2 = rv->List_0;
                    assert(lookup(u, y)->Some_0 == v);
                    assert(r == TermView::List(f + f2, rv->List_1));
                    assert forall|z: VarView| has_key(u, z) implies !#[trigger] occurs(r, z) by {
                        if occurs(r, z) {
                            assert(!occurs(rv, z));
                            if r->List_1 == Some(z) {
                                assert(occurs(rv, z));
                            } else {
                                let k = choose|k: int| 0 <= k < r->List_0.len() && occurs_each(r->List_0, z)[k];
                                assert(occurs(r->List_0[k], z));
                                if k < f.len() {
                                    assert(r->List_0[k] == f[k]);
                                } else {
                                    assert(r->List_0[k] == f2[k - f.len()]);
                                    assert(occurs_each(f2, z)[k - f.len()]);
                                    assert(any(occurs_each(f2, z)));
                                    assert(occurs(rv, z));
                                }
                            }
                        }
                    }
                } else {
                    assert(r == TermView::List(f, tail));
                    assert forall|z: VarView| has_key(u, z) implies !#[trigger] occurs(r, z) by {
                        if occurs(r, z) && r->List_1 != Some(z) {
                            let k = choose|k: int| 0 <= k < r->List_0.len() && occurs_each(r->List_0, z)[k];
                            assert(occurs(f[k], z));
                        }
                    }
                }
            } else {
                assert(r == TermView::List(f, None));
                assert forall|z: VarView| has_key(u, z) implies !#[trigger] occurs(r, z) by {
                    if occurs(r, z) {
                        let k = choose|k: int| 0 <= k < r->List_0.len() && occurs_each(r->List_0, z)[k];
                        assert(occurs(f[k], z));
                    }
                }
            }
        },
        TermView::Compound(name, args) => {
            let f = resolve_each(args, u, fuel);
            assert forall|k: int, zz: VarView| 0 <= k < args.len() && has_key(u, zz) implies !#[trigger] occurs(
                f[k],
                zz,
            ) by {
                assert forall|z: VarView| has_key(u, z) && #[trigger] occurs(args[k], z) implies rank(z)
                    < fuel by {
                    assert(occurs_each(args, z)[k]);
                    assert(any(occurs_each(args, z)));
                    assert(occurs(t, z));
                }
                assert forall|z: VarView| has_key(u, z) && #[trigger] tail_occurs(args[k], z) implies (
                lookup(u, z) matches Some(w) && w is List) by {
                    assert(tail_occurs_each(args, z)[k]);
                    assert(any(tail_occurs_each(args, z)));
                    assert(tail_occurs(t, z));
                }
                lemma_resolve_clears(u, rank, args[k], fuel);
            }
            let r = resolve(t, u, fuel);
            assert(r == TermView::Compound(name, f));
            assert forall|z: VarView| has_key(u, z) implies !#[trigger] occurs(r, z) by {
                if occurs(r, z) {
                    let k = choose|k: int| 0 <= k < r->Compound_1.len() && occurs_each(r->Compound_1, z)[k];
                    assert(occurs(f[k], z));
                }
            }
        },
        _ => {},
    }
}

/// Idempotence of `solve_unifier`: where the bindings of `u` have no cycle
/// (and a variable standing as a list tail is bound to a list), no bound
/// variable is left anywhere in the terms of the resolved unifier, whose
/// keys are those of `u`.
pub proof fn lemma_resolved_idempotent(u: Bindings, rank: spec_fn(VarView) -> nat)
    requires
        keys_unique(u),
        forall|i: int| 0 <= i < u.len() ==> rank((#[trigger] u[i]).0) < u.len(),
        ranked(u, rank),
        tails_bound_to_lists(u),
    ensures
        resolved(u).len() == u.len(),
        forall|i: int| 0 <= i < u.len() ==> (#[trigger] resolved(u)[i]).0 == u[i].0,
        forall|i: int, z: VarView|
            0 <= i < u.len() && has_key(u, z) ==> !#[trigger] occurs(resolved(u)[i].1, z),
{
    assert forall|i: int, z: VarView| 0 <= i < u.len() && has_key(u, z) implies !#[trigger] occurs(
        resolved(u)[i].1,
        z,
    ) by {
        let t = TermView::Var(u[i].0);
        assert forall|w: VarView| has_key(u, w) && #[trigger] occurs(t, w) implies rank(w) < u.len() by {
            assert(w == u[i].0);
        }
        lemma_resolve_clears(u, rank, t, u.len());
    }
}

/// The builtin `=` and the most general unifier coincide on two arguments.
pub proof fn lemma_unify_builtin_is_mgu(a: TermView, b: TermView, r: Option<Bindings>)
    ensures
        builtin_answer(Builtin::Unify, seq![a, b], r) == (r == mgu(seq![(a, b)])),
{
}

/// Two compounds with the same name and different arities do not unify.
pub proof fn lemma_arity_mismatch_fails(name: Seq<char>, a1: Seq<TermView>, a2: Seq<TermView>)
    requires
        a1.len() != a2.len(),
    ensures
        mgu(seq![(TermView::Compound(name, a1), TermView::Compound(name, a2))]) is None,
{
    let g = seq![(TermView::Compound(name, a1), TermView::Compound(name, a2))];
    assert(mgu_step(g.last().0, g.last().1, g.drop_last(), Seq::empty()) is None);
    assert(mgu_run(g, Seq::empty(), MGU_STEP_LIMIT as nat) is None);
}

/// Division by zero fails, whatever the other two arguments are.
pub proof fn lemma_division_by_zero_fails(a: TermView, b: Number, c: TermView, r: Option<Bindings>)
    requires
        b.num == 0,
        arith_answer(ArithOp::Div, seq![a, TermView::Num(b), c], r),
    ensures
        r is None,
{
    let args = seq![a, TermView::Num(b), c];
    assert(args[1] == TermView::Num(b));
    match (a, c) {
        (TermView::Var(s), TermView::Num(cn)) => {
            if let Some(u) = r {
                assert(holds(ArithOp::Div, u[0].1->Num_0, b, cn));
            }
        },
        (TermView::Num(an), TermView::Var(s)) => {
            if let Some(u) = r {
                assert(holds(ArithOp::Div, an, b, u[0].1->Num_0));
            }
        },
        _ => {},
    }
}

/// `==` on two lists of numbers that end holds exactly when the lists are
/// the same: it succeeds on equal lists and fails where they differ at one
/// position.
pub proof fn lemma_equal_number_lists(f1: Seq<TermView>, f2: Seq<TermView>)
    requires
        forall|i: int| 0 <= i < f1.len() ==> (#[trigger] f1[i]) is Num,
        forall|i: int| 0 <= i < f2.len() ==> (#[trigger] f2[i]) is Num,
    ensures
        equal_as_terms(TermView::List(f1, None), TermView::List(f2, None)) == (f1 == f2),
{
    if f1 == f2 {
        assert(all_true(equal_each(f1, f2)));
    } else if f1.len() == f2.len() {
        if all_true(equal_each(f1, f2)) {
            assert forall|i: int| 0 <= i < f1.len() implies f1[i] == f2[i] by {
                assert(equal_each(f1, f2)[i]);
            }
            assert(f1 =~= f2);
        }
    }
}

/// A variable that is a list tail inside `t` occurs in it.
proof fn lemma_tail_occurs_occurs(t: TermView, x: VarView)
    requires
        tail_occurs(t, x),
    ensures
        occurs(t, x),
    decreases t,
{
    match t {
        TermView::List(front, tail) => {
            if tail != Some(x) {
                let i = choose|i: int| 0 <= i < front.len() && tail_occurs_each(front, x)[i];
                lemma_tail_occurs_occurs(front[i], x);
                assert(occurs_each(front, x)[i]);
            }
        },
        TermView::Compound(_, args) => {
            let i = choose|i: int| 0 <= i < args.len() && tail_occurs_each(args, x)[i];
            lemma_tail_occurs_occurs(args[i], x);
            assert(occurs_each(args, x)[i]);
        },
        _ => {},
    }
}

/// Replacing a variable that does not occur changes nothing.
proof fn lemma_subst_absent(t: TermView, x: VarView, s: TermView)
    requires
        !occurs(t, x),
    ensures
        subst(t, x, s) == t,
        subst_ok(t, x, s),
    decreases t,
{
    if tail_occurs(t, x) {
        lemma_tail_occurs_occurs(t, x);
    }
    match t {
        TermView::List(front, tail) => {
            assert forall|i: int| 0 <= i < front.len() implies subst(front[i], x, s) == front[i] by {
                assert(!occurs_each(front, x)[i]);
                lemma_subst_absent(front[i], x, s);
            }
            assert(subst_seq(front, x, s) =~= front);
        },
        TermView::Compound(_, args) => {
            assert forall|i: int| 0 <= i < args.len() implies subst(args[i], x, s) == args[i] by {
                assert(!occurs_each(args, x)[i]);
                lemma_subst_absent(args[i], x, s);
            }
            assert(subst_seq(args, x, s) =~= args);
        },
        _ => {},
    }
}

/// A variable in `t` with `x` replaced by `s` was in `t` (and is not `x`),
/// or is in `s`.
proof fn lemma_subst_occurs(t: TermView, x: VarView, s: TermView, y: VarView)
    requires
        subst_ok(t, x, s),
        occurs(subst(t, x, s), y),
    ensures
        (occurs(t, y) && y != x) || occurs(s, y),
    decreases t,
{
    match t {
        TermView::List(front, tail) => {
            let f = subst_seq(front, x, s);
            let r = subst(t, x, s);
            let rf = r->List_0;
            if r->List_1 == Some(y) {
                if tail == Some(x) {
                } else {
                }
            } else {
                let k = choose|k: int| 0 <= k < rf.len() && occurs_each(rf, y)[k];
                assert(occurs(rf[k], y));
                if k < f.len() {
                    assert(rf[k] == subst(front[k], x, s));
                    if tail_occurs(front[k], x) {
                        assert(tail_occurs_each(front, x)[k]);
                    }
                    lemma_subst_occurs(front[k], x, s, y);
                    if occurs(front[k], y) {
                        assert(occurs_each(front, y)[k]);
                    }
                } else {
                    let f2 = s->List_0;
                    assert(rf[k] == f2[k - f.len()]);
                    assert(occurs_each(f2, y)[k - f.len()]);
                }
            }
        },
        TermView::Compound(name, args) => {
            let r = subst(t, x, s);
            let ra = r->Compound_1;
            let k = choose|k: int| 0 <= k < ra.len() && occurs_each(ra, y)[k];
            assert(occurs(ra[k], y));
            assert(ra[k] == subst(args[k], x, s));
            if tail_occurs(args[k], x) {
                assert(tail_occurs_each(args, x)[k]);
            }
            lemma_subst_occurs(args[k], x, s, y);
            if occurs(args[k], y) {
                assert(occurs_each(args, y)[k]);
            }
        },
        _ => {},
    }
}

/// No key of `u` occurs in a term that `u` binds, and no key is bound twice.
pub open spec fn idempotent(u: Bindings) -> bool {
    &&& keys_unique(u)
    &&& forall|i: int, j: int| 0 <= i < u.len() && 0 <= j < u.len() ==> !occurs(#[trigger] u[j].1, #[trigger] u[i].0)
}

/// Applying `u` never brings in `y` where no term of `u` holds it, and
/// removes it where `u` binds it.
proof fn lemma_subst_all_avoids(t: TermView, u: Bindings, y: VarView)
    requires
        forall|j: int| 0 <= j < u.len() ==> !occurs(#[trigger] u[j].1, y),
        !occurs(t, y) || exists|j: int| 0 <= j < u.len() && u[j].0 == y,
        subst_all(t, u) is Some,
    ensures
        !occurs(subst_all(t, u)->Some_0, y),
    decreases u.len(),
{
    if u.len() > 0 {
        let (x, v) = u[0];
        let t1 = subst(t, x, v);
        let rest = u.drop_first();
        if occurs(t1, y) {
            lemma_subst_occurs(t, x, v, y);
        }
        if occurs(t1, y) {
            let j = choose|j: int| 0 <= j < u.len() && u[j].0 == y;
            assert(j != 0);
            assert(rest[j - 1].0 == y);
        }
        assert forall|j: int| 0 <= j < rest.len() implies !occurs(#[trigger] rest[j].1, y) by {
            assert(rest[j] == u[j + 1]);
        }
        lemma_subst_all_avoids(t1, rest, y);
    }
}

/// Applying `u` to a term that holds none of its keys changes nothing.
proof fn lemma_subst_all_identity(r: TermView, u: Bindings)
    requires
        forall|j: int| 0 <= j < u.len() ==> !occurs(r, #[trigger] u[j].0),
    ensures
        subst_all(r, u) == Some(r),
    decreases u.len(),
{
    if u.len() > 0 {
        lemma_subst_absent(r, u[0].0, u[0].1);
        let rest = u.drop_first();
        assert forall|j: int| 0 <= j < rest.len() implies !occurs(r, #[trigger] rest[j].0) by {
            assert(rest[j] == u[j + 1]);
        }
        lemma_subst_all_identity(r, rest);
    }
}

/// Substituting twice with an idempotent unifier is substituting once:
/// `substitute_all(substitute_all(t, u), u) = substitute_all(t, u)`.
pub proof fn lemma_substitute_all_twice(t: TermView, u: Bindings)
    requires
        idempotent(u),
        subst_all(t, u) is Some,
    ensures
        subst_all(subst_all(t, u)->Some_0, u) == subst_all(t, u),
{
    let r = subst_all(t, u)->Some_0;
    assert forall|i: int| 0 <= i < u.len() implies !occurs(r, #[trigger] u[i].0) by {
        assert forall|j: int| 0 <= j < u.len() implies !occurs(#[trigger] u[j].1, u[i].0) by {
            assert(!occurs(u[j].1, u[i].0));
        }
        lemma_subst_all_avoids(t, u, u[i].0);
    }
    lemma_subst_all_identity(r, u);
}

/// Choice points restore: where a step from `s0` activates clause `j` for
/// the first goal (it goes on with that clause's body, from clause index 0),
/// any later state whose choice points are those the step left backtracks
/// to `s0` itself, with the search for a clause resumed after `j`: as if
/// that clause had never matched.
pub proof fn lemma_choice_point_restores(
    facts: Seq<RuleView>,
    s0: StateView,
    fresh: u32,
    bres: Option<Bindings>,
    inner: bool,
    later: StateView,
)
    requires
        s0.query.len() > 0,
        goal_builtin(s0.query[0]) is None,
        refuted_goal(s0.query[0]) is None,
        first_match(facts, s0.query[0], s0.fact_indx) is Some,
        step_spec(facts, s0, fresh, bres, inner) is Next,
        step_spec(facts, s0, fresh, bres, inner)->Next_0.fact_indx == 0,
        later.choices == step_spec(facts, s0, fresh, bres, inner)->Next_0.choices,
    ensures
        ({
            let j = first_match(facts, s0.query[0], s0.fact_indx)->Some_0.0;
            backtrack(later) == StepView::Next(
                StateView {
                    master: s0.master,
                    query: s0.query,
                    fact_indx: j + 1,
                    choices: s0.choices,
                },
            )
        }),
{
    let (j, u) = first_match(facts, s0.query[0], s0.fact_indx)->Some_0;
    let cps = s0.choices.push((s0.master, s0.query, j + 1));
    assert(later.choices == cps);
    assert(cps.drop_last() =~= s0.choices);
}

/// The empty list unifies with `[|X]` by binding `X` to the empty list, and
/// in no other way.
pub proof fn lemma_empty_list_open_tail(x: VarView)
    ensures
        mgu(seq![(empty_list(), TermView::List(Seq::empty(), Some(x)))]) == Some(
            seq![(x, empty_list())],
        ),
{
    let e0 = (empty_list(), TermView::List(Seq::<TermView>::empty(), Some(x)));
    let g = seq![e0];
    let none: Seq<(VarView, TermView)> = Seq::empty();
    let extra = seq![(TermView::Var(x), empty_list())];
    assert(list_tail_equations(Seq::empty(), None, Seq::empty(), Some(x)) == Some(extra));
    assert(zip_equations(Seq::<TermView>::empty(), Seq::<TermView>::empty()) =~= Seq::empty());
    let stack1 = g.drop_last() + zip_equations(Seq::<TermView>::empty(), Seq::<TermView>::empty()) + extra;
    assert(stack1 =~= extra);
    assert(mgu_step(g.last().0, g.last().1, g.drop_last(), none) == Some((stack1, none)));
    let rest: Seq<(TermView, TermView)> = Seq::empty();
    assert(equations_subst_ok(rest, x, empty_list()));
    assert(equations_subst(rest, x, empty_list()) =~= rest);
    assert(stack1.drop_last() =~= rest);
    let s2 = none.push((x, empty_list()));
    assert(mgu_step(stack1.last().0, stack1.last().1, stack1.drop_last(), none) == Some((rest, s2)));
    let f = MGU_STEP_LIMIT as nat;
    assert(mgu_run(rest, s2, (f - 2) as nat) == Some(s2));
    assert(mgu_run(stack1, none, (f - 1) as nat) == Some(s2));
    assert(mgu_run(g, none, f) == Some(s2));
    assert(s2.drop_last() =~= none);
    assert(bindings_of(none) == none);
    assert(bind(none, x, empty_list()) =~= seq![(x, empty_list())]);
}

/// `[a, b | T]` unifies with `[a, b, c, d]` (atoms) by binding `T` to `[c, d]`.
pub proof fn lemma_open_list_takes_rest(
    a: Seq<char>,
    b: Seq<char>,
    c: Seq<char>,
    d: Seq<char>,
    t: VarView,
)
    ensures
        ({
            let (ta, tb, tc, td) = (TermView::Atom(a), TermView::Atom(b), TermView::Atom(c), TermView::Atom(d));
            mgu(seq![(TermView::List(seq![ta, tb], Some(t)), TermView::List(seq![ta, tb, tc, td], None))])
                == Some(seq![(t, TermView::List(seq![tc, td], None))])
        }),
{
    let (ta, tb, tc, td) = (TermView::Atom(a), TermView::Atom(b), TermView::Atom(c), TermView::Atom(d));
    let f1 = seq![ta, tb];
    let f2 = seq![ta, tb, tc, td];
    let g = seq![(TermView::List(f1, Some(t)), TermView::List(f2, None))];
    let none: Seq<(VarView, TermView)> = Seq::empty();
    let rest_list = TermView::List(seq![tc, td], None);
    assert(f2.skip(2) =~= seq![tc, td]);
    let extra = seq![(TermView::Var(t), rest_list)];
    assert(list_tail_equations(f1, Some(t), f2, None) == Some(extra));
    let zs = seq![(ta, ta), (tb, tb)];
    assert(zip_equations(f1, f2) =~= zs);
    let stack1 = g.drop_last() + zip_equations(f1, f2) + extra;
    assert(stack1 =~= seq![(ta, ta), (tb, tb), (TermView::Var(t), rest_list)]);
    assert(mgu_step(g.last().0, g.last().1, g.drop_last(), none) == Some((stack1, none)));
    assert(stack1.drop_last() =~= zs);
    assert(equations_subst_ok(zs, t, rest_list));
    assert(equations_subst(zs, t, rest_list) =~= zs);
    let s2 = none.push((t, rest_list));
    assert(mgu_step(stack1.last().0, stack1.last().1, stack1.drop_last(), none) == Some((zs, s2)));
    let z1 = seq![(ta, ta)];
    assert(zs.drop_last() =~= z1);
    assert(mgu_step(zs.last().0, zs.last().1, zs.drop_last(), s2) == Some((z1, s2)));
    let z0: Seq<(TermView, TermView)> = Seq::empty();
    assert(z1.drop_last() =~= z0);
    assert(mgu_step(z1.last().0, z1.last().1, z1.drop_last(), s2) == Some((z0, s2)));
    let f = MGU_STEP_LIMIT as nat;
    assert(mgu_run(z0, s2, (f - 4) as nat) == Some(s2));
    assert(mgu_run(z1, s2, (f - 3) as nat) == Some(s2));
    assert(mgu_run(zs, s2, (f - 2) as nat) == Some(s2));
    assert(mgu_run(stack1, none, (f - 1) as nat) == Some(s2));
    assert(mgu_run(g, none, f) == Some(s2));
    assert(s2.drop_last() =~= none);
    assert(bindings_of(none) == none);
    assert(bind(none, t, rest_list) =~= seq![(t, rest_list)]);
    assert(bindings_of(s2) == seq![(t, rest_list)]);
}

/// Moving a term into frame `f` leaves no variable of another frame in it:
/// the goals of a clause activation all belong to the activation's frame.
pub proof fn lemma_reframe_in_frame(t: TermView, f: u32, v: VarView)
    requires
        occurs(reframe(t, f), v),
    ensures
        v.frame_id == f,
    decreases t,
{
    match t {
        TermView::List(front, tail) => {
            let r = reframe(t, f);
            if r->List_1 != Some(v) {
                let k = choose|k: int| 0 <= k < front.len() && occurs_each(reframe_seq(front, f), v)[k];
                lemma_reframe_in_frame(front[k], f, v);
            }
        },
        TermView::Compound(_, args) => {
            let k = choose|k: int| 0 <= k < args.len() && occurs_each(reframe_seq(args, f), v)[k];
            lemma_reframe_in_frame(args[k], f, v);
        },
        _ => {},
    }
}

proof fn lemma_repl_only_from(u: Bindings, i: int)
    requires
        0 <= i < repl_only(u).len(),
    ensures
        exists|j: int| 0 <= j < u.len() && #[trigger] u[j] == repl_only(u)[i],
    decreases u.len(),
{
    let r = repl_only(u.drop_last());
    if u.last().0.frame_id == crate::REPL_FRAME_ID && i == r.len() {
        assert(u[u.len() - 1] == repl_only(u)[i]);
    } else {
        assert(repl_only(u)[i] == r[i]);
        lemma_repl_only_from(u.drop_last(), i);
        let j = choose|j: int| 0 <= j < u.drop_last().len() && #[trigger] u.drop_last()[j] == r[i];
        assert(u[j] == u.drop_last()[j]);
    }
}

/// Answers are resolved: where the bindings made by a search have no cycle
/// (and a variable standing as a list tail is bound to a list), no variable
/// of an answer occurs in any term of it.
pub proof fn lemma_answer_resolved(master: Bindings, rank: spec_fn(VarView) -> nat)
    requires
        keys_unique(master),
        forall|i: int| 0 <= i < master.len() ==> rank((#[trigger] master[i]).0) < master.len(),
        ranked(master, rank),
        tails_bound_to_lists(master),
    ensures
        forall|i: int, j: int|
            0 <= i < answer_of(master).len() && 0 <= j < answer_of(master).len() ==> !occurs(
                #[trigger] answer_of(master)[i].1,
                #[trigger] answer_of(master)[j].0,
            ),
{
    lemma_resolved_idempotent(master, rank);
    let r = resolved(master);
    assert forall|i: int, j: int|
        0 <= i < answer_of(master).len() && 0 <= j < answer_of(master).len() implies !occurs(
            #[trigger] answer_of(master)[i].1,
            #[trigger] answer_of(master)[j].0,
        ) by {
        lemma_repl_only_from(r, i);
        lemma_repl_only_from(r, j);
        let a = choose|a: int| 0 <= a < r.len() && #[trigger] r[a] == repl_only(r)[i];
        let b = choose|b: int| 0 <= b < r.len() && #[trigger] r[b] == repl_only(r)[j];
        assert(r[b].0 == master[b].0);
        assert(has_key(master, master[b].0));
        assert(!occurs(r[a].1, master[b].0));
    }
}

proof fn lemma_subst_all_each_len(ts: Seq<TermView>, u: Bindings)
    requires
        subst_all_each(ts, u) is Some,
    ensures
        subst_all_each(ts, u)->Some_0.len() == ts.len(),
    decreases ts.len(),
{
    if ts.len() > 0 {
        lemma_subst_all_each_len(ts.drop_last(), u);
    }
}

/// Frame disjointness: a clause activation takes the frame `f` of
/// `fresh_frame`; the goals its body brings in have all their variables in
/// `f`, and no variable of the state before it (bindings, goals, choice
/// points) is in `f`.
pub proof fn lemma_activation_frame_disjoint(
    facts: Seq<RuleView>,
    s: StateView,
    f: u32,
    bres: Option<Bindings>,
    inner: bool,
    i: int,
    v: VarView,
)
    requires
        fresh_frame(s, f),
        s.query.len() > 0,
        goal_builtin(s.query[0]) is None,
        refuted_goal(s.query[0]) is None,
        first_match(facts, s.query[0], s.fact_indx) is Some,
        step_spec(facts, s, f, bres, inner) is Next,
        step_spec(facts, s, f, bres, inner)->Next_0.fact_indx == 0,
        0 <= i < facts[first_match(facts, s.query[0], s.fact_indx)->Some_0.0 as int].1.len(),
        occurs(step_spec(facts, s, f, bres, inner)->Next_0.query[i], v),
    ensures
        v.frame_id == f,
        f > state_max_frame(s),
        f != crate::REPL_FRAME_ID,
{
    let (j, u) = first_match(facts, s.query[0], s.fact_indx)->Some_0;
    let u1 = crate::solve::reframe_values(resolved(u), f);
    let r = step_spec(facts, s, f, bres, inner);
    let rest = s.query.drop_first();
    if subst_all_each(facts[j as int].1, u1) is None || subst_all_each(rest, u1) is None {
        assert(r->Next_0.fact_indx == j + 1);
    }
    let b = subst_all_each(facts[j as int].1, u1)->Some_0;
    let q = subst_all_each(rest, u1)->Some_0;
    lemma_subst_all_each_len(facts[j as int].1, u1);
    let q2 = r->Next_0.query;
    assert(q2 == reframe_seq(b, f) + q);
    assert(q2[i] == reframe_seq(b, f)[i]);
    lemma_reframe_in_frame(b[i], f, v);
}

} // verus!
