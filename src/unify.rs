//! Most general unifiers, by Martelli and Montanari's rules (without the
//! occurs check).

use vstd::prelude::*;
use crate::term::{
    copy_term, empty_list, lemma_list_view, lemma_compound_view, subst, subst_ok,
    subst_term, views, ListTail, ListTerm, Term, TermView, UnknownContents, VarView,
};
use crate::unifier::{bind, binding_views, Bindings, Unifier};

verus! {

/// Most rewriting steps that one unification takes; past it, it fails.
pub const MGU_STEP_LIMIT: u64 = 0xffff_ffff_ffff_ffff;

/// An equation between two term values.
pub type EquationView = (TermView, TermView);

pub open spec fn equation_views(es: Seq<(Term, Term)>) -> Seq<EquationView> {
    es.map_values(|e: (Term, Term)| (e.0@, e.1@))
}

/// Every side of every equation of `es` admits replacing `x` by `s`.
pub open spec fn equations_subst_ok(es: Seq<EquationView>, x: VarView, s: TermView) -> bool {
    forall|i: int|
        #![trigger es[i]]
        0 <= i < es.len() ==> subst_ok(es[i].0, x, s) && subst_ok(es[i].1, x, s)
}

/// `x` replaced by `s` on both sides of each equation.
pub open spec fn equations_subst(es: Seq<EquationView>, x: VarView, s: TermView) -> Seq<
    EquationView,
> {
    es.map_values(|e: EquationView| (subst(e.0, x, s), subst(e.1, x, s)))
}

/// The equations between the elements of `a` and `b` at equal positions,
/// over the length of the shorter.
pub open spec fn zip_equations(a: Seq<TermView>, b: Seq<TermView>) -> Seq<EquationView> {
    Seq::new(if a.len() <= b.len() { a.len() } else { b.len() }, |i: int| (a[i], b[i]))
}

/// What remains to be equated once the common prefix of two lists has been
/// paired off, or `None` on a clash (a list that ends where the other goes on).
pub open spec fn list_tail_equations(
    f1: Seq<TermView>,
    t1: Option<VarView>,
    f2: Seq<TermView>,
    t2: Option<VarView>,
) -> Option<Seq<EquationView>> {
    if f1.len() == f2.len() {
        match (t1, t2) {
            (None, None) => Some(Seq::empty()),
            (Some(a), None) => Some(seq![(TermView::Var(a), empty_list())]),
            (None, Some(b)) => Some(seq![(TermView::Var(b), empty_list())]),
            (Some(a), Some(b)) => Some(seq![(TermView::Var(a), TermView::Var(b))]),
        }
    } else if f1.len() < f2.len() {
        match t1 {
            None => None,
            Some(a) => Some(
                seq![(TermView::Var(a), TermView::List(f2.skip(f1.len() as int), t2))],
            ),
        }
    } else {
        match t2 {
            None => None,
            Some(b) => Some(
                seq![(TermView::Var(b), TermView::List(f1.skip(f2.len() as int), t1))],
            ),
        }
    }
}

/// One rewriting step on the equation `(l, r)` taken from the top of the
/// stack, with `rest` below it: the new stack and the new solved equations,
/// or `None` on a clash.
pub open spec fn mgu_step(
    l: TermView,
    r: TermView,
    rest: Seq<EquationView>,
    solved: Bindings,
) -> Option<(Seq<EquationView>, Bindings)> {
    match (l, r) {
        (TermView::Var(x), TermView::Var(y)) => if x == y {
            Some((rest, solved))
        } else {
            Some((equations_subst(rest, x, r), solved.push((x, r))))
        },
        (_, TermView::Var(x)) => Some((rest.push((r, l)), solved)),
        (TermView::Var(x), _) => if equations_subst_ok(rest, x, r) {
            Some((equations_subst(rest, x, r), solved.push((x, r))))
        } else {
            None
        },
        (TermView::Atom(a), TermView::Atom(b)) => if a == b {
            Some((rest, solved))
        } else {
            None
        },
        (TermView::Num(a), TermView::Num(b)) => if a == b {
            Some((rest, solved))
        } else {
            None
        },
        (TermView::List(f1, t1), TermView::List(f2, t2)) => match list_tail_equations(
            f1,
            t1,
            f2,
            t2,
        ) {
            Some(extra) => Some((rest + zip_equations(f1, f2) + extra, solved)),
            None => None,
        },
        (TermView::Compound(n1, a1), TermView::Compound(n2, a2)) => if n1 == n2 && a1.len()
            == a2.len() {
            Some((rest + zip_equations(a1, a2), solved))
        } else {
            None
        },
        _ => None,
    }
}

/// Runs the rewriting on the stack `pending` (its top is the last element)
/// for at most `fuel` steps: the solved equations in the order they were
/// found once the stack is empty, `None` on a clash or when the fuel runs out.
pub open spec fn mgu_run(pending: Seq<EquationView>, solved: Bindings, fuel: nat) -> Option<
    Bindings,
>
    decreases fuel,
{
    if pending.len() == 0 {
        Some(solved)
    } else if fuel == 0 {
        None
    } else {
        match mgu_step(pending.last().0, pending.last().1, pending.drop_last(), solved) {
            Some((p, s)) => mgu_run(p, s, (fuel - 1) as nat),
            None => None,
        }
    }
}

/// The unifier made of solved equations: each bound in turn, a later
/// equation on the same variable replacing an earlier one.
pub open spec fn bindings_of(solved: Bindings) -> Bindings
    decreases solved.len(),
{
    if solved.len() == 0 {
        Seq::empty()
    } else {
        bind(bindings_of(solved.drop_last()), solved.last().0, solved.last().1)
    }
}

/// The most general unifier of the equations `goal`, as computed here (the
/// last equation is taken first).
pub open spec fn mgu(goal: Seq<EquationView>) -> Option<Bindings> {
    match mgu_run(goal, Seq::empty(), MGU_STEP_LIMIT as nat) {
        Some(solved) => Some(bindings_of(solved)),
        None => None,
    }
}

/// Replaces `x` by `s` on both sides of each equation of `eqs`; `false`
/// where that is not defined for one of them.
fn subst_equations(eqs: &Vec<(Term, Term)>, x: &UnknownContents, s: &Term) -> (r: Option<
    Vec<(Term, Term)>,
>)
    ensures
        r is Some == equations_subst_ok(equation_views(eqs@), x@, s@),
        r matches Some(v) ==> equation_views(v@) == equations_subst(
            equation_views(eqs@),
            x@,
            s@,
        ),
{
    let mut out: Vec<(Term, Term)> = Vec::new();
    let mut i: usize = 0;
    while i < eqs.len()
        invariant
            i <= eqs.len(),
            out@.len() == i,
            equation_views(out@) == equations_subst(
                equation_views(eqs@.subrange(0, i as int)),
                x@,
                s@,
            ),
            equations_subst_ok(equation_views(eqs@.subrange(0, i as int)), x@, s@),
        decreases eqs.len() - i,
    {
        let ghost ev_all = equation_views(eqs@);
        proof {
            assert(ev_all[i as int] == (eqs@[i as int].0@, eqs@[i as int].1@));
        }
        let a = match subst_term(&eqs[i].0, x, s) {
            Some(a) => a,
            None => {
                proof {
                    assert(!subst_ok(ev_all[i as int].0, x@, s@));
                }
                return None;
            },
        };
        let b = match subst_term(&eqs[i].1, x, s) {
            Some(b) => b,
            None => {
                proof {
                    assert(!subst_ok(ev_all[i as int].1, x@, s@));
                }
                return None;
            },
        };
        let ghost prev = out@;
        out.push((a, b));
        proof {
            let ev = equation_views(eqs@.subrange(0, i + 1));
            assert(ev =~= equation_views(eqs@.subrange(0, i as int)).push(
                (eqs@[i as int].0@, eqs@[i as int].1@),
            ));
            assert(equation_views(out@) =~= equation_views(prev).push((a@, b@)));
            assert(equation_views(out@) =~= equations_subst(ev, x@, s@));
            assert forall|j: int| #![trigger ev[j]] 0 <= j < ev.len() implies subst_ok(
                ev[j].0,
                x@,
                s@,
            ) && subst_ok(ev[j].1, x@, s@) by {
                if j < i {
                    assert(ev[j] == equation_views(eqs@.subrange(0, i as int))[j]);
                }
            }
        }
        i = i + 1;
    }
    proof {
        assert(eqs@.subrange(0, i as int) =~= eqs@);
    }
    Some(out)
}

/// Pushes the equations between `a[i]` and `b[i]`, for each position of the
/// shorter of the two, onto `stack`.
fn push_zipped(stack: &mut Vec<(Term, Term)>, a: &Vec<Term>, b: &Vec<Term>)
    ensures
        equation_views(final(stack)@) == equation_views(old(stack)@) + zip_equations(
            views(a@),
            views(b@),
        ),
{
    let n = if a.len() <= b.len() {
        a.len()
    } else {
        b.len()
    };
    let ghost start = equation_views(stack@);
    let mut i: usize = 0;
    while i < n
        invariant
            n <= a.len(),
            n <= b.len(),
            n == (if a.len() <= b.len() {
                a.len()
            } else {
                b.len()
            }),
            i <= n,
            equation_views(stack@) == start + zip_equations(views(a@), views(b@)).subrange(
                0,
                i as int,
            ),
        decreases n - i,
    {
        let ghost prev = stack@;
        let e = (copy_term(&a[i]), copy_term(&b[i]));
        stack.push(e);
        proof {
            assert(equation_views(stack@) =~= equation_views(prev).push((e.0@, e.1@)));
            assert(equation_views(stack@) =~= start + zip_equations(views(a@), views(b@)).subrange(
                0,
                i + 1,
            ));
        }
        i = i + 1;
    }
    proof {
        assert(zip_equations(views(a@), views(b@)).subrange(0, n as int) =~= zip_equations(
            views(a@),
            views(b@),
        ));
    }
}

/// The elements of `ts` from position `from` on.
fn terms_from(ts: &Vec<Term>, from: usize) -> (r: Vec<Term>)
    requires
        from <= ts.len(),
    ensures
        views(r@) == views(ts@).skip(from as int),
{
    let mut r: Vec<Term> = Vec::new();
    let mut i: usize = from;
    while i < ts.len()
        invariant
            from <= i <= ts.len(),
            views(r@) == views(ts@).subrange(from as int, i as int),
        decreases ts.len() - i,
    {
        let ghost prev = r@;
        let t = copy_term(&ts[i]);
        r.push(t);
        proof {
            assert(views(r@) =~= views(prev).push(t@));
            assert(views(r@) =~= views(ts@).subrange(from as int, i + 1));
        }
        i = i + 1;
    }
    proof {
        assert(views(ts@).subrange(from as int, ts.len() as int) =~= views(ts@).skip(from as int));
    }
    r
}

fn var_term(v: &UnknownContents) -> (r: Term)
    ensures
        r@ == TermView::Var(v@),
{
    Term::Unknown(v.copy())
}

fn empty_list_term() -> (r: Term)
    ensures
        r@ == empty_list(),
{
    let l = ListTerm { front: Vec::new(), tail: ListTail::End };
    proof {
        lemma_list_view(l);
        assert(views(l.front@) =~= Seq::<TermView>::empty());
    }
    Term::List(l)
}

/// Pushes what remains of the equation between two lists once their common
/// prefix is paired off; `false` on a clash.
fn push_list_tails(stack: &mut Vec<(Term, Term)>, l1: &ListTerm, l2: &ListTerm) -> (ok: bool)
    ensures
        ok == (list_tail_equations(views(l1.front@), tail_of(l1), views(l2.front@), tail_of(l2)) is Some),
        ok ==> equation_views(final(stack)@) == equation_views(old(stack)@) + list_tail_equations(
            views(l1.front@),
            tail_of(l1),
            views(l2.front@),
            tail_of(l2),
        )->Some_0,
{
    let ghost start = equation_views(stack@);
    let n1 = l1.front.len();
    let n2 = l2.front.len();
    let e: (Term, Term);
    if n1 == n2 {
        match (&l1.tail, &l2.tail) {
            (ListTail::End, ListTail::End) => {
                proof {
                    assert(equation_views(stack@) =~= start + Seq::<EquationView>::empty());
                }
                return true;
            },
            (ListTail::Unknown(a), ListTail::End) => {
                e = (var_term(a), empty_list_term());
            },
            (ListTail::End, ListTail::Unknown(b)) => {
                e = (var_term(b), empty_list_term());
            },
            (ListTail::Unknown(a), ListTail::Unknown(b)) => {
                e = (var_term(a), var_term(b));
            },
        }
    } else if n1 < n2 {
        match &l1.tail {
            ListTail::End => {
                return false;
            },
            ListTail::Unknown(a) => {
                let rest = ListTerm { front: terms_from(&l2.front, n1), tail: copy_tail_of(l2) };
                proof {
                    lemma_list_view(rest);
                }
                e = (var_term(a), Term::List(rest));
            },
        }
    } else {
        match &l2.tail {
            ListTail::End => {
                return false;
            },
            ListTail::Unknown(b) => {
                let rest = ListTerm { front: terms_from(&l1.front, n2), tail: copy_tail_of(l1) };
                proof {
                    lemma_list_view(rest);
                }
                e = (var_term(b), Term::List(rest));
            },
        }
    }
    let ghost prev = stack@;
    stack.push(e);
    proof {
        assert(equation_views(stack@) =~= equation_views(prev).push((e.0@, e.1@)));
    }
    true
}

pub open spec fn tail_of(l: &ListTerm) -> Option<VarView> {
    crate::term::tail_view(l.tail)
}

fn copy_tail_of(l: &ListTerm) -> (r: ListTail)
    ensures
        crate::term::tail_view(r) == tail_of(l),
{
    crate::term::copy_tail(&l.tail)
}

/// One rewriting step (see `mgu_step`) on the top equation of `stack`; the
/// equations it solves are added to `solved`. `None` on a clash.
fn mgu_step_exec(stack: Vec<(Term, Term)>, solved: &mut Vec<(UnknownContents, Term)>) -> (r:
    Option<Vec<(Term, Term)>>)
    requires
        stack.len() > 0,
    ensures
        ({
            let ev = equation_views(stack@);
            let sp = mgu_step(ev.last().0, ev.last().1, ev.drop_last(), binding_views(old(solved)@));
            &&& r is Some == sp is Some
            &&& r matches Some(st) ==> sp == Some(
                (equation_views(st@), binding_views(final(solved)@)),
            )
        }),
{
    let ghost ev = equation_views(stack@);
    let ghost sv = binding_views(solved@);
    let mut stack = stack;
    let top = stack.pop();
    let (l, r) = match top {
        Some(e) => e,
        None => {
            return None;
        },
    };
    proof {
        assert(ev.drop_last() =~= equation_views(stack@));
        assert(ev.last() == (l@, r@));
    }
    match (l, r) {
        (Term::Unknown(x), Term::Unknown(y)) => {
            if x.same(&y) {
                Some(stack)
            } else {
                let rv = Term::Unknown(y);
                match subst_equations(&stack, &x, &rv) {
                    Some(st) => {
                        let ghost prev = solved@;
                        solved.push((x, rv));
                        proof {
                            assert(binding_views(solved@) =~= binding_views(prev).push(
                                (x@, rv@),
                            ));
                        }
                        Some(st)
                    },
                    None => None,
                }
            }
        },
        (l, Term::Unknown(x)) => {
            let ghost prev = stack@;
            let rv = Term::Unknown(x);
            let ghost lv = l@;
            let ghost rvv = rv@;
            stack.push((rv, l));
            proof {
                assert(equation_views(stack@) =~= equation_views(prev).push((rvv, lv)));
            }
            Some(stack)
        },
        (Term::Unknown(x), r) => {
            match subst_equations(&stack, &x, &r) {
                Some(st) => {
                    let ghost prev = solved@;
                    let ghost xv = x@;
                    let ghost rv = r@;
                    solved.push((x, r));
                    proof {
                        assert(binding_views(solved@) =~= binding_views(prev).push((xv, rv)));
                    }
                    Some(st)
                },
                None => None,
            }
        },
        (Term::Atom(a), Term::Atom(b)) => {
            if a == b {
                Some(stack)
            } else {
                None
            }
        },
        (Term::Number(a), Term::Number(b)) => {
            if a == b {
                Some(stack)
            } else {
                None
            }
        },
        (Term::List(l1), Term::List(l2)) => {
            proof {
                lemma_list_view(l1);
                lemma_list_view(l2);
            }
            push_zipped(&mut stack, &l1.front, &l2.front);
            if push_list_tails(&mut stack, &l1, &l2) {
                proof {
                    assert(l1@ == TermView::List(views(l1.front@), tail_of(&l1)));
                }
                Some(stack)
            } else {
                None
            }
        },
        (Term::Compound(c1), Term::Compound(c2)) => {
            proof {
                lemma_compound_view(c1);
                lemma_compound_view(c2);
            }
            if c1.name == c2.name && c1.args.len() == c2.args.len() {
                push_zipped(&mut stack, &c1.args, &c2.args);
                Some(stack)
            } else {
                None
            }
        },
        _ => None,
    }
}

/// The most general unifier of the equations of `goal` (see `mgu`), or
/// `None` where there is none.
pub fn compute_most_gen_unifier(goal: Vec<(Term, Term)>) -> (r: Option<Unifier>)
    ensures
        r is Some == mgu(equation_views(goal@)) is Some,
        r matches Some(u) ==> u.wf() && mgu(equation_views(goal@)) == Some(u@),
{
    let ghost g = equation_views(goal@);
    let mut stack = goal;
    let mut solved: Vec<(UnknownContents, Term)> = Vec::new();
    let mut steps: u64 = 0;
    proof {
        assert(binding_views(solved@) =~= Seq::<(VarView, TermView)>::empty());
    }
    while stack.len() > 0 && steps < MGU_STEP_LIMIT
        invariant
            g == equation_views(goal@),
            steps <= MGU_STEP_LIMIT,
            mgu_run(g, Seq::empty(), MGU_STEP_LIMIT as nat) == mgu_run(
                equation_views(stack@),
                binding_views(solved@),
                (MGU_STEP_LIMIT - steps) as nat,
            ),
        decreases MGU_STEP_LIMIT - steps,
    {
        let ghost ev = equation_views(stack@);
        let ghost sv0 = binding_views(solved@);
        match mgu_step_exec(stack, &mut solved) {
            Some(st) => {
                stack = st;
            },
            None => {
                proof {
                    assert(mgu_run(ev, sv0, (MGU_STEP_LIMIT - steps) as nat) is None);
                }
                return None;
            },
        }
        steps = steps + 1;
    }
    if stack.len() > 0 {
        return None;
    }
    let ghost sv = binding_views(solved@);
    let mut u = Unifier::new();
    let mut i: usize = 0;
    while i < solved.len()
        invariant
            i <= solved.len(),
            sv == binding_views(solved@),
            u.wf(),
            u@ == bindings_of(sv.subrange(0, i as int)),
        decreases solved.len() - i,
    {
        proof {
            assert(sv.subrange(0, i + 1).drop_last() =~= sv.subrange(0, i as int));
        }
        u.insert(solved[i].0.copy(), copy_term(&solved[i].1));
        i = i + 1;
    }
    proof {
        assert(sv.subrange(0, i as int) =~= sv);
    }
    Some(u)
}

} // verus!
