//! A clause-local pass that removes goals `=(a, b)` between two variables,
//! one of them introduced by lowering, by renaming that one into the other
//! throughout the clause.

use vstd::prelude::*;
use crate::builtins::{builtin_named, Builtin};
use crate::program::{substitute_goals, subst_all_each, Rule, Rules};
use crate::term::{copy_term, copy_terms, lemma_compound_view, lemma_views_push, views, Term, TermView, VarView};
use crate::unifier::{
    bind, has_key, key_index, lookup, resolve, resolved, solve_unifier, subst_all, Bindings, Unifier,
};
use crate::term::{fits_tail, subst_ok};

verus! {

/// The two variables of a goal `=(a, b)` between variables.
pub open spec fn alias_of(g: TermView) -> Option<(VarView, VarView)> {
    match g {
        TermView::Compound(name, args) => if name == seq!['='] && args.len() == 2 && args[0] is Var
            && args[1] is Var {
            Some((args[0]->Var_0, args[1]->Var_0))
        } else {
            None
        },
        _ => None,
    }
}

/// A variable that lowering introduced (its name starts with `<`).
pub open spec fn introduced(v: VarView) -> bool {
    v.name.len() > 0 && v.name[0] == '<'
}

/// The goal `=(a, b)` between two variables at least one of which lowering
/// introduced: the pair, else `None`.
pub open spec fn removable_alias(g: TermView) -> Option<(VarView, VarView)> {
    match alias_of(g) {
        Some((a, b)) => if introduced(a) || introduced(b) {
            Some((a, b))
        } else {
            None
        },
        None => None,
    }
}

/// The renaming that the removable alias goals of `goals` ask for: the
/// introduced side of each into the other (the left one where both are).
pub open spec fn aliases(goals: Seq<TermView>) -> Bindings
    decreases goals.len(),
{
    if goals.len() == 0 {
        Seq::empty()
    } else {
        let acc = aliases(goals.drop_last());
        match removable_alias(goals.last()) {
            None => acc,
            Some((a, b)) => if introduced(a) {
                bind(acc, a, TermView::Var(b))
            } else {
                bind(acc, b, TermView::Var(a))
            },
        }
    }
}

pub open spec fn has_alias(goals: Seq<TermView>) -> bool {
    exists|i: int| 0 <= i < goals.len() && (#[trigger] removable_alias(goals[i])) is Some
}

/// A goal `=(x, x)`.
pub open spec fn trivial(g: TermView) -> bool {
    alias_of(g) matches Some((a, b)) && a == b
}

/// `goals` without the trivial ones.
pub open spec fn drop_trivial(goals: Seq<TermView>) -> Seq<TermView>
    decreases goals.len(),
{
    if goals.len() == 0 {
        goals
    } else if trivial(goals.last()) {
        drop_trivial(goals.drop_last())
    } else {
        drop_trivial(goals.drop_last()).push(goals.last())
    }
}

/// One pass on a clause with head arguments `head` and body `body`: the
/// renaming applied to both, and trivial goals dropped; `None` where the
/// renaming cannot be applied.
pub open spec fn optimize_once(head: Seq<TermView>, body: Seq<TermView>) -> Option<
    (Seq<TermView>, Seq<TermView>),
> {
    let u = resolved(aliases(body));
    match (subst_all_each(head, u), subst_all_each(body, u)) {
        (Some(h), Some(b)) => Some((h, drop_trivial(b))),
        _ => None,
    }
}

/// Passes repeated while the body holds a removable alias goal, at most
/// `fuel` times.
pub open spec fn optimize_rule(head: Seq<TermView>, body: Seq<TermView>, fuel: nat) -> (
    Seq<TermView>,
    Seq<TermView>,
)
    decreases fuel,
{
    if fuel == 0 {
        (head, body)
    } else {
        match optimize_once(head, body) {
            None => (head, body),
            Some((h, b)) => if has_alias(body) {
                optimize_rule(h, b, (fuel - 1) as nat)
            } else {
                (h, b)
            },
        }
    }
}

/// No goal of `goals` is trivial.
pub open spec fn no_trivial(goals: Seq<TermView>) -> bool {
    forall|j: int| 0 <= j < goals.len() ==> !trivial(#[trigger] goals[j])
}

/// Every term that `u` binds is a variable.
pub open spec fn renaming(u: Bindings) -> bool {
    forall|i: int| 0 <= i < u.len() ==> (#[trigger] u[i]).1 is Var
}

proof fn lemma_drop_trivial_clean(goals: Seq<TermView>)
    ensures
        no_trivial(drop_trivial(goals)),
    decreases goals.len(),
{
    if goals.len() > 0 {
        lemma_drop_trivial_clean(goals.drop_last());
    }
}

proof fn lemma_aliases_rename(goals: Seq<TermView>)
    ensures
        renaming(aliases(goals)),
    decreases goals.len(),
{
    if goals.len() > 0 {
        lemma_aliases_rename(goals.drop_last());
        let acc = aliases(goals.drop_last());
        if let Some((a, b)) = removable_alias(goals.last()) {
            let (k, v) = if introduced(a) {
                (a, TermView::Var(b))
            } else {
                (b, TermView::Var(a))
            };
            let r = bind(acc, k, v);
            assert forall|i: int| 0 <= i < r.len() implies (#[trigger] r[i]).1 is Var by {
                if has_key(acc, k) && i != key_index(acc, k) {
                    assert(r[i] == acc[i]);
                } else if !has_key(acc, k) && i < acc.len() {
                    assert(r[i] == acc[i]);
                }
            }
        }
    }
}

proof fn lemma_resolve_renaming(u: Bindings, y: VarView, fuel: nat)
    requires
        renaming(u),
    ensures
        resolve(TermView::Var(y), u, fuel) is Var,
    decreases fuel,
{
    if fuel > 0 && lookup(u, y) is Some {
        let j = key_index(u, y);
        assert(u[j].1 is Var);
        lemma_resolve_renaming(u, u[j].1->Var_0, (fuel - 1) as nat);
    }
}

proof fn lemma_subst_all_renaming(t: TermView, u: Bindings)
    requires
        renaming(u),
    ensures
        subst_all(t, u) is Some,
    decreases u.len(),
{
    if u.len() > 0 {
        assert(u[0].1 is Var);
        assert(fits_tail(u[0].1));
        assert(subst_ok(t, u[0].0, u[0].1));
        let rest = u.drop_first();
        assert forall|i: int| 0 <= i < rest.len() implies (#[trigger] rest[i]).1 is Var by {
            assert(rest[i] == u[i + 1]);
        }
        lemma_subst_all_renaming(crate::term::subst(t, u[0].0, u[0].1), rest);
    }
}

proof fn lemma_subst_all_each_renaming(ts: Seq<TermView>, u: Bindings)
    requires
        renaming(u),
    ensures
        subst_all_each(ts, u) is Some,
    decreases ts.len(),
{
    if ts.len() > 0 {
        lemma_subst_all_each_renaming(ts.drop_last(), u);
        lemma_subst_all_renaming(ts.last(), u);
    }
}

/// A pass always applies, since it only renames variables into variables.
proof fn lemma_optimize_once_applies(head: Seq<TermView>, body: Seq<TermView>)
    ensures
        optimize_once(head, body) is Some,
        optimize_once(head, body) matches Some((h, b)) ==> no_trivial(b),
{
    let a = aliases(body);
    lemma_aliases_rename(body);
    let u = resolved(a);
    assert forall|i: int| 0 <= i < u.len() implies (#[trigger] u[i]).1 is Var by {
        lemma_resolve_renaming(a, a[i].0, a.len());
    }
    lemma_subst_all_each_renaming(head, u);
    lemma_subst_all_each_renaming(body, u);
    lemma_drop_trivial_clean(subst_all_each(body, u)->Some_0);
}

/// After passes with some fuel (or on a body already free of them), no
/// goal `=(x, x)` is left.
proof fn lemma_optimize_rule_clean(head: Seq<TermView>, body: Seq<TermView>, fuel: nat)
    requires
        fuel >= 1 || no_trivial(body),
    ensures
        no_trivial(optimize_rule(head, body, fuel).1),
    decreases fuel,
{
    if fuel > 0 {
        lemma_optimize_once_applies(head, body);
        let (h, b) = optimize_once(head, body)->Some_0;
        if has_alias(body) {
            lemma_optimize_rule_clean(h, b, (fuel - 1) as nat);
        }
    }
}

/// The alias goal `t` stands for, computed.
fn alias_in(t: &Term) -> (r: Option<(&crate::term::UnknownContents, &crate::term::UnknownContents)>)
    ensures
        alias_of(t@) is Some == r is Some,
        r matches Some((a, b)) ==> alias_of(t@) == Some((a@, b@)),
{
    if let Term::Compound(c) = t {
        proof {
            lemma_compound_view(*c);
            assert(views(c.args@).len() == c.args.len());
        }
        if c.args.len() == 2 && builtin_named(&c.name) == Some(Builtin::Unify) {
            proof {
                assert(views(c.args@)[0] == c.args@[0]@);
                assert(views(c.args@)[1] == c.args@[1]@);
            }
            if let (Term::Unknown(a), Term::Unknown(b)) = (&c.args[0], &c.args[1]) {
                return Some((a, b));
            }
        }
    }
    None
}

fn is_introduced(v: &crate::term::UnknownContents) -> (r: bool)
    ensures
        r == introduced(v@),
{
    let s = v.name.as_str();
    s.unicode_len() > 0 && s.get_char(0) == '<'
}

/// The renaming asked for by the alias goals of `goals` (see `aliases`).
fn collect_aliases(goals: &Vec<Term>) -> (r: (Unifier, bool))
    ensures
        r.0.wf(),
        r.0@ == aliases(views(goals@)),
        r.1 == has_alias(views(goals@)),
{
    let ghost g = views(goals@);
    let mut u = Unifier::new();
    let mut found = false;
    let mut i: usize = 0;
    while i < goals.len()
        invariant
            g == views(goals@),
            i <= goals.len(),
            u.wf(),
            u@ == aliases(g.subrange(0, i as int)),
            found == has_alias(g.subrange(0, i as int)),
        decreases goals.len() - i,
    {
        proof {
            let p = g.subrange(0, i + 1);
            assert(p.drop_last() =~= g.subrange(0, i as int));
            assert(p.last() == goals@[i as int]@);
        }
        let ghost was = found;
        let pair = match alias_in(&goals[i]) {
            Some((a, b)) => if is_introduced(a) || is_introduced(b) {
                Some((a, b))
            } else {
                None
            },
            None => None,
        };
        match pair {
            Some((a, b)) => {
                if is_introduced(a) {
                    u.insert(a.copy(), Term::Unknown(b.copy()));
                } else {
                    u.insert(b.copy(), Term::Unknown(a.copy()));
                }
                found = true;
                proof {
                    let p = g.subrange(0, i + 1);
                    assert(removable_alias(p[i as int]) is Some);
                }
            },
            None => {
                proof {
                    let p = g.subrange(0, i + 1);
                    assert(removable_alias(p[i as int]) is None);
                    if has_alias(p) {
                        let k = choose|k: int| 0 <= k < p.len() && (#[trigger] removable_alias(p[k])) is Some;
                        assert(k < i);
                        assert(g.subrange(0, i as int)[k] == p[k]);
                    }
                }
            },
        }
        proof {
            let p = g.subrange(0, i + 1);
            if was {
                let k = choose|k: int| 0 <= k < i && (#[trigger] removable_alias(g.subrange(0, i as int)[k])) is Some;
                assert(p[k] == g.subrange(0, i as int)[k]);
            }
        }
        i = i + 1;
    }
    proof {
        assert(g.subrange(0, i as int) =~= g);
    }
    (u, found)
}

/// `goals` without its trivial goals (see `drop_trivial`).
fn without_trivial(goals: Vec<Term>) -> (r: Vec<Term>)
    ensures
        views(r@) == drop_trivial(views(goals@)),
{
    let ghost g = views(goals@);
    let mut out: Vec<Term> = Vec::new();
    let mut i: usize = 0;
    while i < goals.len()
        invariant
            g == views(goals@),
            i <= goals.len(),
            views(out@) == drop_trivial(g.subrange(0, i as int)),
        decreases goals.len() - i,
    {
        proof {
            let p = g.subrange(0, i + 1);
            assert(p.drop_last() =~= g.subrange(0, i as int));
            assert(p.last() == goals@[i as int]@);
        }
        let keep = match alias_in(&goals[i]) {
            Some((a, b)) => !a.same(b),
            None => true,
        };
        if keep {
            let t = copy_term(&goals[i]);
            let ghost prev = out@;
            out.push(t);
            proof {
                lemma_views_push(prev, t);
            }
        }
        i = i + 1;
    }
    proof {
        assert(g.subrange(0, i as int) =~= g);
    }
    out
}

/// One pass of the optimization on `rule` (see `optimize_once`). Returns
/// whether the body held a removable alias goal; where the renaming cannot be
/// applied, the rule is left as it was and the result is `false`.
pub fn apply_unneccessary_variable_opt(rule: &mut Rule) -> (changed: bool)
    ensures
        final(rule).gives.name == old(rule).gives.name,
        match optimize_once(views(old(rule).gives.args@), views(old(rule).requires.goals@)) {
            Some((h, b)) => views(final(rule).gives.args@) == h && views(final(rule).requires.goals@)
                == b && changed == has_alias(views(old(rule).requires.goals@)),
            None => final(rule).gives.args@ == old(rule).gives.args@
                && final(rule).requires.goals@ == old(rule).requires.goals@ && !changed,
        },
{
    let (unif, changed) = collect_aliases(&rule.requires.goals);
    let unif = solve_unifier(&unif);
    let mut head = copy_terms(&rule.gives.args);
    let mut body = copy_terms(&rule.requires.goals);
    if !substitute_goals(&mut head, &unif) {
        return false;
    }
    if !substitute_goals(&mut body, &unif) {
        return false;
    }
    rule.gives.args = head;
    rule.requires.goals = without_trivial(body);
    changed
}

/// Applies the pass to each clause until its body holds no removable alias goal, at
/// most as many times as the body has goals.
pub fn apply_optimizations(rules: &mut Rules)
    ensures
        final(rules).contents.len() == old(rules).contents.len(),
        forall|i: int|
            0 <= i < final(rules).contents.len() ==> {
                let o = #[trigger] old(rules).contents@[i];
                let n = final(rules).contents@[i];
                let (h, b) = optimize_rule(
                    views(o.gives.args@),
                    views(o.requires.goals@),
                    o.requires.goals.len() as nat,
                );
                &&& n.gives.name == o.gives.name
                &&& views(n.gives.args@) == h
                &&& views(n.requires.goals@) == b
            },
        forall|i: int|
            0 <= i < final(rules).contents.len() ==> no_trivial(
                views(#[trigger] final(rules).contents@[i].requires.goals@),
            ),
{
    let n = rules.contents.len();
    let mut i: usize = 0;
    while i < n
        invariant
            n == rules.contents.len() == old(rules).contents.len(),
            i <= n,
            forall|j: int| i <= j < n ==> rules.contents@[j] == old(rules).contents@[j],
            forall|j: int|
                0 <= j < i ==> {
                    let o = #[trigger] old(rules).contents@[j];
                    let m = rules.contents@[j];
                    let (h, b) = optimize_rule(
                        views(o.gives.args@),
                        views(o.requires.goals@),
                        o.requires.goals.len() as nat,
                    );
                    &&& m.gives.name == o.gives.name
                    &&& views(m.gives.args@) == h
                    &&& views(m.requires.goals@) == b
                },
            forall|j: int|
                0 <= j < i ==> no_trivial(views(#[trigger] rules.contents@[j].requires.goals@)),
        decreases n - i,
    {
        let ghost full = rules.contents@;
        let mut rule = rules.contents.remove(i);
        let ghost o = rule;
        let limit = rule.requires.goals.len();
        let mut fuel: usize = limit;
        let ghost removed = rules.contents@;
        proof {
            assert(o == old(rules).contents@[i as int]);
            assert(removed =~= full.remove(i as int));
        }
        while fuel > 0
            invariant
                rules.contents@ == removed,
                fuel <= limit,
                limit == o.requires.goals.len(),
                rule.gives.name == o.gives.name,
                optimize_rule(views(o.gives.args@), views(o.requires.goals@), limit as nat)
                    == optimize_rule(views(rule.gives.args@), views(rule.requires.goals@), fuel as nat),
            decreases fuel,
        {
            let ghost before = (views(rule.gives.args@), views(rule.requires.goals@));
            if apply_unneccessary_variable_opt(&mut rule) {
                fuel = fuel - 1;
            } else {
                proof {
                    assert(optimize_rule(before.0, before.1, fuel as nat) == (
                        views(rule.gives.args@),
                        views(rule.requires.goals@),
                    ));
                }
                fuel = 0;
            }
        }
        proof {
            lemma_optimize_rule_clean(views(o.gives.args@), views(o.requires.goals@), limit as nat);
        }
        rules.contents.insert(i, rule);
        proof {
            assert(rules.contents@ =~= full.update(i as int, rule));
        }
        i = i + 1;
    }
}

} // verus!
