//! The clause database: rules, queries and their values.

use vstd::prelude::*;
use crate::term::{
    lemma_compound_view, names, names_each, var_views, views, CompoundTerm, Term, TermView,
    UnknownContents, VarView,
};
use crate::unifier::{subst_all, Unifier};

verus! {

/// A sequence of goals, solved left to right.
#[derive(Debug)]
pub struct Query {
    pub goals: Vec<Term>,
}

/// A clause: `gives` holds where every goal of `requires` does. A fact has
/// no goals.
#[derive(Debug)]
pub struct Rule {
    pub gives: CompoundTerm,
    pub requires: Query,
}

/// The clauses of a program, in the order in which they are tried.
#[derive(Debug)]
pub struct Rules {
    pub contents: Vec<Rule>,
}

/// A clause as a value: its head and its body.
pub type RuleView = (TermView, Seq<TermView>);

impl View for Query {
    type V = Seq<TermView>;

    open spec fn view(&self) -> Seq<TermView> {
        views(self.goals@)
    }
}

impl View for Rule {
    type V = RuleView;

    open spec fn view(&self) -> RuleView {
        (self.gives@, self.requires@)
    }
}

impl View for Rules {
    type V = Seq<RuleView>;

    open spec fn view(&self) -> Seq<RuleView> {
        self.contents@.map_values(|r: Rule| r@)
    }
}

/// Applies `subst_all` to each term of `ts`; `None` where it fails on one.
pub open spec fn subst_all_each(ts: Seq<TermView>, u: Seq<(VarView, TermView)>) -> Option<
    Seq<TermView>,
>
    decreases ts.len(),
{
    if ts.len() == 0 {
        Some(Seq::empty())
    } else {
        match (subst_all_each(ts.drop_last(), u), subst_all(ts.last(), u)) {
            (Some(f), Some(t)) => Some(f.push(t)),
            _ => None,
        }
    }
}

proof fn lemma_subst_all_each_prefix(ts: Seq<TermView>, u: Seq<(VarView, TermView)>, k: int)
    requires
        0 <= k <= ts.len(),
        subst_all_each(ts, u) is Some,
    ensures
        subst_all_each(ts.subrange(0, k), u) is Some,
    decreases ts.len(),
{
    if k < ts.len() {
        lemma_subst_all_each_prefix(ts.drop_last(), u, k);
        assert(ts.drop_last().subrange(0, k) =~= ts.subrange(0, k));
    } else {
        assert(ts.subrange(0, k) =~= ts);
    }
}

/// Applies `un` to each goal of `goals` (see `Term::substitute_all`).
pub fn substitute_goals(goals: &mut Vec<Term>, un: &Unifier) -> (r: bool)
    ensures
        r == (subst_all_each(views(old(goals)@), un@) is Some),
        r ==> subst_all_each(views(old(goals)@), un@) == Some(views(final(goals)@)),
{
    let ghost orig = views(goals@);
    let mut out: Vec<Term> = Vec::new();
    let n = goals.len();
    let mut i: usize = 0;
    proof {
        assert(orig.subrange(0, 0) =~= Seq::<TermView>::empty());
        assert(views(out@) =~= Seq::<TermView>::empty());
    }
    while i < n
        invariant
            n == goals.len(),
            i <= n,
            orig == views(goals@),
            goals@ == old(goals)@,
            subst_all_each(orig.subrange(0, i as int), un@) == Some(views(out@)),
        decreases n - i,
    {
        let mut t = crate::term::copy_term(&goals[i]);
        let ghost before = t@;
        proof {
            assert(orig.subrange(0, i + 1).drop_last() =~= orig.subrange(0, i as int));
            assert(orig.subrange(0, i + 1).last() == before);
        }
        match t.substitute_all(un) {
            Some(()) => {},
            None => {
                proof {
                    if subst_all_each(orig, un@) is Some {
                        lemma_subst_all_each_prefix(orig, un@, i + 1);
                    }
                }
                return false;
            },
        }
        let ghost prev = out@;
        out.push(t);
        proof {
            crate::term::lemma_views_push(prev, t);
        }
        i = i + 1;
    }
    proof {
        assert(orig.subrange(0, n as int) =~= orig);
    }
    *goals = out;
    true
}

impl Rule {
    /// The variables of the head, then of each goal, in order.
    pub fn collect_names(&self) -> (r: Vec<UnknownContents>)
        ensures
            var_views(r@) == names(self.gives@) + names_each(self.requires@).flatten(),
    {
        proof {
            lemma_compound_view(self.gives);
        }
        let mut res = crate::term::names_of_terms(&self.gives.args);
        let mut more = crate::term::names_of_terms(&self.requires.goals);
        let ghost a = res@;
        let ghost b = more@;
        res.append(&mut more);
        proof {
            assert(var_views(a + b) =~= var_views(a) + var_views(b));
        }
        res
    }

    /// Applies `un` to every goal of the body and every argument of the
    /// head; `None`, with no promise on the rule, where one fails.
    pub fn substitute_all(&mut self, un: &Unifier) -> (r: Option<()>)
        ensures
            r is Some == (subst_all_each(views(old(self).requires.goals@), un@) is Some
                && subst_all_each(views(old(self).gives.args@), un@) is Some),
            r is Some ==> subst_all_each(views(old(self).requires.goals@), un@) == Some(
                views(final(self).requires.goals@),
            ) && subst_all_each(views(old(self).gives.args@), un@) == Some(
                views(final(self).gives.args@),
            ) && final(self).gives.name == old(self).gives.name,
    {
        if !substitute_goals(&mut self.requires.goals, un) {
            return None;
        }
        if !substitute_goals(&mut self.gives.args, un) {
            return None;
        }
        Some(())
    }
}

} // verus!
