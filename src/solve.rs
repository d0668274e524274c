//! The resolution engine: SLD resolution with a stack of choice points,
//! run one step at a time.

use vstd::prelude::*;
use rand::RngCore;
use crate::REPL_FRAME_ID;
use crate::frames::{
    bindings_max_frame, lemma_bindings_frame, lemma_max_of, lemma_terms_frame, max2, max_of,
    terms_max, terms_max_frame, unifier_max_frame,
};
use crate::term::occurs;
use crate::builtins::{builtin_answer, builtin_named, builtin_of, call_builtin, Builtin};
use crate::program::{substitute_goals, subst_all_each, Query, RuleView, Rules};
use crate::term::{
    copy_term, copy_terms, lemma_compound_view, lemma_views_append, reframe, reframe_seq, reframe_term, reframe_terms,
    views, CompoundTerm, Term, TermView, VarView,
};
use crate::unifier::{bind, has_key, resolved, solve_unifier, Bindings, Unifier};
use crate::unify::{compute_most_gen_unifier, equation_views, mgu};

verus! {

/// Where a search stands: the bindings made so far, the goals left, the
/// clause to try next on the first goal, and the choice points to return to.
#[derive(Debug)]
pub struct SolverStateOwner {
    pub master: Unifier,
    pub curr_query: Query,
    pub fact_indx: usize,
    pub choice_points: Vec<(Unifier, Query, usize)>,
}

/// A choice point as a value: bindings, goals, next clause.
pub type ChoiceView = (Bindings, Seq<TermView>, nat);

pub struct StateView {
    pub master: Bindings,
    pub query: Seq<TermView>,
    pub fact_indx: nat,
    pub choices: Seq<ChoiceView>,
}

pub open spec fn choice_views(cs: Seq<(Unifier, Query, usize)>) -> Seq<ChoiceView> {
    cs.map_values(|c: (Unifier, Query, usize)| (c.0@, c.1@, c.2 as nat))
}

impl View for SolverStateOwner {
    type V = StateView;

    open spec fn view(&self) -> StateView {
        StateView {
            master: self.master@,
            query: self.curr_query@,
            fact_indx: self.fact_indx as nat,
            choices: choice_views(self.choice_points@),
        }
    }
}

impl SolverStateOwner {
    pub open spec fn wf(&self) -> bool {
        &&& self.master.wf()
        &&& forall|i: int|
            0 <= i < self.choice_points@.len() ==> (#[trigger] self.choice_points@[i]).0.wf()
    }
}

/// A fresh search for the goals of `query`.
pub fn new_solver_state(query: Query) -> (r: SolverStateOwner)
    ensures
        r.wf(),
        r@.master == Seq::<(VarView, TermView)>::empty(),
        r@.query == query@,
        r@.fact_indx == 0,
        r@.choices == Seq::<ChoiceView>::empty(),
{
    let r = SolverStateOwner {
        master: Unifier::new(),
        curr_query: query,
        fact_indx: 0,
        choice_points: Vec::new(),
    };
    proof {
        assert(r@.choices =~= Seq::<ChoiceView>::empty());
    }
    r
}

/// `m` with each binding of `u` added in turn.
pub open spec fn merge(m: Bindings, u: Bindings) -> Bindings
    decreases u.len(),
{
    if u.len() == 0 {
        m
    } else {
        bind(merge(m, u.drop_last()), u.last().0, u.last().1)
    }
}

/// The bindings of `u` with their terms moved into frame `f`.
pub open spec fn reframe_values(u: Bindings, f: u32) -> Bindings {
    u.map_values(|b: (VarView, TermView)| (b.0, reframe(b.1, f)))
}

/// The bindings of `u` whose variables belong to the top-level query.
pub open spec fn repl_only(u: Bindings) -> Bindings
    decreases u.len(),
{
    if u.len() == 0 {
        u
    } else if u.last().0.frame_id == REPL_FRAME_ID {
        repl_only(u.drop_last()).push(u.last())
    } else {
        repl_only(u.drop_last())
    }
}

/// The answer that a search reports when no goal is left.
pub open spec fn answer_of(master: Bindings) -> Bindings {
    repl_only(resolved(master))
}

/// The first clause, from position `from` on, whose head unifies with
/// `goal`, with the unifier.
pub open spec fn first_match(facts: Seq<RuleView>, goal: TermView, from: nat) -> Option<
    (nat, Bindings),
>
    decreases facts.len() - from,
{
    if from >= facts.len() {
        None
    } else {
        match mgu(seq![(goal, facts[from as int].0)]) {
            Some(u) => Some((from, u)),
            None => first_match(facts, goal, from + 1),
        }
    }
}

/// `\+ G`: negation as failure of the goal `G`.
pub open spec fn refuted_goal(t: TermView) -> Option<TermView> {
    match t {
        TermView::Compound(name, args) => if name == seq!['\\', '+'] && args.len() == 1
            && args[0] is Compound {
            Some(args[0])
        } else {
            None
        },
        _ => None,
    }
}

/// The builtin that goal `t` calls, if any.
pub open spec fn goal_builtin(t: TermView) -> Option<Builtin> {
    match t {
        TermView::Compound(name, _) => builtin_of(name),
        _ => None,
    }
}

pub enum StepView {
    Answer(Bindings),
    Failed,
    Next(StateView),
}

/// Return to the last choice point, or fail where there is none.
pub open spec fn backtrack(s: StateView) -> StepView {
    if s.choices.len() == 0 {
        StepView::Failed
    } else {
        let c = s.choices.last();
        StepView::Next(
            StateView { master: c.0, query: c.1, fact_indx: c.2, choices: s.choices.drop_last() },
        )
    }
}

/// One step of the search from `s`. `fresh` is the frame id for a clause
/// activation; `bres` is what the builtin called by the first goal answered;
/// `inner_found` whether the goal under a `\+` has a solution (see
/// `step_inputs_ok` for how these inputs are tied to the engine).
pub open spec fn step_spec(
    facts: Seq<RuleView>,
    s: StateView,
    fresh: u32,
    bres: Option<Bindings>,
    inner_found: bool,
) -> StepView {
    if s.query.len() == 0 {
        StepView::Answer(answer_of(s.master))
    } else {
        let g = s.query[0];
        let rest = s.query.drop_first();
        if goal_builtin(g) is Some {
            match bres {
                None => backtrack(s),
                Some(u) => {
                    let u2 = resolved(u);
                    match subst_all_each(rest, u2) {
                        None => backtrack(s),
                        Some(q) => StepView::Next(
                            StateView {
                                master: merge(s.master, u2),
                                query: q,
                                fact_indx: 0,
                                choices: s.choices,
                            },
                        ),
                    }
                },
            }
        } else if refuted_goal(g) is Some {
            if inner_found {
                backtrack(s)
            } else {
                StepView::Next(
                    StateView { master: s.master, query: rest, fact_indx: 0, choices: s.choices },
                )
            }
        } else {
            match first_match(facts, g, s.fact_indx) {
                None => backtrack(s),
                Some((j, u)) => {
                    let u1 = reframe_values(resolved(u), fresh);
                    let cps = s.choices.push((s.master, s.query, j + 1));
                    match (subst_all_each(facts[j as int].1, u1), subst_all_each(rest, u1)) {
                        (Some(b), Some(q)) => StepView::Next(
                            StateView {
                                master: resolved(merge(s.master, u1)),
                                query: reframe_seq(b, fresh) + q,
                                fact_indx: 0,
                                choices: cps,
                            },
                        ),
                        _ => backtrack(
                            StateView {
                                master: s.master,
                                query: s.query,
                                fact_indx: s.fact_indx,
                                choices: cps,
                            },
                        ),
                    }
                },
            }
        }
    }
}

/// `bres` is an answer that the builtin called by the first goal of `s`
/// may give (any value where the first goal calls no builtin).
pub open spec fn builtin_may_answer(s: StateView, bres: Option<Bindings>) -> bool {
    s.query.len() > 0 && goal_builtin(s.query[0]) is Some ==> builtin_answer(
        goal_builtin(s.query[0])->Some_0,
        s.query[0]->Compound_1,
        bres,
    )
}

/// A fresh search for the single goal `g`.
pub open spec fn fresh_search(g: TermView) -> StateView {
    StateView { master: Seq::empty(), query: seq![g], fact_indx: 0, choices: Seq::empty() }
}

/// A step from `s` to `s2` where builtins answer as they may, with the
/// outcome of a nested `\+` search left open.
pub open spec fn loose_step(facts: Seq<RuleView>, s: StateView, s2: StateView) -> bool {
    exists|fresh: u32, bres: Option<Bindings>, inner: bool|
        builtin_may_answer(s, bres) && #[trigger] step_spec(facts, s, fresh, bres, inner)
            == StepView::Next(s2)
}

/// A search from `s0` by loose steps ends with an answer (`found`), or at a
/// state whose step fails (`!found`).
pub open spec fn loose_search_ends(facts: Seq<RuleView>, s0: StateView, found: bool) -> bool {
    exists|tr: Seq<StateView>|
        tr.len() > 0 && tr[0] == s0 && (forall|i: int|
            0 <= i < tr.len() - 1 ==> #[trigger] loose_step(facts, tr[i], tr[i + 1])) && if found {
            tr.last().query.len() == 0
        } else {
            exists|fresh: u32, bres: Option<Bindings>, inner: bool|
                builtin_may_answer(tr.last(), bres) && #[trigger] step_spec(
                    facts,
                    tr.last(),
                    fresh,
                    bres,
                    inner,
                ) == StepView::Failed
        }
}

/// The inputs of a step from `s` are ones the engine meets: `bres` is an
/// answer of the builtin the first goal calls, and for a goal `\+ G`, a
/// search for `G` ends with an answer exactly when `inner` holds (with the
/// outcome of negations inside that search left open).
pub open spec fn step_inputs_ok(facts: Seq<RuleView>, s: StateView, bres: Option<Bindings>, inner: bool) -> bool {
    &&& builtin_may_answer(s, bres)
    &&& (s.query.len() > 0 && goal_builtin(s.query[0]) is None && refuted_goal(s.query[0]) is Some)
        ==> loose_search_ends(facts, fresh_search(refuted_goal(s.query[0])->Some_0), inner)
}

/// The largest frame id of any variable in the state: in the bindings
/// (keys and terms), the goals, and every choice point.
pub open spec fn state_max_frame(s: StateView) -> u32 {
    max2(
        max2(bindings_max_frame(s.master), terms_max_frame(s.query)),
        max_of(
            s.choices.map_values(
                |c: ChoiceView| max2(bindings_max_frame(c.0), terms_max_frame(c.1)),
            ),
        ),
    )
}

/// The frame of a new activation from `s`: one above every frame id in the
/// state and above the query's frame.
pub open spec fn next_frame(s: StateView) -> int {
    max2(state_max_frame(s), REPL_FRAME_ID) + 1
}

/// `f` is the frame of a new activation from `s` (see `next_frame`), which
/// exists where the state's frame ids leave room for it.
pub open spec fn fresh_frame(s: StateView, f: u32) -> bool {
    f as int == next_frame(s)
}

/// One step of the search leads from `s` to `s2`; a clause it activates
/// takes a frame id used nowhere in `s`.
pub open spec fn valid_step(facts: Seq<RuleView>, s: StateView, s2: StateView) -> bool {
    exists|fresh: u32, bres: Option<Bindings>, inner: bool|
        fresh_frame(s, fresh) && step_inputs_ok(facts, s, bres, inner) && #[trigger] step_spec(
            facts,
            s,
            fresh,
            bres,
            inner,
        ) == StepView::Next(s2)
}

/// A frame id above the state's largest occurs nowhere in it: neither as a
/// key or in a term of the bindings, nor in a goal, nor in a choice point.
pub proof fn lemma_fresh_frame_unused(s: StateView, f: u32, v: VarView)
    requires
        f > state_max_frame(s),
        v.frame_id == f,
    ensures
        forall|i: int| 0 <= i < s.master.len() ==> v != s.master[i].0 && !occurs(s.master[i].1, v),
        forall|i: int| 0 <= i < s.query.len() ==> !occurs(#[trigger] s.query[i], v),
        forall|c: int, i: int|
            #![trigger s.choices[c].0[i]]
            0 <= c < s.choices.len() && 0 <= i < s.choices[c].0.len() ==> v != s.choices[c].0[i].0
                && !occurs(s.choices[c].0[i].1, v),
        forall|c: int, i: int|
            0 <= c < s.choices.len() && 0 <= i < s.choices[c].1.len() ==> !occurs(
                #[trigger] s.choices[c].1[i],
                v,
            ),
{
    let cm = s.choices.map_values(
        |c: ChoiceView| max2(bindings_max_frame(c.0), terms_max_frame(c.1)),
    );
    assert forall|i: int| 0 <= i < s.master.len() implies v != s.master[i].0 && !occurs(
        s.master[i].1,
        v,
    ) by {
        if v == s.master[i].0 || occurs(s.master[i].1, v) {
            lemma_bindings_frame(s.master, i, v);
        }
    }
    assert forall|i: int| 0 <= i < s.query.len() implies !occurs(#[trigger] s.query[i], v) by {
        if occurs(s.query[i], v) {
            lemma_terms_frame(s.query, i, v);
        }
    }
    assert forall|c: int, i: int|
        #![trigger s.choices[c].0[i]]
        0 <= c < s.choices.len() && 0 <= i < s.choices[c].0.len() implies v != s.choices[c].0[i].0
            && !occurs(s.choices[c].0[i].1, v) by {
        if v == s.choices[c].0[i].0 || occurs(s.choices[c].0[i].1, v) {
            lemma_bindings_frame(s.choices[c].0, i, v);
            lemma_max_of(cm, c);
        }
    }
    assert forall|c: int, i: int|
        0 <= c < s.choices.len() && 0 <= i < s.choices[c].1.len() implies !occurs(
            #[trigger] s.choices[c].1[i],
            v,
        ) by {
        if occurs(s.choices[c].1[i], v) {
            lemma_terms_frame(s.choices[c].1, i, v);
            lemma_max_of(cm, c);
        }
    }
}

/// `state_max_frame`, computed.
fn state_frame_max(state: &SolverStateOwner) -> (r: u32)
    ensures
        r == state_max_frame(state@),
{
    let ghost cm = state@.choices.map_values(
        |c: ChoiceView| max2(bindings_max_frame(c.0), terms_max_frame(c.1)),
    );
    let base = {
        let a = unifier_max_frame(&state.master);
        let b = terms_max(&state.curr_query.goals);
        if a >= b {
            a
        } else {
            b
        }
    };
    let mut acc: u32 = 0;
    let mut i: usize = 0;
    proof {
        assert(cm.subrange(0, 0) =~= Seq::<u32>::empty());
    }
    while i < state.choice_points.len()
        invariant
            i <= state.choice_points@.len(),
            cm == state@.choices.map_values(
                |c: ChoiceView| max2(bindings_max_frame(c.0), terms_max_frame(c.1)),
            ),
            acc == max_of(cm.subrange(0, i as int)),
        decreases state.choice_points@.len() - i,
    {
        let a = unifier_max_frame(&state.choice_points[i].0);
        let b = terms_max(&state.choice_points[i].1.goals);
        let m = if a >= b {
            a
        } else {
            b
        };
        proof {
            assert(cm.subrange(0, i + 1).drop_last() =~= cm.subrange(0, i as int));
            assert(cm[i as int] == max2(
                bindings_max_frame(state.choice_points@[i as int].0@),
                terms_max_frame(state.choice_points@[i as int].1@),
            ));
        }
        acc = if acc >= m {
            acc
        } else {
            m
        };
        i = i + 1;
    }
    proof {
        assert(cm.subrange(0, i as int) =~= cm);
    }
    if base >= acc {
        base
    } else {
        acc
    }
}

/// A search from `s0` runs out of steps: it reaches, by valid steps, a state
/// after `k` steps, or a state where it stops early (no frame id is left, or
/// the first goal is a `\+` goal whose nested search ran out).
pub open spec fn runs_out(facts: Seq<RuleView>, s0: StateView, k: nat) -> bool {
    exists|s: StateView, n: nat|
        #[trigger] reachable(facts, s0, s, n) && (n == k || state_max_frame(s) == u32::MAX || (
        s.query.len() > 0 && goal_builtin(s.query[0]) is None && refuted_goal(s.query[0]) is Some))
}

/// Where the first goal of `s` is `\+ G`, `inner` is the outcome of a
/// search for `G` by valid steps: an answer exactly when `inner` holds.
pub open spec fn negation_outcome(facts: Seq<RuleView>, s: StateView, inner: bool) -> bool {
    (s.query.len() > 0 && goal_builtin(s.query[0]) is None && refuted_goal(s.query[0]) is Some)
        ==> search_ends(facts, fresh_search(refuted_goal(s.query[0])->Some_0), inner)
}

/// `tr` is a run of valid steps.
pub open spec fn valid_run(facts: Seq<RuleView>, tr: Seq<StateView>) -> bool {
    tr.len() > 0 && forall|i: int| 0 <= i < tr.len() - 1 ==> #[trigger] valid_step(facts, tr[i], tr[i + 1])
}

/// `s1` is reached from `s0` in `n` valid steps.
pub open spec fn reachable(facts: Seq<RuleView>, s0: StateView, s1: StateView, n: nat) -> bool {
    exists|tr: Seq<StateView>|
        #[trigger] valid_run(facts, tr) && tr.len() == n + 1 && tr[0] == s0 && tr.last() == s1
}

/// A search from `s0` ends with an answer (`found`), or at a state whose
/// step fails with the choice points exhausted (`!found`).
pub open spec fn search_ends(facts: Seq<RuleView>, s0: StateView, found: bool) -> bool {
    exists|s: StateView, n: nat|
        #[trigger] reachable(facts, s0, s, n) && if found {
            s.query.len() == 0
        } else {
            exists|fresh: u32, bres: Option<Bindings>, inner: bool|
                step_inputs_ok(facts, s, bres, inner) && #[trigger] step_spec(
                    facts,
                    s,
                    fresh,
                    bres,
                    inner,
                ) == StepView::Failed
        }
}

proof fn lemma_reachable_start(facts: Seq<RuleView>, s0: StateView)
    ensures
        reachable(facts, s0, s0, 0),
{
    let tr = seq![s0];
    assert(valid_run(facts, tr));
}

proof fn lemma_reachable_extend(facts: Seq<RuleView>, s0: StateView, mid: StateView, s1: StateView, n: nat)
    requires
        reachable(facts, s0, mid, n),
        valid_step(facts, mid, s1),
    ensures
        reachable(facts, s0, s1, n + 1),
{
    let tr = choose|tr: Seq<StateView>|
        #[trigger] valid_run(facts, tr) && tr.len() == n + 1 && tr[0] == s0 && tr.last() == mid;
    let t2 = tr.push(s1);
    assert forall|i: int| 0 <= i < t2.len() - 1 implies #[trigger] valid_step(facts, t2[i], t2[i + 1]) by {
        if i < tr.len() - 1 {
            assert(t2[i] == tr[i] && t2[i + 1] == tr[i + 1]);
        }
    }
    assert(valid_run(facts, t2));
}

proof fn lemma_search_fails(
    facts: Seq<RuleView>,
    s0: StateView,
    s: StateView,
    n: nat,
    fresh: u32,
    bres: Option<Bindings>,
    inner: bool,
)
    requires
        reachable(facts, s0, s, n),
        step_inputs_ok(facts, s, bres, inner),
        step_spec(facts, s, fresh, bres, inner) == StepView::Failed,
    ensures
        search_ends(facts, s0, false),
{
}

proof fn lemma_search_found(facts: Seq<RuleView>, s0: StateView, s: StateView, n: nat)
    requires
        reachable(facts, s0, s, n),
        s.query.len() == 0,
    ensures
        search_ends(facts, s0, true),
{
}

/// A search described by valid steps is one described by loose steps.
proof fn lemma_search_loosens(facts: Seq<RuleView>, s0: StateView, found: bool)
    requires
        search_ends(facts, s0, found),
    ensures
        loose_search_ends(facts, s0, found),
{
    let (s, n) = choose|s: StateView, n: nat|
        #[trigger] reachable(facts, s0, s, n) && if found {
            s.query.len() == 0
        } else {
            exists|fresh: u32, bres: Option<Bindings>, inner: bool|
                step_inputs_ok(facts, s, bres, inner) && #[trigger] step_spec(facts, s, fresh, bres, inner)
                    == StepView::Failed
        };
    let tr = choose|tr: Seq<StateView>|
        #[trigger] valid_run(facts, tr) && tr.len() == n + 1 && tr[0] == s0 && tr.last() == s;
    assert forall|i: int| 0 <= i < tr.len() - 1 implies #[trigger] loose_step(facts, tr[i], tr[i + 1]) by {
        assert(valid_step(facts, tr[i], tr[i + 1]));
        let (f, b, inn) = choose|f: u32, b: Option<Bindings>, inn: bool|
            step_inputs_ok(facts, tr[i], b, inn) && #[trigger] step_spec(facts, tr[i], f, b, inn)
                == StepView::Next(tr[i + 1]);
        assert(step_spec(facts, tr[i], f, b, inn) == StepView::Next(tr[i + 1]));
    }
    if !found {
        let (f, b, inn) = choose|f: u32, b: Option<Bindings>, inn: bool|
            step_inputs_ok(facts, s, b, inn) && #[trigger] step_spec(facts, s, f, b, inn) == StepView::Failed;
        assert(step_spec(facts, tr.last(), f, b, inn) == StepView::Failed);
    }
}

/// The builtins answer as functions of their arguments.
proof fn lemma_builtin_answer_unique(b: Builtin, args: Seq<TermView>, r1: Option<Bindings>, r2: Option<Bindings>)
    requires
        builtin_answer(b, args, r1),
        builtin_answer(b, args, r2),
    ensures
        r1 == r2,
{
}

/// A step whose first goal is no `\+` goal has one outcome: the frame id,
/// the builtins' answers and so the next state are all fixed.
pub proof fn lemma_valid_step_unique(facts: Seq<RuleView>, s: StateView, s1: StateView, s2: StateView)
    requires
        s.query.len() == 0 || goal_builtin(s.query[0]) is Some || refuted_goal(s.query[0]) is None,
        valid_step(facts, s, s1),
        valid_step(facts, s, s2),
    ensures
        s1 == s2,
{
    let (f1, b1, i1) = choose|f: u32, b: Option<Bindings>, i: bool|
        fresh_frame(s, f) && step_inputs_ok(facts, s, b, i) && #[trigger] step_spec(facts, s, f, b, i)
            == StepView::Next(s1);
    let (f2, b2, i2) = choose|f: u32, b: Option<Bindings>, i: bool|
        fresh_frame(s, f) && step_inputs_ok(facts, s, b, i) && #[trigger] step_spec(facts, s, f, b, i)
            == StepView::Next(s2);
    if s.query.len() > 0 && goal_builtin(s.query[0]) is Some {
        lemma_builtin_answer_unique(goal_builtin(s.query[0])->Some_0, s.query[0]->Compound_1, b1, b2);
    }
    assert(step_spec(facts, s, f1, b1, i1) == step_spec(facts, s, f2, b2, i2));
}

/// Two runs of valid steps from one state, of one length, are the same run
/// where no state on them (but the last) starts with a `\+` goal: answers
/// do not depend on chance.
pub proof fn lemma_valid_runs_agree(facts: Seq<RuleView>, tr1: Seq<StateView>, tr2: Seq<StateView>)
    requires
        valid_run(facts, tr1),
        valid_run(facts, tr2),
        tr1.len() == tr2.len(),
        tr1[0] == tr2[0],
        forall|i: int|
            0 <= i < tr1.len() - 1 ==> ((#[trigger] tr1[i]).query.len() == 0 || goal_builtin(
                tr1[i].query[0],
            ) is Some || refuted_goal(tr1[i].query[0]) is None),
    ensures
        tr1 == tr2,
    decreases tr1.len(),
{
    if tr1.len() > 1 {
        let (p1, p2) = (tr1.drop_last(), tr2.drop_last());
        assert forall|i: int| 0 <= i < p1.len() - 1 implies #[trigger] valid_step(facts, p1[i], p1[i + 1]) by {
            assert(valid_step(facts, tr1[i], tr1[i + 1]));
        }
        assert forall|i: int| 0 <= i < p2.len() - 1 implies #[trigger] valid_step(facts, p2[i], p2[i + 1]) by {
            assert(valid_step(facts, tr2[i], tr2[i + 1]));
        }
        assert forall|i: int| 0 <= i < p1.len() - 1 implies ((#[trigger] p1[i]).query.len() == 0
            || goal_builtin(p1[i].query[0]) is Some || refuted_goal(p1[i].query[0]) is None) by {
            assert(p1[i] == tr1[i]);
        }
        lemma_valid_runs_agree(facts, p1, p2);
        let k = tr1.len() - 2;
        assert(p1[k] == tr1[k] && p2[k] == tr2[k]);
        assert(valid_step(facts, tr1[k], tr1[k + 1]));
        assert(valid_step(facts, tr2[k], tr2[k + 1]));
        assert(tr1[k] == tr2[k]);
        lemma_valid_step_unique(facts, tr1[k], tr1[k + 1], tr2[k + 1]);
        assert forall|i: int| 0 <= i < tr1.len() implies tr1[i] == tr2[i] by {
            if i <= k {
                assert(tr1[i] == p1[i]);
                assert(tr2[i] == p2[i]);
            }
        }
        assert(tr1 =~= tr2);
    }
}

/// What one step did.
#[derive(Debug)]
pub enum StepOutcome {
    /// No goal was left: the answer, over the variables of the query.
    Answer(Unifier),
    /// A goal failed and no choice point was left.
    Failed,
    /// The search moved on.
    Continue,
    /// A nested search for a `\+` goal ran out of steps.
    OutOfSteps,
}

/// `r` and the state after it are what `sv` says.
pub open spec fn step_matches(r: StepOutcome, after: StateView, before: StateView, sv: StepView) -> bool {
    match sv {
        StepView::Answer(a) => r matches StepOutcome::Answer(u) && u@ == a && after == before,
        StepView::Failed => r is Failed,
        StepView::Next(n) => r is Continue && after == n,
    }
}

/// A frame id for a clause activation: random, and never the frame of the
/// top-level query.
pub(crate) fn fresh_frame_id() -> (r: u32)
    ensures
        r != REPL_FRAME_ID,
{
    let f = random_frame_id();
    if f == REPL_FRAME_ID {
        f + 1
    } else {
        f
    }
}

/// Relies on rand's `thread_rng().next_u32()`: any 32-bit value.
#[verifier::external_body]
pub(crate) fn random_frame_id() -> u32 {
    rand::thread_rng().next_u32()
}

fn copy_query(q: &Query) -> (r: Query)
    ensures
        r@ == q@,
{
    Query { goals: copy_terms(&q.goals) }
}

/// All goals but the first.
fn goals_after_first(goals: &Vec<Term>) -> (r: Vec<Term>)
    requires
        goals.len() > 0,
    ensures
        views(r@) == views(goals@).drop_first(),
{
    let mut r: Vec<Term> = Vec::new();
    let mut i: usize = 1;
    while i < goals.len()
        invariant
            1 <= i <= goals.len(),
            views(r@) == views(goals@).subrange(1, i as int),
        decreases goals.len() - i,
    {
        let t = copy_term(&goals[i]);
        let ghost prev = r@;
        r.push(t);
        proof {
            assert(views(r@) =~= views(prev).push(t@));
            assert(views(r@) =~= views(goals@).subrange(1, i + 1));
        }
        i = i + 1;
    }
    proof {
        assert(views(goals@).subrange(1, i as int) =~= views(goals@).drop_first());
    }
    r
}

/// Adds each binding of `u` to `m` in turn.
fn merge_into(m: &mut Unifier, u: &Unifier)
    requires
        old(m).wf(),
    ensures
        final(m).wf(),
        final(m)@ == merge(old(m)@, u@),
{
    let ghost m0 = m@;
    let mut i: usize = 0;
    proof {
        assert(u@.subrange(0, 0) =~= Seq::<(VarView, TermView)>::empty());
    }
    while i < u.len()
        invariant
            i <= u@.len(),
            m.wf(),
            m@ == merge(m0, u@.subrange(0, i as int)),
        decreases u@.len() - i,
    {
        proof {
            assert(u@.subrange(0, i + 1).drop_last() =~= u@.subrange(0, i as int));
        }
        m.insert(u.key_at(i).copy(), copy_term(u.value_at(i)));
        i = i + 1;
    }
    proof {
        assert(u@.subrange(0, i as int) =~= u@);
    }
}

/// `u` with each term moved into frame `f`.
fn reframe_unifier(u: &Unifier, f: u32) -> (r: Unifier)
    requires
        u.wf(),
    ensures
        r.wf(),
        r@ == reframe_values(u@, f),
{
    let mut r = Unifier::new();
    let mut i: usize = 0;
    while i < u.len()
        invariant
            u.wf(),
            i <= u@.len(),
            r.wf(),
            r@ == reframe_values(u@, f).subrange(0, i as int),
        decreases u@.len() - i,
    {
        proof {
            if has_key(r@, u@[i as int].0) {
                let j = choose|j: int| 0 <= j < r@.len() && r@[j].0 == u@[i as int].0;
                assert(r@[j].0 == u@[j].0);
            }
        }
        r.insert(u.key_at(i).copy(), reframe_term(u.value_at(i), f));
        proof {
            assert(r@ =~= reframe_values(u@, f).subrange(0, i + 1));
        }
        i = i + 1;
    }
    proof {
        assert(reframe_values(u@, f).subrange(0, i as int) =~= reframe_values(u@, f));
    }
    r
}

/// The bindings of `u` whose variables belong to the top-level query.
fn repl_bindings(u: &Unifier) -> (r: Unifier)
    requires
        u.wf(),
    ensures
        r.wf(),
        r@ == repl_only(u@),
{
    let mut r = Unifier::new();
    let mut i: usize = 0;
    while i < u.len()
        invariant
            u.wf(),
            i <= u@.len(),
            r.wf(),
            r@ == repl_only(u@.subrange(0, i as int)),
            forall|k: VarView| has_key(r@, k) ==> exists|j: int| 0 <= j < i && u@[j].0 == k,
        decreases u@.len() - i,
    {
        proof {
            assert(u@.subrange(0, i + 1).drop_last() =~= u@.subrange(0, i as int));
        }
        if u.key_at(i).frame_id == REPL_FRAME_ID {
            proof {
                if has_key(r@, u@[i as int].0) {
                    let j = choose|j: int| 0 <= j < i && u@[j].0 == u@[i as int].0;
                }
            }
            let ghost prev = r@;
            r.insert(u.key_at(i).copy(), copy_term(u.value_at(i)));
            proof {
                assert forall|k: VarView| has_key(r@, k) implies exists|j: int|
                    0 <= j < i + 1 && u@[j].0 == k by {
                    let a = choose|a: int| 0 <= a < r@.len() && r@[a].0 == k;
                    if a < prev.len() {
                        assert(has_key(prev, k));
                    } else {
                        assert(u@[i as int].0 == k);
                    }
                }
            }
        }
        i = i + 1;
    }
    proof {
        assert(u@.subrange(0, i as int) =~= u@);
    }
    r
}

/// Pops the last choice point into the state; `Failed` where none is left.
fn backtrack_exec(state: &mut SolverStateOwner) -> (r: StepOutcome)
    requires
        old(state).wf(),
    ensures
        final(state).wf(),
        step_matches(r, final(state)@, old(state)@, backtrack(old(state)@)),
        r is Failed ==> final(state)@ == old(state)@ && old(state)@.choices.len() == 0,
{
    match state.choice_points.pop() {
        None => StepOutcome::Failed,
        Some(cp) => {
            proof {
                assert(old(state).choice_points@.last() == cp);
                assert(choice_views(state.choice_points@) =~= choice_views(
                    old(state).choice_points@,
                ).drop_last());
                assert(old(state).choice_points@[old(state).choice_points@.len() - 1].0.wf());
            }
            state.master = cp.0;
            state.curr_query = cp.1;
            state.fact_indx = cp.2;
            proof {
                assert forall|i: int|
                    0 <= i < state.choice_points@.len() implies (
                    #[trigger] state.choice_points@[i]).0.wf() by {
                    assert(state.choice_points@[i] == old(state).choice_points@[i]);
                }
            }
            StepOutcome::Continue
        },
    }
}

fn copy_compound(c: &CompoundTerm) -> (r: CompoundTerm)
    ensures
        r@ == c@,
{
    let r = CompoundTerm { name: c.name.clone(), args: copy_terms(&c.args) };
    proof {
        lemma_compound_view(*c);
        lemma_compound_view(r);
    }
    r
}

/// `name` is `\+`.
fn is_refute_name(name: &String) -> (r: bool)
    ensures
        r == (name@ == seq!['\\', '+']),
{
    let t = name.as_str();
    if t.unicode_len() != 2 {
        return false;
    }
    let (c0, c1) = (t.get_char(0), t.get_char(1));
    proof {
        assert(name@ =~= seq![c0, c1]);
    }
    c0 == '\\' && c1 == '+'
}

/// One step of the search (see `step_spec`): answers where no goal is left;
/// otherwise resolves the first goal by a builtin, by negation as failure
/// (running a nested search of at most `fuel` steps), or by the next clause
/// whose head unifies with it, activated in frame `fresh`.
pub fn step(
    facts: &Rules,
    state: &mut SolverStateOwner,
    fresh: u32,
    out: &mut Vec<Vec<Term>>,
    fuel: u64,
) -> (r: StepOutcome)
    requires
        old(state).wf(),
    ensures
        final(state).wf(),
        r is OutOfSteps ==> final(state)@ == old(state)@ && old(state)@.query.len() > 0
            && goal_builtin(old(state)@.query[0]) is None && refuted_goal(old(state)@.query[0]) is Some
            && (fuel == 0 || runs_out(
            facts@,
            fresh_search(refuted_goal(old(state)@.query[0])->Some_0),
            (fuel - 1) as nat,
        )),
        r is OutOfSteps || exists|bres: Option<Bindings>, inner: bool|
            #![trigger step_spec(facts@, old(state)@, fresh, bres, inner)]
            step_inputs_ok(facts@, old(state)@, bres, inner) && negation_outcome(
                facts@,
                old(state)@,
                inner,
            ) && step_matches(
                r,
                final(state)@,
                old(state)@,
                step_spec(facts@, old(state)@, fresh, bres, inner),
            ),
        r matches StepOutcome::Answer(u) ==> final(state)@ == old(state)@ && old(state)@.query.len()
            == 0 && u@ == answer_of(old(state)@.master),
        r is Failed ==> final(state)@ == old(state)@ && final(state)@.choices.len() == 0,
    decreases fuel, 0nat,
{
    let ghost s = state@;
    let ghost nob: Option<Bindings> = None;
    if state.curr_query.goals.len() == 0 {
        let res = solve_unifier(&state.master);
        let ans = repl_bindings(&res);
        proof {
            assert(step_matches(
                StepOutcome::Answer(ans),
                state@,
                s,
                step_spec(facts@, s, fresh, nob, false),
            ));
        }
        return StepOutcome::Answer(ans);
    }
    let goal = copy_term(&state.curr_query.goals[0]);
    proof {
        assert(goal@ == s.query[0]);
    }
    if let Term::Compound(c) = &goal {
        proof {
            lemma_compound_view(*c);
        }
        if let Some(b) = builtin_named(&c.name) {
            let res = call_builtin(b, c, out);
            let ghost bres = crate::builtins::opt_view(res);
            match res {
                None => {
                    let r = backtrack_exec(state);
                    proof {
                        assert(step_matches(r, state@, s, step_spec(facts@, s, fresh, bres, false)));
                    }
                    return r;
                },
                Some(u) => {
                    let u2 = solve_unifier(&u);
                    let mut rest = goals_after_first(&state.curr_query.goals);
                    if !substitute_goals(&mut rest, &u2) {
                        let r = backtrack_exec(state);
                        proof {
                            assert(step_matches(r, state@, s, step_spec(facts@, s, fresh, bres, false)));
                        }
                        return r;
                    }
                    merge_into(&mut state.master, &u2);
                    state.curr_query = Query { goals: rest };
                    state.fact_indx = 0;
                    proof {
                        assert(step_matches(
                            StepOutcome::Continue,
                            state@,
                            s,
                            step_spec(facts@, s, fresh, bres, false),
                        ));
                    }
                    return StepOutcome::Continue;
                },
            }
        }
        if is_refute_name(&c.name) && c.args.len() == 1 && matches!(c.args[0], Term::Compound(_)) {
            proof {
                assert(views(c.args@)[0] == c.args@[0]@);
            }
            if fuel == 0 {
                return StepOutcome::OutOfSteps;
            }
            let inner_goal = copy_term(&c.args[0]);
            let mut inner_goals: Vec<Term> = Vec::new();
            inner_goals.push(inner_goal);
            let ghost g = c.args@[0]@;
            proof {
                assert(views(inner_goals@) =~= seq![g]);
            }
            let mut inner = new_solver_state(Query { goals: inner_goals });
            proof {
                assert(inner@ == fresh_search(g));
            }
            let found = match solve(facts, &mut inner, out, fuel - 1) {
                Solution::Found(_) => {
                    proof {
                        lemma_search_loosens(facts@, fresh_search(g), true);
                    }
                    true
                },
                Solution::NoMore => {
                    proof {
                        lemma_search_loosens(facts@, fresh_search(g), false);
                    }
                    false
                },
                Solution::OutOfSteps => {
                    return StepOutcome::OutOfSteps;
                },
            };
            if found {
                let r = backtrack_exec(state);
                proof {
                    assert(step_matches(r, state@, s, step_spec(facts@, s, fresh, nob, true)));
                }
                return r;
            }
            let rest = goals_after_first(&state.curr_query.goals);
            state.curr_query = Query { goals: rest };
            state.fact_indx = 0;
            proof {
                assert(step_matches(
                    StepOutcome::Continue,
                    state@,
                    s,
                    step_spec(facts@, s, fresh, nob, false),
                ));
            }
            return StepOutcome::Continue;
        }
    }
    proof {
        assert(goal_builtin(goal@) is None);
        assert(refuted_goal(goal@) is None);
    }
    let n = facts.contents.len();
    let mut j = state.fact_indx;
    while j < n
        invariant
            n == facts@.len(),
            state@ == s,
            s == old(state)@,
            state.wf(),
            goal@ == s.query[0],
            goal_builtin(goal@) is None,
            refuted_goal(goal@) is None,
            s.query.len() > 0,
            j >= s.fact_indx,
            first_match(facts@, goal@, s.fact_indx) == first_match(facts@, goal@, j as nat),
        decreases n - j,
    {
        let head = Term::Compound(copy_compound(&facts.contents[j].gives));
        let mut eqs: Vec<(Term, Term)> = Vec::new();
        eqs.push((copy_term(&goal), head));
        proof {
            assert(facts@[j as int].0 == facts.contents@[j as int].gives@);
            assert(equation_views(eqs@) =~= seq![(goal@, facts@[j as int].0)]);
        }
        match compute_most_gen_unifier(eqs) {
            None => {
                j = j + 1;
            },
            Some(u) => {
                let ures = solve_unifier(&u);
                let u1 = reframe_unifier(&ures, fresh);
                let ghost cps0 = state.choice_points@;
                proof {
                    assert(first_match(facts@, goal@, j as nat) == Some((j as nat, u@)));
                }
                let cp = (state.master.copy(), copy_query(&state.curr_query), j + 1);
                state.choice_points.push(cp);
                proof {
                    assert(choice_views(state.choice_points@) =~= s.choices.push(
                        (s.master, s.query, (j + 1) as nat),
                    ));
                    assert forall|i: int|
                        0 <= i < state.choice_points@.len() implies (
                        #[trigger] state.choice_points@[i]).0.wf() by {
                        if i < s.choices.len() {
                            assert(state.choice_points@[i] == cps0[i]);
                        }
                    }
                    assert(facts@[j as int].1 == views(facts.contents@[j as int].requires.goals@));
                }
                let ghost mid = state@;
                let mut body = copy_terms(&facts.contents[j].requires.goals);
                let mut rest = goals_after_first(&state.curr_query.goals);
                if !substitute_goals(&mut body, &u1) {
                    proof {
                        assert(mid == StateView { master: s.master, query: s.query, fact_indx: s.fact_indx, choices: s.choices.push((s.master, s.query, (j + 1) as nat)) });
                        assert(subst_all_each(facts@[j as int].1, u1@) is None);
                    }
                    let r = backtrack_exec(state);
                    proof {
                        assert(step_matches(r, state@, s, step_spec(facts@, s, fresh, nob, false)));
                    }
                    return r;
                }
                if !substitute_goals(&mut rest, &u1) {
                    let r = backtrack_exec(state);
                    proof {
                        assert(step_matches(r, state@, s, step_spec(facts@, s, fresh, nob, false)));
                    }
                    return r;
                }
                merge_into(&mut state.master, &u1);
                state.master = solve_unifier(&state.master);
                let mut newq = reframe_terms(&body, fresh);
                let ghost a = newq@;
                let ghost b = rest@;
                newq.append(&mut rest);
                proof {
                    lemma_views_append(a, b);
                }
                state.curr_query = Query { goals: newq };
                state.fact_indx = 0;
                proof {
                    assert(step_matches(
                        StepOutcome::Continue,
                        state@,
                        s,
                        step_spec(facts@, s, fresh, nob, false),
                    ));
                }
                return StepOutcome::Continue;
            },
        }
    }
    let r = backtrack_exec(state);
    proof {
        assert(step_matches(r, state@, s, step_spec(facts@, s, fresh, nob, false)));
    }
    r
}

/// How a search for the next answer ended.
#[derive(Debug)]
pub enum Solution {
    /// An answer, over the variables of the query.
    Found(Unifier),
    /// The choice points are exhausted: no further answer.
    NoMore,
    /// The step budget ran out first; the state can be searched on.
    OutOfSteps,
}

/// Searches from `state` for the next answer, taking at most `max_steps`
/// steps (and one fewer in each nested search). Lines printed by `print`
/// goals are added to `out`. The final state is reached by valid steps; an
/// answer is that of a state with no goal left; `NoMore` comes where a step
/// fails with no choice point left; `OutOfSteps` after `max_steps` steps, or
/// where a nested search for a `\+` goal ran out. After an answer, popping
/// the last choice point into the state and calling again gives the next one.
pub fn solve(
    facts: &Rules,
    state: &mut SolverStateOwner,
    out: &mut Vec<Vec<Term>>,
    max_steps: u64,
) -> (r: Solution)
    requires
        old(state).wf(),
    ensures
        final(state).wf(),
        r matches Solution::Found(u) ==> final(state)@.query.len() == 0 && u@ == answer_of(
            final(state)@.master,
        ),
        r is NoMore ==> final(state)@.choices.len() == 0,
        exists|n: nat| reachable(facts@, old(state)@, final(state)@, n),
        r is Found ==> search_ends(facts@, old(state)@, true),
        r is NoMore ==> search_ends(facts@, old(state)@, false),
        r is OutOfSteps ==> runs_out(facts@, old(state)@, max_steps as nat)
            || (final(state)@.query.len() > 0 && refuted_goal(final(state)@.query[0]) is Some),
    decreases max_steps, 1nat,
{
    let ghost s0 = state@;
    let mut steps: u64 = 0;
    proof {
        lemma_reachable_start(facts@, s0);
    }
    while steps < max_steps
        invariant
            state.wf(),
            s0 == old(state)@,
            steps <= max_steps,
            reachable(facts@, s0, state@, steps as nat),
        decreases max_steps - steps,
    {
        let top = state_frame_max(state);
        let base = if top >= REPL_FRAME_ID {
            top
        } else {
            REPL_FRAME_ID
        };
        if base == u32::MAX {
            return Solution::OutOfSteps;
        }
        let fresh = base + 1;
        proof {
            assert(fresh_frame(state@, fresh));
        }
        let ghost before = state@;
        let r = step(facts, state, fresh, out, max_steps);
        proof {
            if !(r is OutOfSteps) {
                let (bres, inner) = choose|bres: Option<Bindings>, inner: bool|
                    #![trigger step_spec(facts@, before, fresh, bres, inner)]
                    step_inputs_ok(facts@, before, bres, inner) && step_matches(
                        r,
                        state@,
                        before,
                        step_spec(facts@, before, fresh, bres, inner),
                    );
                if r is Continue {
                    assert(step_spec(facts@, before, fresh, bres, inner) == StepView::Next(state@));
                    assert(valid_step(facts@, before, state@));
                    lemma_reachable_extend(facts@, s0, before, state@, steps as nat);
                } else if r is Failed {
                    assert(step_spec(facts@, before, fresh, bres, inner) == StepView::Failed);
                    lemma_search_fails(facts@, s0, state@, steps as nat, fresh, bres, inner);
                } else {
                    lemma_search_found(facts@, s0, state@, steps as nat);
                }
            }
        }
        match r {
            StepOutcome::Answer(u) => {
                return Solution::Found(u);
            },
            StepOutcome::Failed => {
                return Solution::NoMore;
            },
            StepOutcome::Continue => {},
            StepOutcome::OutOfSteps => {
                return Solution::OutOfSteps;
            },
        }
        steps = steps + 1;
    }
    Solution::OutOfSteps
}

} // verus!
