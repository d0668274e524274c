//! Terms: the values that the engine works on, and substitution on them.

use vstd::prelude::*;
use crate::number::Number;

verus! {

broadcast use vstd::seq_lib::group_seq_properties;

/// A logic variable. Two variables are the same when both the name and the
/// frame id agree; the frame id tells apart activations of one clause.
#[derive(Clone, Debug, PartialEq, Eq, Hash)]
pub struct UnknownContents {
    pub name: String,
    pub frame_id: u32,
}

/// What a variable stands for in specifications.
pub struct VarView {
    pub name: Seq<char>,
    pub frame_id: u32,
}

impl View for UnknownContents {
    type V = VarView;

    open spec fn view(&self) -> VarView {
        VarView { name: self.name@, frame_id: self.frame_id }
    }
}

#[derive(Debug, PartialEq)]
pub enum Term {
    Unknown(UnknownContents),
    Atom(String),
    Number(Number),
    List(ListTerm),
    Compound(CompoundTerm),
}

/// The list `[front[0], ..., front[k-1] | tail]`.
#[derive(Debug, PartialEq)]
pub struct ListTerm {
    pub front: Vec<Term>,
    pub tail: ListTail,
}

#[derive(Debug, PartialEq)]
pub enum ListTail {
    End,
    Unknown(UnknownContents),
}

/// `name(args[0], ...)`; its arity is the number of arguments.
#[derive(Debug, PartialEq)]
pub struct CompoundTerm {
    pub name: String,
    pub args: Vec<Term>,
}

/// The mathematical value of a term. A list's tail is `None` for the end of
/// the list and `Some(v)` for a variable tail.
pub enum TermView {
    Var(VarView),
    Atom(Seq<char>),
    Num(Number),
    List(Seq<TermView>, Option<VarView>),
    Compound(Seq<char>, Seq<TermView>),
}

pub open spec fn tail_view(t: ListTail) -> Option<VarView> {
    match t {
        ListTail::End => None,
        ListTail::Unknown(v) => Some(v@),
    }
}

pub open spec fn term_view(t: Term) -> TermView
    decreases t,
{
    match t {
        Term::Unknown(v) => TermView::Var(v@),
        Term::Atom(a) => TermView::Atom(a@),
        Term::Number(n) => TermView::Num(n),
        Term::List(l) => TermView::List(
            Seq::new(
                l.front.len() as nat,
                |i: int|
                    if 0 <= i < l.front.len() {
                        term_view(l.front[i])
                    } else {
                        TermView::Atom(Seq::empty())
                    },
            ),
            tail_view(l.tail),
        ),
        Term::Compound(c) => TermView::Compound(
            c.name@,
            Seq::new(
                c.args.len() as nat,
                |i: int|
                    if 0 <= i < c.args.len() {
                        term_view(c.args[i])
                    } else {
                        TermView::Atom(Seq::empty())
                    },
            ),
        ),
    }
}

/// The values of a sequence of terms.
pub open spec fn views(ts: Seq<Term>) -> Seq<TermView> {
    ts.map_values(|t: Term| term_view(t))
}

impl View for Term {
    type V = TermView;

    open spec fn view(&self) -> TermView {
        term_view(*self)
    }
}

impl View for ListTerm {
    type V = TermView;

    open spec fn view(&self) -> TermView {
        term_view(Term::List(*self))
    }
}

impl View for CompoundTerm {
    type V = TermView;

    open spec fn view(&self) -> TermView {
        term_view(Term::Compound(*self))
    }
}

pub proof fn lemma_list_view(l: ListTerm)
    ensures
        l@ == TermView::List(views(l.front@), tail_view(l.tail)),
{
    assert(l@->List_0 =~= views(l.front@));
}

pub proof fn lemma_compound_view(c: CompoundTerm)
    ensures
        c@ == TermView::Compound(c.name@, views(c.args@)),
{
    assert(c@->Compound_1 =~= views(c.args@));
}

/// The empty list `[]`.
pub open spec fn empty_list() -> TermView {
    TermView::List(Seq::empty(), None)
}

/// Some element of `bs` is true.
pub open spec fn any(bs: Seq<bool>) -> bool {
    exists|i: int| 0 <= i < bs.len() && bs[i]
}

/// `x` occurs in `t`, as a term or as a list tail.
pub open spec fn occurs(t: TermView, x: VarView) -> bool
    decreases t,
{
    match t {
        TermView::Var(y) => y == x,
        TermView::Atom(_) => false,
        TermView::Num(_) => false,
        TermView::List(front, tail) => tail == Some(x) || any(occurs_each(front, x)),
        TermView::Compound(_, args) => any(occurs_each(args, x)),
    }
}

/// For each term of `ts`, whether `x` occurs in it.
pub open spec fn occurs_each(ts: Seq<TermView>, x: VarView) -> Seq<bool>
    decreases ts,
{
    Seq::new(ts.len(), |i: int| if 0 <= i < ts.len() { occurs(ts[i], x) } else { false })
}

/// `x` stands as the tail of some list inside `t`.
pub open spec fn tail_occurs(t: TermView, x: VarView) -> bool
    decreases t,
{
    match t {
        TermView::Var(_) => false,
        TermView::Atom(_) => false,
        TermView::Num(_) => false,
        TermView::List(front, tail) => tail == Some(x) || any(tail_occurs_each(front, x)),
        TermView::Compound(_, args) => any(tail_occurs_each(args, x)),
    }
}

/// For each term of `ts`, whether `x` is a list tail in it.
pub open spec fn tail_occurs_each(ts: Seq<TermView>, x: VarView) -> Seq<bool>
    decreases ts,
{
    Seq::new(ts.len(), |i: int| if 0 <= i < ts.len() { tail_occurs(ts[i], x) } else { false })
}

/// A term that may replace a list tail: a list or a variable.
pub open spec fn fits_tail(s: TermView) -> bool {
    s is List || s is Var
}

/// Replacing `x` by `s` in `t` is defined: `x` is no list tail in `t`, or
/// `s` can stand as one.
pub open spec fn subst_ok(t: TermView, x: VarView, s: TermView) -> bool {
    !tail_occurs(t, x) || fits_tail(s)
}

/// `t` with every occurrence of `x` replaced by `s`. A list whose tail is `x`
/// takes the elements and the tail of `s` when `s` is a list, and the
/// variable `s` as its tail when `s` is a variable.
pub open spec fn subst(t: TermView, x: VarView, s: TermView) -> TermView
    decreases t,
{
    match t {
        TermView::Var(y) => if y == x {
            s
        } else {
            t
        },
        TermView::Atom(_) => t,
        TermView::Num(_) => t,
        TermView::List(front, tail) => {
            let f = subst_seq(front, x, s);
            if tail == Some(x) {
                match s {
                    TermView::List(f2, t2) => TermView::List(f + f2, t2),
                    TermView::Var(v) => TermView::List(f, Some(v)),
                    _ => TermView::List(f, tail),
                }
            } else {
                TermView::List(f, tail)
            }
        },
        TermView::Compound(name, args) => TermView::Compound(name, subst_seq(args, x, s)),
    }
}

/// `subst` on each term of a sequence.
pub open spec fn subst_seq(ts: Seq<TermView>, x: VarView, s: TermView) -> Seq<TermView>
    decreases ts,
{
    Seq::new(ts.len(), |i: int| if 0 <= i < ts.len() { subst(ts[i], x, s) } else { s })
}

/// `t` with the frame id of every variable in it set to `f`.
pub open spec fn reframe(t: TermView, f: u32) -> TermView
    decreases t,
{
    match t {
        TermView::Var(y) => TermView::Var(VarView { name: y.name, frame_id: f }),
        TermView::Atom(_) => t,
        TermView::Num(_) => t,
        TermView::List(front, tail) => TermView::List(
            reframe_seq(front, f),
            match tail {
                Some(v) => Some(VarView { name: v.name, frame_id: f }),
                None => None,
            },
        ),
        TermView::Compound(name, args) => TermView::Compound(name, reframe_seq(args, f)),
    }
}

/// `reframe` on each term of a sequence.
pub open spec fn reframe_seq(ts: Seq<TermView>, f: u32) -> Seq<TermView>
    decreases ts,
{
    Seq::new(
        ts.len(),
        |i: int|
            if 0 <= i < ts.len() {
                reframe(ts[i], f)
            } else {
                TermView::Atom(Seq::empty())
            },
    )
}

/// The variables of `t`, left to right, with repetitions.
pub open spec fn names(t: TermView) -> Seq<VarView>
    decreases t,
{
    match t {
        TermView::Var(y) => seq![y],
        TermView::Atom(_) => Seq::empty(),
        TermView::Num(_) => Seq::empty(),
        TermView::List(front, tail) => names_each(front).flatten() + match tail {
            Some(v) => seq![v],
            None => Seq::empty(),
        },
        TermView::Compound(_, args) => names_each(args).flatten(),
    }
}

/// `names` of each term of a sequence.
pub open spec fn names_each(ts: Seq<TermView>) -> Seq<Seq<VarView>>
    decreases ts,
{
    Seq::new(ts.len(), |i: int| if 0 <= i < ts.len() { names(ts[i]) } else { Seq::empty() })
}

pub open spec fn var_views(vs: Seq<UnknownContents>) -> Seq<VarView> {
    vs.map_values(|v: UnknownContents| v@)
}

impl UnknownContents {
    pub fn new(name: String, frame_id: u32) -> (r: UnknownContents)
        ensures
            r@ == (VarView { name: name@, frame_id }),
    {
        UnknownContents { name, frame_id }
    }

    /// Same name and same frame id.
    pub fn same(&self, other: &UnknownContents) -> (r: bool)
        ensures
            r == (self@ == other@),
    {
        self.frame_id == other.frame_id && self.name == other.name
    }

    pub fn copy(&self) -> (r: UnknownContents)
        ensures
            r@ == self@,
    {
        UnknownContents { name: self.name.clone(), frame_id: self.frame_id }
    }
}

pub fn copy_tail(t: &ListTail) -> (r: ListTail)
    ensures
        tail_view(r) == tail_view(*t),
{
    match t {
        ListTail::End => ListTail::End,
        ListTail::Unknown(v) => ListTail::Unknown(v.copy()),
    }
}

/// A copy of `t` with the same value.
pub fn copy_term(t: &Term) -> (r: Term)
    ensures
        r@ == t@,
    decreases t,
{
    match t {
        Term::Unknown(v) => Term::Unknown(v.copy()),
        Term::Atom(a) => Term::Atom(a.clone()),
        Term::Number(n) => Term::Number(*n),
        Term::List(l) => {
            let r = ListTerm { front: copy_terms(&l.front), tail: copy_tail(&l.tail) };
            proof {
                lemma_list_view(*l);
                lemma_list_view(r);
            }
            Term::List(r)
        },
        Term::Compound(c) => {
            let r = CompoundTerm { name: c.name.clone(), args: copy_terms(&c.args) };
            proof {
                lemma_compound_view(*c);
                lemma_compound_view(r);
            }
            Term::Compound(r)
        },
    }
}

/// A copy of each term of `ts`.
pub fn copy_terms(ts: &Vec<Term>) -> (r: Vec<Term>)
    ensures
        views(r@) == views(ts@),
    decreases ts,
{
    let mut r: Vec<Term> = Vec::new();
    let mut i: usize = 0;
    while i < ts.len()
        invariant
            i <= ts.len(),
            r@.len() == i,
            views(r@) == views(ts@.subrange(0, i as int)),
        decreases ts.len() - i,
    {
        let t = copy_term(&ts[i]);
        let ghost prev = r@;
        r.push(t);
        proof {
            assert forall|j: int| 0 <= j < i + 1 implies views(r@)[j] == views(
                ts@.subrange(0, i + 1),
            )[j] by {
                if j < i {
                    assert(views(prev)[j] == views(ts@.subrange(0, i as int))[j]);
                }
            }
            assert(views(r@) =~= views(ts@.subrange(0, i + 1)));
        }
        i = i + 1;
    }
    proof {
        assert(ts@.subrange(0, i as int) =~= ts@);
    }
    r
}

proof fn lemma_tail_occurs_in(t: TermView, ts: Seq<TermView>, i: int, x: VarView)
    requires
        0 <= i < ts.len(),
        tail_occurs(ts[i], x),
        (t is List && t->List_0 == ts) || (t is Compound && t->Compound_1 == ts),
    ensures
        tail_occurs(t, x),
{
    match t {
        TermView::List(f, tail) => {
            assert(tail_occurs(f[i], x));
            assert(tail_occurs_each(f, x)[i]);

        },
        TermView::Compound(_, a) => {
            assert(tail_occurs_each(a, x)[i]);
        },
        _ => {},
    }
}

pub proof fn lemma_views_push(ts: Seq<Term>, t: Term)
    ensures
        views(ts.push(t)) == views(ts).push(t@),
{
    assert(views(ts.push(t)) =~= views(ts).push(t@));
}

pub proof fn lemma_views_append(ts: Seq<Term>, us: Seq<Term>)
    ensures
        views(ts + us) == views(ts) + views(us),
{
    assert(views(ts + us) =~= views(ts) + views(us));
}

/// `t` with `x` replaced by `s`, or `None` where `x` is a list tail in `t`
/// and `s` is neither a list nor a variable.
pub fn subst_term(t: &Term, x: &UnknownContents, s: &Term) -> (r: Option<Term>)
    ensures
        r is Some == subst_ok(t@, x@, s@),
        r matches Some(rt) ==> rt@ == subst(t@, x@, s@),
    decreases t,
{
    match t {
        Term::Unknown(y) => {
            if y.same(x) {
                Some(copy_term(s))
            } else {
                Some(Term::Unknown(y.copy()))
            }
        },
        Term::Atom(a) => Some(Term::Atom(a.clone())),
        Term::Number(n) => Some(Term::Number(*n)),
        Term::List(l) => {
            proof {
                lemma_list_view(*l);
                assert(t@ == l@);
            }
            let front = match subst_terms(&l.front, x, s) {
                Some(f) => f,
                None => {
                    proof {
                        let i = choose|i: int|
                            0 <= i < l.front.len() && !subst_ok(#[trigger] l.front@[i]@, x@, s@);
                        assert(views(l.front@)[i] == l.front@[i]@);
                        lemma_tail_occurs_in(t@, views(l.front@), i, x@);
                    }
                    return None;
                },
            };
            proof {
                assert forall|i: int| 0 <= i < l.front.len() implies subst_ok(
                    #[trigger] views(l.front@)[i],
                    x@,
                    s@,
                ) by {
                    assert(subst_ok(l.front@[i]@, x@, s@));
                }
            }
            let at_tail = match &l.tail {
                ListTail::End => false,
                ListTail::Unknown(y) => y.same(x),
            };
            if at_tail {
                match s {
                    Term::List(l2) => {
                        proof {
                            lemma_list_view(*l2);
                        }
                        let mut front = front;
                        let mut rest = copy_terms(&l2.front);
                        let ghost pre = front@;
                        let ghost more = rest@;
                        front.append(&mut rest);
                        let r = ListTerm { front, tail: copy_tail(&l2.tail) };
                        proof {
                            lemma_views_append(pre, more);
                            lemma_list_view(r);
                        }
                        Some(Term::List(r))
                    },
                    Term::Unknown(v) => {
                        let r = ListTerm { front, tail: ListTail::Unknown(v.copy()) };
                        proof {
                            lemma_list_view(r);
                        }
                        Some(Term::List(r))
                    },
                    _ => None,
                }
            } else {
                let r = ListTerm { front, tail: copy_tail(&l.tail) };
                proof {
                    lemma_list_view(r);
                }
                Some(Term::List(r))
            }
        },
        Term::Compound(c) => {
            proof {
                lemma_compound_view(*c);
                assert(t@ == c@);
            }
            let args = match subst_terms(&c.args, x, s) {
                Some(a) => a,
                None => {
                    proof {
                        let i = choose|i: int|
                            0 <= i < c.args.len() && !subst_ok(#[trigger] c.args@[i]@, x@, s@);
                        assert(views(c.args@)[i] == c.args@[i]@);
                        lemma_tail_occurs_in(t@, views(c.args@), i, x@);
                    }
                    return None;
                },
            };
            proof {
                assert forall|i: int| 0 <= i < c.args.len() implies subst_ok(
                    #[trigger] views(c.args@)[i],
                    x@,
                    s@,
                ) by {
                    assert(subst_ok(c.args@[i]@, x@, s@));
                }
            }
            let r = CompoundTerm { name: c.name.clone(), args };
            proof {
                lemma_compound_view(r);
            }
            Some(Term::Compound(r))
        },
    }
}

/// `subst_term` on each term of `ts`, or `None` where it fails on one.
pub fn subst_terms(ts: &Vec<Term>, x: &UnknownContents, s: &Term) -> (r: Option<Vec<Term>>)
    ensures
        r is Some == (forall|i: int| 0 <= i < ts.len() ==> subst_ok(#[trigger] ts@[i]@, x@, s@)),
        r matches Some(v) ==> views(v@) == subst_seq(views(ts@), x@, s@),
    decreases ts,
{
    let mut r: Vec<Term> = Vec::new();
    let mut i: usize = 0;
    while i < ts.len()
        invariant
            i <= ts.len(),
            r@.len() == i,
            views(r@) == subst_seq(views(ts@.subrange(0, i as int)), x@, s@),
            forall|j: int| 0 <= j < i ==> subst_ok(#[trigger] ts@[j]@, x@, s@),
        decreases ts.len() - i,
    {
        match subst_term(&ts[i], x, s) {
            Some(t) => {
                let ghost prev = r@;
                r.push(t);
                proof {
                    lemma_views_push(prev, t);
                    assert(views(r@) =~= subst_seq(views(ts@.subrange(0, i + 1)), x@, s@));
                }
            },
            None => {
                return None;
            },
        }
        i = i + 1;
    }
    proof {
        assert(ts@.subrange(0, i as int) =~= ts@);
    }
    Some(r)
}

impl ListTerm {
    /// The empty list `[]`.
    pub fn empty() -> (r: ListTerm)
        ensures
            r@ == empty_list(),
    {
        let r = ListTerm { front: Vec::new(), tail: ListTail::End };
        proof {
            lemma_list_view(r);
            assert(views(r.front@) =~= Seq::<TermView>::empty());
        }
        r
    }
}

impl Term {
    /// Replaces `unknown` by `subs` in place. Fails, leaving no promise on
    /// the term, where `unknown` is a list tail and `subs` cannot be one.
    pub fn simple_substitution(&mut self, unknown: &UnknownContents, subs: &Term) -> (r: Option<
        (),
    >)
        ensures
            r is Some == subst_ok(old(self)@, unknown@, subs@),
            r is Some ==> final(self)@ == subst(old(self)@, unknown@, subs@),
    {
        match subst_term(self, unknown, subs) {
            Some(t) => {
                *self = t;
                Some(())
            },
            None => None,
        }
    }
}

/// `t` with the frame id of each of its variables set to `f`.
pub fn reframe_term(t: &Term, f: u32) -> (r: Term)
    ensures
        r@ == reframe(t@, f),
    decreases t,
{
    match t {
        Term::Unknown(y) => Term::Unknown(UnknownContents { name: y.name.clone(), frame_id: f }),
        Term::Atom(a) => Term::Atom(a.clone()),
        Term::Number(n) => Term::Number(*n),
        Term::List(l) => {
            let tail = match &l.tail {
                ListTail::End => ListTail::End,
                ListTail::Unknown(v) => ListTail::Unknown(
                    UnknownContents { name: v.name.clone(), frame_id: f },
                ),
            };
            let r = ListTerm { front: reframe_terms(&l.front, f), tail };
            proof {
                lemma_list_view(*l);
                lemma_list_view(r);
                assert(t@ == l@);
            }
            Term::List(r)
        },
        Term::Compound(c) => {
            let r = CompoundTerm { name: c.name.clone(), args: reframe_terms(&c.args, f) };
            proof {
                lemma_compound_view(*c);
                lemma_compound_view(r);
                assert(t@ == c@);
            }
            Term::Compound(r)
        },
    }
}

/// `reframe_term` on each term of `ts`.
pub fn reframe_terms(ts: &Vec<Term>, f: u32) -> (r: Vec<Term>)
    ensures
        views(r@) == reframe_seq(views(ts@), f),
    decreases ts,
{
    let mut r: Vec<Term> = Vec::new();
    let mut i: usize = 0;
    while i < ts.len()
        invariant
            i <= ts.len(),
            r@.len() == i,
            views(r@) == reframe_seq(views(ts@.subrange(0, i as int)), f),
        decreases ts.len() - i,
    {
        let t = reframe_term(&ts[i], f);
        let ghost prev = r@;
        r.push(t);
        proof {
            lemma_views_push(prev, t);
            assert(views(r@) =~= reframe_seq(views(ts@.subrange(0, i + 1)), f));
        }
        i = i + 1;
    }
    proof {
        assert(ts@.subrange(0, i as int) =~= ts@);
    }
    r
}

/// The variables of each term of `ts`, in order.
pub fn names_of_terms(ts: &Vec<Term>) -> (r: Vec<UnknownContents>)
    ensures
        var_views(r@) == names_each(views(ts@)).flatten(),
    decreases ts,
{
    let mut r: Vec<UnknownContents> = Vec::new();
    let mut i: usize = 0;
    while i < ts.len()
        invariant
            i <= ts.len(),
            var_views(r@) == names_each(views(ts@.subrange(0, i as int))).flatten(),
        decreases ts.len() - i,
    {
        let mut more = ts[i].collect_names();
        let ghost prev = r@;
        let ghost added = more@;
        r.append(&mut more);
        proof {
            let ne = names_each(views(ts@.subrange(0, i as int)));
            let ne2 = names_each(views(ts@.subrange(0, i + 1)));
            assert(ne2 =~= ne.push(names(ts@[i as int]@)));
            ne.lemma_flatten_push(names(ts@[i as int]@));
            assert(var_views(prev + added) =~= var_views(prev) + var_views(added));
        }
        i = i + 1;
    }
    proof {
        assert(ts@.subrange(0, i as int) =~= ts@);
    }
    r
}

impl Term {
    /// Moves every variable of the term into frame `frame_id`.
    pub fn set_new_frame_id(&mut self, frame_id: u32)
        ensures
            final(self)@ == reframe(old(self)@, frame_id),
    {
        *self = reframe_term(self, frame_id);
    }

    /// The variables of the term, left to right, with repetitions.
    pub fn collect_names(&self) -> (r: Vec<UnknownContents>)
        ensures
            var_views(r@) == names(self@),
        decreases self,
    {
        match self {
            Term::Unknown(s) => {
                let r = vec![s.copy()];
                proof {
                    assert(var_views(r@) =~= seq![s@]);
                }
                r
            },
            Term::Atom(_) => {
                let r: Vec<UnknownContents> = Vec::new();
                proof {
                    assert(var_views(r@) =~= Seq::empty());
                }
                r
            },
            Term::Number(_) => {
                let r: Vec<UnknownContents> = Vec::new();
                proof {
                    assert(var_views(r@) =~= Seq::empty());
                }
                r
            },
            Term::List(l) => {
                proof {
                    lemma_list_view(*l);
                    assert(self@ == l@);
                }
                let mut r = names_of_terms(&l.front);
                let ghost prev = r@;
                match &l.tail {
                    ListTail::Unknown(s) => {
                        r.push(s.copy());
                        proof {
                            assert(var_views(r@) =~= var_views(prev) + seq![s@]);
                        }
                    },
                    ListTail::End => {
                        proof {
                            assert(var_views(r@) =~= var_views(prev) + Seq::empty());
                        }
                    },
                }
                r
            },
            Term::Compound(c) => {
                proof {
                    lemma_compound_view(*c);
                    assert(self@ == c@);
                }
                names_of_terms(&c.args)
            },
        }
    }
}

} // verus!
