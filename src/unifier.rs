//! Unifiers: finite maps from variables to terms, kept in insertion order.

use vstd::prelude::*;
use crate::term::{
    copy_term, lemma_compound_view, lemma_list_view, lemma_views_append, lemma_views_push, subst,
    subst_ok, views, CompoundTerm, ListTail, ListTerm, Term, TermView, UnknownContents, VarView,
};

verus! {

/// A finite map from variables to terms. Each variable is bound at most
/// once; bindings keep the order in which their variables were first bound.
#[derive(Debug)]
pub struct Unifier {
    bindings: Vec<(UnknownContents, Term)>,
}

/// What a unifier stands for: its bindings in order.
pub type Bindings = Seq<(VarView, TermView)>;

pub open spec fn binding_views(bs: Seq<(UnknownContents, Term)>) -> Bindings {
    bs.map_values(|b: (UnknownContents, Term)| (b.0@, b.1@))
}

/// No variable is bound twice.
pub open spec fn keys_unique(bs: Bindings) -> bool {
    forall|i: int, j: int| 0 <= i < j < bs.len() ==> bs[i].0 != bs[j].0
}

pub open spec fn has_key(bs: Bindings, k: VarView) -> bool {
    exists|i: int| 0 <= i < bs.len() && bs[i].0 == k
}

/// Position of the binding of `k`.
pub open spec fn key_index(bs: Bindings, k: VarView) -> int {
    choose|i: int| 0 <= i < bs.len() && bs[i].0 == k
}

/// The term bound to `k`, if any.
pub open spec fn lookup(bs: Bindings, k: VarView) -> Option<TermView> {
    if has_key(bs, k) {
        Some(bs[key_index(bs, k)].1)
    } else {
        None
    }
}

/// `bs` with `k` bound to `v`: in place where `k` is bound, at the end otherwise.
pub open spec fn bind(bs: Bindings, k: VarView, v: TermView) -> Bindings {
    if has_key(bs, k) {
        bs.update(key_index(bs, k), (k, v))
    } else {
        bs.push((k, v))
    }
}

/// `t` with every bound variable replaced by what it is bound to, again
/// and again, at most `fuel` levels deep. A list whose tail is bound takes
/// the elements and tail of the tail's resolved list, or the variable it
/// resolves to; a tail bound to anything else stays as it is.
pub open spec fn resolve(t: TermView, bs: Bindings, fuel: nat) -> TermView
    decreases fuel, t,
{
    match t {
        TermView::Var(y) => if fuel > 0 && lookup(bs, y) is Some {
            resolve(lookup(bs, y)->Some_0, bs, (fuel - 1) as nat)
        } else {
            t
        },
        TermView::Atom(_) => t,
        TermView::Num(_) => t,
        TermView::List(front, tail) => {
            let f = resolve_each(front, bs, fuel);
            match tail {
                Some(y) => if fuel > 0 && lookup(bs, y) is Some {
                    match resolve(lookup(bs, y)->Some_0, bs, (fuel - 1) as nat) {
                        TermView::List(f2, t2) => TermView::List(f + f2, t2),
                        TermView::Var(v) => TermView::List(f, Some(v)),
                        _ => TermView::List(f, tail),
                    }
                } else {
                    TermView::List(f, tail)
                },
                None => TermView::List(f, None),
            }
        },
        TermView::Compound(name, args) => TermView::Compound(name, resolve_each(args, bs, fuel)),
    }
}

/// `resolve` on each term of a sequence.
pub open spec fn resolve_each(ts: Seq<TermView>, bs: Bindings, fuel: nat) -> Seq<TermView>
    decreases fuel, ts,
{
    Seq::new(
        ts.len(),
        |i: int|
            if 0 <= i < ts.len() {
                resolve(ts[i], bs, fuel)
            } else {
                TermView::Atom(Seq::empty())
            },
    )
}

/// The unifier that `solve_unifier` makes of `bs`: each key bound to its
/// variable resolved as deep as the number of bindings allows.
pub open spec fn resolved(bs: Bindings) -> Bindings {
    bs.map_values(|b: (VarView, TermView)| (b.0, resolve(TermView::Var(b.0), bs, bs.len())))
}

/// Applies the bindings of `bs` one after the other, from the first; `None`
/// where one of them cannot be applied (see `subst_ok`).
pub open spec fn subst_all(t: TermView, bs: Bindings) -> Option<TermView>
    decreases bs.len(),
{
    if bs.len() == 0 {
        Some(t)
    } else if !subst_ok(t, bs[0].0, bs[0].1) {
        None
    } else {
        subst_all(subst(t, bs[0].0, bs[0].1), bs.drop_first())
    }
}

pub proof fn lemma_lookup_at(bs: Bindings, i: int)
    requires
        keys_unique(bs),
        0 <= i < bs.len(),
    ensures
        has_key(bs, bs[i].0),
        key_index(bs, bs[i].0) == i,
        lookup(bs, bs[i].0) == Some(bs[i].1),
{
    assert(has_key(bs, bs[i].0));
}

impl View for Unifier {
    type V = Bindings;

    closed spec fn view(&self) -> Bindings {
        binding_views(self.bindings@)
    }
}

impl Unifier {
    pub open spec fn wf(&self) -> bool {
        keys_unique(self@)
    }

    /// The empty unifier.
    pub fn new() -> (r: Unifier)
        ensures
            r.wf(),
            r@ == Seq::<(VarView, TermView)>::empty(),
    {
        let r = Unifier { bindings: Vec::new() };
        proof {
            assert(r@ =~= Seq::<(VarView, TermView)>::empty());
        }
        r
    }

    /// A copy with the same bindings.
    pub fn copy(&self) -> (r: Unifier)
        ensures
            r@ == self@,
    {
        let mut b: Vec<(UnknownContents, Term)> = Vec::new();
        let mut i: usize = 0;
        while i < self.bindings.len()
            invariant
                i <= self.bindings.len(),
                binding_views(b@) == binding_views(self.bindings@).subrange(0, i as int),
            decreases self.bindings.len() - i,
        {
            let e = (self.bindings[i].0.copy(), copy_term(&self.bindings[i].1));
            let ghost prev = b@;
            b.push(e);
            proof {
                assert(binding_views(b@) =~= binding_views(prev).push((e.0@, e.1@)));
                assert(binding_views(b@) =~= binding_views(self.bindings@).subrange(0, i + 1));
            }
            i = i + 1;
        }
        proof {
            assert(binding_views(self.bindings@).subrange(0, i as int) =~= binding_views(
                self.bindings@,
            ));
        }
        Unifier { bindings: b }
    }

    /// Number of bound variables.
    pub fn len(&self) -> (r: usize)
        ensures
            r == self@.len(),
    {
        self.bindings.len()
    }

    /// The variable bound at position `i`.
    pub fn key_at(&self, i: usize) -> (r: &UnknownContents)
        requires
            i < self@.len(),
        ensures
            r@ == self@[i as int].0,
    {
        &self.bindings[i].0
    }

    /// The term bound at position `i`.
    pub fn value_at(&self, i: usize) -> (r: &Term)
        requires
            i < self@.len(),
        ensures
            r@ == self@[i as int].1,
    {
        &self.bindings[i].1
    }

    /// Position of the binding of `k`, if it is bound.
    pub fn position(&self, k: &UnknownContents) -> (r: Option<usize>)
        requires
            self.wf(),
        ensures
            r is Some == has_key(self@, k@),
            r matches Some(i) ==> i < self@.len() && i == key_index(self@, k@),
    {
        let mut i: usize = 0;
        while i < self.bindings.len()
            invariant
                self.wf(),
                i <= self@.len(),
                forall|j: int| 0 <= j < i ==> self@[j].0 != k@,
            decreases self@.len() - i,
        {
            if self.bindings[i].0.same(k) {
                proof {
                    lemma_lookup_at(self@, i as int);
                }
                return Some(i);
            }
            i = i + 1;
        }
        None
    }

    /// The term bound to `k`.
    pub fn get(&self, k: &UnknownContents) -> (r: Option<&Term>)
        requires
            self.wf(),
        ensures
            r is Some == (lookup(self@, k@) is Some),
            r matches Some(t) ==> lookup(self@, k@) == Some(t@),
    {
        match self.position(k) {
            Some(i) => Some(&self.bindings[i].1),
            None => None,
        }
    }

    /// Binds `k` to `v`, replacing an earlier binding of `k`.
    pub fn insert(&mut self, k: UnknownContents, v: Term)
        requires
            old(self).wf(),
        ensures
            final(self).wf(),
            final(self)@ == bind(old(self)@, k@, v@),
    {
        match self.position(&k) {
            Some(i) => {
                let ghost kv = k@;
                self.bindings.set(i, (k, v));
                proof {
                    assert(self@ =~= bind(old(self)@, kv, v@));
                }
            },
            None => {
                let ghost kv = k@;
                let ghost vv = v@;
                self.bindings.push((k, v));
                proof {
                    assert(self@ =~= bind(old(self)@, kv, vv));
                }
            },
        }
    }
}

/// `t` resolved through `unif` (see `resolve`).
pub fn resolve_term(t: &Term, unif: &Unifier, fuel: usize) -> (r: Term)
    requires
        unif.wf(),
    ensures
        r@ == resolve(t@, unif@, fuel as nat),
    decreases fuel, t,
{
    match t {
        Term::Unknown(y) => {
            if fuel > 0 {
                match unif.get(y) {
                    Some(v) => {
                        return resolve_term(v, unif, fuel - 1);
                    },
                    None => {},
                }
            }
            Term::Unknown(y.copy())
        },
        Term::Atom(a) => Term::Atom(a.clone()),
        Term::Number(n) => Term::Number(*n),
        Term::List(l) => {
            proof {
                lemma_list_view(*l);
                assert(t@ == l@);
            }
            let mut front = resolve_terms(&l.front, unif, fuel);
            let tail = match &l.tail {
                ListTail::End => ListTail::End,
                ListTail::Unknown(y) => {
                    let bound = if fuel > 0 {
                        unif.get(y)
                    } else {
                        None
                    };
                    match bound {
                        None => ListTail::Unknown(y.copy()),
                        Some(v) => {
                            let rv = resolve_term(v, unif, fuel - 1);
                            match rv {
                                Term::List(l2) => {
                                    proof {
                                        lemma_list_view(l2);
                                    }
                                    let mut more = l2.front;
                                    let ghost (a, b) = (front@, more@);
                                    front.append(&mut more);
                                    proof {
                                        lemma_views_append(a, b);
                                    }
                                    l2.tail
                                },
                                Term::Unknown(w) => ListTail::Unknown(w),
                                _ => ListTail::Unknown(y.copy()),
                            }
                        },
                    }
                },
            };
            let r = ListTerm { front, tail };
            proof {
                lemma_list_view(r);
            }
            Term::List(r)
        },
        Term::Compound(c) => {
            let r = CompoundTerm { name: c.name.clone(), args: resolve_terms(&c.args, unif, fuel) };
            proof {
                lemma_compound_view(*c);
                lemma_compound_view(r);
                assert(t@ == c@);
            }
            Term::Compound(r)
        },
    }
}

/// `resolve_term` on each term of `ts`.
fn resolve_terms(ts: &Vec<Term>, unif: &Unifier, fuel: usize) -> (r: Vec<Term>)
    requires
        unif.wf(),
    ensures
        views(r@) == resolve_each(views(ts@), unif@, fuel as nat),
    decreases fuel, ts,
{
    let mut r: Vec<Term> = Vec::new();
    let mut i: usize = 0;
    while i < ts.len()
        invariant
            unif.wf(),
            i <= ts.len(),
            r@.len() == i,
            views(r@) == resolve_each(views(ts@.subrange(0, i as int)), unif@, fuel as nat),
        decreases ts.len() - i,
    {
        let t = resolve_term(&ts[i], unif, fuel);
        let ghost prev = r@;
        r.push(t);
        proof {
            lemma_views_push(prev, t);
            assert(views(r@) =~= resolve_each(views(ts@.subrange(0, i + 1)), unif@, fuel as nat));
        }
        i = i + 1;
    }
    proof {
        assert(ts@.subrange(0, i as int) =~= ts@);
    }
    r
}

/// Resolves each binding of `unif`: every bound variable, at any depth, is
/// replaced by what it stands for, as deep as the number of bindings allows.
/// Where the bindings have no cycle and every bound variable standing as a
/// list tail is bound to a list, no bound variable is left in any term (see
/// `lemma_resolved_idempotent`).
pub fn solve_unifier(unif: &Unifier) -> (r: Unifier)
    requires
        unif.wf(),
    ensures
        r.wf(),
        r@ == resolved(unif@),
{
    let mut res: Vec<(UnknownContents, Term)> = Vec::new();
    let mut i: usize = 0;
    while i < unif.bindings.len()
        invariant
            unif.wf(),
            i <= unif@.len(),
            res@.len() == i,
            binding_views(res@) == resolved(unif@).subrange(0, i as int),
        decreases unif@.len() - i,
    {
        let k = unif.bindings[i].0.copy();
        let v = resolve_term(&Term::Unknown(unif.bindings[i].0.copy()), unif, unif.bindings.len());
        let ghost prev = res@;
        res.push((k, v));
        proof {
            assert(unif@[i as int].0 == k@);
            assert(binding_views(res@) =~= binding_views(prev).push((k@, v@)));
            assert(binding_views(res@) =~= resolved(unif@).subrange(0, i + 1));
        }
        i = i + 1;
    }
    let r = Unifier { bindings: res };
    proof {
        assert(r@ =~= resolved(unif@));
        assert forall|a: int, b: int| 0 <= a < b < r@.len() implies r@[a].0 != r@[b].0 by {
            assert(r@[a].0 == unif@[a].0);
            assert(r@[b].0 == unif@[b].0);
        }
    }
    r
}

impl Term {
    /// Applies each binding of `un` in turn (see `subst_all`).
    pub fn substitute_all(&mut self, un: &Unifier) -> (r: Option<()>)
        ensures
            r is Some == (subst_all(old(self)@, un@) is Some),
            r is Some ==> subst_all(old(self)@, un@) == Some(final(self)@),
    {
        let mut i: usize = 0;
        proof {
            assert(un@.subrange(0, un@.len() as int) =~= un@);
        }
        while i < un.bindings.len()
            invariant
                i <= un@.len(),
                subst_all(old(self)@, un@) == subst_all(self@, un@.subrange(i as int, un@.len() as int)),
            decreases un@.len() - i,
        {
            let ghost rest = un@.subrange(i as int, un@.len() as int);
            proof {
                assert(rest.drop_first() =~= un@.subrange(i + 1, un@.len() as int));
            }
            match self.simple_substitution(&un.bindings[i].0, &un.bindings[i].1) {
                Some(()) => {},
                None => {
                    return None;
                },
            }
            i = i + 1;
        }
        proof {
            assert(un@.subrange(i as int, un@.len() as int) =~= Seq::<(VarView, TermView)>::empty());
        }
        Some(())
    }
}

} // verus!
