//! Frame ids in use: the largest frame id of any variable in a term, a
//! unifier or a search state, so that a new activation can take one above.

use vstd::prelude::*;
use crate::term::{
    any, lemma_compound_view, lemma_list_view, occurs, occurs_each, views, ListTail, Term,
    TermView, VarView,
};
use crate::unifier::{Bindings, Unifier};

verus! {

pub open spec fn max2(a: u32, b: u32) -> u32 {
    if a >= b {
        a
    } else {
        b
    }
}

/// The largest element of `s`, 0 where it is empty.
pub open spec fn max_of(s: Seq<u32>) -> u32
    decreases s.len(),
{
    if s.len() == 0 {
        0
    } else {
        max2(max_of(s.drop_last()), s.last())
    }
}

/// The largest frame id of a variable in `t`, 0 where it has none.
pub open spec fn max_frame(t: TermView) -> u32
    decreases t,
{
    match t {
        TermView::Var(v) => v.frame_id,
        TermView::Atom(_) => 0,
        TermView::Num(_) => 0,
        TermView::List(front, tail) => max2(
            max_of(max_frame_each(front)),
            match tail {
                Some(v) => v.frame_id,
                None => 0,
            },
        ),
        TermView::Compound(_, args) => max_of(max_frame_each(args)),
    }
}

pub open spec fn max_frame_each(ts: Seq<TermView>) -> Seq<u32>
    decreases ts,
{
    Seq::new(ts.len(), |i: int| if 0 <= i < ts.len() { max_frame(ts[i]) } else { 0 })
}

pub open spec fn terms_max_frame(ts: Seq<TermView>) -> u32 {
    max_of(max_frame_each(ts))
}

pub open spec fn bindings_max_frame(u: Bindings) -> u32 {
    max_of(u.map_values(|b: (VarView, TermView)| max2(b.0.frame_id, max_frame(b.1))))
}

pub proof fn lemma_max_of(s: Seq<u32>, i: int)
    requires
        0 <= i < s.len(),
    ensures
        s[i] <= max_of(s),
    decreases s.len(),
{
    if i < s.len() - 1 {
        lemma_max_of(s.drop_last(), i);
    }
}

/// Every variable of `t` has a frame id no larger than `max_frame(t)`.
pub proof fn lemma_occurs_frame(t: TermView, v: VarView)
    requires
        occurs(t, v),
    ensures
        v.frame_id <= max_frame(t),
    decreases t,
{
    match t {
        TermView::List(front, tail) => {
            if tail != Some(v) {
                let k = choose|k: int| 0 <= k < front.len() && occurs_each(front, v)[k];
                lemma_occurs_frame(front[k], v);
                lemma_max_of(max_frame_each(front), k);
            }
        },
        TermView::Compound(_, args) => {
            let k = choose|k: int| 0 <= k < args.len() && occurs_each(args, v)[k];
            lemma_occurs_frame(args[k], v);
            lemma_max_of(max_frame_each(args), k);
        },
        _ => {},
    }
}

/// Every variable of a term of `ts` has a frame id no larger than
/// `terms_max_frame(ts)`.
pub proof fn lemma_terms_frame(ts: Seq<TermView>, i: int, v: VarView)
    requires
        0 <= i < ts.len(),
        occurs(ts[i], v),
    ensures
        v.frame_id <= terms_max_frame(ts),
{
    lemma_occurs_frame(ts[i], v);
    lemma_max_of(max_frame_each(ts), i);
}

/// Every key of `u`, and every variable of its terms, has a frame id no
/// larger than `bindings_max_frame(u)`.
pub proof fn lemma_bindings_frame(u: Bindings, i: int, v: VarView)
    requires
        0 <= i < u.len(),
        v == u[i].0 || occurs(u[i].1, v),
    ensures
        v.frame_id <= bindings_max_frame(u),
{
    let s = u.map_values(|b: (VarView, TermView)| max2(b.0.frame_id, max_frame(b.1)));
    lemma_max_of(s, i);
    if v != u[i].0 {
        lemma_occurs_frame(u[i].1, v);
    }
}

fn max_u32(a: u32, b: u32) -> (r: u32)
    ensures
        r == max2(a, b),
{
    if a >= b {
        a
    } else {
        b
    }
}

/// `max_frame`, computed.
pub fn term_max_frame(t: &Term) -> (r: u32)
    ensures
        r == max_frame(t@),
    decreases t,
{
    match t {
        Term::Unknown(v) => v.frame_id,
        Term::Atom(_) => 0,
        Term::Number(_) => 0,
        Term::List(l) => {
            proof {
                lemma_list_view(*l);
                assert(t@ == l@);
            }
            let m = terms_max(&l.front);
            let tm = match &l.tail {
                ListTail::End => 0,
                ListTail::Unknown(v) => v.frame_id,
            };
            max_u32(m, tm)
        },
        Term::Compound(c) => {
            proof {
                lemma_compound_view(*c);
                assert(t@ == c@);
            }
            terms_max(&c.args)
        },
    }
}

/// `terms_max_frame`, computed.
pub fn terms_max(ts: &Vec<Term>) -> (r: u32)
    ensures
        r == terms_max_frame(views(ts@)),
    decreases ts,
{
    let mut acc: u32 = 0;
    let mut i: usize = 0;
    proof {
        assert(max_frame_each(views(ts@.subrange(0, 0))) =~= Seq::<u32>::empty());
    }
    while i < ts.len()
        invariant
            i <= ts.len(),
            acc == max_of(max_frame_each(views(ts@.subrange(0, i as int)))),
        decreases ts.len() - i,
    {
        let m = term_max_frame(&ts[i]);
        proof {
            let a = max_frame_each(views(ts@.subrange(0, i + 1)));
            assert(a.drop_last() =~= max_frame_each(views(ts@.subrange(0, i as int))));
            assert(a.last() == max_frame(ts@[i as int]@));
        }
        acc = max_u32(acc, m);
        i = i + 1;
    }
    proof {
        assert(ts@.subrange(0, i as int) =~= ts@);
    }
    acc
}

/// `bindings_max_frame`, computed.
pub fn unifier_max_frame(u: &Unifier) -> (r: u32)
    ensures
        r == bindings_max_frame(u@),
{
    let ghost s = u@.map_values(|b: (VarView, TermView)| max2(b.0.frame_id, max_frame(b.1)));
    let mut acc: u32 = 0;
    let mut i: usize = 0;
    proof {
        assert(s.subrange(0, 0) =~= Seq::<u32>::empty());
    }
    while i < u.len()
        invariant
            i <= u@.len(),
            s == u@.map_values(|b: (VarView, TermView)| max2(b.0.frame_id, max_frame(b.1))),
            acc == max_of(s.subrange(0, i as int)),
        decreases u@.len() - i,
    {
        let m = max_u32(u.key_at(i).frame_id, term_max_frame(u.value_at(i)));
        proof {
            assert(s.subrange(0, i + 1).drop_last() =~= s.subrange(0, i as int));
        }
        acc = max_u32(acc, m);
        i = i + 1;
    }
    proof {
        assert(s.subrange(0, i as int) =~= s);
    }
    acc
}

} // verus!
