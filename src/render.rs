//! The text of terms and answers: `name = term, ...`, or `success`/`fail`.

use vstd::prelude::*;
use crate::lower::{decimal, free_prefix, starts_with, wildcard_prefix};
use crate::number::Number;
use crate::term::{lemma_compound_view, lemma_list_view, views, Term, TermView};
use crate::unifier::{Bindings, Unifier};

verus! {

/// `n` in decimal, with a sign where it is negative.
pub open spec fn int_text(n: int) -> Seq<char> {
    if n < 0 {
        seq!['-'] + decimal((-n) as nat)
    } else {
        decimal(n as nat)
    }
}

/// A number: its numerator, and `/denominator` unless that is 1.
pub open spec fn number_text(n: Number) -> Seq<char> {
    if n.den == 1 {
        int_text(n.num as int)
    } else {
        int_text(n.num as int) + seq!['/'] + int_text(n.den as int)
    }
}

/// An atom's name without its leading quote.
pub open spec fn atom_text(a: Seq<char>) -> Seq<char> {
    if a.len() > 0 && a[0] == '\'' {
        a.drop_first()
    } else {
        a
    }
}

/// `parts` separated by `, `.
pub open spec fn join(parts: Seq<Seq<char>>) -> Seq<char>
    decreases parts.len(),
{
    if parts.len() == 0 {
        Seq::empty()
    } else if parts.len() == 1 {
        parts[0]
    } else {
        join(parts.drop_last()) + seq![',', ' '] + parts.last()
    }
}

/// The text of a term: numbers as rationals, atoms without their quote,
/// lists as `[a, b | tail]` or `[a, b]`, compounds as `name(arg, ...)`,
/// variables by name.
pub open spec fn render(t: TermView) -> Seq<char>
    decreases t,
{
    match t {
        TermView::Var(v) => v.name,
        TermView::Atom(a) => atom_text(a),
        TermView::Num(n) => number_text(n),
        TermView::List(front, tail) => seq!['['] + join(render_each(front)) + match tail {
            Some(v) => if front.len() == 0 {
                seq!['|', ' '] + v.name
            } else {
                seq![' ', '|', ' '] + v.name
            },
            None => Seq::empty(),
        } + seq![']'],
        TermView::Compound(name, args) => name + seq!['('] + join(render_each(args)) + seq![')'],
    }
}

pub open spec fn render_each(ts: Seq<TermView>) -> Seq<Seq<char>>
    decreases ts,
{
    Seq::new(ts.len(), |i: int| if 0 <= i < ts.len() { render(ts[i]) } else { Seq::empty() })
}

/// A name that lowering gives its temporaries: `<Free>...` or `<Tmp_WC>...`.
pub open spec fn temporary(name: Seq<char>) -> bool {
    starts_with(name, free_prefix()) || starts_with(name, wildcard_prefix())
}

/// Whether `s` begins with `p`.
fn has_prefix(s: &str, p: &str) -> (r: bool)
    ensures
        r == starts_with(s@, p@),
{
    let n = s.unicode_len();
    let m = p.unicode_len();
    if m > n {
        return false;
    }
    let mut i: usize = 0;
    while i < m
        invariant
            m <= n,
            n == s@.len(),
            m == p@.len(),
            i <= m,
            forall|j: int| 0 <= j < i ==> s@[j] == p@[j],
        decreases m - i,
    {
        if s.get_char(i) != p.get_char(i) {
            proof {
                assert(s@.subrange(0, m as int)[i as int] != p@[i as int]);
            }
            return false;
        }
        i = i + 1;
    }
    proof {
        assert(s@.subrange(0, m as int) =~= p@);
    }
    true
}

/// Whether `name` is that of a lowering temporary (see `temporary`).
fn is_temporary(name: &str) -> (r: bool)
    ensures
        r == temporary(name@),
{
    proof {
        reveal_strlit("<Free>");
        reveal_strlit("<Tmp_WC>");
        assert("<Free>"@ =~= free_prefix());
        assert("<Tmp_WC>"@ =~= wildcard_prefix());
    }
    has_prefix(name, "<Free>") || has_prefix(name, "<Tmp_WC>")
}

/// The bindings shown in an answer: those of variables of the top-level
/// query (frame `REPL_FRAME_ID`) that are no lowering temporaries.
pub open spec fn shown(u: Bindings) -> Bindings
    decreases u.len(),
{
    if u.len() == 0 {
        u
    } else if u.last().0.frame_id != crate::REPL_FRAME_ID || temporary(u.last().0.name) {
        shown(u.drop_last())
    } else {
        shown(u.drop_last()).push(u.last())
    }
}

/// `name = term` for each binding.
pub open spec fn binding_texts(u: Bindings) -> Seq<Seq<char>> {
    u.map_values(|b: (crate::term::VarView, TermView)| b.0.name + seq![' ', '=', ' '] + render(b.1))
}

/// The text of an answer.
pub open spec fn answer_text(u: Bindings) -> Seq<char> {
    join(binding_texts(shown(u)))
}

/// `n` in decimal, with a minus sign where it is negative.
fn int_string(n: i32) -> (r: String)
    ensures
        r@ == int_text(n as int),
{
    let mut s = String::new();
    if n < 0 {
        proof {
            reveal_strlit("-");
        }
        push_str(&mut s, "-");
        crate::lower::push_decimal(&mut s, (-(n as i64)) as u64);
        proof {
            assert(s@ =~= int_text(n as int));
        }
    } else {
        crate::lower::push_decimal(&mut s, n as u64);
        proof {
            assert(s@ =~= int_text(n as int));
        }
    }
    s
}

fn push_str(s: &mut String, t: &str)
    ensures
        final(s)@ == old(s)@ + t@,
{
    s.append(t);
}

fn number_string(n: Number) -> (r: String)
    ensures
        r@ == number_text(n),
{
    let mut s = int_string(n.num);
    if n.den != 1 {
        proof {
            reveal_strlit("/");
        }
        push_str(&mut s, "/");
        let d = int_string(n.den);
        push_str(&mut s, d.as_str());
        proof {
            assert(s@ =~= number_text(n));
        }
    }
    s
}

fn atom_string(a: &String) -> (r: String)
    ensures
        r@ == atom_text(a@),
{
    let t = a.as_str();
    let n = t.unicode_len();
    if n > 0 && t.get_char(0) == '\'' {
        let rest = t.substring_char(1, n);
        proof {
            assert(rest@ =~= a@.drop_first());
        }
        String::from_str(rest)
    } else {
        a.clone()
    }
}

/// The texts of `ts` joined by `, `, appended to `s`.
fn push_joined(s: &mut String, ts: &Vec<Term>)
    ensures
        final(s)@ == old(s)@ + join(render_each(views(ts@))),
    decreases ts,
{
    let ghost s0 = s@;
    let ghost parts = render_each(views(ts@));
    let mut i: usize = 0;
    proof {
        assert(s@ =~= s0 + join(parts.subrange(0, 0)));
    }
    while i < ts.len()
        invariant
            i <= ts.len(),
            parts == render_each(views(ts@)),
            s@ == s0 + join(parts.subrange(0, i as int)),
        decreases ts.len() - i,
    {
        if i > 0 {
            proof {
                reveal_strlit(", ");
            }
            push_str(s, ", ");
        }
        let t = term_string(&ts[i]);
        push_str(s, t.as_str());
        proof {
            let p = parts.subrange(0, i + 1);
            assert(p.drop_last() =~= parts.subrange(0, i as int));
            assert(p.last() == render(ts@[i as int]@));
            assert(s@ =~= s0 + join(p));
        }
        i = i + 1;
    }
    proof {
        assert(parts.subrange(0, i as int) =~= parts);
    }
}

/// The text of a term (see `render`).
pub fn term_string(t: &Term) -> (r: String)
    ensures
        r@ == render(t@),
    decreases t,
{
    match t {
        Term::Unknown(v) => v.name.clone(),
        Term::Atom(a) => atom_string(a),
        Term::Number(n) => number_string(*n),
        Term::List(l) => {
            proof {
                lemma_list_view(*l);
                assert(t@ == l@);
                reveal_strlit("[");
                reveal_strlit("]");
                reveal_strlit("| ");
                reveal_strlit(" | ");
            }
            let mut s = String::from_str("[");
            push_joined(&mut s, &l.front);
            match &l.tail {
                crate::term::ListTail::Unknown(v) => {
                    if l.front.len() == 0 {
                        push_str(&mut s, "| ");
                    } else {
                        push_str(&mut s, " | ");
                    }
                    push_str(&mut s, v.name.as_str());
                },
                crate::term::ListTail::End => {},
            }
            push_str(&mut s, "]");
            proof {
                assert(s@ =~= render(t@));
            }
            s
        },
        Term::Compound(c) => {
            proof {
                lemma_compound_view(*c);
                assert(t@ == c@);
                reveal_strlit("(");
                reveal_strlit(")");
            }
            let mut s = c.name.clone();
            push_str(&mut s, "(");
            push_joined(&mut s, &c.args);
            push_str(&mut s, ")");
            proof {
                assert(s@ =~= render(t@));
            }
            s
        },
    }
}

/// The text of an answer: `name = term` for each binding of a variable
/// that the user named, joined by `, ` (see `answer_text`).
pub fn fmt_unifier(unif: &Unifier) -> (r: String)
    ensures
        r@ == answer_text(unif@),
{
    let ghost u = unif@;
    let mut s = String::new();
    let mut first = true;
    let mut i: usize = 0;
    proof {
        assert(u.subrange(0, 0) =~= Seq::<(crate::term::VarView, TermView)>::empty());
        assert(binding_texts(Seq::empty()) =~= Seq::<Seq<char>>::empty());
    }
    while i < unif.len()
        invariant
            u == unif@,
            i <= u.len(),
            first == (shown(u.subrange(0, i as int)).len() == 0),
            s@ == join(binding_texts(shown(u.subrange(0, i as int)))),
        decreases u.len() - i,
    {
        let key = unif.key_at(i);
        let name = key.name.as_str();
        let ghost p = u.subrange(0, i + 1);
        proof {
            assert(p.drop_last() =~= u.subrange(0, i as int));
            assert(p.last() == u[i as int]);
        }
        let hidden = key.frame_id != crate::REPL_FRAME_ID || is_temporary(name);
        if !hidden {
            proof {
                reveal_strlit(", ");
                reveal_strlit(" = ");
            }
            if !first {
                push_str(&mut s, ", ");
            }
            push_str(&mut s, name);
            push_str(&mut s, " = ");
            let v = term_string(unif.value_at(i));
            push_str(&mut s, v.as_str());
            first = false;
            proof {
                let sh = shown(u.subrange(0, i as int));
                assert(shown(p) == sh.push(u[i as int]));
                assert(binding_texts(sh.push(u[i as int])) =~= binding_texts(sh).push(
                    u[i as int].0.name + seq![' ', '=', ' '] + render(u[i as int].1),
                ));
                let bt = binding_texts(sh);
                let x = u[i as int].0.name + seq![' ', '=', ' '] + render(u[i as int].1);
                assert(", "@ =~= seq![',', ' ']);
                assert(" = "@ =~= seq![' ', '=', ' ']);
                assert(bt.push(x).drop_last() =~= bt);
                if bt.len() == 0 {
                    assert(join(bt.push(x)) == x);
                } else {
                    assert(join(bt.push(x)) == join(bt) + seq![',', ' '] + x);
                }
                assert(s@ =~= join(binding_texts(shown(p))));
            }
        }
        i = i + 1;
    }
    proof {
        assert(u.subrange(0, i as int) =~= u);
    }
    s
}

} // verus!
