use bevel::builtins::{
    builtin_add, builtin_div, builtin_eq, builtin_equ, builtin_geq, builtin_gt, builtin_leq, builtin_lt,
    builtin_mod, builtin_mul, builtin_neq, builtin_sub,
};
use bevel::number::Number;
use bevel::term::{CompoundTerm, ListTail, ListTerm, Term, UnknownContents};
use bevel::unifier::{solve_unifier, Unifier};
use bevel::unify::compute_most_gen_unifier;

fn v(n: &str) -> UnknownContents {
    UnknownContents { name: n.to_string(), frame_id: 1 }
}

fn tv(n: &str) -> Term {
    Term::Unknown(v(n))
}

fn a(n: &str) -> Term {
    Term::Atom(n.to_string())
}

fn n(x: i32) -> Term {
    Term::Number(Number::from_int(x))
}

fn list(front: Vec<Term>) -> Term {
    Term::List(ListTerm { front, tail: ListTail::End })
}

fn list_tail(front: Vec<Term>, tail: &str) -> Term {
    Term::List(ListTerm { front, tail: ListTail::Unknown(v(tail)) })
}

fn comp(name: &str, args: Vec<Term>) -> CompoundTerm {
    CompoundTerm { name: name.to_string(), args }
}

fn bound(u: &Unifier, name: &str) -> Option<Term> {
    u.get(&v(name)).map(bevel::term::copy_term)
}

fn resolved_value(u: &Unifier, name: &str) -> Option<Term> {
    bound(&solve_unifier(u), name)
}

#[test]
fn test_unify() {
    let term1 = Term::Compound(comp("member", vec![tv("Z"), list(vec![a("a"), a("b")])]));
    let term2 = Term::Compound(comp("member", vec![tv("X"), list_tail(vec![tv("X")], "Y")]));
    let u = compute_most_gen_unifier(vec![(term1, term2)]).expect("unifies");
    assert_eq!(resolved_value(&u, "Z"), Some(a("a")));
    assert_eq!(resolved_value(&u, "X"), Some(a("a")));
    assert_eq!(resolved_value(&u, "Y"), Some(list(vec![a("b")])));
}

#[test]
fn empty_list_unifies_with_open_empty_list_only_as_empty() {
    let u = compute_most_gen_unifier(vec![(list(vec![]), list_tail(vec![], "X"))]).expect("unifies");
    assert_eq!(bound(&u, "X"), Some(list(vec![])));
    assert!(compute_most_gen_unifier(vec![(list(vec![]), list(vec![a("a")]))]).is_none());
}

#[test]
fn open_list_takes_the_rest() {
    let u = compute_most_gen_unifier(vec![(
        list_tail(vec![a("a"), a("b")], "T"),
        list(vec![a("a"), a("b"), a("c"), a("d")]),
    )])
    .expect("unifies");
    assert_eq!(bound(&u, "T"), Some(list(vec![a("c"), a("d")])));
}

#[test]
fn open_list_keeps_the_longer_tail() {
    let u = compute_most_gen_unifier(vec![(list_tail(vec![a("a")], "S"), list_tail(vec![a("a"), a("b")], "T"))])
        .expect("unifies");
    assert_eq!(bound(&u, "S"), Some(list_tail(vec![a("b")], "T")));
}

#[test]
fn different_arities_clash() {
    let r = compute_most_gen_unifier(vec![(
        Term::Compound(comp("f", vec![a("a")])),
        Term::Compound(comp("f", vec![a("a"), a("b")])),
    )]);
    assert!(r.is_none());
    let r = compute_most_gen_unifier(vec![(Term::Compound(comp("f", vec![])), Term::Compound(comp("f", vec![])))]);
    assert_eq!(r.map(|u| u.len()), Some(0));
}

#[test]
fn atoms_and_numbers() {
    assert!(compute_most_gen_unifier(vec![(a("x"), a("y"))]).is_none());
    assert!(compute_most_gen_unifier(vec![(n(3), n(4))]).is_none());
    assert!(compute_most_gen_unifier(vec![(n(3), a("x"))]).is_none());
    let u = compute_most_gen_unifier(vec![(n(3), tv("Q"))]).expect("unifies");
    assert_eq!(bound(&u, "Q"), Some(n(3)));
}

#[test]
fn unification_is_symmetric_on_an_example() {
    let l = Term::Compound(comp("g", vec![tv("A"), a("k")]));
    let r = Term::Compound(comp("g", vec![n(2), tv("B")]));
    let u1 = compute_most_gen_unifier(vec![(bevel::term::copy_term(&l), bevel::term::copy_term(&r))]).unwrap();
    let u2 = compute_most_gen_unifier(vec![(r, l)]).unwrap();
    for name in ["A", "B"] {
        assert_eq!(resolved_value(&u1, name), resolved_value(&u2, name));
    }
}

#[test]
fn eq_builtin_matches_mgu() {
    let goal = comp("=", vec![list_tail(vec![tv("H")], "T"), list(vec![n(1), n(2)])]);
    let b = builtin_eq(&goal).expect("unifies");
    let m = compute_most_gen_unifier(vec![(list_tail(vec![tv("H")], "T"), list(vec![n(1), n(2)]))]).unwrap();
    assert_eq!(bound(&b, "H"), bound(&m, "H"));
    assert_eq!(bound(&b, "T"), bound(&m, "T"));
    assert_eq!(bound(&b, "T"), Some(list(vec![n(2)])));
    assert!(builtin_eq(&comp("=", vec![a("x")])).is_none());
}

#[test]
fn division_by_zero_fails() {
    assert!(builtin_div(&comp("/", vec![tv("A"), n(0), n(3)])).is_none());
    assert!(builtin_div(&comp("/", vec![n(5), n(0), tv("C")])).is_none());
    assert!(builtin_div(&comp("/", vec![n(0), n(0), n(0)])).is_none());
    assert!(builtin_div(&comp("/", vec![n(5), tv("B"), n(0)])).is_none());
}

#[test]
fn structural_equality_of_lists() {
    let same = comp("==", vec![list(vec![n(1), n(2), n(3)]), list(vec![n(1), n(2), n(3)])]);
    assert!(builtin_equ(&same).is_some());
    let differ = comp("==", vec![list(vec![n(1), n(2), n(3)]), list(vec![n(1), n(5), n(3)])]);
    assert!(builtin_equ(&differ).is_none());
    let shorter = comp("==", vec![list(vec![n(1)]), list(vec![n(1), n(2)])]);
    assert!(builtin_equ(&shorter).is_none());
    assert!(builtin_equ(&comp("==", vec![tv("X"), n(1)])).is_none());
}

#[test]
fn arithmetic_in_each_direction() {
    assert_eq!(bound(&builtin_add(&comp("+", vec![n(2), n(3), tv("C")])).unwrap(), "C"), Some(n(5)));
    assert_eq!(bound(&builtin_add(&comp("+", vec![tv("A"), n(3), n(10)])).unwrap(), "A"), Some(n(7)));
    assert_eq!(bound(&builtin_add(&comp("+", vec![n(4), tv("B"), n(10)])).unwrap(), "B"), Some(n(6)));
    assert!(builtin_add(&comp("+", vec![n(1), n(1), n(2)])).is_some());
    assert!(builtin_add(&comp("+", vec![n(1), n(1), n(3)])).is_none());
    assert_eq!(bound(&builtin_sub(&comp("-", vec![tv("A"), n(3), n(10)])).unwrap(), "A"), Some(n(13)));
    assert_eq!(bound(&builtin_sub(&comp("-", vec![n(10), tv("B"), n(3)])).unwrap(), "B"), Some(n(7)));
    assert_eq!(bound(&builtin_mul(&comp("*", vec![tv("A"), n(4), n(12)])).unwrap(), "A"), Some(n(3)));
    assert_eq!(
        bound(&builtin_div(&comp("/", vec![n(9), n(6), tv("C")])).unwrap(), "C"),
        Some(Term::Number(Number { num: 3, den: 2 }))
    );
    assert_eq!(bound(&builtin_div(&comp("/", vec![tv("A"), n(4), n(2)])).unwrap(), "A"), Some(n(8)));
    assert_eq!(bound(&builtin_mod(&comp("%", vec![n(9), n(5), tv("C")])).unwrap(), "C"), Some(n(4)));
    assert_eq!(bound(&builtin_mod(&comp("%", vec![n(-9), n(5), tv("C")])).unwrap(), "C"), Some(n(-4)));
    assert!(builtin_mod(&comp("%", vec![tv("A"), n(5), n(4)])).is_none());
    assert!(builtin_add(&comp("+", vec![tv("A"), tv("B"), n(4)])).is_none());
}

#[test]
fn substituting_twice_changes_nothing() {
    let mut u = Unifier::new();
    u.insert(v("X"), list(vec![n(1), tv("Z")]));
    u.insert(v("T"), list(vec![a("c")]));
    let mut once = Term::Compound(comp("f", vec![tv("X"), list_tail(vec![tv("X")], "T")]));
    once.substitute_all(&u).expect("applies");
    let mut twice = bevel::term::copy_term(&once);
    twice.substitute_all(&u).expect("applies");
    assert_eq!(once, twice);
    assert_eq!(
        once,
        Term::Compound(comp(
            "f",
            vec![list(vec![n(1), tv("Z")]), list(vec![list(vec![n(1), tv("Z")]), a("c")])]
        ))
    );
}

#[test]
fn resolved_unifier_binds_no_bound_variable() {
    let mut u = Unifier::new();
    u.insert(v("A"), tv("B"));
    u.insert(v("B"), tv("C"));
    u.insert(v("C"), n(7));
    u.insert(v("D"), tv("E"));
    let r = solve_unifier(&u);
    assert_eq!(bound(&r, "A"), Some(n(7)));
    assert_eq!(bound(&r, "B"), Some(n(7)));
    assert_eq!(bound(&r, "D"), Some(tv("E")));
    for i in 0..r.len() {
        if let Term::Unknown(x) = r.value_at(i) {
            assert!(r.get(x).is_none());
        }
    }
}

#[test]
fn substitution_of_a_tail_by_an_atom_fails() {
    let mut t = list_tail(vec![n(1)], "T");
    assert!(t.simple_substitution(&v("T"), &a("x")).is_none());
    let mut t = list_tail(vec![n(1)], "T");
    assert!(t.simple_substitution(&v("T"), &tv("S")).is_some());
    assert_eq!(t, list_tail(vec![n(1)], "S"));
}

#[test]
fn results_too_wide_for_a_number_fail() {
    assert!(builtin_add(&comp("+", vec![n(i32::MAX), n(1), tv("C")])).is_none());
    assert!(builtin_mul(&comp("*", vec![n(65536), n(65536), tv("C")])).is_none());
    assert_eq!(
        bound(&builtin_sub(&comp("-", vec![n(i32::MAX), n(1), tv("C")])).unwrap(), "C"),
        Some(n(i32::MAX - 1))
    );
}

#[test]
fn comparisons_on_rationals() {
    let half = Term::Number(Number { num: 1, den: 2 });
    let third = Term::Number(Number { num: 1, den: 3 });
    assert!(builtin_gt(&comp(">", vec![bevel::term::copy_term(&half), bevel::term::copy_term(&third)])).is_some());
    assert!(builtin_lt(&comp("<", vec![bevel::term::copy_term(&half), bevel::term::copy_term(&third)])).is_none());
    assert!(builtin_leq(&comp("<=", vec![n(2), n(2)])).is_some());
    assert!(builtin_geq(&comp(">=", vec![n(1), n(2)])).is_none());
    assert!(builtin_neq(&comp("!=", vec![n(1), n(1)])).is_none());
    assert!(builtin_neq(&comp("!=", vec![half, third])).is_some());
    assert!(builtin_gt(&comp(">", vec![tv("X"), n(1)])).is_none());
}

#[test]
fn resolved_unifier_replaces_nested_bound_variables() {
    let mut u = Unifier::new();
    u.insert(v("X"), Term::Compound(comp("f", vec![tv("Y")])));
    u.insert(v("Y"), a("a"));
    u.insert(v("L"), list_tail(vec![n(1)], "T"));
    u.insert(v("T"), list(vec![n(2)]));
    let r = solve_unifier(&u);
    assert_eq!(bound(&r, "X"), Some(Term::Compound(comp("f", vec![a("a")]))));
    assert_eq!(bound(&r, "L"), Some(list(vec![n(1), n(2)])));
}

#[test]
fn answers_show_only_query_variables() {
    let mut u = Unifier::new();
    u.insert(v("y"), n(3));
    u.insert(UnknownContents { name: "w".to_string(), frame_id: 7 }, n(4));
    assert_eq!(bevel::render::fmt_unifier(&u), "y = 3");
}

#[test]
fn builtin_names_are_the_thirteen() {
    let names: Vec<String> = bevel::builtins::builtins().into_iter().map(|(s, _)| s).collect();
    let expected = ["=", "+", "-", "*", "/", "%", ">", "<", "<=", ">=", "==", "!=", "print"];
    assert_eq!(names, expected.iter().map(|s| s.to_string()).collect::<Vec<_>>());
}

#[test]
fn numbers_not_in_lowest_terms_are_refused() {
    let two_halves = Term::Number(Number { num: 2, den: 2 });
    assert!(builtin_add(&comp("+", vec![two_halves, n(1), tv("C")])).is_none());
    assert!(Number { num: 2, den: 4 }.is_wf() == false);
    assert!(Number { num: -3, den: 4 }.is_wf());
    assert!(!Number { num: 1, den: 0 }.is_wf());
}

#[test]
fn only_lowering_temporaries_are_hidden() {
    let mut u = Unifier::new();
    u.insert(v("<Q>"), n(1));
    u.insert(v("<Free>3"), n(2));
    u.insert(v("<Tmp_WC>0"), n(3));
    assert_eq!(bevel::render::fmt_unifier(&u), "<Q> = 1");
}
