//! The range and term algebra on concrete values.

use pubgrub::range::Range;
use pubgrub::term::{Relation, Term};

#[test]
fn range_membership_of_constructors() {
    assert!(!Range::none().contains(0));
    assert!(Range::any().contains(0));
    assert!(Range::any().contains(u64::MAX));
    let e = Range::exact(5);
    assert!(e.contains(5));
    assert!(!e.contains(4));
    assert!(!e.contains(6));
    let b = Range::between(2, 5);
    assert!(!b.contains(1));
    assert!(b.contains(2));
    assert!(b.contains(4));
    assert!(!b.contains(5));
}

#[test]
fn range_canonical_forms_coincide() {
    // the same set reached along two different algebraic paths
    let left = Range::between(1, 3).union(&Range::between(3, 7));
    let right = Range::between(1, 7);
    assert!(left.eq_range(&right));
    let both = Range::exact(4).union(&Range::exact(5)).union(&Range::exact(6));
    assert!(both.eq_range(&Range::between(4, 7)));
    let double = Range::between(1, 7).negate().negate();
    assert!(double.eq_range(&Range::between(1, 7)));
}

#[test]
fn range_intersection_and_union() {
    let a = Range::between(1, 5);
    let b = Range::between(3, 9);
    let i = a.intersection(&b);
    assert!(i.eq_range(&Range::between(3, 5)));
    let u = a.union(&b);
    assert!(u.eq_range(&Range::between(1, 9)));
    let disjoint = Range::between(1, 2).intersection(&Range::between(3, 4));
    assert!(disjoint.eq_range(&Range::none()));
}

#[test]
fn term_double_negation_restores_the_term() {
    let t = Term::Positive(Range::between(2, 9));
    assert!(t.negate().negate().eq_term(&t));
    let n = Term::Negative(Range::exact(7));
    assert!(n.negate().negate().eq_term(&n));
}

#[test]
fn term_de_morgan_on_values() {
    let a = Term::Positive(Range::between(1, 6));
    let b = Term::Negative(Range::between(4, 9));
    let lhs = a.intersection(&b).negate();
    let rhs = a.negate().union(&b.negate());
    assert!(lhs.eq_term(&rhs));
}

#[test]
fn term_intersection_identities() {
    let t = Term::Negative(Range::between(3, 8));
    assert!(t.intersection(&t).eq_term(&t));
    assert!(t.intersection(&Term::any()).eq_term(&t));
    assert!(t.intersection(&Term::empty()).eq_term(&Term::empty()));
}

#[test]
fn subset_is_intersection_fixpoint() {
    let small = Term::Positive(Range::between(3, 5));
    let big = Term::Positive(Range::between(1, 9));
    assert!(small.subset_of(&big));
    assert!(!big.subset_of(&small));
    assert!(small.intersection(&big).eq_term(&small));
}

#[test]
fn term_contains_depends_on_sign() {
    let p = Term::Positive(Range::exact(3));
    assert!(p.contains(3));
    assert!(!p.contains(4));
    let n = p.negate();
    assert!(!n.contains(3));
    assert!(n.contains(4));
}

#[test]
fn relation_with_agrees_with_satisfied_and_contradicted() {
    let t = Term::Positive(Range::between(2, 6));
    let forcing = vec![Term::Positive(Range::between(3, 5))];
    assert!(matches!(t.relation_with(&forcing), Relation::Satisfied));
    assert!(t.satisfied_by(&forcing));
    let blocking = vec![Term::Positive(Range::between(8, 9))];
    assert!(matches!(t.relation_with(&blocking), Relation::Contradicted));
    assert!(t.contradicted_by(&blocking));
    let open = vec![Term::Positive(Range::between(4, 9))];
    assert!(matches!(t.relation_with(&open), Relation::Inconclusive));
    assert!(!t.satisfied_by(&open));
    assert!(!t.contradicted_by(&open));
    // the empty set of terms forces nothing but the universal term
    let none: Vec<Term> = vec![];
    assert!(matches!(Term::any().relation_with(&none), Relation::Satisfied));
    assert!(matches!(t.relation_with(&none), Relation::Inconclusive));
}

#[test]
fn exact_term_is_positive_and_pointlike() {
    let t = Term::exact(9);
    assert!(t.is_positive());
    assert!(!t.is_negative());
    assert!(t.contains(9));
    assert!(!t.contains(8));
}

#[test]
fn intersect_all_folds_every_term() {
    let terms = vec![
        Term::Positive(Range::between(1, 9)),
        Term::Positive(Range::between(3, 12)),
        Term::Negative(Range::exact(4)),
    ];
    let all = Term::intersect_all(&terms);
    assert!(all.contains(3));
    assert!(!all.contains(4));
    assert!(all.contains(5));
    assert!(!all.contains(9));
    assert!(Term::intersect_all(&vec![]).eq_term(&Term::any()));
}
