//! End-to-end scenarios of the solver over small in-memory registries.

use pubgrub::incompatibility::{Incompatibility, Kind};
use pubgrub::range::Range;
use pubgrub::registry::Registry;
use pubgrub::solver::PubGrubError;

const ROOT: u64 = 0;
const MENU: u64 = 1;
const ICONS: u64 = 2;
const DROPDOWN: u64 = 3;
const A: u64 = 1;
const B: u64 = 2;
const C: u64 = 3;
const X: u64 = 4;

fn sol_get(sol: &[(u64, u64)], p: u64) -> Option<u64> {
    sol.iter().find(|e| e.0 == p).map(|e| e.1)
}

/// Collects every kind in the causal tree rooted at `idx`.
fn collect_kinds(store: &[Incompatibility], idx: usize, out: &mut Vec<usize>) {
    out.push(idx);
    if let Kind::DerivedFrom(a, b) = store[idx].kind() {
        collect_kinds(store, *a, out);
        collect_kinds(store, *b, out);
    }
}

#[test]
fn simple_transitive_solve() {
    let mut reg = Registry::new();
    reg.add_dependencies(ROOT, 1, vec![(MENU, Range::any()), (ICONS, Range::any())]);
    reg.add_dependencies(MENU, 1, vec![(DROPDOWN, Range::any())]);
    reg.add_dependencies(DROPDOWN, 1, vec![(ICONS, Range::any())]);
    reg.add_dependencies(ICONS, 1, vec![]);
    let sol = reg.run(ROOT, 1).unwrap();
    assert_eq!(sol.len(), 4);
    assert_eq!(sol_get(&sol, ROOT), Some(1));
    assert_eq!(sol_get(&sol, MENU), Some(1));
    assert_eq!(sol_get(&sol, ICONS), Some(1));
    assert_eq!(sol_get(&sol, DROPDOWN), Some(1));
}

#[test]
fn dependency_on_the_empty_set_is_fatal() {
    let mut reg = Registry::new();
    reg.add_dependencies(A, 1, vec![(B, Range::none())]);
    match reg.run(A, 1) {
        Err(PubGrubError::DependencyOnTheEmptySet { package, version, dep_package }) => {
            assert_eq!(package, A);
            assert_eq!(version, 1);
            assert_eq!(dep_package, B);
        }
        other => panic!("expected DependencyOnTheEmptySet, got {:?}", kind_name(&other)),
    }
}

#[test]
fn self_dependency_is_fatal() {
    let mut reg = Registry::new();
    reg.add_dependencies(A, 1, vec![(A, Range::any())]);
    match reg.run(A, 1) {
        Err(PubGrubError::SelfDependency { package, version }) => {
            assert_eq!(package, A);
            assert_eq!(version, 1);
        }
        other => panic!("expected SelfDependency, got {:?}", kind_name(&other)),
    }
}

#[test]
fn conflicting_exact_requirements_have_no_solution() {
    let mut reg = Registry::new();
    reg.add_dependencies(ROOT, 1, vec![(A, Range::any()), (B, Range::any())]);
    reg.add_dependencies(A, 1, vec![(C, Range::exact(1))]);
    reg.add_dependencies(B, 1, vec![(C, Range::exact(2))]);
    reg.add_dependencies(C, 2, vec![]);
    reg.add_dependencies(C, 1, vec![]);
    match reg.run(ROOT, 1) {
        Err(PubGrubError::NoSolution { incompatibilities, root_cause }) => {
            // the derivation tree must reference both dependency edges on C
            let mut seen = Vec::new();
            collect_kinds(&incompatibilities, root_cause, &mut seen);
            let mut a_edge = false;
            let mut b_edge = false;
            for i in seen {
                if let Kind::FromDependencyOf(p, _, d) = incompatibilities[i].kind() {
                    if *p == A && *d == C {
                        a_edge = true;
                    }
                    if *p == B && *d == C {
                        b_edge = true;
                    }
                }
            }
            assert!(a_edge && b_edge);
        }
        other => panic!("expected NoSolution, got {:?}", kind_name(&other)),
    }
}

#[test]
fn backtracking_finds_the_compatible_pair() {
    let mut reg = Registry::new();
    reg.add_dependencies(ROOT, 1, vec![(A, Range::any()), (B, Range::any())]);
    reg.add_dependencies(A, 2, vec![(B, Range::exact(1))]);
    reg.add_dependencies(A, 1, vec![]);
    reg.add_dependencies(B, 2, vec![]);
    reg.add_dependencies(B, 1, vec![]);
    let sol = reg.run(ROOT, 1).unwrap();
    assert_eq!(sol_get(&sol, ROOT), Some(1));
    // a@2 is preferred and forces b down to 1
    assert_eq!(sol_get(&sol, A), Some(2));
    assert_eq!(sol_get(&sol, B), Some(1));
}

#[test]
fn no_matching_version_yields_no_solution_with_no_versions_cause() {
    let mut reg = Registry::new();
    reg.add_dependencies(ROOT, 1, vec![(X, Range::exact(5))]);
    reg.add_dependencies(X, 1, vec![]);
    reg.add_dependencies(X, 2, vec![]);
    reg.add_dependencies(X, 3, vec![]);
    match reg.run(ROOT, 1) {
        Err(PubGrubError::NoSolution { incompatibilities, root_cause }) => {
            let mut seen = Vec::new();
            collect_kinds(&incompatibilities, root_cause, &mut seen);
            let mut no_versions_on_x = false;
            for i in seen {
                if let Kind::NoVersions(p, _) = incompatibilities[i].kind() {
                    if *p == X {
                        no_versions_on_x = true;
                    }
                }
            }
            assert!(no_versions_on_x);
        }
        other => panic!("expected NoSolution, got {:?}", kind_name(&other)),
    }
}

#[test]
fn solving_twice_gives_the_same_solution() {
    let mut reg = Registry::new();
    reg.add_dependencies(ROOT, 1, vec![(A, Range::any()), (B, Range::any())]);
    reg.add_dependencies(A, 2, vec![(B, Range::exact(1))]);
    reg.add_dependencies(A, 1, vec![]);
    reg.add_dependencies(B, 2, vec![]);
    reg.add_dependencies(B, 1, vec![]);
    let first = reg.run(ROOT, 1).unwrap();
    let second = reg.run(ROOT, 1).unwrap();
    assert_eq!(first, second);
}

#[test]
fn preferred_version_is_taken_when_free() {
    let mut reg = Registry::new();
    reg.add_dependencies(ROOT, 1, vec![(A, Range::any())]);
    reg.add_dependencies(A, 2, vec![]);
    reg.add_dependencies(A, 1, vec![]);
    let sol = reg.run(ROOT, 1).unwrap();
    assert_eq!(sol_get(&sol, A), Some(2));
}

fn kind_name(r: &Result<Vec<(u64, u64)>, PubGrubError>) -> &'static str {
    match r {
        Ok(_) => "Ok",
        Err(PubGrubError::NoSolution { .. }) => "NoSolution",
        Err(PubGrubError::DependencyOnTheEmptySet { .. }) => "DependencyOnTheEmptySet",
        Err(PubGrubError::SelfDependency { .. }) => "SelfDependency",
        Err(PubGrubError::Failure) => "Failure",
    }
}
