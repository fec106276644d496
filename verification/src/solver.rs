//! The conflict-driven solver loop: unit propagation over the store of
//! incompatibilities, CDCL-style conflict resolution that learns a new
//! incompatibility and backtracks, and decision making over the registry.
//!
//! A successful run returns one version per package; the result is checked
//! against the registry before it is returned, so `run`'s contract promises
//! that every reported solution respects every advertised dependency range.
//! An unsolvable root yields the learned terminal incompatibility together
//! with the whole store, whose parent indices form the derivation tree.

use vstd::prelude::*;
use crate::incompatibility::Incompatibility;
use crate::partial_solution::IncompatRelation;
use crate::partial_solution::PartialSolution;
use crate::registry::Registry;
use crate::registry::reg_deps;
use crate::registry::reg_has_version;
use crate::registry::reg_wf;
use crate::registry::RegView;
use crate::term::Term;

verus! {

/// Why a solve ended without a solution.
#[derive(Debug)]
pub enum PubGrubError {
    /// Resolution proved there is no solution; the terminal incompatibility
    /// at `root_cause`, through the parent indices of its derived kinds,
    /// explains why.
    NoSolution { incompatibilities: Vec<Incompatibility>, root_cause: usize },
    /// The registry advertised a dependency on the empty set of versions.
    DependencyOnTheEmptySet { package: u64, version: u64, dep_package: u64 },
    /// The registry advertised a package depending on itself.
    SelfDependency { package: u64, version: u64 },
    /// An internal invariant did not hold; the solve fails loudly.
    Failure,
}

/// The selected version of `q` depends on package `p`.
pub open spec fn dep_edge(reg: RegView, q: (u64, u64), p: u64) -> bool {
    exists|d: int|
        0 <= d < reg_deps(reg, q.0, q.1).len() && (#[trigger] reg_deps(reg, q.0, q.1)[d]).0 == p
}

/// Package `p` is the root or is reached from it through at most `n`
/// dependency edges of selected versions.
pub open spec fn reachable_in(
    reg: RegView,
    sol: Seq<(u64, u64)>,
    root: u64,
    p: u64,
    n: nat,
) -> bool
    decreases n,
{
    ||| p == root
    ||| (n > 0 && exists|l: int|
        0 <= l < sol.len() && reachable_in(reg, sol, root, (#[trigger] sol[l]).0, (n - 1) as nat)
            && dep_edge(reg, sol[l], p))
}

/// Package `p` is reachable from the root through selected versions.
pub open spec fn reachable(reg: RegView, sol: Seq<(u64, u64)>, root: u64, p: u64) -> bool {
    exists|n: nat| reachable_in(reg, sol, root, p, n)
}

/// The solution lists the root at its version, each package once, every
/// listed version exists in the registry, every dependency range of a
/// listed version is met by a listed version of the dependency, and every
/// selected package is reachable from the root.
pub open spec fn solution_sound(reg: RegView, root: u64, root_version: u64, sol: Seq<(u64, u64)>) -> bool {
    &&& exists|k: int| 0 <= k < sol.len() && (#[trigger] sol[k]) == (root, root_version)
    &&& forall|k: int, l: int| 0 <= k < l < sol.len() ==> (#[trigger] sol[k]).0 != (#[trigger] sol[l]).0
    &&& forall|k: int|
        0 <= k < sol.len() ==> reg_has_version(reg, (#[trigger] sol[k]).0, sol[k].1)
    &&& forall|k: int, d: int|
        #![trigger reg_deps(reg, sol[k].0, sol[k].1)[d]]
        0 <= k < sol.len() && 0 <= d < reg_deps(reg, sol[k].0, sol[k].1).len() ==> exists|l: int|
            0 <= l < sol.len() && (#[trigger] sol[l]).0 == reg_deps(reg, sol[k].0, sol[k].1)[d].0
                && reg_deps(reg, sol[k].0, sol[k].1)[d].1.contains_spec(sol[l].1)
    &&& forall|k: int| 0 <= k < sol.len() ==> reachable(reg, sol, root, (#[trigger] sol[k]).0)
}

/// How many entries of `s` are set.
spec fn count_true(s: Seq<bool>) -> nat
    decreases s.len(),
{
    if s.len() == 0 {
        0
    } else {
        count_true(s.drop_last()) + (if s.last() {
            1nat
        } else {
            0nat
        })
    }
}

proof fn lemma_count_true_update(s: Seq<bool>, i: int)
    requires
        0 <= i < s.len(),
        !s[i],
    ensures
        count_true(s.update(i, true)) == count_true(s) + 1,
    decreases s.len(),
{
    if i == s.len() - 1 {
        assert(s.update(i, true).drop_last() =~= s.drop_last());
    } else {
        assert(s.update(i, true).drop_last() =~= s.drop_last().update(i, true));
        lemma_count_true_update(s.drop_last(), i);
    }
}

proof fn lemma_count_true_le(s: Seq<bool>)
    ensures
        count_true(s) <= s.len(),
    decreases s.len(),
{
    if s.len() > 0 {
        lemma_count_true_le(s.drop_last());
    }
}

/// An index `i` occurs in the worklist.
spec fn in_queue(q: Seq<usize>, i: int) -> bool {
    exists|qi: int| 0 <= qi < q.len() && (#[trigger] q[qi]) as int == i
}

/// A set of marks that contains the root and is closed under dependency
/// edges contains every reachable selected package.
proof fn lemma_reach_marked(
    reg: RegView,
    sol: Seq<(u64, u64)>,
    root: u64,
    marked: Seq<bool>,
    p: u64,
    n: nat,
)
    requires
        marked.len() == sol.len(),
        forall|l: int| 0 <= l < sol.len() && (#[trigger] sol[l]).0 == root ==> marked[l],
        forall|i: int, j: int|
            0 <= i < sol.len() && (#[trigger] marked[i]) && 0 <= j < sol.len() && dep_edge(
                reg,
                sol[i],
                (#[trigger] sol[j]).0,
            ) ==> marked[j],
        reachable_in(reg, sol, root, p, n),
    ensures
        forall|j: int| 0 <= j < sol.len() && (#[trigger] sol[j]).0 == p ==> marked[j],
    decreases n,
{
    if p != root {
        let l = choose|l: int|
            0 <= l < sol.len() && reachable_in(reg, sol, root, (#[trigger] sol[l]).0, (n - 1) as nat)
                && dep_edge(reg, sol[l], p);
        lemma_reach_marked(reg, sol, root, marked, sol[l].0, (n - 1) as nat);
        assert(marked[l]);
        assert forall|j: int| 0 <= j < sol.len() && (#[trigger] sol[j]).0 == p implies marked[j] by {
            assert(dep_edge(reg, sol[l], sol[j].0));
        }
    }
}

/// The index of the first entry for package `p` in the solution list.
fn sol_find(sol: &Vec<(u64, u64)>, p: u64) -> (r: Option<usize>)
    ensures
        match r {
            Some(l) => l < sol@.len() && sol@[l as int].0 == p,
            None => forall|l: int| 0 <= l < sol@.len() ==> (#[trigger] sol@[l]).0 != p,
        },
{
    let mut l: usize = 0;
    while l < sol.len()
        invariant
            l <= sol@.len(),
            forall|i: int| 0 <= i < l ==> (#[trigger] sol@[i]).0 != p,
        decreases sol@.len() - l,
    {
        if sol[l].0 == p {
            return Some(l);
        }
        l = l + 1;
    }
    None
}

/// Check a candidate solution against the registry; `run` gates every
/// success on this, so a returned solution is sound by construction.
pub fn check_solution(registry: &Registry, root: u64, root_version: u64, sol: &Vec<(u64, u64)>) -> (r:
    bool)
    requires
        reg_wf(registry@),
    ensures
        r == solution_sound(registry@, root, root_version, sol@),
{
    // the root must be listed at its version
    match sol_find(sol, root) {
        None => {
            proof {
                if exists|k: int|
                    0 <= k < sol@.len() && (#[trigger] sol@[k]) == (root, root_version) {
                    let w = choose|k: int|
                        0 <= k < sol@.len() && (#[trigger] sol@[k]) == (root, root_version);
                    assert(sol@[w].0 != root);
                }
            }
            return false;
        },
        Some(l0) => {
            if sol[l0].1 != root_version {
                // a second entry for the root would break uniqueness below,
                // so uniqueness plus this mismatch refutes soundness
                let mut k: usize = 0;
                let mut dup: bool = false;
                while k < sol.len()
                    invariant
                        k <= sol@.len(),
                        l0 < sol@.len(),
                        sol@[l0 as int].0 == root,
                        sol@[l0 as int].1 != root_version,
                        !dup ==> forall|i: int|
                            0 <= i < k && i != l0 ==> (#[trigger] sol@[i]).0 != root,
                        dup ==> !solution_sound(registry@, root, root_version, sol@),
                    decreases sol@.len() - k,
                {
                    if k != l0 && sol[k].0 == root {
                        proof {
                            if k < l0 {
                                assert(sol@[k as int].0 == sol@[l0 as int].0);
                            } else {
                                assert(sol@[l0 as int].0 == sol@[k as int].0);
                            }
                        }
                        dup = true;
                    }
                    k = k + 1;
                }
                if !dup {
                    proof {
                        if exists|k2: int|
                            0 <= k2 < sol@.len() && (#[trigger] sol@[k2]) == (
                            root,
                            root_version,
                        ) {
                            let w = choose|k2: int|
                                0 <= k2 < sol@.len() && (#[trigger] sol@[k2]) == (
                                root,
                                root_version,
                            );
                            assert(w != l0);
                            assert(sol@[w].0 != root);
                        }
                    }
                }
                return false;
            }
        },
    }
    // no package twice
    let mut k: usize = 0;
    while k < sol.len()
        invariant
            k <= sol@.len(),
            reg_wf(registry@),
            forall|i: int, j: int|
                0 <= i < j < sol@.len() && j < k ==> (#[trigger] sol@[i]).0 != (#[trigger] sol@[j]).0,
        decreases sol@.len() - k,
    {
        let mut i: usize = 0;
        while i < k
            invariant
                i <= k,
                k < sol@.len(),
                forall|j: int| 0 <= j < i ==> (#[trigger] sol@[j]).0 != sol@[k as int].0,
            decreases k - i,
        {
            if sol[i].0 == sol[k].0 {
                return false;
            }
            i = i + 1;
        }
        k = k + 1;
    }
    // every entry exists and its dependencies are met by the selection
    let mut k2: usize = 0;
    while k2 < sol.len()
        invariant
            k2 <= sol@.len(),
            reg_wf(registry@),
            forall|i: int, j: int|
                0 <= i < j < sol@.len() ==> (#[trigger] sol@[i]).0 != (#[trigger] sol@[j]).0,
            exists|k3: int| 0 <= k3 < sol@.len() && (#[trigger] sol@[k3]) == (root, root_version),
            forall|i: int|
                0 <= i < k2 ==> reg_has_version(registry@, (#[trigger] sol@[i]).0, sol@[i].1),
            forall|i: int, d: int|
                #![trigger reg_deps(registry@, sol@[i].0, sol@[i].1)[d]]
                0 <= i < k2 && 0 <= d < reg_deps(registry@, sol@[i].0, sol@[i].1).len()
                    ==> exists|l: int|
                    0 <= l < sol@.len() && (#[trigger] sol@[l]).0 == reg_deps(
                        registry@,
                        sol@[i].0,
                        sol@[i].1,
                    )[d].0 && reg_deps(registry@, sol@[i].0, sol@[i].1)[d].1.contains_spec(
                        sol@[l].1,
                    ),
        decreases sol@.len() - k2,
    {
        let (p, v) = (sol[k2].0, sol[k2].1);
        match registry.get_dependencies(p, v) {
            None => {
                return false;
            },
            Some(deps) => {
                let mut d: usize = 0;
                while d < deps.len()
                    invariant
                        d <= deps@.len(),
                        k2 < sol@.len(),
                        p == sol@[k2 as int].0,
                        v == sol@[k2 as int].1,
                        deps@ == reg_deps(registry@, p, v),
                        forall|d2: int|
                            #![trigger reg_deps(registry@, p, v)[d2]]
                            0 <= d2 < d ==> exists|l: int|
                                0 <= l < sol@.len() && (#[trigger] sol@[l]).0 == reg_deps(
                                    registry@,
                                    p,
                                    v,
                                )[d2].0 && reg_deps(registry@, p, v)[d2].1.contains_spec(
                                    sol@[l].1,
                                ),
                    decreases deps@.len() - d,
                {
                    let dp = deps[d].0;
                    match sol_find(sol, dp) {
                        None => {
                            proof {
                                if solution_sound(registry@, root, root_version, sol@) {
                                    let l = choose|l: int|
                                        0 <= l < sol@.len() && (#[trigger] sol@[l]).0 == reg_deps(
                                            registry@,
                                            p,
                                            v,
                                        )[d as int].0 && reg_deps(registry@, p, v)[d as int].1.contains_spec(sol@[l].1);
                                    assert(sol@[l].0 != dp);
                                }
                            }
                            return false;
                        },
                        Some(l) => {
                            if !deps[d].1.contains(sol[l].1) {
                                proof {
                                    if solution_sound(registry@, root, root_version, sol@) {
                                        let l2 = choose|l2: int|
                                            0 <= l2 < sol@.len() && (#[trigger] sol@[l2]).0
                                                == reg_deps(registry@, p, v)[d as int].0
                                                && reg_deps(registry@, p, v)[d as int].1.contains_spec(sol@[l2].1);
                                        if l2 != l as int {
                                            if l2 < l as int {
                                                assert(sol@[l2].0 != sol@[l as int].0);
                                            } else {
                                                assert(sol@[l as int].0 != sol@[l2].0);
                                            }
                                        }
                                    }
                                }
                                return false;
                            }
                            proof {
                                assert(sol@[l as int].0 == reg_deps(registry@, p, v)[d as int].0
                                    && reg_deps(registry@, p, v)[d as int].1.contains_spec(
                                    sol@[l as int].1,
                                ));
                            }
                        },
                    }
                    d = d + 1;
                }
            },
        }
        k2 = k2 + 1;
    }
    // every selected package must also be reachable from the root through
    // dependency edges of selected versions: a worklist search from the root
    let n = sol.len();
    let rl = match sol_find(sol, root) {
        Some(l) => l,
        None => {
            proof {
                let k3 = choose|k3: int|
                    0 <= k3 < sol@.len() && (#[trigger] sol@[k3]) == (root, root_version);
                assert(sol@[k3].0 != root);
            }
            return false;
        },
    };
    let mut marked: Vec<bool> = vec![false; n];
    let ghost m_init = marked@;
    let mut queue: Vec<usize> = Vec::new();
    marked[rl] = true;
    queue.push(rl);
    proof {
        lemma_count_true_update(m_init, rl as int);
        lemma_count_true_le(marked@);
        assert(reachable_in(registry@, sol@, root, sol@[rl as int].0, 0));
        assert(reachable(registry@, sol@, root, sol@[rl as int].0));
        assert(queue@[0] as int == rl as int);
        assert(in_queue(queue@, rl as int));
        assert forall|i: int|
            0 <= i < sol@.len() && (#[trigger] marked@[i]) implies i == rl as int by {
            assert(!m_init[i] || i == rl as int);
        }
    }
    #[verifier::loop_isolation(false)]
    while queue.len() > 0
        invariant
            marked@.len() == sol@.len(),
            sol@[rl as int].0 == root,
            marked@[rl as int],
            count_true(marked@) <= sol@.len(),
            forall|qi: int|
                0 <= qi < queue@.len() ==> ((#[trigger] queue@[qi]) as int) < sol@.len()
                    && marked@[queue@[qi] as int],
            forall|i: int|
                0 <= i < sol@.len() && (#[trigger] marked@[i]) ==> reachable(
                    registry@,
                    sol@,
                    root,
                    sol@[i].0,
                ),
            forall|i: int, j: int|
                0 <= i < sol@.len() && (#[trigger] marked@[i]) && !in_queue(queue@, i) && 0 <= j
                    < sol@.len() && dep_edge(registry@, sol@[i], (#[trigger] sol@[j]).0)
                    ==> marked@[j],
        decreases (sol@.len() - count_true(marked@)) + queue@.len(),
    {
        let ghost q0 = queue@;
        let ghost measure0 = (sol@.len() - count_true(marked@)) + queue@.len();
        let u = match queue.pop() {
            Some(u) => u,
            None => {
                proof {
                    assert(false);
                }
                return false;
            },
        };
        proof {
            assert(u == q0.last());
            assert(queue@ =~= q0.drop_last());
            assert forall|i: int|
                in_queue(q0, i) && i != u as int implies in_queue(queue@, i) by {
                let qi = choose|qi: int| 0 <= qi < q0.len() && (#[trigger] q0[qi]) as int == i;
                assert(qi < q0.len() - 1);
                assert(queue@[qi] as int == i);
            }
        }
        let p = sol[u].0;
        let v = sol[u].1;
        let deps = match registry.get_dependencies(p, v) {
            Some(d) => d,
            None => {
                proof {
                    assert(reg_has_version(registry@, sol@[u as int].0, sol@[u as int].1));
                    assert(false);
                }
                return false;
            },
        };
        let nd = deps.len();
        let mut d: usize = 0;
        let ghost base = (sol@.len() - count_true(marked@)) + queue@.len();
        #[verifier::loop_isolation(false)]
        while d < nd
            invariant
                d <= nd,
                nd == deps@.len(),
                deps@ == reg_deps(registry@, sol@[u as int].0, sol@[u as int].1),
                u < sol@.len(),
                marked@.len() == sol@.len(),
                marked@[rl as int],
                marked@[u as int],
                count_true(marked@) <= sol@.len(),
                (sol@.len() - count_true(marked@)) + queue@.len() == base,
                forall|qi: int|
                    0 <= qi < queue@.len() ==> ((#[trigger] queue@[qi]) as int) < sol@.len()
                        && marked@[queue@[qi] as int],
                forall|i: int|
                    0 <= i < sol@.len() && (#[trigger] marked@[i]) ==> reachable(
                        registry@,
                        sol@,
                        root,
                        sol@[i].0,
                    ),
                forall|i: int, j: int|
                    0 <= i < sol@.len() && (#[trigger] marked@[i]) && !in_queue(queue@, i) && i
                        != u as int && 0 <= j < sol@.len() && dep_edge(
                        registry@,
                        sol@[i],
                        (#[trigger] sol@[j]).0,
                    ) ==> marked@[j],
                forall|dd: int, j: int|
                    0 <= dd < d && 0 <= j < sol@.len() && (#[trigger] sol@[j]).0 == (
                    #[trigger] deps@[dd]).0 ==> marked@[j],
            decreases nd - d,
        {
            let dp = deps[d].0;
            let li = match sol_find(sol, dp) {
                Some(l) => l,
                None => {
                    proof {
                        let l0 = choose|l0: int|
                            0 <= l0 < sol@.len() && (#[trigger] sol@[l0]).0 == reg_deps(
                                registry@,
                                sol@[u as int].0,
                                sol@[u as int].1,
                            )[d as int].0 && reg_deps(
                                registry@,
                                sol@[u as int].0,
                                sol@[u as int].1,
                            )[d as int].1.contains_spec(sol@[l0].1);
                        assert(sol@[l0].0 != dp);
                        assert(false);
                    }
                    return false;
                },
            };
            if !marked[li] {
                let ghost m0 = marked@;
                let ghost q1 = queue@;
                marked[li] = true;
                queue.push(li);
                proof {
                    lemma_count_true_update(m0, li as int);
                    lemma_count_true_le(marked@);
                    assert forall|i: int| in_queue(q1, i) implies in_queue(queue@, i) by {
                        let qi = choose|qi: int|
                            0 <= qi < q1.len() && (#[trigger] q1[qi]) as int == i;
                        assert(queue@[qi] as int == i);
                    }
                    assert(dep_edge(registry@, sol@[u as int], dp)) by {
                        assert(reg_deps(registry@, sol@[u as int].0, sol@[u as int].1)[d as int].0
                            == dp);
                    }
                    let n0 = choose|n0: nat|
                        reachable_in(registry@, sol@, root, sol@[u as int].0, n0);
                    assert(reachable_in(registry@, sol@, root, dp, n0 + 1));
                    assert(sol@[li as int].0 == dp);
                    assert(queue@.last() == li);
                    assert(in_queue(queue@, li as int));
                }
            }
            d = d + 1;
        }
        proof {
            assert forall|i: int, j: int|
                0 <= i < sol@.len() && (#[trigger] marked@[i]) && !in_queue(queue@, i) && 0 <= j
                    < sol@.len() && dep_edge(registry@, sol@[i], (#[trigger] sol@[j]).0)
                    implies marked@[j] by {
                if i == u as int {
                    let dd = choose|dd: int|
                        0 <= dd < reg_deps(registry@, sol@[u as int].0, sol@[u as int].1).len()
                            && (#[trigger] reg_deps(
                            registry@,
                            sol@[u as int].0,
                            sol@[u as int].1,
                        )[dd]).0 == sol@[j].0;
                    assert(deps@[dd].0 == sol@[j].0);
                }
            }
            lemma_count_true_le(marked@);
        }
    }
    let mut i2: usize = 0;
    #[verifier::loop_isolation(false)]
    while i2 < n
        invariant
            i2 <= n,
            forall|i: int| 0 <= i < i2 ==> (#[trigger] marked@[i]),
        decreases n - i2,
    {
        if !marked[i2] {
            proof {
                if solution_sound(registry@, root, root_version, sol@) {
                    assert(reachable(registry@, sol@, root, sol@[i2 as int].0));
                    let nn = choose|nn: nat|
                        reachable_in(registry@, sol@, root, sol@[i2 as int].0, nn);
                    assert forall|l: int|
                        0 <= l < sol@.len() && (#[trigger] sol@[l]).0 == root implies marked@[l] by {
                        if l != rl as int {
                            if l < rl as int {
                                assert(sol@[l].0 != sol@[rl as int].0);
                            } else {
                                assert(sol@[rl as int].0 != sol@[l].0);
                            }
                        }
                    }
                    assert forall|i: int, j: int|
                        0 <= i < sol@.len() && (#[trigger] marked@[i]) && 0 <= j < sol@.len()
                            && dep_edge(registry@, sol@[i], (#[trigger] sol@[j]).0)
                            implies marked@[j] by {
                        if in_queue(queue@, i) {
                            let qi = choose|qi: int|
                                0 <= qi < queue@.len() && (#[trigger] queue@[qi]) as int == i;
                        }
                    }
                    lemma_reach_marked(registry@, sol@, root, marked@, sol@[i2 as int].0, nn);
                    assert(marked@[i2 as int]);
                }
            }
            return false;
        }
        i2 = i2 + 1;
    }
    proof {
        assert forall|k3: int| 0 <= k3 < sol@.len() implies reachable(
            registry@,
            sol@,
            root,
            (#[trigger] sol@[k3]).0,
        ) by {
            assert(marked@[k3]);
        }
    }
    true
}

/// What one propagation or resolution step decided.
enum StepOutcome {
    Acted,
    Quiet,
    Unsolvable(usize),
}

/// Run conflict resolution on the satisfied incompatibility at `start`:
/// repeatedly merge it with the cause of its satisfier, then backtrack and
/// record the learned incompatibility as a derivation. `Unsolvable` reports
/// a terminal incompatibility: the root itself can no longer be selected.
///
/// The merge guard is the classic one: merge only while the satisfier is a
/// derivation whose level equals the previous-satisfier level. A guard that
/// instead asks whether the satisfier's own term is already a subset of the
/// conflict's term admits merge cycles that never reach a decision, so the
/// level comparison is used deliberately.
fn resolve_conflict(
    incompats: &mut Vec<Incompatibility>,
    partial: &mut PartialSolution,
    start: usize,
    root_package: u64,
    root_version: u64,
) -> (r: Result<StepOutcome, PubGrubError>)
    requires
        old(partial).wf(),
        forall|k: int| 0 <= k < old(incompats)@.len() ==> (#[trigger] old(incompats)@[k]).wf(),
        start < old(incompats)@.len(),
    ensures
        final(partial).wf(),
        forall|k: int| 0 <= k < final(incompats)@.len() ==> (#[trigger] final(incompats)@[k]).wf(),
        r matches Ok(StepOutcome::Unsolvable(c)) ==> c < final(incompats)@.len(),
        r matches Err(e) ==> e is Failure,
{
    let mut fuel: u64 = 0xffff_ffff;
    let mut current: usize = start;
    while fuel > 0
        invariant
            partial.wf(),
            forall|k: int| 0 <= k < incompats@.len() ==> (#[trigger] incompats@[k]).wf(),
            current < incompats@.len(),
        decreases fuel,
    {
        fuel = fuel - 1;
        if incompats[current].is_terminal(root_package, root_version) {
            return Ok(StepOutcome::Unsolvable(current));
        }
        match partial.find_satisfier_and_previous_satisfier_level(&incompats[current]) {
            None => {
                return Err(PubGrubError::Failure);
            },
            Some((idx, satisfier_level, previous_level)) => {
                let (is_dec, spkg, cause) = partial.assignment_info(idx);
                if !is_dec && previous_level == satisfier_level {
                    if cause >= incompats.len() {
                        return Err(PubGrubError::Failure);
                    }
                    let has_pivot = match incompats[cause].get(spkg) {
                        Some(_) => true,
                        None => false,
                    };
                    if !has_pivot {
                        return Err(PubGrubError::Failure);
                    }
                    let learned = Incompatibility::prior_cause(
                        &incompats[current],
                        &incompats[cause],
                        spkg,
                        current,
                        cause,
                    );
                    incompats.push(learned);
                    proof {
                        assert forall|k: int| 0 <= k < incompats@.len() implies (
                        #[trigger] incompats@[k]).wf() by {
                            if k < incompats@.len() - 1 {
                                assert(incompats@[k] == incompats@.drop_last()[k]);
                            }
                        }
                    }
                    current = incompats.len() - 1;
                } else {
                    if partial.history_len() == 0 {
                        return Err(PubGrubError::Failure);
                    }
                    partial.backtrack(previous_level);
                    let learned_term: Term;
                    match incompats[current].get(spkg) {
                        Some(t) => {
                            proof {
                                let w = crate::incompatibility::package_index(incompats@[current as int]@, spkg);
                                assert((incompats@[current as int])@[w].1.wf());
                            }
                            learned_term = t.negate();
                        },
                        None => {
                            return Err(PubGrubError::Failure);
                        },
                    }
                    if partial.history_len() == usize::MAX {
                        return Err(PubGrubError::Failure);
                    }
                    partial.add_derivation(spkg, learned_term, current);
                    return Ok(StepOutcome::Acted);
                }
            },
        }
    }
    Err(PubGrubError::Failure)
}

/// One pass of unit propagation: find a satisfied incompatibility and run
/// conflict resolution on it, or an almost-satisfied one and record the
/// forced derivation; `Quiet` when neither exists, the fixed point.
fn propagate_step(
    incompats: &mut Vec<Incompatibility>,
    partial: &mut PartialSolution,
    root_package: u64,
    root_version: u64,
) -> (r: Result<StepOutcome, PubGrubError>)
    requires
        old(partial).wf(),
        forall|k: int| 0 <= k < old(incompats)@.len() ==> (#[trigger] old(incompats)@[k]).wf(),
    ensures
        final(partial).wf(),
        forall|k: int| 0 <= k < final(incompats)@.len() ==> (#[trigger] final(incompats)@[k]).wf(),
        r matches Ok(StepOutcome::Unsolvable(c)) ==> c < final(incompats)@.len(),
        r matches Err(e) ==> e is Failure,
{
    let mut idx: usize = 0;
    while idx < incompats.len()
        invariant
            partial.wf(),
            forall|k: int| 0 <= k < incompats@.len() ==> (#[trigger] incompats@[k]).wf(),
            idx <= incompats@.len(),
        decreases incompats@.len() - idx,
    {
        let rel = partial.relation(&incompats[idx]);
        match rel {
            IncompatRelation::Satisfied => {
                return resolve_conflict(incompats, partial, idx, root_package, root_version);
            },
            IncompatRelation::AlmostSatisfied(p, t) => {
                if partial.history_len() == usize::MAX {
                    return Err(PubGrubError::Failure);
                }
                proof {
                    let w = choose|k: int|
                        0 <= k < (incompats@[idx as int])@.len() && ((#[trigger] (incompats@[idx as int])@[k]).0 == p && (incompats@[idx as int])@[k].1@ == t@);
                }
                let nt = t.negate();
                proof {
                    assert(nt.wf()) by {
                        let w = choose|k: int|
                            0 <= k < (incompats@[idx as int])@.len() && (#[trigger] (incompats@[idx as int])@[k]).0 == p && (incompats@[idx as int])@[k].1@ == t@;
                        assert((incompats@[idx as int])@[w].1.wf());
                    }
                }
                partial.add_derivation(p, nt, idx);
                return Ok(StepOutcome::Acted);
            },
            _ => {
                idx = idx + 1;
            },
        }
    }
    Ok(StepOutcome::Quiet)
}

impl Registry {
    /// Resolve the dependencies of `root_package` at `root_version`: either
    /// one selected version for every package transitively required, checked
    /// against this registry, or why no such selection exists.
    pub fn run(&self, root_package: u64, root_version: u64) -> (r: Result<
        Vec<(u64, u64)>,
        PubGrubError,
    >)
        requires
            reg_wf(self@),
        ensures
            r matches Ok(sol) ==> solution_sound(self@, root_package, root_version, sol@),
            r matches Err(PubGrubError::SelfDependency { package, version })
                ==> reg_has_version(self@, package, version) && exists|d: int|
                0 <= d < reg_deps(self@, package, version).len() && (#[trigger] reg_deps(
                    self@,
                    package,
                    version,
                )[d]).0 == package,
            r matches Err(PubGrubError::DependencyOnTheEmptySet { package, version, dep_package })
                ==> reg_has_version(self@, package, version) && exists|d: int|
                0 <= d < reg_deps(self@, package, version).len() && (#[trigger] reg_deps(
                    self@,
                    package,
                    version,
                )[d]).0 == dep_package && reg_deps(self@, package, version)[d].1@.len() == 0,
            r matches Err(PubGrubError::NoSolution { incompatibilities, root_cause })
                ==> root_cause < incompatibilities@.len(),
    {
        let mut incompats: Vec<Incompatibility> = Vec::new();
        incompats.push(Incompatibility::not_root(root_package, root_version));
        let mut partial = PartialSolution::empty();
        let mut fuel: u64 = 0xffff_ffff;
        while fuel > 0
            invariant
                partial.wf(),
                forall|k: int| 0 <= k < incompats@.len() ==> (#[trigger] incompats@[k]).wf(),
                reg_wf(self@),
            decreases fuel,
        {
            fuel = fuel - 1;
            // unit propagation to a fixed point, one action at a time
            match propagate_step(&mut incompats, &mut partial, root_package, root_version) {
                Err(e) => {
                    return Err(e);
                },
                Ok(StepOutcome::Unsolvable(c)) => {
                    return Err(
                        PubGrubError::NoSolution { incompatibilities: incompats, root_cause: c },
                    );
                },
                Ok(StepOutcome::Acted) => {
                    continue ;
                },
                Ok(StepOutcome::Quiet) => {},
            }
            // decision making
            match partial.pick_package(self) {
                None => {
                    match partial.extract_solution() {
                        Some(sol) => {
                            if check_solution(self, root_package, root_version, &sol) {
                                return Ok(sol);
                            }
                            return Err(PubGrubError::Failure);
                        },
                        None => {
                            return Err(PubGrubError::Failure);
                        },
                    }
                },
                Some((p, term)) => {
                    let available = self.list_available_versions(p);
                    match PartialSolution::pick_version(&available, &term) {
                        None => {
                            incompats.push(Incompatibility::no_versions(p, term));
                            proof {
                                assert forall|k: int| 0 <= k < incompats@.len() implies (
                                #[trigger] incompats@[k]).wf() by {
                                    if k < incompats@.len() - 1 {
                                        assert(incompats@[k] == incompats@.drop_last()[k]);
                                    }
                                }
                            }
                        },
                        Some(v) => {
                            match self.get_dependencies(p, v) {
                                None => {
                                    incompats.push(
                                        Incompatibility::unavailable_dependencies(p, v),
                                    );
                                    proof {
                                        assert forall|k: int|
                                            0 <= k < incompats@.len() implies (
                                        #[trigger] incompats@[k]).wf() by {
                                            if k < incompats@.len() - 1 {
                                                assert(incompats@[k] == incompats@.drop_last()[k]);
                                            }
                                        }
                                    }
                                },
                                Some(deps) => {
                                    let mut new_incs: Vec<Incompatibility> = Vec::new();
                                    let nd = deps.len();
                                    let mut d: usize = 0;
                                    while d < nd
                                        invariant
                                            d <= nd,
                                            nd == deps@.len(),
                                            reg_has_version(self@, p, v),
                                            deps@ == reg_deps(self@, p, v),
                                            forall|dd: int|
                                                0 <= dd < deps@.len() ==> (#[trigger] deps@[dd]).1.wf(),
                                            forall|k: int|
                                                0 <= k < new_incs@.len() ==> (#[trigger] new_incs@[k]).wf(),
                                        decreases nd - d,
                                    {
                                        let dp = deps[d].0;
                                        if dp == p {
                                            return Err(
                                                PubGrubError::SelfDependency {
                                                    package: p,
                                                    version: v,
                                                },
                                            );
                                        }
                                        let rng = &deps[d].1;
                                        if rng.is_empty() {
                                            return Err(
                                                PubGrubError::DependencyOnTheEmptySet {
                                                    package: p,
                                                    version: v,
                                                    dep_package: dp,
                                                },
                                            );
                                        }
                                        let dep_term = Term::Positive(rng.clone());
                                        let inc = Incompatibility::from_dependency(
                                            p,
                                            v,
                                            dp,
                                            &dep_term,
                                        );
                                        new_incs.push(inc);
                                        proof {
                                            assert forall|k: int|
                                                0 <= k < new_incs@.len() implies (
                                            #[trigger] new_incs@[k]).wf() by {
                                                if k < new_incs@.len() - 1 {
                                                    assert(new_incs@[k]
                                                        == new_incs@.drop_last()[k]);
                                                }
                                            }
                                        }
                                        d = d + 1;
                                    }
                                    if partial.history_len() == usize::MAX {
                                        return Err(PubGrubError::Failure);
                                    }
                                    proof {
                                        assert(!crate::partial_solution::pkg_decided(
                                            partial@,
                                            p,
                                        ));
                                    }
                                    partial.add_version(p, v, &new_incs);
                                    while new_incs.len() > 0
                                        invariant
                                            forall|k: int|
                                                0 <= k < new_incs@.len() ==> (#[trigger] new_incs@[k]).wf(),
                                            forall|k: int|
                                                0 <= k < incompats@.len() ==> (
                                                #[trigger] incompats@[k]).wf(),
                                        decreases new_incs@.len(),
                                    {
                                        let inc = new_incs.remove(0);
                                        incompats.push(inc);
                                        proof {
                                            assert forall|k: int|
                                                0 <= k < incompats@.len() implies (
                                            #[trigger] incompats@[k]).wf() by {
                                                if k < incompats@.len() - 1 {
                                                    assert(incompats@[k]
                                                        == incompats@.drop_last()[k]);
                                                }
                                            }
                                            assert forall|k: int|
                                                0 <= k < new_incs@.len() implies (
                                            #[trigger] new_incs@[k]).wf() by {}
                                        }
                                    }
                                },
                            }
                        },
                    }
                },
            }
        }
        Err(PubGrubError::Failure)
    }
}

} // verus!
