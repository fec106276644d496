//! The partial solution is the current state of the solution being built by
//! the algorithm: a history of assignments, each a decision (a chosen
//! version) or a derivation (a term forced by an incompatibility), tagged
//! with its decision level.
//!
//! The contracts of this module speak about the history sequence alone; the
//! per-package memory is a private cache whose agreement with the history is
//! part of the structure's well-formedness.

use vstd::prelude::*;
use crate::term::Term;
use crate::term::TermModel;
use crate::term::subset_of_model;
use crate::incompatibility::Incompatibility;
use crate::incompatibility::has_package;
use crate::incompatibility::term_for;

verus! {

/// Describes how the partial solution relates to an incompatibility: all of
/// its terms forced (a conflict), all but exactly one (the unit-propagation
/// trigger, with that entry), one term impossible (with that entry), or none
/// of these.
pub enum IncompatRelation {
    Satisfied,
    AlmostSatisfied(u64, Term),
    Contradicted(u64, Term),
    Inconclusive,
}

/// One step of the partial solution: a chosen version for a package, or a
/// term forced for a package by the incompatibility at `cause` in the
/// solver's store.
pub enum Assignment {
    Decision { package: u64, version: u64, term: Term },
    Derivation { package: u64, term: Term, cause: usize },
}

impl Assignment {
    pub open spec fn package_spec(self) -> u64 {
        match self {
            Assignment::Decision { package, .. } => package,
            Assignment::Derivation { package, .. } => package,
        }
    }

    pub open spec fn term_model(self) -> TermModel {
        match self {
            Assignment::Decision { term, .. } => term@,
            Assignment::Derivation { term, .. } => term@,
        }
    }

    pub open spec fn is_decision(self) -> bool {
        match self {
            Assignment::Decision { .. } => true,
            Assignment::Derivation { .. } => false,
        }
    }

    pub open spec fn version_spec(self) -> u64 {
        match self {
            Assignment::Decision { version, .. } => version,
            Assignment::Derivation { .. } => 0,
        }
    }

    pub open spec fn cause_spec(self) -> usize {
        match self {
            Assignment::Decision { .. } => 0,
            Assignment::Derivation { cause, .. } => cause,
        }
    }

    /// A decision's term is the positive term holding exactly its version.
    pub open spec fn wf(self) -> bool {
        &&& self.term_model().wf()
        &&& (self.is_decision() ==> self.term_model().positive && forall|w: u64|
            #[trigger] self.term_model().contains(w) == (w == self.version_spec()))
    }

    pub fn package(&self) -> (p: u64)
        ensures
            p == self.package_spec(),
    {
        match self {
            Assignment::Decision { package, .. } => *package,
            Assignment::Derivation { package, .. } => *package,
        }
    }

    /// The term this assignment contributes for its package.
    pub fn as_term(&self) -> (t: Term)
        ensures
            t@ == self.term_model(),
    {
        match self {
            Assignment::Decision { term, .. } => term.clone(),
            Assignment::Derivation { term, .. } => term.clone(),
        }
    }
}

/// How many of the assignments in `h` are decisions.
pub open spec fn num_decisions(h: Seq<(usize, Assignment)>) -> nat
    decreases h.len(),
{
    if h.len() == 0 {
        0
    } else {
        num_decisions(h.drop_last()) + (if h.last().1.is_decision() {
            1nat
        } else {
            0nat
        })
    }
}

/// Some assignment among the first `n` is for package `p`.
pub open spec fn pkg_mentioned_upto(h: Seq<(usize, Assignment)>, n: int, p: u64) -> bool {
    exists|i: int| 0 <= i < n && (#[trigger] h[i]).1.package_spec() == p
}

/// Some assignment among the first `n` gives `p` a positive term.
pub open spec fn pkg_positive_upto(h: Seq<(usize, Assignment)>, n: int, p: u64) -> bool {
    exists|i: int|
        0 <= i < n && (#[trigger] h[i]).1.package_spec() == p && h[i].1.term_model().positive
}

/// Every assignment for `p` among the first `n` has a term containing `v`.
pub open spec fn pkg_contains_upto(h: Seq<(usize, Assignment)>, n: int, p: u64, v: u64) -> bool {
    forall|i: int|
        0 <= i < n && (#[trigger] h[i]).1.package_spec() == p ==> h[i].1.term_model().contains(v)
}

/// Some derivation in `h` gives `p` a positive term.
pub open spec fn derivs_positive(h: Seq<(usize, Assignment)>, p: u64) -> bool {
    exists|i: int|
        0 <= i < h.len() && !(#[trigger] h[i]).1.is_decision() && h[i].1.package_spec() == p
            && h[i].1.term_model().positive
}

/// Every derivation for `p` in `h` has a term containing `v`.
pub open spec fn derivs_contain(h: Seq<(usize, Assignment)>, p: u64, v: u64) -> bool {
    forall|i: int|
        0 <= i < h.len() && !(#[trigger] h[i]).1.is_decision() && h[i].1.package_spec() == p
            ==> h[i].1.term_model().contains(v)
}

/// How many derivations in `h` are for package `p`.
pub open spec fn num_derivs(h: Seq<(usize, Assignment)>, p: u64) -> nat
    decreases h.len(),
{
    if h.len() == 0 {
        0
    } else {
        num_derivs(h.drop_last(), p) + (if !h.last().1.is_decision() && h.last().1.package_spec()
            == p {
            1nat
        } else {
            0nat
        })
    }
}

/// `h` holds a decision for package `p`.
pub open spec fn pkg_decided(h: Seq<(usize, Assignment)>, p: u64) -> bool {
    exists|i: int|
        0 <= i < h.len() && (#[trigger] h[i]).1.is_decision() && h[i].1.package_spec() == p
}

/// `h` holds the decision of version `v` for package `p`.
pub open spec fn pkg_decision_version(h: Seq<(usize, Assignment)>, p: u64, v: u64) -> bool {
    exists|i: int|
        0 <= i < h.len() && (#[trigger] h[i]).1.is_decision() && h[i].1.package_spec() == p
            && h[i].1.version_spec() == v
}

/// Some assignment in `h` is tagged with level `lvl`.
pub open spec fn level_found(h: Seq<(usize, Assignment)>, lvl: usize) -> bool {
    exists|i: int| 0 <= i < h.len() && (#[trigger] h[i]).0 == lvl
}

/// The last position in `h` tagged with level `lvl`.
pub open spec fn backtrack_pos(h: Seq<(usize, Assignment)>, lvl: usize) -> int {
    choose|i: int|
        0 <= i < h.len() && (#[trigger] h[i]).0 == lvl && forall|j: int|
            i < j < h.len() ==> (#[trigger] h[j]).0 != lvl
}

/// Shorthand for the whole history.
pub open spec fn pkg_mentioned(h: Seq<(usize, Assignment)>, p: u64) -> bool {
    pkg_mentioned_upto(h, h.len() as int, p)
}

pub open spec fn pkg_positive(h: Seq<(usize, Assignment)>, p: u64) -> bool {
    pkg_positive_upto(h, h.len() as int, p)
}

pub open spec fn pkg_contains(h: Seq<(usize, Assignment)>, p: u64, v: u64) -> bool {
    pkg_contains_upto(h, h.len() as int, p, v)
}

/// The intersection of the terms the first `n` assignments give `p` is a
/// subset of `t`: `t` is already forced for `p` by that prefix.
pub open spec fn entry_satisfied_upto(
    h: Seq<(usize, Assignment)>,
    n: int,
    p: u64,
    t: TermModel,
) -> bool {
    &&& pkg_mentioned_upto(h, n, p)
    &&& (t.positive ==> pkg_positive_upto(h, n, p))
    &&& forall|v: u64| pkg_contains_upto(h, n, p, v) ==> #[trigger] t.contains(v)
}

/// The intersection of the terms `h` gives `p` is disjoint from `t`, their
/// meet being a positive term: `t` can no longer hold of `p`.
pub open spec fn entry_contradicted(h: Seq<(usize, Assignment)>, p: u64, t: TermModel) -> bool {
    &&& pkg_mentioned(h, p)
    &&& (t.positive || pkg_positive(h, p))
    &&& forall|v: u64| !(pkg_contains(h, p, v) && #[trigger] t.contains(v))
}

/// Every entry of the incompatibility is satisfied by the first `n`
/// assignments: the prefix forces all its terms at once.
pub open spec fn incompat_satisfied_upto(
    h: Seq<(usize, Assignment)>,
    n: int,
    inc: Seq<(u64, Term)>,
) -> bool {
    forall|k: int|
        0 <= k < inc.len() ==> entry_satisfied_upto(h, n, (#[trigger] inc[k]).0, inc[k].1@)
}

/// Like `entry_satisfied_upto` over the whole of `h` extended by a virtual
/// decision of version `dv` for package `dp`.
pub open spec fn entry_satisfied_with(
    h: Seq<(usize, Assignment)>,
    p: u64,
    t: TermModel,
    dp: u64,
    dv: u64,
) -> bool {
    &&& pkg_mentioned(h, p) || p == dp
    &&& (t.positive ==> pkg_positive(h, p) || p == dp)
    &&& forall|v: u64|
        (pkg_contains(h, p, v) && (p == dp ==> v == dv)) ==> #[trigger] t.contains(v)
}

/// `incompat_satisfied_upto` over `h` extended by a virtual decision.
pub open spec fn incompat_satisfied_with(
    h: Seq<(usize, Assignment)>,
    inc: Seq<(u64, Term)>,
    dp: u64,
    dv: u64,
) -> bool {
    forall|k: int|
        0 <= k < inc.len() ==> entry_satisfied_with(h, (#[trigger] inc[k]).0, inc[k].1@, dp, dv)
}

/// Some of the given incompatibilities is satisfied once the virtual
/// decision is added.
pub open spec fn any_satisfied_with(
    h: Seq<(usize, Assignment)>,
    incs: Seq<crate::incompatibility::Incompatibility>,
    dp: u64,
    dv: u64,
) -> bool {
    exists|k: int| 0 <= k < incs.len() && incompat_satisfied_with(h, (#[trigger] incs[k])@, dp, dv)
}

/// How many of the versions in `vs` are contained in every term the history
/// assigns to `p`: the versions that could still be picked for it.
pub open spec fn count_matching(vs: Seq<u64>, h: Seq<(usize, Assignment)>, p: u64) -> nat
    decreases vs.len(),
{
    if vs.len() == 0 {
        0
    } else {
        count_matching(vs.drop_last(), h, p) + (if pkg_contains(h, p, vs.last()) {
            1nat
        } else {
            0nat
        })
    }
}

/// A package the solver still has to decide: some derivation requires it
/// positively and no decision selects it yet.
pub open spec fn potential_package(h: Seq<(usize, Assignment)>, p: u64) -> bool {
    derivs_positive(h, p) && !pkg_decided(h, p)
}

/// The model of the term that is always true, the neutral accumulator seed.
pub open spec fn any_model() -> TermModel {
    TermModel { positive: false, bounds: Seq::empty() }
}

/// Entry of the satisfier search for package `p` with term `t`: either its
/// flag was set from the start, or the seed term intersected with every term
/// the first `n` assignments give `p` has become a subset of `t` (and at
/// least one of those assignments is for `p`).
pub open spec fn seeded_satisfied_upto(
    h: Seq<(usize, Assignment)>,
    n: int,
    p: u64,
    t: TermModel,
    flag0: bool,
    seed: TermModel,
) -> bool {
    flag0 || (pkg_mentioned_upto(h, n, p) && (t.positive ==> seed.positive || pkg_positive_upto(
        h,
        n,
        p,
    )) && forall|v: u64|
        (seed.contains(v) && pkg_contains_upto(h, n, p, v)) ==> #[trigger] t.contains(v))
}

/// Every entry of the incompatibility is seeded-satisfied by the first `n`
/// assignments, the seeds being the accumulator the search started from.
pub open spec fn all_seeded_satisfied_upto(
    h: Seq<(usize, Assignment)>,
    n: int,
    inc: Seq<(u64, Term)>,
    acc: Seq<(u64, (bool, Term))>,
) -> bool {
    forall|k: int|
        0 <= k < inc.len() ==> seeded_satisfied_upto(
            h,
            n,
            (#[trigger] inc[k]).0,
            inc[k].1@,
            acc[k].1.0,
            acc[k].1.1@,
        )
}

/// The outcome of a successful satisfier search: `idx` is the first position
/// whose prefix (inclusive) seeded-satisfies the whole incompatibility, and
/// it belongs to one of its packages.
pub open spec fn satisfier_found(
    h: Seq<(usize, Assignment)>,
    inc: Seq<(u64, Term)>,
    acc: Seq<(u64, (bool, Term))>,
    idx: int,
    end: int,
) -> bool {
    &&& 0 <= idx < end
    &&& all_seeded_satisfied_upto(h, idx + 1, inc, acc)
    &&& forall|m: int| 0 <= m <= idx ==> !all_seeded_satisfied_upto(h, m, inc, acc)
    &&& has_package(inc, h[idx].1.package_spec())
}

/// With the neutral seed and unset flags, seeded satisfaction is ordinary
/// satisfaction.
proof fn lemma_fresh_seed_bridge(
    h: Seq<(usize, Assignment)>,
    n: int,
    inc: Seq<(u64, Term)>,
    acc: Seq<(u64, (bool, Term))>,
)
    requires
        acc.len() == inc.len(),
        forall|k: int|
            0 <= k < inc.len() ==> !(#[trigger] acc[k]).1.0 && acc[k].1.1@ == any_model(),
    ensures
        all_seeded_satisfied_upto(h, n, inc, acc) == incompat_satisfied_upto(h, n, inc),
{
    assert forall|v: u64| any_model().contains(v) by {
        assert(crate::range::count_le(Seq::<u64>::empty(), v) == 0);
    }
    assert forall|k: int| 0 <= k < inc.len() implies (seeded_satisfied_upto(
        h,
        n,
        (#[trigger] inc[k]).0,
        inc[k].1@,
        acc[k].1.0,
        acc[k].1.1@,
    ) == entry_satisfied_upto(h, n, inc[k].0, inc[k].1@)) by {
        assert(!acc[k].1.0);
        assert(acc[k].1.1@ == any_model());
        if seeded_satisfied_upto(h, n, inc[k].0, inc[k].1@, acc[k].1.0, acc[k].1.1@) {
            assert forall|v: u64|
                pkg_contains_upto(h, n, inc[k].0, v) implies #[trigger] inc[k].1@.contains(v) by {
                assert(any_model().contains(v));
            }
        }
        if entry_satisfied_upto(h, n, inc[k].0, inc[k].1@) {
            assert forall|v: u64|
                (acc[k].1.1@.contains(v) && pkg_contains_upto(h, n, inc[k].0, v)) implies #[trigger] inc[k].1@.contains(v) by {}
        }
    }
}

/// Every entry of the incompatibility is seeded-satisfied by the first `n`
/// assignments when the satisfier package `sp` starts from the satisfier's
/// own term `st` (already satisfied when `sflag`) and every other package
/// from the neutral seed: the accumulator of the previous-satisfier search.
pub open spec fn prev_sat_upto(
    h: Seq<(usize, Assignment)>,
    n: int,
    inc: Seq<(u64, Term)>,
    sp: u64,
    st: TermModel,
    sflag: bool,
) -> bool {
    forall|k: int|
        0 <= k < inc.len() ==> seeded_satisfied_upto(
            h,
            n,
            (#[trigger] inc[k]).0,
            inc[k].1@,
            if inc[k].0 == sp {
                sflag
            } else {
                false
            },
            if inc[k].0 == sp {
                st
            } else {
                any_model()
            },
        )
}

/// The outcome of a successful previous-satisfier search: `idx` is the first
/// position whose prefix (inclusive), together with the satisfier's own
/// term, seeded-satisfies the whole incompatibility.
pub open spec fn prev_satisfier_found(
    h: Seq<(usize, Assignment)>,
    inc: Seq<(u64, Term)>,
    sp: u64,
    st: TermModel,
    sflag: bool,
    idx: int,
    end: int,
) -> bool {
    &&& 0 <= idx < end
    &&& prev_sat_upto(h, idx + 1, inc, sp, st, sflag)
    &&& forall|m: int| 0 <= m <= idx ==> !prev_sat_upto(h, m, inc, sp, st, sflag)
}

/// A longer prefix never has fewer decisions.
proof fn lemma_num_decisions_prefix(h: Seq<(usize, Assignment)>, a: int, b: int)
    requires
        0 <= a <= b <= h.len(),
    ensures
        num_decisions(h.take(a)) <= num_decisions(h.take(b)),
    decreases b - a,
{
    if a < b {
        lemma_num_decisions_prefix(h, a, b - 1);
        assert(h.take(b).drop_last() =~= h.take(b - 1));
    }
}

/// An accumulator seeded only at the satisfier package realizes
/// `prev_sat_upto`.
proof fn lemma_prev_seed_bridge(
    h: Seq<(usize, Assignment)>,
    n: int,
    inc: Seq<(u64, Term)>,
    acc: Seq<(u64, (bool, Term))>,
    sp: u64,
    st: TermModel,
    sflag: bool,
)
    requires
        acc.len() == inc.len(),
        forall|k: int| 0 <= k < inc.len() ==> (#[trigger] acc[k]).0 == inc[k].0,
        forall|k: int|
            0 <= k < inc.len() && (#[trigger] inc[k]).0 == sp ==> acc[k].1.0 == sflag
                && acc[k].1.1@ == st,
        forall|k: int|
            0 <= k < inc.len() && (#[trigger] inc[k]).0 != sp ==> !acc[k].1.0 && acc[k].1.1@
                == any_model(),
    ensures
        all_seeded_satisfied_upto(h, n, inc, acc) == prev_sat_upto(h, n, inc, sp, st, sflag),
{
    assert forall|k: int| 0 <= k < inc.len() implies (seeded_satisfied_upto(
        h,
        n,
        (#[trigger] inc[k]).0,
        inc[k].1@,
        acc[k].1.0,
        acc[k].1.1@,
    ) == seeded_satisfied_upto(
        h,
        n,
        inc[k].0,
        inc[k].1@,
        if inc[k].0 == sp {
            sflag
        } else {
            false
        },
        if inc[k].0 == sp {
            st
        } else {
            any_model()
        },
    )) by {
        if inc[k].0 == sp {
            assert(acc[k].1.0 == sflag && acc[k].1.1@ == st);
        } else {
            assert(!acc[k].1.0 && acc[k].1.1@ == any_model());
        }
    }
}

/// Seeded satisfaction only grows as the prefix grows.
proof fn lemma_seeded_monotone(
    h: Seq<(usize, Assignment)>,
    m: int,
    n: int,
    p: u64,
    t: TermModel,
    flag0: bool,
    seed: TermModel,
)
    requires
        0 <= m <= n,
        seeded_satisfied_upto(h, m, p, t, flag0, seed),
    ensures
        seeded_satisfied_upto(h, n, p, t, flag0, seed),
{
    if !flag0 {
        let w = choose|i: int| 0 <= i < m && (#[trigger] h[i]).1.package_spec() == p;
        assert(pkg_mentioned_upto(h, n, p));
        if t.positive && !seed.positive {
            let w2 = choose|i: int|
                0 <= i < m && (#[trigger] h[i]).1.package_spec() == p
                    && h[i].1.term_model().positive;
            assert(pkg_positive_upto(h, n, p));
        }
        assert forall|v: u64|
            (seed.contains(v) && pkg_contains_upto(h, n, p, v)) implies #[trigger] t.contains(
            v,
        ) by {
            assert(pkg_contains_upto(h, m, p, v));
        }
    }
}

/// One assignment of another package changes nothing the prefix predicates
/// say about `q`.
proof fn lemma_upto_frame(h: Seq<(usize, Assignment)>, i: int, q: u64)
    requires
        0 <= i < h.len(),
        h[i].1.package_spec() != q,
    ensures
        pkg_mentioned_upto(h, i + 1, q) == pkg_mentioned_upto(h, i, q),
        pkg_positive_upto(h, i + 1, q) == pkg_positive_upto(h, i, q),
        forall|v: u64|
            #[trigger] pkg_contains_upto(h, i + 1, q, v) == pkg_contains_upto(h, i, q, v),
{
    if pkg_mentioned_upto(h, i + 1, q) {
        let w = choose|j: int| 0 <= j < i + 1 && (#[trigger] h[j]).1.package_spec() == q;
        assert(w < i);
        assert(pkg_mentioned_upto(h, i, q));
    }
    if pkg_positive_upto(h, i + 1, q) {
        let w = choose|j: int|
            0 <= j < i + 1 && (#[trigger] h[j]).1.package_spec() == q
                && h[j].1.term_model().positive;
        assert(w < i);
        assert(pkg_positive_upto(h, i, q));
    }
    assert forall|v: u64| #[trigger] pkg_contains_upto(h, i + 1, q, v) == pkg_contains_upto(
        h,
        i,
        q,
        v,
    ) by {
        if pkg_contains_upto(h, i, q, v) {
            assert forall|j: int|
                0 <= j < i + 1 && (#[trigger] h[j]).1.package_spec() == q implies h[j].1.term_model().contains(v) by {
                assert(j < i);
            }
        }
    }
}

/// What one assignment of `q` itself adds to the prefix predicates.
proof fn lemma_upto_same(h: Seq<(usize, Assignment)>, i: int)
    requires
        0 <= i < h.len(),
    ensures
        pkg_mentioned_upto(h, i + 1, h[i].1.package_spec()),
        pkg_positive_upto(h, i + 1, h[i].1.package_spec()) == (pkg_positive_upto(
            h,
            i,
            h[i].1.package_spec(),
        ) || h[i].1.term_model().positive),
        forall|v: u64|
            #[trigger] pkg_contains_upto(h, i + 1, h[i].1.package_spec(), v) == (pkg_contains_upto(
                h,
                i,
                h[i].1.package_spec(),
                v,
            ) && h[i].1.term_model().contains(v)),
{
    let q = h[i].1.package_spec();
    assert(pkg_mentioned_upto(h, i + 1, q));
    if pkg_positive_upto(h, i, q) || h[i].1.term_model().positive {
        if pkg_positive_upto(h, i, q) {
            let w = choose|j: int|
                0 <= j < i && (#[trigger] h[j]).1.package_spec() == q
                    && h[j].1.term_model().positive;
            assert(pkg_positive_upto(h, i + 1, q));
        } else {
            assert(pkg_positive_upto(h, i + 1, q));
        }
    }
    if pkg_positive_upto(h, i + 1, q) && !h[i].1.term_model().positive {
        let w = choose|j: int|
            0 <= j < i + 1 && (#[trigger] h[j]).1.package_spec() == q
                && h[j].1.term_model().positive;
        assert(w < i);
        assert(pkg_positive_upto(h, i, q));
    }
    assert forall|v: u64| #[trigger] pkg_contains_upto(h, i + 1, q, v) == (pkg_contains_upto(
        h,
        i,
        q,
        v,
    ) && h[i].1.term_model().contains(v)) by {
        if pkg_contains_upto(h, i + 1, q, v) {
            assert(h[i].1.term_model().contains(v));
            assert forall|j: int|
                0 <= j < i && (#[trigger] h[j]).1.package_spec() == q implies h[j].1.term_model().contains(v) by {}
        } else {
            if pkg_contains_upto(h, i, q, v) && h[i].1.term_model().contains(v) {
                assert forall|j: int|
                    0 <= j < i + 1 && (#[trigger] h[j]).1.package_spec() == q implies h[j].1.term_model().contains(v) by {
                    if j < i {
                    }
                }
            }
        }
    }
}

/// The decision heuristic is deterministic: any two packages that both meet
/// `pick_package`'s contract — minimal count of matching available versions
/// among the potential packages, earliest first mention on ties — are the
/// same package. Together with the deterministic registry this underpins
/// solving the same registry twice giving the same solution.
pub proof fn lemma_pick_package_deterministic(
    h: Seq<(usize, Assignment)>,
    versions1: Seq<u64>,
    versions2: Seq<u64>,
    p1: u64,
    p2: u64,
)
    requires
        potential_package(h, p1),
        potential_package(h, p2),
        count_matching(versions1, h, p1) <= count_matching(versions2, h, p2),
        count_matching(versions2, h, p2) <= count_matching(versions1, h, p1),
        p2 != p1 && count_matching(versions2, h, p2) == count_matching(versions1, h, p1)
            ==> first_mention(h, p1) < first_mention(h, p2),
        p1 != p2 && count_matching(versions1, h, p1) == count_matching(versions2, h, p2)
            ==> first_mention(h, p2) < first_mention(h, p1),
    ensures
        p1 == p2,
{
}

/// Exactly one entry of the incompatibility is not yet forced by the
/// history: the unit-propagation trigger.
pub open spec fn exactly_one_unsatisfied(
    h: Seq<(usize, Assignment)>,
    n: int,
    inc: Seq<(u64, Term)>,
) -> bool {
    exists|k: int|
        0 <= k < inc.len() && !entry_satisfied_upto(h, n, (#[trigger] inc[k]).0, inc[k].1@) && (
        forall|l: int|
            0 <= l < inc.len() && l != k ==> entry_satisfied_upto(h, n, inc[l].0, inc[l].1@))
}

/// Every decided package of the history appears in the solution list.
pub open spec fn solution_covers(h: Seq<(usize, Assignment)>, sol: Seq<(u64, u64)>) -> bool {
    forall|p: u64|
        #[trigger] pkg_decided(h, p) ==> exists|k: int|
            0 <= k < sol.len() && (#[trigger] sol[k]).0 == p
}

/// No package is decided twice.
pub open spec fn at_most_one_decision(h: Seq<(usize, Assignment)>) -> bool {
    forall|i: int, j: int|
        0 <= i < j < h.len() && (#[trigger] h[i]).1.is_decision()
            && (#[trigger] h[j]).1.is_decision() ==> h[i].1.package_spec() != h[j].1.package_spec()
}

/// The position of the first assignment for package `p` in the history.
#[verifier::opaque]
pub open spec fn first_mention(h: Seq<(usize, Assignment)>, p: u64) -> int {
    choose|i: int|
        0 <= i < h.len() && (#[trigger] h[i]).1.package_spec() == p && (forall|j: int|
            0 <= j < i ==> (#[trigger] h[j]).1.package_spec() != p)
}

/// A mentioned package has a first mention, and it is unique.
proof fn lemma_first_mention_from(h: Seq<(usize, Assignment)>, p: u64, w: int)
    requires
        0 <= w < h.len(),
        h[w].1.package_spec() == p,
    ensures
        0 <= first_mention(h, p) <= w,
        h[first_mention(h, p)].1.package_spec() == p,
        forall|j: int| 0 <= j < first_mention(h, p) ==> (#[trigger] h[j]).1.package_spec() != p,
    decreases w,
{
    reveal(first_mention);
    if forall|j: int| 0 <= j < w ==> (#[trigger] h[j]).1.package_spec() != p {
        assert(0 <= w < h.len() && h[w].1.package_spec() == p && (forall|j: int|
            0 <= j < w ==> (#[trigger] h[j]).1.package_spec() != p));
        let i = first_mention(h, p);
        assert(h[i].1.package_spec() == p);
        if i < w {
            assert(h[i].1.package_spec() != p);
        }
        if w < i {
            assert(h[w].1.package_spec() != p);
        }
    } else {
        let j0 = choose|j: int| 0 <= j < w && (#[trigger] h[j]).1.package_spec() == p;
        lemma_first_mention_from(h, p, j0);
    }
}

/// Appending an assignment does not move the first mention of an already
/// mentioned package.
proof fn lemma_first_mention_push(h: Seq<(usize, Assignment)>, e: (usize, Assignment), p: u64, w: int)
    requires
        0 <= w < h.len(),
        h[w].1.package_spec() == p,
    ensures
        first_mention(h.push(e), p) == first_mention(h, p),
{
    lemma_first_mention_from(h, p, w);
    let i = first_mention(h, p);
    assert(h.push(e)[i] == h[i]);
    lemma_first_mention_from(h.push(e), p, i);
    let i2 = first_mention(h.push(e), p);
    assert(i2 <= i);
    if i2 < i {
        assert(h.push(e)[i2] == h[i2]);
        assert(h[i2].1.package_spec() != p);
    }
}

/// Dropping the last assignment does not move the first mention of a package
/// first mentioned earlier.
proof fn lemma_first_mention_drop(h: Seq<(usize, Assignment)>, p: u64, w: int)
    requires
        0 <= w < h.len() - 1,
        h[w].1.package_spec() == p,
    ensures
        first_mention(h.drop_last(), p) == first_mention(h, p),
{
    assert(h.drop_last()[w] == h[w]);
    lemma_first_mention_push(h.drop_last(), h.last(), p, w);
    assert(h.drop_last().push(h.last()) =~= h);
}

/// Appending an assignment keeps the first mentions, and so the order, of
/// already mentioned packages.
proof fn lemma_mention_stable_push(h: Seq<(usize, Assignment)>, e: (usize, Assignment), p: u64)
    requires
        pkg_mentioned_upto(h, h.len() as int, p),
    ensures
        first_mention(h.push(e), p) == first_mention(h, p),
        0 <= first_mention(h, p) < h.len(),
{
    let w = choose|i: int| 0 <= i < h.len() && (#[trigger] h[i]).1.package_spec() == p;
    lemma_first_mention_from(h, p, w);
    lemma_first_mention_push(h, e, p, w);
}

/// Removing the final assignment, a decision, and possibly the cache entry
/// at `idx`, keeps the cache in first-mention order.
proof fn lemma_mem_order_drop(
    mem0: Seq<PkgEntry>,
    mem: Seq<PkgEntry>,
    h1: Seq<(usize, Assignment)>,
    idx: int,
    keep: bool,
)
    requires
        h1.len() > 0,
        forall|k: int, l: int|
            0 <= k < l < mem0.len() ==> first_mention(h1, (#[trigger] mem0[k]).package)
                < first_mention(h1, (#[trigger] mem0[l]).package),
        keep ==> mem.len() == mem0.len() && (forall|k: int|
            0 <= k < mem.len() ==> (#[trigger] mem[k]).package == mem0[k].package),
        !keep ==> 0 <= idx < mem0.len() && mem.len() == mem0.len() - 1 && (forall|k: int|
            0 <= k < mem.len() ==> (#[trigger] mem[k]).package == mem0[if k < idx {
                k
            } else {
                k + 1
            }].package),
        forall|k: int|
            0 <= k < mem.len() ==> pkg_mentioned_upto(
                h1.drop_last(),
                h1.drop_last().len() as int,
                (#[trigger] mem[k]).package,
            ),
    ensures
        forall|k: int, l: int|
            0 <= k < l < mem.len() ==> first_mention(h1.drop_last(), (#[trigger] mem[k]).package)
                < first_mention(h1.drop_last(), (#[trigger] mem[l]).package),
{
    let h0 = h1.drop_last();
    assert forall|k: int, l: int| 0 <= k < l < mem.len() implies first_mention(
        h0,
        (#[trigger] mem[k]).package,
    ) < first_mention(h0, (#[trigger] mem[l]).package) by {
        let ok: int = if keep || k < idx {
            k
        } else {
            k + 1
        };
        let ol: int = if keep || l < idx {
            l
        } else {
            l + 1
        };
        assert(mem[k].package == mem0[ok].package);
        assert(mem[l].package == mem0[ol].package);
        assert(first_mention(h1, mem0[ok].package) < first_mention(h1, mem0[ol].package));
        let qk = mem[k].package;
        let ql = mem[l].package;
        let wk = choose|i: int| 0 <= i < h0.len() && (#[trigger] h0[i]).1.package_spec() == qk;
        let wl = choose|i: int| 0 <= i < h0.len() && (#[trigger] h0[i]).1.package_spec() == ql;
        assert(h1[wk] == h0[wk] && h1[wl] == h0[wl]);
        lemma_first_mention_drop(h1, qk, wk);
        lemma_first_mention_drop(h1, ql, wl);
    }
}

/// The cached state of one package: whether it is decided, the intersection
/// of its derivation terms, and how many derivations produced it.
struct PkgEntry {
    package: u64,
    decision: Option<(u64, Term)>,
    term: Term,
    nderivs: usize,
}

/// The cache entry agrees with the history.
spec fn entry_wf(e: PkgEntry, h: Seq<(usize, Assignment)>) -> bool {
    &&& e.term@.wf()
    &&& e.term@.positive == derivs_positive(h, e.package)
    &&& forall|v: u64| #[trigger] e.term@.contains(v) == derivs_contain(h, e.package, v)
    &&& e.nderivs == num_derivs(h, e.package)
    &&& match e.decision {
        Option::None => !pkg_decided(h, e.package),
        Option::Some((v, t)) => {
            &&& pkg_decision_version(h, e.package, v)
            &&& t@.wf()
            &&& t@.positive
            &&& forall|w: u64| #[trigger] t@.contains(w) == (w == v)
        },
    }
}

spec fn mem_has(mem: Seq<PkgEntry>, p: u64) -> bool {
    exists|k: int| 0 <= k < mem.len() && (#[trigger] mem[k]).package == p
}

/// The whole cache agrees with the history and covers exactly the packages
/// the history mentions.
spec fn mem_wf(mem: Seq<PkgEntry>, h: Seq<(usize, Assignment)>) -> bool {
    &&& forall|k: int, l: int|
        0 <= k < l < mem.len() ==> (#[trigger] mem[k]).package != (#[trigger] mem[l]).package
    &&& forall|k: int|
        0 <= k < mem.len() ==> entry_wf(#[trigger] mem[k], h) && pkg_mentioned_upto(
            h,
            h.len() as int,
            mem[k].package,
        )
    &&& forall|p: u64| pkg_mentioned_upto(h, h.len() as int, p) ==> #[trigger] mem_has(mem, p)
    &&& forall|k: int, l: int|
        0 <= k < l < mem.len() ==> first_mention(h, (#[trigger] mem[k]).package) < first_mention(
            h,
            (#[trigger] mem[l]).package,
        )
}

/// The partial solution: its decision level, the ordered history of level
/// tagged assignments (oldest first), and the per-package cache.
pub struct PartialSolution {
    decision_level: usize,
    history: Vec<(usize, Assignment)>,
    memory: Vec<PkgEntry>,
}

impl View for PartialSolution {
    type V = Seq<(usize, Assignment)>;

    closed spec fn view(&self) -> Seq<(usize, Assignment)> {
        self.history@
    }
}

/// Appending an assignment of another package changes nothing that is said
/// about `q`.
proof fn lemma_hist_push_frame(h: Seq<(usize, Assignment)>, e: (usize, Assignment), q: u64)
    requires
        e.1.package_spec() != q,
    ensures
        derivs_positive(h.push(e), q) == derivs_positive(h, q),
        forall|v: u64| #[trigger] derivs_contain(h.push(e), q, v) == derivs_contain(h, q, v),
        num_derivs(h.push(e), q) == num_derivs(h, q),
        pkg_decided(h.push(e), q) == pkg_decided(h, q),
        forall|v: u64|
            #[trigger] pkg_decision_version(h.push(e), q, v) == pkg_decision_version(h, q, v),
        pkg_mentioned_upto(h.push(e), h.push(e).len() as int, q) == pkg_mentioned_upto(
            h,
            h.len() as int,
            q,
        ),
{
    let g = h.push(e);
    assert(g.drop_last() =~= h);
    assert forall|i: int| 0 <= i < g.len() && (#[trigger] g[i]).1.package_spec() == q implies 0 <= i
        < h.len() && h[i] == g[i] by {
        if i == h.len() {
            assert(g[i] == e);
        }
    }
    if derivs_positive(h, q) {
        let w = choose|i: int|
            0 <= i < h.len() && !(#[trigger] h[i]).1.is_decision() && h[i].1.package_spec() == q
                && h[i].1.term_model().positive;
        assert(g[w] == h[w]);
        assert(derivs_positive(g, q));
    }
    if pkg_decided(h, q) {
        let w = choose|i: int|
            0 <= i < h.len() && (#[trigger] h[i]).1.is_decision() && h[i].1.package_spec() == q;
        assert(g[w] == h[w]);
        assert(pkg_decided(g, q));
    }
    assert forall|v: u64| #[trigger] pkg_decision_version(g, q, v) == pkg_decision_version(
        h,
        q,
        v,
    ) by {
        if pkg_decision_version(h, q, v) {
            let w = choose|i: int|
                0 <= i < h.len() && (#[trigger] h[i]).1.is_decision() && h[i].1.package_spec() == q
                    && h[i].1.version_spec() == v;
            assert(g[w] == h[w]);
        }
    }
    if pkg_mentioned_upto(h, h.len() as int, q) {
        let w = choose|i: int| 0 <= i < h.len() && (#[trigger] h[i]).1.package_spec() == q;
        assert(g[w] == h[w]);
        assert(pkg_mentioned_upto(g, g.len() as int, q));
    }
}

/// What appending an assignment of package `p` itself adds to what is said
/// about `p`.
proof fn lemma_hist_push_same(h: Seq<(usize, Assignment)>, e: (usize, Assignment))
    ensures
        pkg_mentioned_upto(h.push(e), h.push(e).len() as int, e.1.package_spec()),
        !e.1.is_decision() ==> derivs_positive(h.push(e), e.1.package_spec()) == (derivs_positive(
            h,
            e.1.package_spec(),
        ) || e.1.term_model().positive),
        !e.1.is_decision() ==> forall|v: u64|
            #[trigger] derivs_contain(h.push(e), e.1.package_spec(), v) == (derivs_contain(
                h,
                e.1.package_spec(),
                v,
            ) && e.1.term_model().contains(v)),
        !e.1.is_decision() ==> num_derivs(h.push(e), e.1.package_spec()) == num_derivs(
            h,
            e.1.package_spec(),
        ) + 1,
        !e.1.is_decision() ==> pkg_decided(h.push(e), e.1.package_spec()) == pkg_decided(
            h,
            e.1.package_spec(),
        ),
        !e.1.is_decision() ==> forall|v: u64|
            #[trigger] pkg_decision_version(h.push(e), e.1.package_spec(), v)
                == pkg_decision_version(h, e.1.package_spec(), v),
        e.1.is_decision() ==> pkg_decided(h.push(e), e.1.package_spec()),
        e.1.is_decision() ==> forall|v: u64|
            #[trigger] pkg_decision_version(h.push(e), e.1.package_spec(), v) == (
            pkg_decision_version(h, e.1.package_spec(), v) || v == e.1.version_spec()),
        e.1.is_decision() ==> derivs_positive(h.push(e), e.1.package_spec()) == derivs_positive(
            h,
            e.1.package_spec(),
        ),
        e.1.is_decision() ==> forall|v: u64|
            #[trigger] derivs_contain(h.push(e), e.1.package_spec(), v) == derivs_contain(
                h,
                e.1.package_spec(),
                v,
            ),
        e.1.is_decision() ==> num_derivs(h.push(e), e.1.package_spec()) == num_derivs(
            h,
            e.1.package_spec(),
        ),
{
    let g = h.push(e);
    let p = e.1.package_spec();
    assert(g.drop_last() =~= h);
    assert(g[h.len() as int] == e);
    assert(pkg_mentioned_upto(g, g.len() as int, p));
    assert forall|i: int| 0 <= i < h.len() implies g[i] == h[i] by {}
    if !e.1.is_decision() {
        if derivs_positive(h, p) || e.1.term_model().positive {
            if derivs_positive(h, p) {
                let w = choose|i: int|
                    0 <= i < h.len() && !(#[trigger] h[i]).1.is_decision() && h[i].1.package_spec()
                        == p && h[i].1.term_model().positive;
                assert(g[w] == h[w]);
            } else {
                assert(g[h.len() as int] == e);
            }
            assert(derivs_positive(g, p));
        }
        if derivs_positive(g, p) {
            let w = choose|i: int|
                0 <= i < g.len() && !(#[trigger] g[i]).1.is_decision() && g[i].1.package_spec() == p
                    && g[i].1.term_model().positive;
            if w < h.len() {
                assert(h[w] == g[w]);
                assert(derivs_positive(h, p));
            }
        }
        assert forall|v: u64| #[trigger] derivs_contain(g, p, v) == (derivs_contain(h, p, v)
            && e.1.term_model().contains(v)) by {
            if derivs_contain(g, p, v) {
                assert forall|i: int|
                    0 <= i < h.len() && !(#[trigger] h[i]).1.is_decision() && h[i].1.package_spec()
                        == p implies h[i].1.term_model().contains(v) by {
                    assert(g[i] == h[i]);
                    assert(g[i].1.term_model().contains(v));
                }
                assert(g[h.len() as int].1.term_model().contains(v));
            } else {
                if derivs_contain(h, p, v) && e.1.term_model().contains(v) {
                    assert forall|i: int|
                        0 <= i < g.len() && !(#[trigger] g[i]).1.is_decision()
                            && g[i].1.package_spec() == p implies g[i].1.term_model().contains(
                        v,
                    ) by {
                        if i < h.len() {
                            assert(g[i] == h[i]);
                        } else {
                            assert(g[i] == e);
                        }
                    }
                }
            }
        }
        if pkg_decided(h, p) {
            let w = choose|i: int|
                0 <= i < h.len() && (#[trigger] h[i]).1.is_decision() && h[i].1.package_spec() == p;
            assert(g[w] == h[w]);
        }
        if pkg_decided(g, p) {
            let w = choose|i: int|
                0 <= i < g.len() && (#[trigger] g[i]).1.is_decision() && g[i].1.package_spec() == p;
            assert(w < h.len());
            assert(g[w] == h[w]);
            assert(pkg_decided(h, p));
        }
        assert forall|v: u64| #[trigger] pkg_decision_version(g, p, v) == pkg_decision_version(
            h,
            p,
            v,
        ) by {
            if pkg_decision_version(h, p, v) {
                let w = choose|i: int|
                    0 <= i < h.len() && (#[trigger] h[i]).1.is_decision() && h[i].1.package_spec()
                        == p && h[i].1.version_spec() == v;
                assert(g[w] == h[w]);
            }
            if pkg_decision_version(g, p, v) {
                let w = choose|i: int|
                    0 <= i < g.len() && (#[trigger] g[i]).1.is_decision() && g[i].1.package_spec()
                        == p && g[i].1.version_spec() == v;
                assert(w < h.len());
                assert(g[w] == h[w]);
            }
        }
    } else {
        assert(pkg_decided(g, p));
        assert forall|v: u64| #[trigger] pkg_decision_version(g, p, v) == (pkg_decision_version(
            h,
            p,
            v,
        ) || v == e.1.version_spec()) by {
            if pkg_decision_version(h, p, v) {
                let w = choose|i: int|
                    0 <= i < h.len() && (#[trigger] h[i]).1.is_decision() && h[i].1.package_spec()
                        == p && h[i].1.version_spec() == v;
                assert(g[w] == h[w]);
            }
            if v == e.1.version_spec() {
                assert(g[h.len() as int] == e);
            }
            if pkg_decision_version(g, p, v) {
                let w = choose|i: int|
                    0 <= i < g.len() && (#[trigger] g[i]).1.is_decision() && g[i].1.package_spec()
                        == p && g[i].1.version_spec() == v;
                if w < h.len() {
                    assert(g[w] == h[w]);
                }
            }
        }
        if derivs_positive(h, p) {
            let w = choose|i: int|
                0 <= i < h.len() && !(#[trigger] h[i]).1.is_decision() && h[i].1.package_spec() == p
                    && h[i].1.term_model().positive;
            assert(g[w] == h[w]);
        }
        if derivs_positive(g, p) {
            let w = choose|i: int|
                0 <= i < g.len() && !(#[trigger] g[i]).1.is_decision() && g[i].1.package_spec() == p
                    && g[i].1.term_model().positive;
            assert(w < h.len());
            assert(g[w] == h[w]);
        }
        assert forall|v: u64| #[trigger] derivs_contain(g, p, v) == derivs_contain(h, p, v) by {
            if derivs_contain(h, p, v) {
                assert forall|i: int|
                    0 <= i < g.len() && !(#[trigger] g[i]).1.is_decision() && g[i].1.package_spec()
                        == p implies g[i].1.term_model().contains(v) by {
                    assert(i < h.len());
                    assert(g[i] == h[i]);
                }
            }
            if derivs_contain(g, p, v) {
                assert forall|i: int|
                    0 <= i < h.len() && !(#[trigger] h[i]).1.is_decision() && h[i].1.package_spec()
                        == p implies h[i].1.term_model().contains(v) by {
                    assert(g[i] == h[i]);
                    assert(g[i].1.term_model().contains(v));
                }
            }
        }
    }
}

/// There are never more decisions than assignments.
proof fn lemma_num_decisions_le(h: Seq<(usize, Assignment)>)
    ensures
        num_decisions(h) <= h.len(),
    decreases h.len(),
{
    if h.len() > 0 {
        lemma_num_decisions_le(h.drop_last());
    }
}

/// There are never more derivations for a package than assignments.
proof fn lemma_num_derivs_le(h: Seq<(usize, Assignment)>, p: u64)
    ensures
        num_derivs(h, p) <= h.len(),
    decreases h.len(),
{
    if h.len() > 0 {
        lemma_num_derivs_le(h.drop_last(), p);
    }
}

impl PartialSolution {
    /// All invariants of the structure: levels count the decisions of their
    /// prefix, every assignment is well formed, no package is decided twice,
    /// and the cache agrees with the history.
    pub closed spec fn wf(self) -> bool {
        &&& self.decision_level == num_decisions(self@)
        &&& forall|i: int|
            0 <= i < self@.len() ==> (#[trigger] self@[i]).0 == num_decisions(
                self@.take(i + 1),
            ) && self@[i].1.wf()
        &&& at_most_one_decision(self@)
        &&& mem_wf(self.memory@, self@)
    }

    /// Initialize an empty partial solution.
    pub fn empty() -> (r: PartialSolution)
        ensures
            r.wf(),
            r@.len() == 0,
    {
        let r = PartialSolution { decision_level: 0, history: Vec::new(), memory: Vec::new() };
        proof {
            assert(r@.len() == 0);
            if mem_has(r.memory@, 0) {
            }
        }
        r
    }

    /// The number of decisions taken so far.
    pub fn decision_level(&self) -> (l: usize)
        requires
            self.wf(),
        ensures
            l == num_decisions(self@),
    {
        self.decision_level
    }

    /// How many assignments the history holds.
    pub fn history_len(&self) -> (n: usize)
        ensures
            n == self@.len(),
    {
        self.history.len()
    }

    /// The index of package `p` in the cache, when the history mentions it.
    fn find_entry(&self, p: u64) -> (r: Option<usize>)
        requires
            mem_wf(self.memory@, self@),
        ensures
            match r {
                Some(k) => k < self.memory@.len() && self.memory@[k as int].package == p,
                None => !pkg_mentioned_upto(self@, self@.len() as int, p),
            },
    {
        let mut k: usize = 0;
        while k < self.memory.len()
            invariant
                k <= self.memory@.len(),
                mem_wf(self.memory@, self@),
                forall|i: int| 0 <= i < k ==> (#[trigger] self.memory@[i]).package != p,
            decreases self.memory@.len() - k,
        {
            if self.memory[k].package == p {
                return Some(k);
            }
            k = k + 1;
        }
        proof {
            if pkg_mentioned_upto(self@, self@.len() as int, p) {
                assert(mem_has(self.memory@, p));
                let w = choose|i: int|
                    0 <= i < self.memory@.len() && (#[trigger] self.memory@[i]).package == p;
                assert(self.memory@[w].package != p);
            }
        }
        None
    }

    /// Fold one assignment into the package cache; `h` is the history the
    /// cache agreed with before, `lvl` the level the assignment is stored at.
    #[verifier::rlimit(100)]
    #[verifier::spinoff_prover]
    fn apply_to_memory(
        memory: &mut Vec<PkgEntry>,
        a: &Assignment,
        Ghost(h): Ghost<Seq<(usize, Assignment)>>,
        lvl: usize,
    )
        requires
            mem_wf(old(memory)@, h),
            a.wf(),
            h.len() < usize::MAX,
            a.is_decision() ==> !pkg_decided(h, a.package_spec()),
        ensures
            mem_wf(final(memory)@, h.push((lvl, *a))),
    {
        let p = a.package();
        let mut idx: usize = 0;
        let mut found: bool = false;
        while idx < memory.len() && !found
            invariant
                idx <= memory@.len(),
                mem_wf(memory@, h),
                !found ==> forall|i: int| 0 <= i < idx ==> (#[trigger] memory@[i]).package != p,
                found ==> idx < memory@.len() && memory@[idx as int].package == p,
            decreases memory@.len() - idx, (if found { 0int } else { 1int }),
        {
            if memory[idx].package == p {
                found = true;
            } else {
                idx = idx + 1;
            }
        }
        if !found {
            proof {
                if pkg_mentioned_upto(h, h.len() as int, p) {
                    assert(mem_has(memory@, p));
                    let w = choose|i: int|
                        0 <= i < memory@.len() && (#[trigger] memory@[i]).package == p;
                    assert(memory@[w].package != p);
                }
            }
            idx = memory.len();
            let e = PkgEntry { package: p, decision: None, term: Term::any(), nderivs: 0 };
            proof {
                if derivs_positive(h, p) {
                    let w = choose|i: int|
                        0 <= i < h.len() && !(#[trigger] h[i]).1.is_decision()
                            && h[i].1.package_spec() == p && h[i].1.term_model().positive;
                    assert(pkg_mentioned_upto(h, h.len() as int, p));
                }
                if pkg_decided(h, p) {
                    let w = choose|i: int|
                        0 <= i < h.len() && (#[trigger] h[i]).1.is_decision()
                            && h[i].1.package_spec() == p;
                    assert(pkg_mentioned_upto(h, h.len() as int, p));
                }
                assert(num_derivs(h, p) == 0) by {
                    lemma_num_derivs_zero(h, p);
                }
                assert(entry_wf(e, h));
            }
            let ghost mem_pre = memory@;
            memory.push(e);
            proof {
                assert forall|q: u64|
                    pkg_mentioned_upto(h, h.len() as int, q) implies #[trigger] mem_has(
                    memory@,
                    q,
                ) by {
                    assert(mem_has(mem_pre, q));
                    let w = choose|i: int| 0 <= i < mem_pre.len() && (#[trigger] mem_pre[i]).package
                        == q;
                    assert(memory@[w].package == q);
                }
                assert forall|k: int| 0 <= k < memory@.len() implies entry_wf(
                    #[trigger] memory@[k],
                    h,
                ) by {
                    if k < mem_pre.len() {
                        assert(memory@[k] == mem_pre[k]);
                    } else {
                        assert(memory@[k] == e);
                    }
                }
                assert forall|k: int, l: int| 0 <= k < l < memory@.len() implies (
                #[trigger] memory@[k]).package != (#[trigger] memory@[l]).package by {
                    if l == mem_pre.len() {
                        assert(memory@[k] == mem_pre[k]);
                        if mem_pre[k].package == p {
                            assert(mem_has(mem_pre, p));
                        }
                    } else {
                        assert(memory@[k] == mem_pre[k]);
                        assert(memory@[l] == mem_pre[l]);
                    }
                }
            }
        }
        let ghost mem0 = memory@;
        match a {
            Assignment::Decision { version, term, .. } => {
                let dt = term.clone();
                let cur_term = memory[idx].term.clone();
                let cur_n = memory[idx].nderivs;
                memory[idx] = PkgEntry {
                    package: p,
                    decision: Some((*version, dt)),
                    term: cur_term,
                    nderivs: cur_n,
                };
            },
            Assignment::Derivation { term, .. } => {
                let nt = memory[idx].term.intersection(term);
                let cur_dec = match &memory[idx].decision {
                    Some((v, t)) => Some((*v, t.clone())),
                    None => None,
                };
                proof {
                    lemma_num_derivs_le(h, p);
                }
                let cur_n = memory[idx].nderivs + 1;
                memory[idx] = PkgEntry { package: p, decision: cur_dec, term: nt, nderivs: cur_n };
            },
        }
        proof {
            let e = (lvl, *a);
            let h1 = h.push(e);
            assert forall|k: int| 0 <= k < memory@.len() implies entry_wf(#[trigger] memory@[k], h1)
                && pkg_mentioned_upto(h1, h1.len() as int, memory@[k].package) by {
                if memory@[k].package == p {
                    assert(k == idx) by {
                        if k != idx {
                            assert(mem0[k].package != mem0[idx as int].package);
                        }
                    }
                    lemma_hist_push_same(h, e);
                    assert(entry_wf(mem0[idx as int], h));
                    assert(entry_wf(memory@[k], h1));
                } else {
                    assert(memory@[k] == mem0[k]);
                    lemma_hist_push_frame(h, e, memory@[k].package);
                    assert(entry_wf(memory@[k], h1));
                }
            }
            assert forall|q: u64|
                pkg_mentioned_upto(h1, h1.len() as int, q) implies #[trigger] mem_has(
                memory@,
                q,
            ) by {
                if q == p {
                    assert(memory@[idx as int].package == p);
                } else {
                    lemma_hist_push_frame(h, e, q);
                    assert(mem_has(mem0, q));
                    let w = choose|i: int| 0 <= i < mem0.len() && (#[trigger] mem0[i]).package == q;
                    if w == idx {
                        assert(mem0[idx as int].package == p);
                    }
                    assert(memory@[w].package == q);
                }
            }
            // insertion order still matches first-mention order: only the
            // entry appended for a fresh package can be unmentioned before
            // the push, and it sits last
            assert forall|m: int|
                0 <= m < mem0.len() && !pkg_mentioned_upto(
                    h,
                    h.len() as int,
                    (#[trigger] mem0[m]).package,
                ) implies !found && m == mem0.len() - 1 by {
                if found {
                    assert(entry_wf(old(memory)@[m], h) && pkg_mentioned_upto(
                        h,
                        h.len() as int,
                        old(memory)@[m].package,
                    ));
                } else {
                    if m < mem0.len() - 1 {
                        assert(entry_wf(old(memory)@[m], h) && pkg_mentioned_upto(
                            h,
                            h.len() as int,
                            old(memory)@[m].package,
                        ));
                    }
                }
            }
            assert forall|k: int, l: int| 0 <= k < l < memory@.len() implies first_mention(
                h1,
                (#[trigger] memory@[k]).package,
            ) < first_mention(h1, (#[trigger] memory@[l]).package) by {
                let qk = memory@[k].package;
                let ql = memory@[l].package;
                assert(qk == mem0[k].package && ql == mem0[l].package);
                assert(pkg_mentioned_upto(h, h.len() as int, qk));
                lemma_mention_stable_push(h, e, qk);
                if pkg_mentioned_upto(h, h.len() as int, ql) {
                    lemma_mention_stable_push(h, e, ql);
                    assert(first_mention(h, mem0[k].package) < first_mention(
                        h,
                        mem0[l].package,
                    ));
                } else {
                    assert(ql == p && l == mem0.len() - 1 && !found);
                    assert(h1[h.len() as int].1.package_spec() == p);
                    lemma_first_mention_from(h1, p, h.len() as int);
                    if first_mention(h1, p) < h.len() {
                        assert(h1[first_mention(h1, p)] == h[first_mention(h1, p)]);
                        assert(pkg_mentioned_upto(h, h.len() as int, p));
                    }
                    assert(first_mention(h1, ql) == h.len());
                }
            }
        }
    }

    /// Append one assignment: bump the level on a decision, fold the term
    /// into the package's cache entry, and record the step in the history.
    fn add_assignment(&mut self, a: Assignment)
        requires
            old(self).wf(),
            a.wf(),
            old(self)@.len() < usize::MAX,
            a.is_decision() ==> !pkg_decided(old(self)@, a.package_spec()),
        ensures
            final(self).wf(),
            final(self)@ == old(self)@.push(
                (
                    (num_decisions(old(self)@) + (if a.is_decision() {
                        1int
                    } else {
                        0int
                    })) as usize,
                    a,
                ),
            ),
    {
        let ghost h0 = self@;
        let is_dec = match &a {
            Assignment::Decision { .. } => true,
            Assignment::Derivation { .. } => false,
        };
        let level: usize;
        if is_dec {
            proof {
                lemma_num_decisions_le(self@);
            }
            level = self.decision_level + 1;
            self.decision_level = level;
        } else {
            level = self.decision_level;
        }
        Self::apply_to_memory(&mut self.memory, &a, Ghost(h0), level);
        self.history.push((level, a));
        proof {
            let h1 = self@;
            let e = (level, a);
            assert(h1 == h0.push(e));
            assert(h1.drop_last() =~= h0);
            assert forall|i: int|
                0 <= i < h1.len() implies (#[trigger] h1[i]).0 == num_decisions(h1.take(i + 1))
                && h1[i].1.wf() by {
                if i < h0.len() {
                    assert(h1.take(i + 1) =~= h0.take(i + 1));
                    assert(h1[i] == h0[i]);
                } else {
                    assert(h1.take(i + 1) =~= h1);
                }
            }
            assert forall|i: int, j: int|
                0 <= i < j < h1.len() && (#[trigger] h1[i]).1.is_decision()
                    && (#[trigger] h1[j]).1.is_decision() implies h1[i].1.package_spec()
                    != h1[j].1.package_spec() by {
                if j < h0.len() {
                    assert(h1[i] == h0[i] && h1[j] == h0[j]);
                } else {
                    assert(h1[j] == e);
                    assert(h1[i] == h0[i]);
                    if h0[i].1.package_spec() == a.package_spec() {
                        assert(pkg_decided(h0, a.package_spec()));
                    }
                }
            }
            assert(num_decisions(h1) == num_decisions(h0) + (if a.is_decision() {
                1nat
            } else {
                0nat
            }));
            assert(self.wf());
        }
    }

    /// If the partial solution has, for every package required by a positive
    /// derivation, a decision, it is a total solution and solving succeeded:
    /// return one `(package, version)` pair per decision.
    #[verifier::rlimit(100)]
    #[verifier::spinoff_prover]
    pub fn extract_solution(&self) -> (r: Option<Vec<(u64, u64)>>)
        requires
            self.wf(),
        ensures
            r.is_some() == (forall|p: u64|
                #[trigger] derivs_positive(self@, p) ==> pkg_decided(self@, p)),
            r matches Some(sol) ==> forall|k: int|
                0 <= k < sol@.len() ==> pkg_decision_version(
                    self@,
                    (#[trigger] sol@[k]).0,
                    sol@[k].1,
                ),
            r matches Some(sol) ==> solution_covers(self@, sol@),
            r matches Some(sol) ==> forall|k: int, l: int|
                0 <= k < l < sol@.len() ==> (#[trigger] sol@[k]).0 != (#[trigger] sol@[l]).0,
    {
        let mut sol: Vec<(u64, u64)> = Vec::new();
        let mut k: usize = 0;
        while k < self.memory.len()
            invariant
                k <= self.memory@.len(),
                self.wf(),
                forall|i: int|
                    0 <= i < k ==> !((#[trigger] self.memory@[i]).decision is None
                        && self.memory@[i].term@.positive),
                forall|j: int|
                    0 <= j < sol@.len() ==> pkg_decision_version(
                        self@,
                        (#[trigger] sol@[j]).0,
                        sol@[j].1,
                    ),
                forall|i: int|
                    0 <= i < k && (#[trigger] self.memory@[i]).decision is Some ==> exists|j: int|
                        0 <= j < sol@.len() && (#[trigger] sol@[j]).0 == self.memory@[i].package,
                forall|j: int|
                    0 <= j < sol@.len() ==> exists|i: int|
                        0 <= i < k && (#[trigger] self.memory@[i]).package == (#[trigger] sol@[j]).0,
                forall|j: int, l: int|
                    0 <= j < l < sol@.len() ==> (#[trigger] sol@[j]).0 != (#[trigger] sol@[l]).0,
            decreases self.memory@.len() - k,
        {
            let ghost pre = sol@;
            match &self.memory[k].decision {
                Some((v, _)) => {
                    let p = self.memory[k].package;
                    proof {
                        if exists|j: int| 0 <= j < pre.len() && (#[trigger] pre[j]).0 == p {
                            let j = choose|j: int|
                                0 <= j < pre.len() && (#[trigger] pre[j]).0 == p;
                            let i = choose|i: int|
                                0 <= i < k && (#[trigger] self.memory@[i]).package == pre[j].0;
                            assert(self.memory@[i].package != self.memory@[k as int].package);
                        }
                    }
                    sol.push((p, *v));
                    proof {
                        assert forall|i: int|
                            0 <= i < k + 1 && (#[trigger] self.memory@[i]).decision
                                is Some implies exists|j: int|
                            0 <= j < sol@.len() && (#[trigger] sol@[j]).0 == self.memory@[i].package by {
                            if i < k {
                                let j = choose|j: int|
                                    0 <= j < pre.len() && (#[trigger] pre[j]).0 == self.memory@[i].package;
                                assert(sol@[j].0 == self.memory@[i].package);
                            } else {
                                assert(sol@[sol@.len() - 1].0 == p);
                            }
                        }
                        assert forall|j: int| 0 <= j < sol@.len() implies exists|i: int|
                            0 <= i < k + 1 && (#[trigger] self.memory@[i]).package == (
                            #[trigger] sol@[j]).0 by {
                            if j < pre.len() {
                                let i = choose|i: int|
                                    0 <= i < k && (#[trigger] self.memory@[i]).package == pre[j].0;
                                assert(self.memory@[i].package == sol@[j].0);
                            } else {
                                assert(self.memory@[k as int].package == sol@[j].0);
                            }
                        }
                    }
                },
                None => {
                    if self.memory[k].term.is_positive() {
                        proof {
                            let p = self.memory@[k as int].package;
                            assert(derivs_positive(self@, p) && !pkg_decided(self@, p));
                        }
                        return None;
                    }
                    proof {
                        assert forall|j: int| 0 <= j < sol@.len() implies exists|i: int|
                            0 <= i < k + 1 && (#[trigger] self.memory@[i]).package == (
                            #[trigger] sol@[j]).0 by {
                            let i = choose|i: int|
                                0 <= i < k && (#[trigger] self.memory@[i]).package == (
                                #[trigger] sol@[j]).0;
                            assert(0 <= i < k + 1 && self.memory@[i].package == sol@[j].0);
                        }
                    }
                },
            }
            k = k + 1;
        }
        proof {
            assert forall|p: u64|
                #[trigger] derivs_positive(self@, p) implies pkg_decided(self@, p) by {
                let w = choose|i: int|
                    0 <= i < self@.len() && !(#[trigger] self@[i]).1.is_decision()
                        && self@[i].1.package_spec() == p && self@[i].1.term_model().positive;
                assert(pkg_mentioned_upto(self@, self@.len() as int, p));
                assert(mem_has(self.memory@, p));
                let m = choose|i: int|
                    0 <= i < self.memory@.len() && (#[trigger] self.memory@[i]).package == p;
                assert(entry_wf(self.memory@[m], self@));
                assert(self.memory@[m].term@.positive);
                assert(self.memory@[m].decision is Some);
            }
            assert forall|p: u64| #[trigger] pkg_decided(self@, p) implies exists|k: int|
                0 <= k < sol@.len() && (#[trigger] sol@[k]).0 == p by {
                let w = choose|i: int|
                    0 <= i < self@.len() && (#[trigger] self@[i]).1.is_decision()
                        && self@[i].1.package_spec() == p;
                assert(pkg_mentioned_upto(self@, self@.len() as int, p));
                assert(mem_has(self.memory@, p));
                let m = choose|i: int|
                    0 <= i < self.memory@.len() && (#[trigger] self.memory@[i]).package == p;
                assert(entry_wf(self.memory@[m], self@));
                assert(self.memory@[m].decision is Some);
                let j = choose|j: int|
                    0 <= j < sol@.len() && (#[trigger] sol@[j]).0 == self.memory@[m].package;
                assert(0 <= j < sol@.len() && sol@[j].0 == p);
            }
            assert(solution_covers(self@, sol@));
        }
        Some(sol)
    }

    /// Backtrack the partial solution to a given decision level: cut the
    /// history after the last assignment at that level and rebuild the cache
    /// from what remains. When the exact level never appears in the history
    /// the whole history is deliberately kept, mirroring the cut's fallback
    /// position of "everything"; levels are contiguous from one upward, so
    /// for the levels conflict resolution produces (always at least one)
    /// this coincides with cutting after the last entry of level at most the
    /// target.
    pub fn backtrack(&mut self, decision_level: usize)
        requires
            old(self).wf(),
            old(self)@.len() > 0,
        ensures
            final(self).wf(),
            level_found(old(self)@, decision_level) ==> final(self)@ == old(self)@.take(
                backtrack_pos(old(self)@, decision_level) + 1,
            ),
            !level_found(old(self)@, decision_level) ==> final(self)@ == old(self)@,
    {
        let ghost h0 = self@;
        let n = self.history.len();
        let mut i: usize = n;
        let mut pos: usize = n - 1;
        let mut found: bool = false;
        while i > 0 && !found
            invariant
                i <= n,
                n == self@.len(),
                self.wf(),
                !found ==> pos == n - 1 && forall|j: int|
                    i <= j < n ==> (#[trigger] self@[j]).0 != decision_level,
                found ==> i <= pos < n && self@[pos as int].0 == decision_level && forall|j: int|
                    pos < j < n ==> (#[trigger] self@[j]).0 != decision_level,
            decreases i, (if found { 0int } else { 1int }),
        {
            i = i - 1;
            if self.history[i].0 == decision_level {
                pos = i;
                found = true;
            }
        }
        proof {
            if found {
                assert(level_found(h0, decision_level));
                let b = backtrack_pos(h0, decision_level);
                assert(h0[pos as int].0 == decision_level && forall|j: int|
                    pos < j < h0.len() ==> (#[trigger] h0[j]).0 != decision_level);
                assert(0 <= b < h0.len() && h0[b].0 == decision_level && forall|j: int|
                    b < j < h0.len() ==> (#[trigger] h0[j]).0 != decision_level);
                if b < pos {
                    assert(h0[pos as int].0 != decision_level);
                }
                if pos < b {
                    assert(h0[b].0 != decision_level);
                }
                assert(b == pos);
            } else {
                if level_found(h0, decision_level) {
                    let w = choose|j: int|
                        0 <= j < h0.len() && (#[trigger] h0[j]).0 == decision_level;
                    assert(h0[w].0 != decision_level);
                }
            }
        }
        self.history.truncate(pos + 1);
        self.decision_level = self.history[pos].0;
        proof {
            assert(self@ =~= h0.take(pos + 1));
            assert(h0[pos as int].0 == num_decisions(h0.take(pos + 1)));
            assert(num_decisions(self@) == num_decisions(h0.take(pos + 1)));
            assert forall|i2: int|
                0 <= i2 < self@.len() implies (#[trigger] self@[i2]).0 == num_decisions(
                self@.take(i2 + 1),
            ) && self@[i2].1.wf() by {
                assert(self@[i2] == h0[i2]);
                assert(self@.take(i2 + 1) =~= h0.take(i2 + 1));
            }
            assert forall|i2: int, j2: int|
                0 <= i2 < j2 < self@.len() && (#[trigger] self@[i2]).1.is_decision()
                    && (#[trigger] self@[j2]).1.is_decision() implies self@[i2].1.package_spec()
                != self@[j2].1.package_spec() by {
                assert(self@[i2] == h0[i2] && self@[j2] == h0[j2]);
            }
        }
        // rebuild the cache from the kept prefix
        self.memory = Vec::new();
        let m = self.history.len();
        let mut k: usize = 0;
        proof {
            assert(m == pos + 1);
            if mem_has(self.memory@, 0) {
            }
            assert(mem_wf(self.memory@, self@.take(0)));
        }
        while k < m
            invariant
                k <= m,
                m == self@.len(),
                self@ == h0.take(pos + 1),
                pos < h0.len(),
                self.decision_level == num_decisions(self@),
                forall|i2: int|
                    0 <= i2 < self@.len() ==> (#[trigger] self@[i2]).0 == num_decisions(
                        self@.take(i2 + 1),
                    ) && self@[i2].1.wf(),
                at_most_one_decision(self@),
                mem_wf(self.memory@, self@.take(k as int)),
            decreases m - k,
        {
            proof {
                let hk = self@.take(k as int);
                assert(hk.len() < usize::MAX);
                if self@[k as int].1.is_decision() {
                    if pkg_decided(hk, self@[k as int].1.package_spec()) {
                        let w = choose|i2: int|
                            0 <= i2 < hk.len() && (#[trigger] hk[i2]).1.is_decision()
                                && hk[i2].1.package_spec() == self@[k as int].1.package_spec();
                        assert(self@[w] == hk[w]);
                    }
                }
            }
            let ghost hk = self@.take(k as int);
            let lvl = self.history[k].0;
            Self::apply_to_memory(&mut self.memory, &self.history[k].1, Ghost(hk), lvl);
            proof {
                assert(self@.take(k as int).push(self@[k as int]) =~= self@.take(k + 1));
            }
            k = k + 1;
        }
        proof {
            assert(self@.take(m as int) =~= self@);
            assert(self.wf());
        }
    }

    /// The intersection of every term the history assigns to `package`,
    /// decisions included; `None` when the history never mentions it.
    pub fn term_intersection_for_package(&self, package: u64) -> (r: Option<Term>)
        requires
            self.wf(),
        ensures
            match r {
                Some(t) => {
                    &&& pkg_mentioned(self@, package)
                    &&& t.wf()
                    &&& t@.positive == pkg_positive(self@, package)
                    &&& forall|v: u64| #[trigger] t@.contains(v) == pkg_contains(self@, package, v)
                },
                None => !pkg_mentioned(self@, package),
            },
    {
        let h = Ghost(self@);
        match self.find_entry(package) {
            None => None,
            Some(k) => {
                let t = self.memory[k].term.clone();
                proof {
                    assert(entry_wf(self.memory@[k as int], self@));
                }
                match &self.memory[k].decision {
                    None => {
                        proof {
                            assert(t@.positive == pkg_positive(self@, package)) by {
                                if derivs_positive(self@, package) {
                                    let w = choose|i: int|
                                        0 <= i < self@.len() && !(
                                        #[trigger] self@[i]).1.is_decision()
                                            && self@[i].1.package_spec() == package
                                            && self@[i].1.term_model().positive;
                                    assert(pkg_positive(self@, package));
                                }
                                if pkg_positive(self@, package) {
                                    let w = choose|i: int|
                                        0 <= i < self@.len() && (#[trigger] self@[i]).1.package_spec() == package
                                            && self@[i].1.term_model().positive;
                                    if self@[w].1.is_decision() {
                                        assert(pkg_decided(self@, package));
                                    }
                                    assert(derivs_positive(self@, package));
                                }
                            }
                            assert forall|v: u64| #[trigger] t@.contains(v) == pkg_contains(
                                self@,
                                package,
                                v,
                            ) by {
                                assert(t@.contains(v) == derivs_contain(self@, package, v));
                                if derivs_contain(self@, package, v) {
                                    assert forall|i: int|
                                        0 <= i < self@.len() && (#[trigger] self@[i]).1.package_spec() == package implies self@[i].1.term_model().contains(v) by {
                                        if self@[i].1.is_decision() {
                                            assert(pkg_decided(self@, package));
                                        }
                                    }
                                }
                            }
                            assert(pkg_mentioned(self@, package));
                        }
                        Some(t)
                    },
                    Some((v0, dt)) => {
                        let t2 = t.intersection(dt);
                        proof {
                            let w = choose|i: int|
                                0 <= i < self@.len() && (#[trigger] self@[i]).1.is_decision()
                                    && self@[i].1.package_spec() == package
                                    && self@[i].1.version_spec() == *v0;
                            assert(self@[w].1.wf());
                            assert(pkg_positive(self@, package));
                            assert(t2@.positive == pkg_positive(self@, package));
                            assert forall|v: u64| #[trigger] t2@.contains(v) == pkg_contains(
                                self@,
                                package,
                                v,
                            ) by {
                                assert(t2@.contains(v) == (t@.contains(v) && dt@.contains(v)));
                                assert(t@.contains(v) == derivs_contain(self@, package, v));
                                if t2@.contains(v) {
                                    assert forall|i: int|
                                        0 <= i < self@.len() && (#[trigger] self@[i]).1.package_spec() == package implies self@[i].1.term_model().contains(v) by {
                                        if self@[i].1.is_decision() {
                                            if i != w {
                                                assert(self@[i].1.package_spec() != self@[w].1.package_spec());
                                            }
                                            assert(self@[i].1.term_model().contains(v) == (v
                                                == *v0));
                                        }
                                    }
                                }
                                if pkg_contains(self@, package, v) {
                                    assert(self@[w].1.term_model().contains(v));
                                    assert(v == *v0);
                                }
                            }
                            assert(pkg_mentioned(self@, package));
                        }
                        Some(t2)
                    },
                }
            },
        }
    }

    /// Check how the terms of the partial solution relate to the given
    /// incompatibility: a conflict, a unit-propagation trigger with its
    /// entry, an impossible entry, or nothing conclusive yet.
    pub fn relation(&self, incompat: &Incompatibility) -> (r: IncompatRelation)
        requires
            self.wf(),
            incompat.wf(),
        ensures
            (r is Satisfied) == incompat_satisfied_upto(self@, self@.len() as int, incompat@),
            r matches IncompatRelation::Contradicted(p, t) ==> has_package(incompat@, p) && t@
                == term_for(incompat@, p) && entry_contradicted(self@, p, t@)
                && !entry_satisfied_upto(self@, self@.len() as int, p, t@),
            !(r is Contradicted) ==> forall|k: int|
                0 <= k < incompat@.len() && entry_contradicted(
                    self@,
                    (#[trigger] incompat@[k]).0,
                    incompat@[k].1@,
                ) ==> entry_satisfied_upto(
                    self@,
                    self@.len() as int,
                    incompat@[k].0,
                    incompat@[k].1@,
                ),
            r matches IncompatRelation::AlmostSatisfied(p, t) ==> exists|k: int|
                0 <= k < incompat@.len() && (#[trigger] incompat@[k]).0 == p && incompat@[k].1@
                    == t@ && !entry_satisfied_upto(self@, self@.len() as int, p, t@)
                    && (forall|l: int|
                    0 <= l < incompat@.len() && l != k ==> entry_satisfied_upto(
                        self@,
                        self@.len() as int,
                        (#[trigger] incompat@[l]).0,
                        incompat@[l].1@,
                    )),
            ((forall|k: int|
                0 <= k < incompat@.len() && entry_contradicted(
                    self@,
                    (#[trigger] incompat@[k]).0,
                    incompat@[k].1@,
                ) ==> entry_satisfied_upto(
                    self@,
                    self@.len() as int,
                    incompat@[k].0,
                    incompat@[k].1@,
                )) && exactly_one_unsatisfied(self@, self@.len() as int, incompat@))
                ==> r is AlmostSatisfied,
    {
        let ghost h = self@;
        let ghost n = self@.len() as int;
        let mut unsat: usize = 0;
        let mut saved_p: u64 = 0;
        let mut saved_t: Option<Term> = None;
        let ghost mut saved_k: int = 0;
        let ghost mut saved_k2: int = 0;
        let mut k: usize = 0;
        while k < incompat.len()
            invariant
                k <= incompat@.len(),
                self.wf(),
                incompat.wf(),
                h == self@,
                n == self@.len() as int,
                forall|l: int|
                    0 <= l < k && entry_contradicted(
                        h,
                        (#[trigger] incompat@[l]).0,
                        incompat@[l].1@,
                    ) ==> entry_satisfied_upto(h, n, incompat@[l].0, incompat@[l].1@),
                unsat == 0 ==> forall|l: int|
                    0 <= l < k ==> entry_satisfied_upto(
                        h,
                        n,
                        (#[trigger] incompat@[l]).0,
                        incompat@[l].1@,
                    ),
                unsat > 0 ==> 0 <= saved_k < k && !entry_satisfied_upto(
                    h,
                    n,
                    incompat@[saved_k].0,
                    incompat@[saved_k].1@,
                ) && saved_p == incompat@[saved_k].0 && (saved_t matches Some(t) && t@
                    == incompat@[saved_k].1@),
                unsat == 1 ==> forall|l: int|
                    0 <= l < k && l != saved_k ==> entry_satisfied_upto(
                        h,
                        n,
                        (#[trigger] incompat@[l]).0,
                        incompat@[l].1@,
                    ),
                unsat >= 2 ==> 0 <= saved_k2 < k && saved_k2 != saved_k
                    && !entry_satisfied_upto(
                    h,
                    n,
                    incompat@[saved_k2].0,
                    incompat@[saved_k2].1@,
                ),
                unsat <= k,
            decreases incompat@.len() - k,
        {
            let p = incompat.package_at(k);
            let tk = incompat.term_at(k);
            proof {
                crate::incompatibility::lemma_package_index(incompat@, p, k as int);
            }
            match self.term_intersection_for_package(p) {
                None => {
                    proof {
                        assert(!entry_satisfied_upto(h, n, p, tk@));
                        assert(!entry_contradicted(h, p, tk@));
                    }
                    if unsat == 0 {
                        saved_p = p;
                        saved_t = Some(tk.clone());
                        proof {
                            saved_k = k as int;
                        }
                    }
                    if unsat == 1 {
                        proof {
                            saved_k2 = k as int;
                        }
                    }
                    unsat = unsat + 1;
                },
                Some(lt) => {
                    let sat = lt.subset_of(tk);
                    proof {
                        assert(sat == entry_satisfied_upto(h, n, p, tk@)) by {
                            if sat {
                                assert forall|v: u64|
                                    pkg_contains_upto(h, n, p, v) implies #[trigger] tk@.contains(
                                    v,
                                ) by {
                                    assert(lt@.contains(v) == pkg_contains(h, p, v));
                                }
                            } else {
                                if entry_satisfied_upto(h, n, p, tk@) {
                                    assert forall|v: u64| #[trigger] lt@.contains(
                                        v,
                                    ) implies tk@.contains(v) by {
                                        assert(lt@.contains(v) == pkg_contains(h, p, v));
                                    }
                                    assert(subset_of_model(lt@, tk@));
                                }
                            }
                        }
                    }
                    if !sat {
                        let inter = lt.intersection(tk);
                        if inter.is_empty_term() {
                            proof {
                                assert(entry_contradicted(h, p, tk@)) by {
                                    assert forall|v: u64|
                                        !(pkg_contains(h, p, v) && #[trigger] tk@.contains(v)) by {
                                        assert(inter@.contains(v) == (lt@.contains(v)
                                            && tk@.contains(v)));
                                        assert(lt@.contains(v) == pkg_contains(h, p, v));
                                        assert(!inter@.contains(v));
                                    }
                                }
                                assert(!incompat_satisfied_upto(h, n, incompat@)) by {
                                    if incompat_satisfied_upto(h, n, incompat@) {
                                        assert(entry_satisfied_upto(h, n, incompat@[k as int].0,
                                            incompat@[k as int].1@));
                                    }
                                }
                            }
                            proof {
                                assert(incompat@[k as int].0 == p);
                            }
                            return IncompatRelation::Contradicted(p, tk.clone());
                        }
                        proof {
                            assert(!entry_contradicted(h, p, tk@)) by {
                                if entry_contradicted(h, p, tk@) {
                                    assert forall|v: u64| !(#[trigger] inter@.contains(v)) by {
                                        assert(inter@.contains(v) == (lt@.contains(v)
                                            && tk@.contains(v)));
                                        assert(lt@.contains(v) == pkg_contains(h, p, v));
                                        assert(!(pkg_contains(h, p, v) && tk@.contains(v)));
                                    }
                                    assert(inter@.positive);
                                }
                            }
                        }
                        if unsat == 0 {
                            saved_p = p;
                            saved_t = Some(tk.clone());
                            proof {
                                saved_k = k as int;
                            }
                        }
                        if unsat == 1 {
                            proof {
                                saved_k2 = k as int;
                            }
                        }
                        unsat = unsat + 1;
                    }
                },
            }
            k = k + 1;
        }
        if unsat == 0 {
            proof {
                if exactly_one_unsatisfied(h, n, incompat@) {
                    let k0 = choose|k0: int|
                        0 <= k0 < incompat@.len() && !entry_satisfied_upto(
                            h,
                            n,
                            (#[trigger] incompat@[k0]).0,
                            incompat@[k0].1@,
                        ) && (forall|l: int|
                            0 <= l < incompat@.len() && l != k0 ==> entry_satisfied_upto(
                                h,
                                n,
                                incompat@[l].0,
                                incompat@[l].1@,
                            ));
                    assert(entry_satisfied_upto(h, n, incompat@[k0].0, incompat@[k0].1@));
                }
            }
            IncompatRelation::Satisfied
        } else if unsat == 1 {
            let t = match saved_t {
                Some(t) => t,
                None => Term::any(),
            };
            proof {
                assert(!incompat_satisfied_upto(h, n, incompat@)) by {
                    assert(!entry_satisfied_upto(h, n, incompat@[saved_k].0, incompat@[saved_k].1@));
                }
            }
            IncompatRelation::AlmostSatisfied(saved_p, t)
        } else {
            proof {
                assert(!incompat_satisfied_upto(h, n, incompat@)) by {
                    assert(!entry_satisfied_upto(h, n, incompat@[saved_k].0, incompat@[saved_k].1@));
                }
                if exactly_one_unsatisfied(h, n, incompat@) {
                    let k0 = choose|k0: int|
                        0 <= k0 < incompat@.len() && !entry_satisfied_upto(
                            h,
                            n,
                            (#[trigger] incompat@[k0]).0,
                            incompat@[k0].1@,
                        ) && (forall|l: int|
                            0 <= l < incompat@.len() && l != k0 ==> entry_satisfied_upto(
                                h,
                                n,
                                incompat@[l].0,
                                incompat@[l].1@,
                            ));
                    if saved_k != k0 {
                        assert(entry_satisfied_upto(h, n, incompat@[saved_k].0, incompat@[saved_k].1@));
                    } else {
                        assert(entry_satisfied_upto(
                            h,
                            n,
                            incompat@[saved_k2].0,
                            incompat@[saved_k2].1@,
                        ));
                    }
                }
            }
            IncompatRelation::Inconclusive
        }
    }

    /// Heuristic for the next package to decide: among the packages with a
    /// positive derived requirement but no decision yet, one whose term is
    /// matched by the fewest currently available versions, with its term.
    /// Such packages run out of versions quickly, which surfaces conflicts
    /// early. `None` when every required package is decided.
    #[verifier::rlimit(100)]
    #[verifier::spinoff_prover]
    pub fn pick_package(&self, dependency_provider: &crate::registry::Registry) -> (r: Option<
        (u64, Term),
    >)
        requires
            self.wf(),
            crate::registry::reg_wf(dependency_provider@),
        ensures
            match r {
                None => forall|q: u64| !(#[trigger] potential_package(self@, q)),
                Some((p, t)) => {
                    &&& potential_package(self@, p)
                    &&& t.wf()
                    &&& t@.positive == pkg_positive(self@, p)
                    &&& forall|v: u64| #[trigger] t@.contains(v) == pkg_contains(self@, p, v)
                    &&& forall|q: u64|
                        #[trigger] potential_package(self@, q) ==> count_matching(
                            crate::registry::reg_versions(dependency_provider@, p),
                            self@,
                            p,
                        ) <= count_matching(
                            crate::registry::reg_versions(dependency_provider@, q),
                            self@,
                            q,
                        )
                    &&& forall|q: u64|
                        #[trigger] potential_package(self@, q) && q != p && count_matching(
                            crate::registry::reg_versions(dependency_provider@, q),
                            self@,
                            q,
                        ) == count_matching(
                            crate::registry::reg_versions(dependency_provider@, p),
                            self@,
                            p,
                        ) ==> first_mention(self@, p) < first_mention(self@, q)
                },
            },
    {
        let ghost h = self@;
        let mut out: Option<(u64, Term)> = None;
        let mut min_key: usize = 0;
        let ghost mut best_idx: int = 0;
        let mut k: usize = 0;
        while k < self.memory.len()
            invariant
                k <= self.memory@.len(),
                self.wf(),
                h == self@,
                crate::registry::reg_wf(dependency_provider@),
                out is None ==> forall|i: int|
                    0 <= i < k ==> !potential_package(h, (#[trigger] self.memory@[i]).package),
                out matches Some(pt) ==> {
                    &&& potential_package(h, pt.0)
                    &&& pt.1.wf()
                    &&& pt.1@.positive == pkg_positive(h, pt.0)
                    &&& (forall|v: u64| #[trigger] pt.1@.contains(v) == pkg_contains(h, pt.0, v))
                    &&& min_key == count_matching(
                        crate::registry::reg_versions(dependency_provider@, pt.0),
                        h,
                        pt.0,
                    )
                    &&& forall|i: int|
                        0 <= i < k && potential_package(
                            h,
                            (#[trigger] self.memory@[i]).package,
                        ) ==> min_key <= count_matching(
                            crate::registry::reg_versions(
                                dependency_provider@,
                                self.memory@[i].package,
                            ),
                            h,
                            self.memory@[i].package,
                        )
                    &&& 0 <= best_idx < k
                    &&& self.memory@[best_idx].package == pt.0
                    &&& forall|i: int|
                        0 <= i < best_idx && potential_package(
                            h,
                            (#[trigger] self.memory@[i]).package,
                        ) ==> min_key < count_matching(
                            crate::registry::reg_versions(
                                dependency_provider@,
                                self.memory@[i].package,
                            ),
                            h,
                            self.memory@[i].package,
                        )
                },
            decreases self.memory@.len() - k,
        {
            let p = self.memory[k].package;
            proof {
                assert(entry_wf(self.memory@[k as int], h));
            }
            let positive = self.memory[k].term.is_positive();
            let undecided = match &self.memory[k].decision {
                Some(_) => false,
                None => true,
            };
            if positive && undecided {
                proof {
                    assert(derivs_positive(h, p));
                    assert(!pkg_decided(h, p));
                    assert(potential_package(h, p));
                }
                let term = match self.term_intersection_for_package(p) {
                    Some(t) => t,
                    None => {
                        proof {
                            let w = choose|i: int|
                                0 <= i < h.len() && !(#[trigger] h[i]).1.is_decision()
                                    && h[i].1.package_spec() == p && h[i].1.term_model().positive;
                            assert(pkg_mentioned(h, p));
                        }
                        Term::any()
                    },
                };
                let vs = dependency_provider.list_available_versions(p);
                let mut cnt: usize = 0;
                let mut i: usize = 0;
                while i < vs.len()
                    invariant
                        i <= vs@.len(),
                        cnt <= i,
                        self.wf(),
                        h == self@,
                        term.wf(),
                        forall|v: u64| #[trigger] term@.contains(v) == pkg_contains(h, p, v),
                        cnt == count_matching(vs@.take(i as int), h, p),
                    decreases vs@.len() - i,
                {
                    proof {
                        assert(vs@.take(i + 1).drop_last() =~= vs@.take(i as int));
                        assert(vs@.take(i + 1).last() == vs@[i as int]);
                    }
                    if term.contains(vs[i]) {
                        cnt = cnt + 1;
                    }
                    i = i + 1;
                }
                proof {
                    assert(vs@.take(vs@.len() as int) =~= vs@);
                }
                let take_it = match &out {
                    None => true,
                    Some(_) => cnt < min_key,
                };
                if take_it {
                    min_key = cnt;
                    out = Some((p, term));
                    proof {
                        best_idx = k as int;
                    }
                }
            } else {
                proof {
                    if potential_package(h, p) {
                        assert(derivs_positive(h, p));
                        if self.memory@[k as int].decision is Some {
                            assert(pkg_decided(h, p));
                        }
                    }
                }
            }
            k = k + 1;
        }
        proof {
            match &out {
                None => {
                    assert forall|q: u64| !(#[trigger] potential_package(h, q)) by {
                        if potential_package(h, q) {
                            let w = choose|i: int|
                                0 <= i < h.len() && !(#[trigger] h[i]).1.is_decision()
                                    && h[i].1.package_spec() == q && h[i].1.term_model().positive;
                            assert(pkg_mentioned(h, q));
                            assert(mem_has(self.memory@, q));
                            let m = choose|i: int|
                                0 <= i < self.memory@.len() && (#[trigger] self.memory@[i]).package
                                    == q;
                            assert(!potential_package(h, self.memory@[m].package));
                        }
                    }
                },
                Some(pt) => {
                    assert forall|q: u64|
                        #[trigger] potential_package(h, q) implies min_key <= count_matching(
                        crate::registry::reg_versions(dependency_provider@, q),
                        h,
                        q,
                    ) by {
                        let w = choose|i: int|
                            0 <= i < h.len() && !(#[trigger] h[i]).1.is_decision()
                                && h[i].1.package_spec() == q && h[i].1.term_model().positive;
                        assert(pkg_mentioned(h, q));
                        assert(mem_has(self.memory@, q));
                        let m = choose|i: int|
                            0 <= i < self.memory@.len() && (#[trigger] self.memory@[i]).package
                                == q;
                        assert(potential_package(h, self.memory@[m].package));
                    }
                    assert forall|q: u64|
                        #[trigger] potential_package(h, q) && q != pt.0 && count_matching(
                            crate::registry::reg_versions(dependency_provider@, q),
                            h,
                            q,
                        ) == count_matching(
                            crate::registry::reg_versions(dependency_provider@, pt.0),
                            h,
                            pt.0,
                        ) implies first_mention(h, pt.0) < first_mention(h, q) by {
                        let w = choose|i: int|
                            0 <= i < h.len() && !(#[trigger] h[i]).1.is_decision()
                                && h[i].1.package_spec() == q && h[i].1.term_model().positive;
                        assert(pkg_mentioned(h, q));
                        assert(mem_has(self.memory@, q));
                        let m = choose|i: int|
                            0 <= i < self.memory@.len() && (#[trigger] self.memory@[i]).package
                                == q;
                        assert(potential_package(h, self.memory@[m].package));
                        if m < best_idx {
                            assert(min_key < count_matching(
                                crate::registry::reg_versions(dependency_provider@, q),
                                h,
                                q,
                            ));
                        } else {
                            assert(m != best_idx);
                            assert(first_mention(h, self.memory@[best_idx].package)
                                < first_mention(h, self.memory@[m].package));
                        }
                    }
                },
            }
        }
        out
    }

    /// Pick the first of the available versions that satisfies the term; the
    /// caller lists preferred versions first.
    pub fn pick_version(available_versions: &Vec<u64>, partial_solution_term: &Term) -> (r: Option<
        u64,
    >)
        ensures
            match r {
                Some(v) => exists|i: int|
                    0 <= i < available_versions@.len() && (#[trigger] available_versions@[i]) == v
                        && partial_solution_term@.contains(v) && (forall|j: int|
                        0 <= j < i ==> !partial_solution_term@.contains(available_versions@[j])),
                None => forall|i: int|
                    0 <= i < available_versions@.len() ==> !partial_solution_term@.contains(
                        #[trigger] available_versions@[i],
                    ),
            },
    {
        let mut i: usize = 0;
        while i < available_versions.len()
            invariant
                i <= available_versions@.len(),
                forall|j: int|
                    0 <= j < i ==> !partial_solution_term@.contains(
                        #[trigger] available_versions@[j],
                    ),
            decreases available_versions@.len() - i,
        {
            let v = available_versions[i];
            if partial_solution_term.contains(v) {
                proof {
                    assert(available_versions@[i as int] == v);
                }
                return Some(v);
            }
            i = i + 1;
        }
        None
    }

    /// Whether the current assignments satisfy one of the given
    /// incompatibilities.
    fn satisfies_any_of(&self, incompatibilities: &Vec<Incompatibility>) -> (r: bool)
        requires
            self.wf(),
            forall|k: int|
                0 <= k < incompatibilities@.len() ==> (#[trigger] incompatibilities@[k]).wf(),
        ensures
            r == exists|k: int|
                0 <= k < incompatibilities@.len() && incompat_satisfied_upto(
                    self@,
                    self@.len() as int,
                    (#[trigger] incompatibilities@[k])@,
                ),
    {
        let mut k: usize = 0;
        while k < incompatibilities.len()
            invariant
                k <= incompatibilities@.len(),
                self.wf(),
                forall|l: int|
                    0 <= l < incompatibilities@.len() ==> (#[trigger] incompatibilities@[l]).wf(),
                forall|l: int|
                    0 <= l < k ==> !incompat_satisfied_upto(
                        self@,
                        self@.len() as int,
                        (#[trigger] incompatibilities@[l])@,
                    ),
            decreases incompatibilities@.len() - k,
        {
            let rel = self.relation(&incompatibilities[k]);
            match rel {
                IncompatRelation::Satisfied => {
                    return true;
                },
                _ => {},
            }
            k = k + 1;
        }
        false
    }

    /// Remove the last assignment, which must be a decision, and restore the
    /// package's cache entry.
    #[verifier::rlimit(100)]
    #[verifier::spinoff_prover]
    fn remove_last_decision(&mut self)
        requires
            old(self).wf(),
            old(self)@.len() > 0,
            old(self)@.last().1.is_decision(),
        ensures
            final(self).wf(),
            final(self)@ == old(self)@.drop_last(),
    {
        let ghost h1 = self@;
        let ghost h0 = self@.drop_last();
        let ghost e = self@.last();
        let n = self.history.len();
        let last = self.history.pop();
        let p: u64;
        match last {
            Some((_, a)) => {
                p = a.package();
            },
            None => {
                proof {
                    assert(false);
                }
                p = 0;
            },
        }
        self.decision_level = self.decision_level - 1;
        proof {
            assert(self@ =~= h0);
            assert(h1 =~= h0.push(e));
            assert(num_decisions(h1) == num_decisions(h0) + 1);
            assert forall|i: int|
                0 <= i < h0.len() implies (#[trigger] h0[i]).0 == num_decisions(h0.take(i + 1))
                && h0[i].1.wf() by {
                assert(h0[i] == h1[i]);
                assert(h0.take(i + 1) =~= h1.take(i + 1));
            }
            assert forall|i: int, j: int|
                0 <= i < j < h0.len() && (#[trigger] h0[i]).1.is_decision()
                    && (#[trigger] h0[j]).1.is_decision() implies h0[i].1.package_spec()
                != h0[j].1.package_spec() by {
                assert(h0[i] == h1[i] && h0[j] == h1[j]);
            }
            lemma_hist_push_same(h0, e);
            assert(!pkg_decided(h0, p)) by {
                if pkg_decided(h0, p) {
                    let w = choose|i: int|
                        0 <= i < h0.len() && (#[trigger] h0[i]).1.is_decision()
                            && h0[i].1.package_spec() == p;
                    assert(h1[w] == h0[w]);
                    assert(h1[w].1.is_decision() && h1[h1.len() - 1].1.is_decision());
                    assert(h1[w].1.package_spec() != h1[h1.len() - 1].1.package_spec());
                }
            }
        }
        Self::remove_decision_from_memory(&mut self.memory, p, Ghost(h1));
        proof {
            assert(self.wf());
        }
    }

    /// Undo the final decision, which is for package `p`, in the cache:
    /// clear the decision, and drop the entry entirely when no derivation
    /// keeps the package mentioned.
    #[verifier::rlimit(100)]
    #[verifier::spinoff_prover]
    fn remove_decision_from_memory(
        memory: &mut Vec<PkgEntry>,
        p: u64,
        Ghost(h1): Ghost<Seq<(usize, Assignment)>>,
    )
        requires
            mem_wf(old(memory)@, h1),
            h1.len() > 0,
            h1.last().1.is_decision(),
            h1.last().1.package_spec() == p,
            !pkg_decided(h1.drop_last(), p),
        ensures
            mem_wf(final(memory)@, h1.drop_last()),
    {
        let ghost h0 = h1.drop_last();
        let ghost e = h1.last();
        proof {
            assert(h1 =~= h0.push(e));
            lemma_hist_push_same(h0, e);
        }
        // restore the cache entry of `p`

        let mut idx: usize = 0;
        let mut found: bool = false;
        while idx < memory.len() && !found
            invariant
                idx <= memory@.len(),
                mem_wf(memory@, h1),
                !found ==> forall|i: int| 0 <= i < idx ==> (#[trigger] memory@[i]).package
                    != p,
                found ==> idx < memory@.len() && memory@[idx as int].package == p,
            decreases memory@.len() - idx, (if found {
                0int
            } else {
                1int
            }),
        {
            if memory[idx].package == p {
                found = true;
            } else {
                idx = idx + 1;
            }
        }
        proof {
            if !found {
                assert(pkg_mentioned(h1, p)) by {
                    assert(h1[h1.len() - 1].1.package_spec() == p);
                }
                assert(mem_has(memory@, p));
                let w = choose|i: int|
                    0 <= i < memory@.len() && (#[trigger] memory@[i]).package == p;
                assert(memory@[w].package != p);
            }
        }
        let ghost mem0 = memory@;
        let keep = memory[idx].nderivs > 0;
        if keep {
            let cur_term = memory[idx].term.clone();
            let cur_n = memory[idx].nderivs;
            memory[idx] = PkgEntry { package: p, decision: None, term: cur_term, nderivs: cur_n };
        } else {
            memory.remove(idx);
        }
        proof {
            assert forall|k: int| 0 <= k < memory@.len() implies entry_wf(
                #[trigger] memory@[k],
                h0,
            ) && pkg_mentioned_upto(h0, h0.len() as int, memory@[k].package) by {
                let q = memory@[k].package;
                let old_k: int = if keep {
                    k
                } else if k < idx {
                    k
                } else {
                    k + 1
                };
                assert(memory@[k] == mem0[old_k] || (keep && k == idx));
                if q != p {
                    assert(mem0[old_k].package == q);
                    lemma_hist_push_frame(h0, e, q);
                    assert(entry_wf(mem0[old_k], h1));
                    assert(entry_wf(memory@[k], h0));
                    assert(pkg_mentioned_upto(h1, h1.len() as int, q));
                    let w = choose|i: int|
                        0 <= i < h1.len() && (#[trigger] h1[i]).1.package_spec() == q;
                    assert(w < h0.len());
                    assert(h0[w] == h1[w]);
                    assert(pkg_mentioned_upto(h0, h0.len() as int, q));
                } else {
                    assert(keep && k == idx);
                    assert(entry_wf(mem0[idx as int], h1));
                    assert(entry_wf(memory@[k], h0));
                    assert(num_derivs(h0, p) > 0);
                    lemma_num_derivs_pos(h0, p);
                }
            }
            assert forall|k: int, l: int| 0 <= k < l < memory@.len() implies (
            #[trigger] memory@[k]).package != (#[trigger] memory@[l]).package by {
                if keep {
                    assert(memory@[k] == mem0[k] || k == idx);
                    assert(memory@[l] == mem0[l] || l == idx);
                } else {
                    let ok: int = if k < idx {
                        k
                    } else {
                        k + 1
                    };
                    let ol: int = if l < idx {
                        l
                    } else {
                        l + 1
                    };
                    assert(memory@[k] == mem0[ok] && memory@[l] == mem0[ol]);
                }
            }
            assert forall|q: u64|
                pkg_mentioned_upto(h0, h0.len() as int, q) implies #[trigger] mem_has(
                memory@,
                q,
            ) by {
                let w = choose|i: int| 0 <= i < h0.len() && (#[trigger] h0[i]).1.package_spec()
                    == q;
                assert(h1[w] == h0[w]);
                assert(pkg_mentioned_upto(h1, h1.len() as int, q));
                assert(mem_has(mem0, q));
                let m = choose|i: int| 0 <= i < mem0.len() && (#[trigger] mem0[i]).package == q;
                if q == p {
                    assert(m == idx) by {
                        if m != idx {
                            assert(mem0[m].package != mem0[idx as int].package);
                        }
                    }
                    if !keep {
                        assert(entry_wf(mem0[idx as int], h1));
                        assert(num_derivs(h1, p) == 0);
                        lemma_num_derivs_zero_no_deriv(h0, p);
                        assert(h0[w].1.is_decision());
                        assert(pkg_decided(h0, p));
                    } else {
                        assert(memory@[idx as int].package == p);
                    }
                } else {
                    if keep {
                        assert(memory@[m].package == q);
                    } else {
                        if m < idx {
                            assert(memory@[m].package == q);
                        } else {
                            assert(m != idx);
                            assert(memory@[m - 1].package == q);
                        }
                    }
                }
            }
            assert(h0 == h1.drop_last());
            assert forall|k: int|
                0 <= k < memory@.len() implies (#[trigger] memory@[k]).package
                == mem0[if keep || k < idx as int {
                k
            } else {
                k + 1
            }].package by {}
            lemma_mem_order_drop(mem0, memory@, h1, idx as int, keep);
            assert(mem_wf(memory@, h0));
        }
    }

    /// Tentatively add the version as a decision; when that satisfies one of
    /// the new incompatibilities the decision is rolled back, so that unit
    /// propagation can record the conflict as a derivation instead.
    pub fn add_version(
        &mut self,
        package: u64,
        version: u64,
        new_incompatibilities: &Vec<Incompatibility>,
    )
        requires
            old(self).wf(),
            old(self)@.len() < usize::MAX,
            !pkg_decided(old(self)@, package),
            forall|k: int|
                0 <= k < new_incompatibilities@.len() ==> (#[trigger] new_incompatibilities@[k]).wf(),
        ensures
            final(self).wf(),
            any_satisfied_with(old(self)@, new_incompatibilities@, package, version)
                ==> final(self)@ == old(self)@,
            !any_satisfied_with(old(self)@, new_incompatibilities@, package, version) ==> {
                &&& final(self)@.len() == old(self)@.len() + 1
                &&& final(self)@.drop_last() == old(self)@
                &&& final(self)@.last().1.is_decision()
                &&& final(self)@.last().1.package_spec() == package
                &&& final(self)@.last().1.version_spec() == version
            },
    {
        let ghost h0 = self@;
        self.add_decision(package, version);
        let ghost e = self@.last();
        proof {
            assert(self@ =~= h0.push(e));
            assert(e.1.wf());
            lemma_satisfied_push_decision_all(h0, e, new_incompatibilities@);
        }
        let sat = self.satisfies_any_of(new_incompatibilities);
        if sat {
            self.remove_last_decision();
            proof {
                assert(self@ =~= h0);
            }
        }
    }

    /// The kind, package and cause index of the assignment at `i`.
    pub fn assignment_info(&self, i: usize) -> (r: (bool, u64, usize))
        requires
            self.wf(),
            i < self@.len(),
        ensures
            r.0 == self@[i as int].1.is_decision(),
            r.1 == self@[i as int].1.package_spec(),
            r.2 == self@[i as int].1.cause_spec(),
    {
        match &self.history[i].1 {
            Assignment::Decision { package, .. } => (true, *package, 0),
            Assignment::Derivation { package, cause, .. } => (false, *package, *cause),
        }
    }

    /// The fresh accumulator of a satisfier search: one entry per package of
    /// the incompatibility, not yet satisfied, with the neutral seed.
    pub fn new_accum_satisfied_from(incompat: &Incompatibility) -> (r: Vec<(u64, (bool, Term))>)
        requires
            incompat.wf(),
        ensures
            r@.len() == incompat@.len(),
            forall|k: int|
                0 <= k < incompat@.len() ==> (#[trigger] r@[k]).0 == incompat@[k].0 && !r@[k].1.0
                    && r@[k].1.1@ == any_model(),
    {
        let mut out: Vec<(u64, (bool, Term))> = Vec::new();
        let mut k: usize = 0;
        while k < incompat.len()
            invariant
                k <= incompat@.len(),
                incompat.wf(),
                out@.len() == k,
                forall|l: int|
                    0 <= l < k ==> (#[trigger] out@[l]).0 == incompat@[l].0 && !out@[l].1.0
                        && out@[l].1.1@ == any_model(),
            decreases incompat@.len() - k,
        {
            let p = incompat.package_at(k);
            let t = Term::any();
            proof {
                assert(t@ =~= any_model());
            }
            out.push((p, (false, t)));
            k = k + 1;
        }
        out
    }

    /// Iterate over the first `end` assignments, oldest first, intersecting
    /// each package's running term with the assignment terms, until the whole
    /// incompatibility is satisfied; the returned index is the satisfier. The
    /// accumulator lines up with the incompatibility's entries and may mark
    /// some of them satisfied from the start.
    #[verifier::loop_isolation(false)]
    pub fn find_satisfier_helper(
        incompat: &Incompatibility,
        accum_satisfied: Vec<(u64, (bool, Term))>,
        all_assignments: &Vec<(usize, Assignment)>,
        end: usize,
    ) -> (r: Option<usize>)
        requires
            incompat.wf(),
            end <= all_assignments@.len(),
            accum_satisfied@.len() == incompat@.len(),
            forall|k: int|
                0 <= k < incompat@.len() ==> (#[trigger] accum_satisfied@[k]).0 == incompat@[k].0
                    && accum_satisfied@[k].1.1.wf(),
            forall|i: int| 0 <= i < end ==> (#[trigger] all_assignments@[i]).1.wf(),
        ensures
            r matches Some(idx) ==> satisfier_found(
                all_assignments@,
                incompat@,
                accum_satisfied@,
                idx as int,
                end as int,
            ),
            r is None ==> (forall|k: int|
                0 <= k < incompat@.len() ==> (#[trigger] accum_satisfied@[k]).1.0) || forall|m: int|
                0 <= m <= end ==> !all_seeded_satisfied_upto(
                    all_assignments@,
                    m,
                    incompat@,
                    accum_satisfied@,
                ),
    {
        let ghost h = all_assignments@;
        let ghost inc = incompat@;
        let ghost acc0 = accum_satisfied@;
        let mut acc = accum_satisfied;
        let mut i: usize = 0;
        while i < end
            invariant
                i <= end,
                end <= h.len(),
                h == all_assignments@,
                inc == incompat@,
                incompat.wf(),
                forall|j: int| 0 <= j < end ==> (#[trigger] h[j]).1.wf(),
                acc@.len() == inc.len(),
                acc0.len() == inc.len(),
                forall|k: int|
                    0 <= k < inc.len() ==> (#[trigger] acc0[k]).0 == inc[k].0 && acc0[k].1.1.wf(),
                forall|k: int|
                    0 <= k < inc.len() ==> (#[trigger] acc@[k]).0 == inc[k].0 && acc@[k].1.1.wf(),
                forall|k: int|
                    0 <= k < inc.len() ==> ((#[trigger] acc@[k]).1.0 == seeded_satisfied_upto(
                        h,
                        i as int,
                        inc[k].0,
                        inc[k].1@,
                        acc0[k].1.0,
                        acc0[k].1.1@,
                    )),
                forall|k: int|
                    0 <= k < inc.len() && !(#[trigger] acc@[k]).1.0 ==> !acc0[k].1.0
                        && (acc@[k].1.1@.positive == (acc0[k].1.1@.positive || pkg_positive_upto(
                        h,
                        i as int,
                        inc[k].0,
                    ))),
                forall|k: int, v: u64|
                    0 <= k < inc.len() && !(#[trigger] acc@[k]).1.0 ==> ((#[trigger] acc@[k].1.1@.contains(v)) == (acc0[k].1.1@.contains(v) && pkg_contains_upto(
                        h,
                        i as int,
                        inc[k].0,
                        v,
                    ))),
                (exists|k: int| 0 <= k < inc.len() && !(#[trigger] acc0[k]).1.0) ==> (exists|
                    k: int,
                | 0 <= k < inc.len() && !(#[trigger] acc@[k]).1.0),
                (exists|k: int| 0 <= k < inc.len() && !(#[trigger] acc0[k]).1.0) ==> forall|m: int|
                    0 <= m <= i ==> !all_seeded_satisfied_upto(h, m, inc, acc0),
            decreases end - i,
        {
            let p = all_assignments[i].1.package();
            let mut ki: usize = 0;
            let mut found: bool = false;
            while ki < acc.len() && !found
                invariant
                    ki <= acc@.len(),
                    acc@.len() == inc.len(),
                    forall|k: int| 0 <= k < inc.len() ==> (#[trigger] acc@[k]).0 == inc[k].0,
                    !found ==> forall|k: int| 0 <= k < ki ==> (#[trigger] acc@[k]).0 != p,
                    found ==> ki < acc@.len() && acc@[ki as int].0 == p,
                decreases acc@.len() - ki, (if found {
                    0int
                } else {
                    1int
                }),
            {
                if acc[ki].0 == p {
                    found = true;
                } else {
                    ki = ki + 1;
                }
            }
            let ghost asg = h[i as int].1;
            proof {
                assert(asg.package_spec() == p);
            }
            if !found {
                proof {
                    assert forall|k: int| 0 <= k < inc.len() implies inc[k].0 != p by {
                        assert(acc@[k].0 != p);
                    }
                    assert forall|k: int|
                        0 <= k < inc.len() implies ((#[trigger] acc@[k]).1.0
                        == seeded_satisfied_upto(
                        h,
                        i + 1,
                        inc[k].0,
                        inc[k].1@,
                        acc0[k].1.0,
                        acc0[k].1.1@,
                    )) by {
                        lemma_upto_frame(h, i as int, inc[k].0);
                    }
                    assert forall|k: int, v: u64|
                        0 <= k < inc.len() && !(#[trigger] acc@[k]).1.0 implies ((#[trigger] acc@[k].1.1@.contains(v)) == (acc0[k].1.1@.contains(v) && pkg_contains_upto(
                        h,
                        i + 1,
                        inc[k].0,
                        v,
                    ))) by {
                        lemma_upto_frame(h, i as int, inc[k].0);
                    }
                    assert forall|k: int|
                        0 <= k < inc.len() && !(#[trigger] acc@[k]).1.0 implies (acc@[k].1.1@.positive == (acc0[k].1.1@.positive || pkg_positive_upto(
                        h,
                        i + 1,
                        inc[k].0,
                    ))) by {
                        lemma_upto_frame(h, i as int, inc[k].0);
                    }
                    if exists|k: int| 0 <= k < inc.len() && !(#[trigger] acc0[k]).1.0 {
                        let wk = choose|k: int| 0 <= k < inc.len() && !(#[trigger] acc@[k]).1.0;
                        assert(!seeded_satisfied_upto(h, i + 1, inc[wk].0, inc[wk].1@, acc0[wk].1.0, acc0[wk].1.1@));
                        assert(!all_seeded_satisfied_upto(h, i + 1, inc, acc0));
                    }
                }
                i = i + 1;
                continue ;
            }
            let k_idx = ki;
            if acc[k_idx].1.0 {
                proof {
                    crate::incompatibility::lemma_package_index(inc, p, k_idx as int);
                    assert forall|k: int|
                        0 <= k < inc.len() implies ((#[trigger] acc@[k]).1.0
                        == seeded_satisfied_upto(
                        h,
                        i + 1,
                        inc[k].0,
                        inc[k].1@,
                        acc0[k].1.0,
                        acc0[k].1.1@,
                    )) by {
                        if inc[k].0 == p {
                            assert(k == k_idx) by {
                                if k != k_idx {
                                    assert(inc[k].0 != inc[k_idx as int].0);
                                }
                            }
                            lemma_seeded_monotone(h, i as int, i + 1, inc[k].0, inc[k].1@, acc0[k].1.0, acc0[k].1.1@);
                        } else {
                            lemma_upto_frame(h, i as int, inc[k].0);
                        }
                    }
                    assert forall|k: int, v: u64|
                        0 <= k < inc.len() && !(#[trigger] acc@[k]).1.0 implies ((#[trigger] acc@[k].1.1@.contains(v)) == (acc0[k].1.1@.contains(v) && pkg_contains_upto(
                        h,
                        i + 1,
                        inc[k].0,
                        v,
                    ))) by {
                        assert(inc[k].0 != p);
                        lemma_upto_frame(h, i as int, inc[k].0);
                    }
                    assert forall|k: int|
                        0 <= k < inc.len() && !(#[trigger] acc@[k]).1.0 implies (acc@[k].1.1@.positive == (acc0[k].1.1@.positive || pkg_positive_upto(
                        h,
                        i + 1,
                        inc[k].0,
                    ))) by {
                        assert(inc[k].0 != p);
                        lemma_upto_frame(h, i as int, inc[k].0);
                    }
                    if exists|k: int| 0 <= k < inc.len() && !(#[trigger] acc0[k]).1.0 {
                        let wk = choose|k: int| 0 <= k < inc.len() && !(#[trigger] acc@[k]).1.0;
                        assert(!seeded_satisfied_upto(h, i + 1, inc[wk].0, inc[wk].1@, acc0[wk].1.0, acc0[wk].1.1@));
                        assert(!all_seeded_satisfied_upto(h, i + 1, inc, acc0));
                    }
                }
                i = i + 1;
                continue ;
            }
            // fold the assignment's term into the running intersection
            let aterm = all_assignments[i].1.as_term();
            let new_term = acc[k_idx].1.1.intersection(&aterm);
            let tk = incompat.term_at(k_idx);
            let flag = new_term.subset_of(tk);
            let ghost old_acc = acc@;
            acc[k_idx] = (p, (flag, new_term));
            proof {
                lemma_upto_same(h, i as int);
                crate::incompatibility::lemma_package_index(inc, p, k_idx as int);
                assert(!old_acc[k_idx as int].1.0);
                assert(!acc0[k_idx as int].1.0);
                // the updated entry's flag matches the seeded predicate
                assert(flag == seeded_satisfied_upto(h, i + 1, p, inc[k_idx as int].1@, acc0[k_idx as int].1.0, acc0[k_idx as int].1.1@)) by {
                    if flag {
                        assert forall|v: u64|
                            (acc0[k_idx as int].1.1@.contains(v) && pkg_contains_upto(
                                h,
                                i + 1,
                                p,
                                v,
                            )) implies #[trigger] inc[k_idx as int].1@.contains(v) by {
                            assert(new_term@.contains(v));
                        }
                    } else {
                        if seeded_satisfied_upto(h, i + 1, p, inc[k_idx as int].1@, acc0[k_idx as int].1.0, acc0[k_idx as int].1.1@) {
                            assert forall|v: u64| #[trigger] new_term@.contains(v) implies inc[k_idx as int].1@.contains(v) by {
                                assert(acc0[k_idx as int].1.1@.contains(v) && pkg_contains_upto(
                                    h,
                                    i + 1,
                                    p,
                                    v,
                                ));
                            }
                            assert(subset_of_model(new_term@, inc[k_idx as int].1@));
                        }
                    }
                }
                assert forall|k: int|
                    0 <= k < inc.len() implies ((#[trigger] acc@[k]).1.0 == seeded_satisfied_upto(
                    h,
                    i + 1,
                    inc[k].0,
                    inc[k].1@,
                    acc0[k].1.0,
                    acc0[k].1.1@,
                )) by {
                    if k == k_idx {
                    } else {
                        assert(acc@[k] == old_acc[k]);
                        assert(inc[k].0 != p) by {
                            if inc[k].0 == inc[k_idx as int].0 {
                            }
                        }
                        if old_acc[k].1.0 {
                            lemma_seeded_monotone(h, i as int, i + 1, inc[k].0, inc[k].1@, acc0[k].1.0, acc0[k].1.1@);
                        } else {
                            lemma_upto_frame(h, i as int, inc[k].0);
                        }
                    }
                }
                assert forall|k: int, v: u64|
                    0 <= k < inc.len() && !(#[trigger] acc@[k]).1.0 implies ((#[trigger] acc@[k].1.1@.contains(v)) == (acc0[k].1.1@.contains(v) && pkg_contains_upto(
                    h,
                    i + 1,
                    inc[k].0,
                    v,
                ))) by {
                    if k == k_idx {
                        assert(acc@[k].1.1@.contains(v) == (old_acc[k].1.1@.contains(v)
                            && asg.term_model().contains(v)));
                    } else {
                        assert(acc@[k] == old_acc[k]);
                        assert(inc[k].0 != p);
                        lemma_upto_frame(h, i as int, inc[k].0);
                    }
                }
                assert forall|k: int|
                    0 <= k < inc.len() && !(#[trigger] acc@[k]).1.0 implies (acc@[k].1.1@.positive
                    == (acc0[k].1.1@.positive || pkg_positive_upto(h, i + 1, inc[k].0))) by {
                    if k == k_idx {
                    } else {
                        assert(acc@[k] == old_acc[k]);
                        assert(inc[k].0 != p);
                        lemma_upto_frame(h, i as int, inc[k].0);
                    }
                }
            }
            if flag {
                // check whether every entry is satisfied now
                let mut all_sat: bool = true;
                let mut j: usize = 0;
                while j < acc.len()
                    invariant
                        j <= acc@.len(),
                        all_sat == forall|l: int| 0 <= l < j ==> (#[trigger] acc@[l]).1.0,
                    decreases acc@.len() - j,
                {
                    if !acc[j].1.0 {
                        all_sat = false;
                    }
                    j = j + 1;
                }
                if all_sat {
                    proof {
                        assert forall|k: int| 0 <= k < inc.len() implies seeded_satisfied_upto(
                            h,
                            i + 1,
                            (#[trigger] inc[k]).0,
                            inc[k].1@,
                            acc0[k].1.0,
                            acc0[k].1.1@,
                        ) by {
                            assert(acc@[k].1.0);
                        }
                        assert(all_seeded_satisfied_upto(h, i + 1, inc, acc0));
                        assert(has_package(inc, p));
                        assert(!acc0[k_idx as int].1.0);
                        assert(exists|k: int| 0 <= k < inc.len() && !(#[trigger] acc0[k]).1.0);
                        assert(forall|m: int|
                            0 <= m <= i as int ==> !all_seeded_satisfied_upto(h, m, inc, acc0));
                        assert(satisfier_found(h, inc, acc0, i as int, end as int));
                    }
                    return Some(i);
                }
                proof {
                    assert(exists|k: int| 0 <= k < inc.len() && !(#[trigger] acc@[k]).1.0);
                    let wk = choose|k: int| 0 <= k < inc.len() && !(#[trigger] acc@[k]).1.0;
                    assert(!all_seeded_satisfied_upto(h, i + 1, inc, acc0));
                }
            } else {
                proof {
                    assert(!acc@[k_idx as int].1.0);
                    let wk = choose|k: int| 0 <= k < inc.len() && !(#[trigger] acc@[k]).1.0;
                    assert(!all_seeded_satisfied_upto(h, i + 1, inc, acc0));
                }
            }
            i = i + 1;
        }
        proof {
            if exists|k: int| 0 <= k < inc.len() && !(#[trigger] acc0[k]).1.0 {
            } else {
                assert(forall|k: int| 0 <= k < inc.len() ==> (#[trigger] acc0[k]).1.0);
            }
        }
        None
    }

    /// The satisfier of an incompatibility: the earliest assignment such
    /// that the history up to and including it satisfies the incompatibility.
    fn find_satisfier(incompat: &Incompatibility, history: &Vec<(usize, Assignment)>) -> (r:
        Option<usize>)
        requires
            incompat.wf(),
            incompat@.len() > 0,
            forall|i: int| 0 <= i < history@.len() ==> (#[trigger] history@[i]).1.wf(),
        ensures
            r matches Some(idx) ==> {
                &&& idx < history@.len()
                &&& incompat_satisfied_upto(history@, idx + 1, incompat@)
                &&& forall|m: int|
                    0 <= m <= idx ==> !incompat_satisfied_upto(history@, m, incompat@)
                &&& has_package(incompat@, history@[idx as int].1.package_spec())
            },
            r is None ==> forall|m: int|
                0 <= m <= history@.len() ==> !incompat_satisfied_upto(history@, m, incompat@),
    {
        let acc = Self::new_accum_satisfied_from(incompat);
        let ghost acc_v = acc@;
        let r = Self::find_satisfier_helper(incompat, acc, history, history.len());
        proof {
            assert(!acc_v[0].1.0);
            match r {
                Some(idx) => {
                    lemma_fresh_seed_bridge(history@, idx + 1, incompat@, acc_v);
                    assert forall|m: int| 0 <= m <= idx implies !incompat_satisfied_upto(
                        history@,
                        m,
                        incompat@,
                    ) by {
                        lemma_fresh_seed_bridge(history@, m, incompat@, acc_v);
                    }
                },
                None => {
                    assert forall|m: int|
                        0 <= m <= history@.len() implies !incompat_satisfied_upto(
                        history@,
                        m,
                        incompat@,
                    ) by {
                        lemma_fresh_seed_bridge(history@, m, incompat@, acc_v);
                    }
                },
            }
        }
        r
    }

    /// The level to backtrack to: that of the earliest assignment before the
    /// satisfier which, together with the satisfier's own term, still
    /// satisfies the incompatibility; level one when there is none.
    fn find_previous_satisfier(
        incompat: &Incompatibility,
        history: &Vec<(usize, Assignment)>,
        satisfier_idx: usize,
    ) -> (r: usize)
        requires
            incompat.wf(),
            satisfier_idx < history@.len(),
            forall|i: int| 0 <= i < history@.len() ==> (#[trigger] history@[i]).1.wf(),
            has_package(incompat@, history@[satisfier_idx as int].1.package_spec()),
        ensures
            1 <= r,
            ({
                let h = history@;
                let sp = h[satisfier_idx as int].1.package_spec();
                let st = h[satisfier_idx as int].1.term_model();
                let sflag = subset_of_model(st, term_for(incompat@, sp));
                ||| (exists|idx: int|
                    #[trigger] prev_satisfier_found(
                        h,
                        incompat@,
                        sp,
                        st,
                        sflag,
                        idx,
                        satisfier_idx as int,
                    ) && idx < satisfier_idx && r == (if h[idx].0 < 1 {
                        1usize
                    } else {
                        h[idx].0
                    }))
                ||| (r == 1 && (forall|m: int|
                    0 <= m <= satisfier_idx as int ==> !prev_sat_upto(
                        h,
                        m,
                        incompat@,
                        sp,
                        st,
                        sflag,
                    )))
                ||| (r == 1 && sflag && (forall|k: int|
                    0 <= k < incompat@.len() ==> (#[trigger] incompat@[k]).0 == sp))
            }),
    {
        let package = history[satisfier_idx].1.package();
        let satisfier_term = history[satisfier_idx].1.as_term();
        let incompat_term = match incompat.get(package) {
            Some(t) => t,
            None => {
                proof {
                    assert(false);
                }
                return 1;
            },
        };
        let is_satisfied = satisfier_term.subset_of(incompat_term);
        let mut accum = Self::new_accum_satisfied_from(incompat);
        let mut ki: usize = 0;
        let mut found: bool = false;
        while ki < accum.len() && !found
            invariant
                ki <= accum@.len(),
                accum@.len() == incompat@.len(),
                forall|k: int| 0 <= k < incompat@.len() ==> (#[trigger] accum@[k]).0 == incompat@[k].0 && accum@[k].1.1.wf(),
                !found ==> forall|k: int| 0 <= k < ki ==> (#[trigger] accum@[k]).0 != package,
                found ==> ki < accum@.len() && accum@[ki as int].0 == package,
            decreases accum@.len() - ki, (if found {
                0int
            } else {
                1int
            }),
        {
            if accum[ki].0 == package {
                found = true;
            } else {
                ki = ki + 1;
            }
        }
        if found {
            accum[ki] = (package, (is_satisfied, satisfier_term));
        } else {
            proof {
                let w = crate::incompatibility::package_index(incompat@, package);
                assert(incompat@[w].0 == package);
                assert(accum@[w].0 != package);
            }
        }
        let ghost h = history@;
        let ghost sp = h[satisfier_idx as int].1.package_spec();
        let ghost st = h[satisfier_idx as int].1.term_model();
        let ghost sflag = subset_of_model(st, term_for(incompat@, sp));
        let ghost acc_v = accum@;
        proof {
            assert(incompat@[ki as int].0 == package);
            assert forall|k: int|
                0 <= k < incompat@.len() && (#[trigger] incompat@[k]).0 == sp implies acc_v[k].1.0
                == sflag && acc_v[k].1.1@ == st by {
                if k != ki {
                    assert(incompat@[k].0 != incompat@[ki as int].0);
                }
            }
            assert forall|k: int|
                0 <= k < incompat@.len() && (#[trigger] incompat@[k]).0 != sp implies !acc_v[k].1.0
                && acc_v[k].1.1@ == any_model() by {
                assert(k != ki);
            }
        }
        match Self::find_satisfier_helper(incompat, accum, history, satisfier_idx) {
            Some(idx) => {
                proof {
                    lemma_prev_seed_bridge(h, idx + 1, incompat@, acc_v, sp, st, sflag);
                    assert forall|m: int| 0 <= m <= idx as int implies !prev_sat_upto(
                        h,
                        m,
                        incompat@,
                        sp,
                        st,
                        sflag,
                    ) by {
                        lemma_prev_seed_bridge(h, m, incompat@, acc_v, sp, st, sflag);
                    }
                    assert(prev_satisfier_found(
                        h,
                        incompat@,
                        sp,
                        st,
                        sflag,
                        idx as int,
                        satisfier_idx as int,
                    ));
                }
                let lvl = history[idx].0;
                if lvl < 1 {
                    1
                } else {
                    lvl
                }
            },
            None => {
                proof {
                    if forall|k: int|
                        0 <= k < incompat@.len() ==> (#[trigger] acc_v[k]).1.0 {
                        assert forall|k: int|
                            0 <= k < incompat@.len() implies (#[trigger] incompat@[k]).0 == sp by {
                            if incompat@[k].0 != sp {
                                assert(!acc_v[k].1.0);
                            }
                        }
                        assert(acc_v[ki as int].1.0);
                        assert(sflag);
                    } else {
                        assert forall|m: int|
                            0 <= m <= satisfier_idx as int implies !prev_sat_upto(
                            h,
                            m,
                            incompat@,
                            sp,
                            st,
                            sflag,
                        ) by {
                            lemma_prev_seed_bridge(h, m, incompat@, acc_v, sp, st, sflag);
                        }
                    }
                }
                1
            },
        }
    }

    /// Find the satisfier of a satisfied incompatibility, its decision
    /// level, and the previous-satisfier level to backtrack to. `None` only
    /// when the incompatibility is in fact not satisfied by the history,
    /// which callers treat as an internal fault.
    pub fn find_satisfier_and_previous_satisfier_level(&self, incompat: &Incompatibility) -> (r:
        Option<(usize, usize, usize)>)
        requires
            self.wf(),
            incompat.wf(),
            incompat@.len() > 0,
        ensures
            r matches Some(t3) ==> {
                &&& t3.0 < self@.len()
                &&& incompat_satisfied_upto(self@, t3.0 + 1, incompat@)
                &&& forall|m: int|
                    0 <= m <= t3.0 ==> !incompat_satisfied_upto(self@, m, incompat@)
                &&& has_package(incompat@, self@[t3.0 as int].1.package_spec())
                &&& t3.1 == self@[t3.0 as int].0
                &&& 1 <= t3.2
                &&& t3.2 <= (if t3.1 < 1 {
                    1usize
                } else {
                    t3.1
                })
                &&& ({
                    let h = self@;
                    let sp = h[t3.0 as int].1.package_spec();
                    let st = h[t3.0 as int].1.term_model();
                    let sflag = subset_of_model(st, term_for(incompat@, sp));
                    ||| (exists|idx: int|
                        #[trigger] prev_satisfier_found(
                            h,
                            incompat@,
                            sp,
                            st,
                            sflag,
                            idx,
                            t3.0 as int,
                        ) && idx < t3.0 && t3.2 == (if h[idx].0 < 1 {
                            1usize
                        } else {
                            h[idx].0
                        }))
                    ||| (t3.2 == 1 && (forall|m: int|
                        0 <= m <= t3.0 as int ==> !prev_sat_upto(h, m, incompat@, sp, st, sflag)))
                    ||| (t3.2 == 1 && sflag && (forall|k: int|
                        0 <= k < incompat@.len() ==> (#[trigger] incompat@[k]).0 == sp))
                })
            },
            r is None ==> !incompat_satisfied_upto(self@, self@.len() as int, incompat@),
    {
        proof {
            assert forall|i: int| 0 <= i < self@.len() implies (#[trigger] self@[i]).1.wf() by {}
        }
        match Self::find_satisfier(incompat, &self.history) {
            Some(idx) => {
                let satisfier_level = self.history[idx].0;
                let previous = Self::find_previous_satisfier(incompat, &self.history, idx);
                proof {
                    // the previous-satisfier level never exceeds the
                    // satisfier's own level: levels only grow along history
                    let h = self@;
                    let sp = h[idx as int].1.package_spec();
                    let st = h[idx as int].1.term_model();
                    let sflag = subset_of_model(st, term_for(incompat@, sp));
                    if exists|pidx: int|
                        #[trigger] prev_satisfier_found(
                            h,
                            incompat@,
                            sp,
                            st,
                            sflag,
                            pidx,
                            idx as int,
                        ) && pidx < idx && previous == (if h[pidx].0 < 1 {
                            1usize
                        } else {
                            h[pidx].0
                        }) {
                        let pidx = choose|pidx: int|
                            #[trigger] prev_satisfier_found(
                                h,
                                incompat@,
                                sp,
                                st,
                                sflag,
                                pidx,
                                idx as int,
                            ) && pidx < idx && previous == (if h[pidx].0 < 1 {
                                1usize
                            } else {
                                h[pidx].0
                            });
                        assert(h[pidx].0 == num_decisions(h.take(pidx + 1)));
                        assert(h[idx as int].0 == num_decisions(h.take(idx + 1)));
                        lemma_num_decisions_prefix(h, pidx + 1, idx + 1);
                    }
                }
                Some((idx, satisfier_level, previous))
            },
            None => None,
        }
    }

    /// Add a decision to the partial solution.
    pub fn add_decision(&mut self, package: u64, version: u64)
        requires
            old(self).wf(),
            old(self)@.len() < usize::MAX,
            !pkg_decided(old(self)@, package),
        ensures
            final(self).wf(),
            final(self)@.len() == old(self)@.len() + 1,
            final(self)@.drop_last() == old(self)@,
            final(self)@.last().1.is_decision(),
            final(self)@.last().1.package_spec() == package,
            final(self)@.last().1.version_spec() == version,
            final(self)@.last().1.term_model().wf(),
            final(self)@.last().1.term_model().positive,
            forall|w: u64|
                #[trigger] final(self)@.last().1.term_model().contains(w) == (w == version),
            final(self)@.last().0 == num_decisions(old(self)@) + 1,
            num_decisions(final(self)@) == num_decisions(old(self)@) + 1,
    {
        let t = Term::exact(version);
        let a = Assignment::Decision { package, version, term: t };
        proof {
            assert(a.wf());
        }
        self.add_assignment(a);
        proof {
            assert(final(self)@.drop_last() =~= old(self)@);
        }
    }

    /// Add a derivation to the partial solution: `term` is forced for
    /// `package` by the incompatibility at index `cause`.
    pub fn add_derivation(&mut self, package: u64, term: Term, cause: usize)
        requires
            old(self).wf(),
            old(self)@.len() < usize::MAX,
            term.wf(),
        ensures
            final(self).wf(),
            final(self)@.len() == old(self)@.len() + 1,
            final(self)@.drop_last() == old(self)@,
            !final(self)@.last().1.is_decision(),
            final(self)@.last().1.package_spec() == package,
            final(self)@.last().1.term_model() == term@,
            final(self)@.last().1.cause_spec() == cause,
            final(self)@.last().0 == num_decisions(old(self)@),
            num_decisions(final(self)@) == num_decisions(old(self)@),
    {
        let ghost tm = term@;
        let a = Assignment::Derivation { package, term, cause };
        proof {
            assert(a.term_model() == tm);
        }
        self.add_assignment(a);
        proof {
            assert(final(self)@.drop_last() =~= old(self)@);
        }
    }
}

/// A positive derivation count means some derivation for the package exists.
proof fn lemma_num_derivs_pos(h: Seq<(usize, Assignment)>, p: u64)
    requires
        num_derivs(h, p) > 0,
    ensures
        pkg_mentioned_upto(h, h.len() as int, p),
    decreases h.len(),
{
    if h.len() > 0 {
        if !h.last().1.is_decision() && h.last().1.package_spec() == p {
            assert(h[h.len() - 1].1.package_spec() == p);
        } else {
            lemma_num_derivs_pos(h.drop_last(), p);
            let w = choose|i: int|
                0 <= i < h.drop_last().len() && (#[trigger] h.drop_last()[i]).1.package_spec()
                    == p;
            assert(h[w] == h.drop_last()[w]);
        }
    }
}

/// A zero derivation count means no derivation for the package exists.
proof fn lemma_num_derivs_zero_no_deriv(h: Seq<(usize, Assignment)>, p: u64)
    requires
        num_derivs(h, p) == 0,
    ensures
        forall|i: int|
            0 <= i < h.len() ==> !(!(#[trigger] h[i]).1.is_decision() && h[i].1.package_spec()
                == p),
    decreases h.len(),
{
    if h.len() > 0 {
        lemma_num_derivs_zero_no_deriv(h.drop_last(), p);
        assert forall|i: int|
            0 <= i < h.len() implies !(!(#[trigger] h[i]).1.is_decision() && h[i].1.package_spec()
                == p) by {
            if i < h.len() - 1 {
                assert(h.drop_last()[i] == h[i]);
            }
        }
    }
}

/// Satisfaction over the history extended by one decision is satisfaction
/// "with" that virtual decision over the unextended history.
proof fn lemma_satisfied_push_decision(
    h: Seq<(usize, Assignment)>,
    e: (usize, Assignment),
    inc: Seq<(u64, Term)>,
)
    requires
        e.1.is_decision(),
        e.1.wf(),
    ensures
        incompat_satisfied_upto(h.push(e), h.push(e).len() as int, inc) == incompat_satisfied_with(
            h,
            inc,
            e.1.package_spec(),
            e.1.version_spec(),
        ),
{
    let g = h.push(e);
    let dp = e.1.package_spec();
    let dv = e.1.version_spec();
    assert(g[h.len() as int] == e);
    assert forall|i: int| 0 <= i < h.len() implies g[i] == h[i] by {}
    assert forall|k: int| 0 <= k < inc.len() implies (entry_satisfied_upto(
        g,
        g.len() as int,
        (#[trigger] inc[k]).0,
        inc[k].1@,
    ) == entry_satisfied_with(h, inc[k].0, inc[k].1@, dp, dv)) by {
        let p = inc[k].0;
        let t = inc[k].1@;
        assert(pkg_mentioned_upto(g, g.len() as int, p) == (pkg_mentioned(h, p) || p == dp)) by {
            if pkg_mentioned(h, p) {
                let w = choose|i: int| 0 <= i < h.len() && (#[trigger] h[i]).1.package_spec() == p;
                assert(g[w].1.package_spec() == p);
            }
            if p == dp {
                assert(g[h.len() as int].1.package_spec() == p);
            }
            if pkg_mentioned_upto(g, g.len() as int, p) {
                let w = choose|i: int| 0 <= i < g.len() && (#[trigger] g[i]).1.package_spec() == p;
                if w < h.len() {
                    assert(h[w].1.package_spec() == p);
                }
            }
        }
        assert(pkg_positive_upto(g, g.len() as int, p) == (pkg_positive(h, p) || p == dp)) by {
            if pkg_positive(h, p) {
                let w = choose|i: int|
                    0 <= i < h.len() && (#[trigger] h[i]).1.package_spec() == p
                        && h[i].1.term_model().positive;
                assert(g[w].1.package_spec() == p && g[w].1.term_model().positive);
            }
            if p == dp {
                assert(g[h.len() as int].1.package_spec() == p && g[h.len() as int].1.term_model()
                    .positive);
            }
            if pkg_positive_upto(g, g.len() as int, p) {
                let w = choose|i: int|
                    0 <= i < g.len() && (#[trigger] g[i]).1.package_spec() == p
                        && g[i].1.term_model().positive;
                if w < h.len() {
                    assert(h[w].1.package_spec() == p && h[w].1.term_model().positive);
                }
            }
        }
        assert forall|v: u64| #[trigger] pkg_contains_upto(g, g.len() as int, p, v) == (
        pkg_contains(h, p, v) && (p == dp ==> v == dv)) by {
            if pkg_contains_upto(g, g.len() as int, p, v) {
                assert forall|i: int|
                    0 <= i < h.len() && (#[trigger] h[i]).1.package_spec() == p implies h[i].1.term_model().contains(v) by {
                    assert(g[i].1.term_model().contains(v));
                }
                if p == dp {
                    assert(g[h.len() as int].1.term_model().contains(v));
                    assert(v == dv);
                }
            } else {
                if pkg_contains(h, p, v) && (p == dp ==> v == dv) {
                    assert forall|i: int|
                        0 <= i < g.len() && (#[trigger] g[i]).1.package_spec() == p implies g[i].1.term_model().contains(v) by {
                        if i < h.len() {
                            assert(h[i].1.term_model().contains(v));
                        } else {
                            assert(g[i] == e);
                            assert(e.1.term_model().contains(v) == (v == dv));
                        }
                    }
                }
            }
        }
        assert(entry_satisfied_upto(g, g.len() as int, p, t) == entry_satisfied_with(
            h,
            p,
            t,
            dp,
            dv,
        )) by {
            if entry_satisfied_upto(g, g.len() as int, p, t) {
                assert forall|v: u64|
                    (pkg_contains(h, p, v) && (p == dp ==> v == dv)) implies #[trigger] t.contains(
                    v,
                ) by {
                    assert(pkg_contains_upto(g, g.len() as int, p, v));
                }
            }
            if entry_satisfied_with(h, p, t, dp, dv) {
                assert forall|v: u64|
                    pkg_contains_upto(g, g.len() as int, p, v) implies #[trigger] t.contains(
                    v,
                ) by {
                    assert(pkg_contains(h, p, v) && (p == dp ==> v == dv));
                }
            }
        }
    }
}

/// The same, over a list of incompatibilities.
proof fn lemma_satisfied_push_decision_all(
    h: Seq<(usize, Assignment)>,
    e: (usize, Assignment),
    incs: Seq<Incompatibility>,
)
    requires
        e.1.is_decision(),
        e.1.wf(),
    ensures
        (exists|k: int|
            0 <= k < incs.len() && incompat_satisfied_upto(
                h.push(e),
                h.push(e).len() as int,
                (#[trigger] incs[k])@,
            )) == any_satisfied_with(h, incs, e.1.package_spec(), e.1.version_spec()),
{
    assert forall|k: int| 0 <= k < incs.len() implies (incompat_satisfied_upto(
        h.push(e),
        h.push(e).len() as int,
        (#[trigger] incs[k])@,
    ) == incompat_satisfied_with(h, (incs[k])@, e.1.package_spec(), e.1.version_spec())) by {
        lemma_satisfied_push_decision(h, e, (incs[k])@);
    }
}

/// A package with no derivations in the history has a derivation count of
/// zero, and conversely.
proof fn lemma_num_derivs_zero(h: Seq<(usize, Assignment)>, p: u64)
    requires
        !pkg_mentioned_upto(h, h.len() as int, p),
    ensures
        num_derivs(h, p) == 0,
    decreases h.len(),
{
    if h.len() > 0 {
        assert(!pkg_mentioned_upto(h.drop_last(), h.drop_last().len() as int, p)) by {
            if pkg_mentioned_upto(h.drop_last(), h.drop_last().len() as int, p) {
                let w = choose|i: int|
                    0 <= i < h.drop_last().len() && (#[trigger] h.drop_last()[i]).1.package_spec()
                        == p;
                assert(h[w] == h.drop_last()[w]);
                assert(pkg_mentioned_upto(h, h.len() as int, p));
            }
        }
        lemma_num_derivs_zero(h.drop_last(), p);
        assert(h.last().1.package_spec() != p) by {
            if h.last().1.package_spec() == p {
                assert(h[h.len() - 1].1.package_spec() == p);
                assert(pkg_mentioned_upto(h, h.len() as int, p));
            }
        }
    }
}

} // verus!
