//! An incompatibility is a set of terms, at most one per package, that must
//! not all hold at once.
//!
//! Incompatibilities are created from dependency edges and from failures to
//! enumerate versions, and new ones are derived during conflict resolution by
//! merging two parents; the parents are kept (as indices into the solver's
//! store) so that an unsolvable case can be explained by its derivation tree.

use vstd::prelude::*;
use crate::term::Term;
use crate::term::TermModel;
use crate::term::is_intersection_model;
use crate::term::is_union_model;

verus! {

/// The union of `a` and `b` is the always-true term, which a merged
/// incompatibility drops rather than carries.
pub open spec fn union_is_any(a: TermModel, b: TermModel) -> bool {
    !(a.positive && b.positive) && forall|v: u64| a.contains(v) || b.contains(v)
}

/// Where an incompatibility comes from; derived ones point at their two
/// parents by their indices in the solver's store.
#[derive(Debug)]
pub enum Kind {
    /// Seeded at the start of a solve: the root package must be its version.
    NotRoot(u64, u64),
    /// No version of the package satisfies the term.
    NoVersions(u64, Term),
    /// The dependencies of this version of the package cannot be obtained.
    UnavailableDependencies(u64, u64),
    /// The given package at the given version depends on the other package.
    FromDependencyOf(u64, u64, u64),
    /// Derived during conflict resolution from the two given parents.
    DerivedFrom(usize, usize),
}

/// A set of package terms that must not all hold, with its origin.
#[derive(Debug)]
pub struct Incompatibility {
    terms: Vec<(u64, Term)>,
    kind: Kind,
}

/// No package appears twice in the term list.
pub open spec fn unique_packages(s: Seq<(u64, Term)>) -> bool {
    forall|i: int, j: int| 0 <= i < j < s.len() ==> (#[trigger] s[i]).0 != (#[trigger] s[j]).0
}

/// Some entry of the term list is for package `p`.
pub open spec fn has_package(s: Seq<(u64, Term)>, p: u64) -> bool {
    exists|i: int| 0 <= i < s.len() && (#[trigger] s[i]).0 == p
}

/// The index of package `p` in the term list.
pub open spec fn package_index(s: Seq<(u64, Term)>, p: u64) -> int {
    choose|i: int| 0 <= i < s.len() && (#[trigger] s[i]).0 == p
}

/// The model of the term that the list holds for package `p`.
pub open spec fn term_for(s: Seq<(u64, Term)>, p: u64) -> TermModel {
    s[package_index(s, p)].1@
}

/// On a list without repeated packages, the index of a package is the only
/// position that holds it.
pub proof fn lemma_package_index(s: Seq<(u64, Term)>, q: u64, i: int)
    requires
        unique_packages(s),
        0 <= i < s.len(),
        s[i].0 == q,
    ensures
        has_package(s, q),
        package_index(s, q) == i,
{
    assert(has_package(s, q));
    let w = package_index(s, q);
    assert(s[w].0 == q);
    if w != i {
        assert(s[w].0 != s[i].0);
    }
}

proof fn lemma_has_package_push(s: Seq<(u64, Term)>, e: (u64, Term), q: u64)
    ensures
        has_package(s.push(e), q) == (has_package(s, q) || e.0 == q),
{
    if has_package(s, q) {
        let w = choose|i: int| 0 <= i < s.len() && (#[trigger] s[i]).0 == q;
        assert(s.push(e)[w].0 == q);
        assert(has_package(s.push(e), q));
    }
    if e.0 == q {
        assert(s.push(e)[s.len() as int].0 == q);
        assert(has_package(s.push(e), q));
    }
    if has_package(s.push(e), q) {
        let w = choose|i: int| 0 <= i < s.push(e).len() && (#[trigger] s.push(e)[i]).0 == q;
        if w < s.len() {
            assert(s[w].0 == q);
        }
    }
}

/// Appending an entry for a fresh package keeps the list unique, keeps every
/// present term, and adds the new one.
proof fn lemma_push_preserves(s: Seq<(u64, Term)>, e: (u64, Term))
    requires
        unique_packages(s),
        !has_package(s, e.0),
    ensures
        unique_packages(s.push(e)),
        forall|q: u64| #[trigger] has_package(s.push(e), q) == (has_package(s, q) || q == e.0),
        forall|q: u64|
            has_package(s, q) ==> #[trigger] term_for(s.push(e), q) == term_for(s, q)
                && package_index(s.push(e), q) == package_index(s, q),
        term_for(s.push(e), e.0) == e.1@,
        package_index(s.push(e), e.0) == s.len(),
{
    assert forall|i: int, j: int|
        0 <= i < j < s.push(e).len() implies (#[trigger] s.push(e)[i]).0 != (#[trigger] s.push(
        e,
    )[j]).0 by {
        if j == s.len() {
            if s[i].0 == e.0 {
                assert(has_package(s, e.0));
            }
        }
    }
    assert forall|q: u64| #[trigger] has_package(s.push(e), q) == (has_package(s, q) || q
        == e.0) by {
        lemma_has_package_push(s, e, q);
    }
    assert forall|q: u64| has_package(s, q) implies #[trigger] term_for(s.push(e), q) == term_for(
        s,
        q,
    ) && package_index(s.push(e), q) == package_index(s, q) by {
        let w = package_index(s, q);
        assert(0 <= w < s.len() && s[w].0 == q);
        lemma_package_index(s.push(e), q, w);
    }
    lemma_package_index(s.push(e), e.0, s.len() as int);
}

impl View for Incompatibility {
    type V = Seq<(u64, Term)>;

    closed spec fn view(&self) -> Seq<(u64, Term)> {
        self.terms@
    }
}

impl Incompatibility {
    pub open spec fn wf(self) -> bool {
        &&& unique_packages(self@)
        &&& forall|i: int| 0 <= i < self@.len() ==> (#[trigger] self@[i]).1.wf()
    }

    pub closed spec fn kind_spec(self) -> Kind {
        self.kind
    }

    /// How many packages the incompatibility mentions.
    pub fn len(&self) -> (n: usize)
        ensures
            n == self@.len(),
    {
        self.terms.len()
    }

    /// The package of the entry at `i`.
    pub fn package_at(&self, i: usize) -> (p: u64)
        requires
            i < self@.len(),
        ensures
            p == self@[i as int].0,
    {
        self.terms[i].0
    }

    /// The term of the entry at `i`.
    pub fn term_at(&self, i: usize) -> (t: &Term)
        requires
            i < self@.len(),
        ensures
            *t == self@[i as int].1,
    {
        &self.terms[i].1
    }

    /// The origin of the incompatibility.
    pub fn kind(&self) -> (k: &Kind)
        ensures
            *k == self.kind_spec(),
    {
        &self.kind
    }

    /// Retrieve the term of package `p`, when the incompatibility has one.
    pub fn get(&self, p: u64) -> (r: Option<&Term>)
        requires
            self.wf(),
        ensures
            match r {
                Some(t) => has_package(self@, p) && t@ == term_for(self@, p),
                None => !has_package(self@, p),
            },
    {
        let mut k: usize = 0;
        while k < self.terms.len()
            invariant
                k <= self@.len(),
                self.wf(),
                forall|i: int| 0 <= i < k ==> (#[trigger] self@[i]).0 != p,
            decreases self@.len() - k,
        {
            if self.terms[k].0 == p {
                proof {
                    assert(has_package(self@, p));
                    let w = package_index(self@, p);
                    assert(self@[w].0 == p);
                    if w != k {
                        assert(self@[w].0 != self@[k as int].0);
                    }
                }
                return Some(&self.terms[k].1);
            }
            k = k + 1;
        }
        proof {
            if has_package(self@, p) {
                let w = choose|i: int| 0 <= i < self@.len() && (#[trigger] self@[i]).0 == p;
                assert(self@[w].0 != p);
            }
        }
        None
    }

    /// The seed incompatibility of a solve: "the root package is not at the
    /// root version" must not hold.
    pub fn not_root(package: u64, version: u64) -> (r: Incompatibility)
        ensures
            r.wf(),
            r@.len() == 1,
            r@[0].0 == package,
            r@[0].1@.wf(),
            !r@[0].1@.positive,
            forall|w: u64| #[trigger] r@[0].1@.contains(w) == (w != version),
            r.kind_spec() == Kind::NotRoot(package, version),
    {
        let e = Term::exact(version);
        let t = e.negate();
        let r = Incompatibility {
            terms: vec![(package, t)],
            kind: Kind::NotRoot(package, version),
        };
        proof {
            assert forall|w: u64| #[trigger] r@[0].1@.contains(w) == (w != version) by {
                assert(e@.contains(w) == (w == version));
            }
        }
        r
    }

    /// No available version of `package` satisfies `term`.
    pub fn no_versions(package: u64, term: Term) -> (r: Incompatibility)
        requires
            term.wf(),
        ensures
            r.wf(),
            r@.len() == 1,
            r@[0].0 == package,
            r@[0].1@ == term@,
            r.kind_spec() == Kind::NoVersions(package, term),
    {
        let t = term.clone();
        Incompatibility { terms: vec![(package, t)], kind: Kind::NoVersions(package, term) }
    }

    /// The dependencies of `package` at `version` cannot be obtained, so that
    /// exact version must not be selected.
    pub fn unavailable_dependencies(package: u64, version: u64) -> (r: Incompatibility)
        ensures
            r.wf(),
            r@.len() == 1,
            r@[0].0 == package,
            r@[0].1@.positive,
            forall|w: u64| #[trigger] r@[0].1@.contains(w) == (w == version),
            r.kind_spec() == Kind::UnavailableDependencies(package, version),
    {
        let t = Term::exact(version);
        Incompatibility {
            terms: vec![(package, t)],
            kind: Kind::UnavailableDependencies(package, version),
        }
    }

    /// Build the incompatibility encoding "if `package` is at `version` then
    /// `dep_package` must satisfy `dep_term`".
    pub fn from_dependency(package: u64, version: u64, dep_package: u64, dep_term: &Term) -> (r:
        Incompatibility)
        requires
            dep_package != package,
            dep_term.wf(),
    ensures
            r.wf(),
            r@.len() == 2,
            r@[0].0 == package,
            r@[0].1@.positive,
            forall|w: u64| #[trigger] r@[0].1@.contains(w) == (w == version),
            r@[1].0 == dep_package,
            r@[1].1@ == dep_term@.neg(),
            r.kind_spec() == Kind::FromDependencyOf(package, version, dep_package),
    {
        let pt = Term::exact(version);
        let dt = dep_term.negate();
        Incompatibility {
            terms: vec![(package, pt), (dep_package, dt)],
            kind: Kind::FromDependencyOf(package, version, dep_package),
        }
    }

    /// The position of package `p` in the term list; only for packages the
    /// incompatibility mentions.
    fn index_of(&self, p: u64) -> (i: usize)
        requires
            self.wf(),
            has_package(self@, p),
        ensures
            i < self@.len(),
            self@[i as int].0 == p,
            package_index(self@, p) == i,
    {
        let mut k: usize = 0;
        while k < self.terms.len()
            invariant
                k <= self@.len(),
                self.wf(),
                has_package(self@, p),
                forall|i: int| 0 <= i < k ==> (#[trigger] self@[i]).0 != p,
            decreases self@.len() - k,
        {
            if self.terms[k].0 == p {
                proof {
                    lemma_package_index(self@, p, k as int);
                }
                return k;
            }
            k = k + 1;
        }
        proof {
            let w = choose|i: int| 0 <= i < self@.len() && (#[trigger] self@[i]).0 == p;
            assert(self@[w].0 != p);
        }
        0
    }

    /// Merge two incompatibilities during conflict resolution: the pivot
    /// package gets the union of the parents' terms on it (dropped when that
    /// union is always true), every other package the intersection of the
    /// terms the parents hold for it. The result records both parents.
    pub fn prior_cause(
        incompat: &Incompatibility,
        satisfier_cause: &Incompatibility,
        package: u64,
        cause1: usize,
        cause2: usize,
    ) -> (r: Incompatibility)
        requires
            incompat.wf(),
            satisfier_cause.wf(),
            has_package(incompat@, package),
            has_package(satisfier_cause@, package),
        ensures
            r.wf(),
            r.kind_spec() == Kind::DerivedFrom(cause1, cause2),
            forall|q: u64|
                q != package ==> (#[trigger] has_package(r@, q) == (has_package(incompat@, q)
                    || has_package(satisfier_cause@, q))),
            forall|q: u64|
                q != package && #[trigger] has_package(r@, q) && has_package(incompat@, q)
                    && has_package(satisfier_cause@, q) ==> is_intersection_model(
                    term_for(r@, q),
                    term_for(incompat@, q),
                    term_for(satisfier_cause@, q),
                ),
            forall|q: u64|
                q != package && #[trigger] has_package(r@, q) && has_package(incompat@, q)
                    && !has_package(satisfier_cause@, q) ==> term_for(r@, q) == term_for(
                    incompat@,
                    q,
                ),
            forall|q: u64|
                q != package && #[trigger] has_package(r@, q) && !has_package(incompat@, q)
                    && has_package(satisfier_cause@, q) ==> term_for(r@, q) == term_for(
                    satisfier_cause@,
                    q,
                ),
            has_package(r@, package) == !union_is_any(
                term_for(incompat@, package),
                term_for(satisfier_cause@, package),
            ),
            has_package(r@, package) ==> is_union_model(
                term_for(r@, package),
                term_for(incompat@, package),
                term_for(satisfier_cause@, package),
            ),
    {
        let ghost ia = incompat@;
        let ghost ib = satisfier_cause@;
        let mut out: Vec<(u64, Term)> = Vec::new();
        let mut k: usize = 0;
        while k < incompat.len()
            invariant
                k <= ia.len(),
                incompat@ == ia,
                satisfier_cause@ == ib,
                incompat.wf(),
                satisfier_cause.wf(),
                has_package(ia, package),
                has_package(ib, package),
                unique_packages(out@),
                forall|i: int| 0 <= i < out@.len() ==> (#[trigger] out@[i]).1.wf(),
                forall|q: u64|
                    q != package ==> (#[trigger] has_package(out@, q) == (has_package(ia, q)
                        && package_index(ia, q) < k)),
                forall|q: u64|
                    q != package && #[trigger] has_package(out@, q) && has_package(ib, q)
                        ==> is_intersection_model(
                        term_for(out@, q),
                        term_for(ia, q),
                        term_for(ib, q),
                    ),
                forall|q: u64|
                    q != package && #[trigger] has_package(out@, q) && !has_package(ib, q)
                        ==> term_for(out@, q) == term_for(ia, q),
                has_package(out@, package) == (package_index(ia, package) < k && !union_is_any(
                    term_for(ia, package),
                    term_for(ib, package),
                )),
                has_package(out@, package) ==> is_union_model(
                    term_for(out@, package),
                    term_for(ia, package),
                    term_for(ib, package),
                ),
            decreases ia.len() - k,
        {
            let q = incompat.package_at(k);
            let tq = incompat.term_at(k);
            proof {
                lemma_package_index(ia, q, k as int);
            }
            if q == package {
                let bi = satisfier_cause.index_of(package);
                let tb = satisfier_cause.term_at(bi);
                let u = tq.union(tb);
                let any_union = u.is_any_term();
                if !any_union {
                    let ghost pre = out@;
                    out.push((package, u));
                    proof {
                        lemma_push_preserves(pre, (package, u));
                    }
                } else {
                    proof {
                        assert forall|v: u64|
                            term_for(ia, package).contains(v) || term_for(ib, package).contains(
                                v,
                            ) by {
                            assert(u@.contains(v));
                        }
                        assert(union_is_any(term_for(ia, package), term_for(ib, package)));
                    }
                }
            } else {
                let bt = satisfier_cause.get(q);
                match bt {
                    Some(tb) => {
                        let t = tq.intersection(tb);
                        let ghost pre = out@;
                        proof {
                            assert(!has_package(pre, q));
                        }
                        out.push((q, t));
                        proof {
                            lemma_push_preserves(pre, (q, t));
                        }
                    },
                    None => {
                        let t = tq.clone();
                        let ghost pre = out@;
                        out.push((q, t));
                        proof {
                            lemma_push_preserves(pre, (q, t));
                        }
                    },
                }
            }
            k = k + 1;
        }
        let mut m: usize = 0;
        while m < satisfier_cause.len()
            invariant
                m <= ib.len(),
                incompat@ == ia,
                satisfier_cause@ == ib,
                incompat.wf(),
                satisfier_cause.wf(),
                has_package(ia, package),
                has_package(ib, package),
                unique_packages(out@),
                forall|i: int| 0 <= i < out@.len() ==> (#[trigger] out@[i]).1.wf(),
                forall|q: u64|
                    q != package ==> (#[trigger] has_package(out@, q) == (has_package(ia, q) || (
                    has_package(ib, q) && package_index(ib, q) < m))),
                forall|q: u64|
                    q != package && #[trigger] has_package(out@, q) && has_package(ia, q)
                        && has_package(ib, q) ==> is_intersection_model(
                        term_for(out@, q),
                        term_for(ia, q),
                        term_for(ib, q),
                    ),
                forall|q: u64|
                    q != package && #[trigger] has_package(out@, q) && has_package(ia, q)
                        && !has_package(ib, q) ==> term_for(out@, q) == term_for(ia, q),
                forall|q: u64|
                    q != package && #[trigger] has_package(out@, q) && !has_package(ia, q)
                        && has_package(ib, q) ==> term_for(out@, q) == term_for(ib, q),
                has_package(out@, package) == !union_is_any(
                    term_for(ia, package),
                    term_for(ib, package),
                ),
                has_package(out@, package) ==> is_union_model(
                    term_for(out@, package),
                    term_for(ia, package),
                    term_for(ib, package),
                ),
            decreases ib.len() - m,
        {
            let q = satisfier_cause.package_at(m);
            proof {
                lemma_package_index(ib, q, m as int);
            }
            if q != package {
                let at = incompat.get(q);
                match at {
                    Some(_) => {},
                    None => {
                        let t = satisfier_cause.term_at(m).clone();
                        let ghost pre = out@;
                        out.push((q, t));
                        proof {
                            lemma_push_preserves(pre, (q, t));
                        }
                    },
                }
            }
            m = m + 1;
        }
        Incompatibility { terms: out, kind: Kind::DerivedFrom(cause1, cause2) }
    }

    /// Whether the incompatibility can only ever report the root itself: it
    /// mentions no package, or only the root with a term the root version
    /// meets. Reaching such an incompatibility proves there is no solution.
    pub fn is_terminal(&self, root_package: u64, root_version: u64) -> (r: bool)
        requires
            self.wf(),
        ensures
            r == (self@.len() == 0 || (self@.len() == 1 && self@[0].0 == root_package
                && self@[0].1@.contains(root_version))),
    {
        if self.terms.len() == 0 {
            true
        } else if self.terms.len() > 1 {
            false
        } else {
            let (p, t) = (self.terms[0].0, &self.terms[0].1);
            p == root_package && t.contains(root_version)
        }
    }
}

} // verus!
