//! A term is a positive or negative expression regarding a set of versions.
//!
//! `Positive(r)` is true of a selected version inside `r`; `Negative(r)` is
//! true of a selected version outside `r` (or of no selection at all). The
//! mathematical meaning of a term is its `TermModel`: the sign together with
//! the canonical bounds of its range. All set algebra on terms is specified
//! and proved against that model.

use vstd::prelude::*;
use crate::range::Range;
use crate::range::bounds_contain;
use crate::range::strictly_increasing;
use crate::range::count_le;
use crate::range::lemma_range_canonical;

verus! {

/// The mathematical value of a term: a sign and canonical interval bounds.
#[verifier::ext_equal]
pub struct TermModel {
    pub positive: bool,
    pub bounds: Seq<u64>,
}

impl TermModel {
    pub open spec fn wf(self) -> bool {
        strictly_increasing(self.bounds)
    }

    /// Whether choosing version `v` makes the term true.
    pub open spec fn contains(self, v: u64) -> bool {
        if self.positive {
            bounds_contain(self.bounds, v)
        } else {
            !bounds_contain(self.bounds, v)
        }
    }

    /// The model of the negated term.
    pub open spec fn neg(self) -> TermModel {
        TermModel { positive: !self.positive, bounds: self.bounds }
    }

    /// The term that is always true, `Negative` of the empty range.
    pub open spec fn is_any(self) -> bool {
        !self.positive && self.bounds.len() == 0
    }

    /// The term that is never true, `Positive` of the empty range.
    pub open spec fn is_empty(self) -> bool {
        self.positive && self.bounds.len() == 0
    }
}

/// `r` is the intersection of `a` and `b`: positive as soon as one side is,
/// and true of exactly the versions both sides are true of.
pub open spec fn is_intersection_model(r: TermModel, a: TermModel, b: TermModel) -> bool {
    &&& r.positive == (a.positive || b.positive)
    &&& forall|v: u64| #[trigger] r.contains(v) == (a.contains(v) && b.contains(v))
}

/// `r` is the union of `a` and `b`: negative as soon as one side is, and true
/// of exactly the versions either side is true of.
pub open spec fn is_union_model(r: TermModel, a: TermModel, b: TermModel) -> bool {
    &&& r.positive == (a.positive && b.positive)
    &&& forall|v: u64| #[trigger] r.contains(v) == (a.contains(v) || b.contains(v))
}

/// Every term of `s` is true of `v`.
pub open spec fn all_contain(s: Seq<Term>, v: u64) -> bool {
    forall|i: int| 0 <= i < s.len() ==> (#[trigger] s[i])@.contains(v)
}

/// Some term of `s` is positive.
pub open spec fn some_positive(s: Seq<Term>) -> bool {
    exists|i: int| 0 <= i < s.len() && (#[trigger] s[i])@.positive
}

/// `m` is the intersection of all terms of `s` (of `any` when `s` is empty).
pub open spec fn is_intersection_of_all(m: TermModel, s: Seq<Term>) -> bool {
    &&& m.positive == some_positive(s)
    &&& forall|v: u64| #[trigger] m.contains(v) == all_contain(s, v)
}

/// `a` is a subset of `b`: wherever `a` holds, `b` holds, and `a` carries a
/// positive requirement whenever `b` does.
pub open spec fn subset_of_model(a: TermModel, b: TermModel) -> bool {
    &&& b.positive ==> a.positive
    &&& forall|v: u64| #[trigger] a.contains(v) ==> b.contains(v)
}

/// The terms of `s` jointly force `t`: the intersection of `s` is a subset of `t`.
pub open spec fn satisfied_by_model(t: TermModel, s: Seq<Term>) -> bool {
    &&& t.positive ==> some_positive(s)
    &&& forall|v: u64| all_contain(s, v) ==> #[trigger] t.contains(v)
}

/// The terms of `s` jointly rule `t` out: the intersection of `s` is disjoint
/// from `t` and the joint constraint is a positive one.
pub open spec fn contradicted_by_model(t: TermModel, s: Seq<Term>) -> bool {
    &&& t.positive || some_positive(s)
    &&& forall|v: u64| !(all_contain(s, v) && #[trigger] t.contains(v))
}

/// A positive or negative expression regarding a set of versions.
#[derive(Debug)]
pub enum Term {
    Positive(Range),
    Negative(Range),
}

/// Describes how a set of terms relates to one term: the set may force it,
/// rule it out, or neither.
#[derive(Clone, Copy, PartialEq, Eq, Structural, Debug)]
pub enum Relation {
    Satisfied,
    Contradicted,
    Inconclusive,
}

impl View for Term {
    type V = TermModel;

    open spec fn view(&self) -> TermModel {
        match self {
            Term::Positive(r) => TermModel { positive: true, bounds: r@ },
            Term::Negative(r) => TermModel { positive: false, bounds: r@ },
        }
    }
}

impl Clone for Term {
    fn clone(&self) -> (res: Self)
        ensures
            res@ == self@,
    {
        let res = match self {
            Term::Positive(r) => Term::Positive(r.clone()),
            Term::Negative(r) => Term::Negative(r.clone()),
        };
        proof {
            assert(res@ =~= self@);
        }
        res
    }
}

impl Term {
    pub open spec fn wf(self) -> bool {
        self@.wf()
    }

    /// A term that is always true.
    pub fn any() -> (r: Term)
        ensures
            r.wf(),
            r@.is_any(),
            forall|v: u64| #[trigger] r@.contains(v),
    {
        Term::Negative(Range::none())
    }

    /// A term that is never true.
    pub fn empty() -> (r: Term)
        ensures
            r.wf(),
            r@.is_empty(),
            forall|v: u64| !(#[trigger] r@.contains(v)),
    {
        Term::Positive(Range::none())
    }

    /// A positive term containing exactly that version.
    pub fn exact(version: u64) -> (r: Term)
        ensures
            r.wf(),
            r@.positive,
            forall|w: u64| #[trigger] r@.contains(w) == (w == version),
    {
        let range = Range::exact(version);
        let r = Term::Positive(range);
        proof {
            assert forall|w: u64| #[trigger] r@.contains(w) == (w == version) by {
                assert(range.contains_spec(w) == (w == version));
            }
        }
        r
    }

    /// Simply check if a term is positive.
    pub fn is_positive(&self) -> (r: bool)
        ensures
            r == self@.positive,
    {
        match self {
            Term::Positive(_) => true,
            Term::Negative(_) => false,
        }
    }

    /// Simply check if a term is negative.
    pub fn is_negative(&self) -> (r: bool)
        ensures
            r == !self@.positive,
    {
        !self.is_positive()
    }

    /// Negate a term: the negation is true exactly when the term is false.
    pub fn negate(&self) -> (r: Term)
        ensures
            r@ == self@.neg(),
    {
        let r = match self {
            Term::Positive(range) => Term::Negative(range.clone()),
            Term::Negative(range) => Term::Positive(range.clone()),
        };
        proof {
            assert(r@ =~= self@.neg());
        }
        r
    }

    /// Evaluate a term regarding a given choice of version.
    pub fn contains(&self, v: u64) -> (r: bool)
        ensures
            r == self@.contains(v),
    {
        match self {
            Term::Positive(range) => range.contains(v),
            Term::Negative(range) => !range.contains(v),
        }
    }

    /// Structural equality of terms; by canonicity also equality of meaning.
    pub fn eq_term(&self, other: &Term) -> (r: bool)
        ensures
            r == (self@ == other@),
    {
        let r = match (self, other) {
            (Term::Positive(r1), Term::Positive(r2)) => r1.eq_range(r2),
            (Term::Negative(r1), Term::Negative(r2)) => r1.eq_range(r2),
            _ => false,
        };
        proof {
            if self@.positive == other@.positive && self@.bounds == other@.bounds {
                assert(self@ =~= other@);
            }
        }
        r
    }

    /// Whether this is the term that is never true.
    pub fn is_empty_term(&self) -> (r: bool)
        requires
            self.wf(),
        ensures
            r == self@.is_empty(),
            r == (self@.positive && forall|v: u64| !(#[trigger] self@.contains(v))),
    {
        match self {
            Term::Positive(range) => {
                let e = range.is_empty();
                proof {
                    if !e {
                        let w = choose|w: u64| range.contains_spec(w);
                        assert(self@.contains(w));
                    } else {
                        assert forall|v: u64| !(#[trigger] self@.contains(v)) by {
                            assert(!range.contains_spec(v));
                        }
                    }
                }
                e
            },
            Term::Negative(range) => {
                proof {
                    if self@.bounds.len() == 0 {
                        assert(count_le(self@.bounds, 0) == 0);
                        assert(self@.contains(0));
                    } else {
                        crate::range::lemma_bounds_first(self@.bounds);
                        assert(!self@.contains(self@.bounds[0]));
                    }
                }
                false
            },
        }
    }

    /// Whether this is the term that is always true.
    pub fn is_any_term(&self) -> (r: bool)
        requires
            self.wf(),
        ensures
            r == self@.is_any(),
            r == (!self@.positive && forall|v: u64| #[trigger] self@.contains(v)),
    {
        match self {
            Term::Negative(range) => {
                let e = range.is_empty();
                proof {
                    if !e {
                        let w = choose|w: u64| range.contains_spec(w);
                        assert(!self@.contains(w));
                    } else {
                        assert forall|v: u64| #[trigger] self@.contains(v) by {
                            assert(!range.contains_spec(v));
                        }
                    }
                }
                e
            },
            Term::Positive(_) => false,
        }
    }

    /// Compute the intersection of two terms.
    /// If at least one term is positive, the intersection is also positive.
    pub fn intersection(&self, other: &Term) -> (r: Term)
        requires
            self.wf(),
            other.wf(),
        ensures
            r.wf(),
            is_intersection_model(r@, self@, other@),
    {
        match (self, other) {
            (Term::Positive(r1), Term::Positive(r2)) => {
                let rr = r1.intersection(r2);
                let res = Term::Positive(rr);
                proof {
                    assert forall|v: u64|
                        #[trigger] res@.contains(v) == (self@.contains(v)
                            && other@.contains(v)) by {
                        assert(rr.contains_spec(v) == (r1.contains_spec(v)
                            && r2.contains_spec(v)));
                    }
                }
                res
            },
            (Term::Positive(r1), Term::Negative(r2)) => {
                let n2 = r2.negate();
                let rr = r1.intersection(&n2);
                let res = Term::Positive(rr);
                proof {
                    assert forall|v: u64|
                        #[trigger] res@.contains(v) == (self@.contains(v)
                            && other@.contains(v)) by {
                        assert(rr.contains_spec(v) == (r1.contains_spec(v)
                            && n2.contains_spec(v)));
                        assert(n2.contains_spec(v) == !r2.contains_spec(v));
                    }
                }
                res
            },
            (Term::Negative(r1), Term::Positive(r2)) => {
                let n1 = r1.negate();
                let rr = n1.intersection(r2);
                let res = Term::Positive(rr);
                proof {
                    assert forall|v: u64|
                        #[trigger] res@.contains(v) == (self@.contains(v)
                            && other@.contains(v)) by {
                        assert(rr.contains_spec(v) == (n1.contains_spec(v)
                            && r2.contains_spec(v)));
                        assert(n1.contains_spec(v) == !r1.contains_spec(v));
                    }
                }
                res
            },
            (Term::Negative(r1), Term::Negative(r2)) => {
                let rr = r1.union(r2);
                let res = Term::Negative(rr);
                proof {
                    assert forall|v: u64|
                        #[trigger] res@.contains(v) == (self@.contains(v)
                            && other@.contains(v)) by {
                        assert(rr.contains_spec(v) == (r1.contains_spec(v)
                            || r2.contains_spec(v)));
                    }
                }
                res
            },
        }
    }

    /// Compute the union of two terms.
    /// If at least one term is negative, the union is also negative.
    pub fn union(&self, other: &Term) -> (r: Term)
        requires
            self.wf(),
            other.wf(),
        ensures
            r.wf(),
            is_union_model(r@, self@, other@),
    {
        let na = self.negate();
        let nb = other.negate();
        let ni = na.intersection(&nb);
        let r = ni.negate();
        proof {
            assert forall|v: u64|
                #[trigger] r@.contains(v) == (self@.contains(v) || other@.contains(v)) by {
                assert(ni@.contains(v) == (na@.contains(v) && nb@.contains(v)));
            }
        }
        r
    }

    /// Compute the intersection of all given terms, `any` when there are none.
    pub fn intersect_all(all_terms: &Vec<Term>) -> (r: Term)
        requires
            forall|i: int| 0 <= i < all_terms@.len() ==> (#[trigger] all_terms@[i]).wf(),
        ensures
            r.wf(),
            is_intersection_of_all(r@, all_terms@),
    {
        let ghost s = all_terms@;
        let mut acc = Term::any();
        let mut k: usize = 0;
        while k < all_terms.len()
            invariant
                k <= s.len(),
                all_terms@ == s,
                forall|i: int| 0 <= i < s.len() ==> (#[trigger] s[i]).wf(),
                acc.wf(),
                acc@.positive == exists|i: int| 0 <= i < k && (#[trigger] s[i])@.positive,
                forall|v: u64|
                    #[trigger] acc@.contains(v) == forall|i: int|
                        0 <= i < k ==> (#[trigger] s[i])@.contains(v),
            decreases s.len() - k,
        {
            let next = acc.intersection(&all_terms[k]);
            proof {
                assert forall|v: u64|
                    #[trigger] next@.contains(v) == forall|i: int|
                        0 <= i < k + 1 ==> (#[trigger] s[i])@.contains(v) by {
                    if next@.contains(v) {
                        assert(acc@.contains(v) && s[k as int]@.contains(v));
                        assert forall|i: int| 0 <= i < k + 1 implies (#[trigger] s[i])@.contains(
                            v,
                        ) by {
                            if i < k {
                                assert(acc@.contains(v));
                            }
                        }
                    }
                }
                assert(next@.positive == exists|i: int|
                    0 <= i < k + 1 && (#[trigger] s[i])@.positive) by {
                    if next@.positive {
                        if acc@.positive {
                            let w = choose|i: int| 0 <= i < k && (#[trigger] s[i])@.positive;
                            assert(0 <= w < k + 1 && s[w]@.positive);
                        } else {
                            assert(0 <= k < k + 1 && s[k as int]@.positive);
                        }
                    }
                }
            }
            acc = next;
            k = k + 1;
        }
        acc
    }

    /// Indicate if this term is a subset of another term.
    /// Just like for sets, t1 is a subset of t2 if and only if t1 ∩ t2 = t1.
    pub fn subset_of(&self, other: &Term) -> (r: bool)
        requires
            self.wf(),
            other.wf(),
        ensures
            r == subset_of_model(self@, other@),
    {
        let inter = self.intersection(other);
        let r = self.eq_term(&inter);
        proof {
            if r {
                assert forall|v: u64| #[trigger] self@.contains(v) implies other@.contains(v) by {
                    assert(inter@.contains(v) == (self@.contains(v) && other@.contains(v)));
                }
            } else {
                if subset_of_model(self@, other@) {
                    assert forall|v: u64| #[trigger] inter@.contains(v) == self@.contains(v) by {
                        assert(inter@.contains(v) == (self@.contains(v) && other@.contains(v)));
                    }
                    lemma_term_canonical(inter@, self@);
                }
            }
        }
        r
    }

    /// Check if a set of terms satisfies this term: the term must be true
    /// whenever every term of the set is true, that is, ⋂ S ⊆ t.
    pub fn satisfied_by(&self, terms: &Vec<Term>) -> (r: bool)
        requires
            self.wf(),
            forall|i: int| 0 <= i < terms@.len() ==> (#[trigger] terms@[i]).wf(),
        ensures
            r == satisfied_by_model(self@, terms@),
    {
        let inter = Term::intersect_all(terms);
        let r = inter.subset_of(self);
        proof {
            if r {
                assert forall|v: u64| all_contain(terms@, v) implies #[trigger] self@.contains(
                    v,
                ) by {
                    assert(inter@.contains(v) == all_contain(terms@, v));
                }
            } else if satisfied_by_model(self@, terms@) {
                assert forall|v: u64| #[trigger] inter@.contains(v) implies self@.contains(v) by {
                    assert(all_contain(terms@, v));
                }
                assert(subset_of_model(inter@, self@));
            }
        }
        r
    }

    /// Check if a set of terms contradicts this term: the term must be false
    /// whenever every term of the set is true, that is, ⋂ S ∩ t = ∅.
    pub fn contradicted_by(&self, terms: &Vec<Term>) -> (r: bool)
        requires
            self.wf(),
            forall|i: int| 0 <= i < terms@.len() ==> (#[trigger] terms@[i]).wf(),
        ensures
            r == contradicted_by_model(self@, terms@),
    {
        let inter = Term::intersect_all(terms);
        let full = self.intersection(&inter);
        let r = full.is_empty_term();
        proof {
            if r {
                assert forall|v: u64| !(all_contain(terms@, v) && #[trigger] self@.contains(
                    v,
                )) by {
                    assert(full@.contains(v) == (self@.contains(v) && inter@.contains(v)));
                    assert(inter@.contains(v) == all_contain(terms@, v));
                }
            } else if contradicted_by_model(self@, terms@) {
                assert forall|v: u64| !(#[trigger] full@.contains(v)) by {
                    assert(full@.contains(v) == (self@.contains(v) && inter@.contains(v)));
                    assert(inter@.contains(v) == all_contain(terms@, v));
                    assert(!(all_contain(terms@, v) && self@.contains(v)));
                }
                assert(full@.positive);
            }
        }
        r
    }

    /// Check if a set of terms satisfies or contradicts this term; otherwise
    /// the relation is inconclusive. Satisfaction takes precedence: the two
    /// overlap exactly when the set's intersection is itself empty.
    pub fn relation_with(&self, other_terms: &Vec<Term>) -> (r: Relation)
        requires
            self.wf(),
            forall|i: int| 0 <= i < other_terms@.len() ==> (#[trigger] other_terms@[i]).wf(),
        ensures
            (r == Relation::Satisfied) == satisfied_by_model(self@, other_terms@),
            (r == Relation::Contradicted) == (contradicted_by_model(self@, other_terms@)
                && !satisfied_by_model(self@, other_terms@)),
            (r == Relation::Inconclusive) == (!satisfied_by_model(self@, other_terms@)
                && !contradicted_by_model(self@, other_terms@)),
    {
        let others_intersection = Term::intersect_all(other_terms);
        let full_intersection = self.intersection(&others_intersection);
        let ghost s = other_terms@;
        let ghost t = self@;
        let ghost im = others_intersection@;
        let ghost fm = full_intersection@;
        if full_intersection.eq_term(&others_intersection) {
            proof {
                assert forall|v: u64| all_contain(s, v) implies #[trigger] t.contains(v) by {
                    assert(im.contains(v) == all_contain(s, v));
                    assert(fm.contains(v) == (t.contains(v) && im.contains(v)));
                }
                assert(satisfied_by_model(t, s));
            }
            Relation::Satisfied
        } else if full_intersection.is_empty_term() {
            proof {
                lemma_full_not_satisfied(t, im, fm, s);
                assert forall|v: u64| !(all_contain(s, v) && #[trigger] t.contains(v)) by {
                    assert(fm.contains(v) == (t.contains(v) && im.contains(v)));
                    assert(im.contains(v) == all_contain(s, v));
                }
                assert(contradicted_by_model(t, s));
            }
            Relation::Contradicted
        } else {
            proof {
                lemma_full_not_satisfied(t, im, fm, s);
                if contradicted_by_model(t, s) {
                    assert forall|v: u64| !(#[trigger] fm.contains(v)) by {
                        assert(fm.contains(v) == (t.contains(v) && im.contains(v)));
                        assert(im.contains(v) == all_contain(s, v));
                        assert(!(all_contain(s, v) && t.contains(v)));
                    }
                    assert(fm.positive);
                }
            }
            Relation::Inconclusive
        }
    }
}

/// A term with the sign and the meaning of another is that other term:
/// canonical ranges make terms unique.
pub proof fn lemma_term_canonical(a: TermModel, b: TermModel)
    requires
        a.wf(),
        b.wf(),
        a.positive == b.positive,
        forall|v: u64| #[trigger] a.contains(v) == b.contains(v),
    ensures
        a == b,
{
    assert forall|v: u64| bounds_contain(a.bounds, v) == bounds_contain(b.bounds, v) by {
        assert(a.contains(v) == b.contains(v));
    }
    crate::range::lemma_bounds_unique(a.bounds, b.bounds);
    assert(a =~= b);
}

/// Used by `relation_with`: when the full intersection differs from the
/// intersection of the set, the set does not satisfy the term.
proof fn lemma_full_not_satisfied(t: TermModel, others: TermModel, full: TermModel, s: Seq<Term>)
    requires
        t.wf(),
        others.wf(),
        full.wf(),
        is_intersection_of_all(others, s),
        is_intersection_model(full, t, others),
        full != others,
    ensures
        !satisfied_by_model(t, s),
{
    if satisfied_by_model(t, s) {
        assert forall|v: u64| #[trigger] full.contains(v) == others.contains(v) by {
            assert(full.contains(v) == (t.contains(v) && others.contains(v)));
            if others.contains(v) {
                assert(all_contain(s, v));
                assert(t.contains(v));
            }
        }
        assert(full.positive == others.positive) by {
            if t.positive {
                assert(some_positive(s));
            }
        }
        lemma_term_canonical(full, others);
    }
}

/// Negating a term twice gives back the original term.
pub proof fn lemma_double_negation(t: TermModel)
    ensures
        t.neg().neg() == t,
{
    assert(t.neg().neg() =~= t);
}

/// De Morgan: the negation of an intersection of two terms is the union of
/// their negations.
pub proof fn lemma_de_morgan(a: TermModel, b: TermModel, ab: TermModel, u: TermModel)
    requires
        a.wf(),
        b.wf(),
        ab.wf(),
        u.wf(),
        is_intersection_model(ab, a, b),
        is_union_model(u, a.neg(), b.neg()),
    ensures
        u == ab.neg(),
{
    assert forall|v: u64| #[trigger] u.contains(v) == ab.neg().contains(v) by {
        assert(ab.contains(v) == (a.contains(v) && b.contains(v)));
    }
    lemma_term_canonical(u, ab.neg());
}

/// Intersection is idempotent: t ∩ t = t.
pub proof fn lemma_intersection_idempotent(t: TermModel, r: TermModel)
    requires
        t.wf(),
        r.wf(),
        is_intersection_model(r, t, t),
    ensures
        r == t,
{
    lemma_term_canonical(r, t);
}

/// The always-true term is an identity of intersection: t ∩ any = t.
pub proof fn lemma_intersection_any(t: TermModel, a: TermModel, r: TermModel)
    requires
        t.wf(),
        a.wf(),
        r.wf(),
        a.is_any(),
        is_intersection_model(r, t, a),
    ensures
        r == t,
{
    assert forall|v: u64| #[trigger] r.contains(v) == t.contains(v) by {
        assert(count_le(a.bounds, v) == 0);
    }
    lemma_term_canonical(r, t);
}

/// The never-true term absorbs intersection: t ∩ empty = empty.
pub proof fn lemma_intersection_empty(t: TermModel, e: TermModel, r: TermModel)
    requires
        t.wf(),
        e.wf(),
        r.wf(),
        e.is_empty(),
        is_intersection_model(r, t, e),
    ensures
        r == e,
{
    assert forall|v: u64| #[trigger] r.contains(v) == e.contains(v) by {
        assert(count_le(e.bounds, v) == 0);
    }
    lemma_term_canonical(r, e);
}

/// A subset is exactly a term unchanged by intersection: a ⊆ b iff a ∩ b = a.
pub proof fn lemma_subset_iff_intersection(a: TermModel, b: TermModel, ab: TermModel)
    requires
        a.wf(),
        b.wf(),
        ab.wf(),
        is_intersection_model(ab, a, b),
    ensures
        subset_of_model(a, b) <==> ab == a,
{
    if subset_of_model(a, b) {
        assert forall|v: u64| #[trigger] ab.contains(v) == a.contains(v) by {
            assert(ab.contains(v) == (a.contains(v) && b.contains(v)));
        }
        lemma_term_canonical(ab, a);
    }
    if ab == a {
        assert forall|v: u64| #[trigger] a.contains(v) implies b.contains(v) by {
            assert(ab.contains(v) == (a.contains(v) && b.contains(v)));
        }
    }
}

/// Satisfaction and contradiction exclude one another whenever the terms of
/// the set can be jointly true of some version.
pub proof fn lemma_relation_exclusive(t: TermModel, s: Seq<Term>)
    requires
        exists|v: u64| all_contain(s, v),
    ensures
        !(satisfied_by_model(t, s) && contradicted_by_model(t, s)),
{
    let v = choose|v: u64| all_contain(s, v);
    if satisfied_by_model(t, s) && contradicted_by_model(t, s) {
        assert(t.contains(v));
        assert(!(all_contain(s, v) && t.contains(v)));
    }
}

} // verus!
