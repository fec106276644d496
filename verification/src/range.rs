//! Sets of versions, kept in one canonical form.
//!
//! A `Range` is a finite union of half-open version intervals. It is stored as
//! the strictly increasing list of its interval bounds: the entries at even
//! positions open an interval and the following entry closes it, and a
//! trailing unpaired entry opens a final unbounded interval. A version lies in
//! the set exactly when an odd number of bounds are `<=` it. Strict order of
//! the bounds makes the intervals non-empty, non-overlapping, ordered and
//! merged when they touch, so every such set has exactly one representation
//! (`lemma_range_canonical`).

use vstd::prelude::*;

verus! {

/// Number of entries of `s` that are at most `v`.
pub open spec fn count_le(s: Seq<u64>, v: u64) -> nat
    decreases s.len(),
{
    if s.len() == 0 {
        0
    } else {
        (if s[0] <= v {
            1nat
        } else {
            0nat
        }) + count_le(s.skip(1), v)
    }
}

/// Membership in the set described by the bound list `s`.
pub open spec fn bounds_contain(s: Seq<u64>, v: u64) -> bool {
    count_le(s, v) % 2 == 1
}

pub open spec fn strictly_increasing(s: Seq<u64>) -> bool {
    forall|i: int, j: int| 0 <= i < j < s.len() ==> s[i] < s[j]
}

/// A canonical set of versions.
#[derive(Debug)]
pub struct Range {
    bounds: Vec<u64>,
}

impl View for Range {
    type V = Seq<u64>;

    closed spec fn view(&self) -> Seq<u64> {
        self.bounds@
    }
}

proof fn lemma_count_le_push(s: Seq<u64>, x: u64, v: u64)
    ensures
        count_le(s.push(x), v) == count_le(s, v) + (if x <= v {
            1nat
        } else {
            0nat
        }),
    decreases s.len(),
{
    if s.len() == 0 {
        assert(s.push(x)[0] == x);
        assert(s.push(x).skip(1) =~= Seq::<u64>::empty());
        assert(count_le(s.push(x).skip(1), v) == 0);
    } else {
        assert(s.push(x)[0] == s[0]);
        assert(s.push(x).skip(1) =~= s.skip(1).push(x));
        lemma_count_le_push(s.skip(1), x, v);
    }
}

proof fn lemma_count_le_none(s: Seq<u64>, v: u64)
    requires
        forall|i: int| 0 <= i < s.len() ==> s[i] > v,
    ensures
        count_le(s, v) == 0,
    decreases s.len(),
{
    if s.len() > 0 {
        lemma_count_le_none(s.skip(1), v);
    }
}

proof fn lemma_count_le_all(s: Seq<u64>, v: u64)
    requires
        forall|i: int| 0 <= i < s.len() ==> s[i] <= v,
    ensures
        count_le(s, v) == s.len(),
    decreases s.len(),
{
    if s.len() > 0 {
        lemma_count_le_all(s.skip(1), v);
    }
}

/// On a strictly increasing list, the entries at most `v` are exactly the
/// first `k` when `v` falls between the `k`-th and the next bound.
proof fn lemma_count_le_sorted(s: Seq<u64>, v: u64, k: int)
    requires
        strictly_increasing(s),
        0 <= k <= s.len(),
        k > 0 ==> s[k - 1] <= v,
        k < s.len() ==> s[k] > v,
    ensures
        count_le(s, v) == k,
    decreases s.len(),
{
    if k == 0 {
        assert forall|i: int| 0 <= i < s.len() implies s[i] > v by {
            if i > 0 {
                assert(s[0] < s[i]);
            }
        }
        lemma_count_le_none(s, v);
    } else {
        assert(s[0] <= v) by {
            if k - 1 > 0 {
                assert(s[0] < s[k - 1]);
            }
        }
        lemma_count_le_sorted(s.skip(1), v, k - 1);
    }
}

/// A non-empty strictly increasing bound list contains its first bound.
pub proof fn lemma_bounds_first(s: Seq<u64>)
    requires
        strictly_increasing(s),
        s.len() > 0,
    ensures
        bounds_contain(s, s[0]),
{
    lemma_count_le_sorted(s, s[0], 1);
}

/// Two strictly increasing bound lists that describe the same set are equal.
pub proof fn lemma_bounds_unique(x: Seq<u64>, y: Seq<u64>)
    requires
        strictly_increasing(x),
        strictly_increasing(y),
        forall|v: u64| bounds_contain(x, v) == bounds_contain(y, v),
    ensures
        x == y,
    decreases x.len() + y.len(),
{
    if x.len() == 0 && y.len() == 0 {
        assert(x =~= y);
    } else if x.len() == 0 {
        lemma_count_le_sorted(y, y[0], 1);
        lemma_count_le_none(x, y[0]);
        assert(bounds_contain(y, y[0]) != bounds_contain(x, y[0]));
    } else if y.len() == 0 {
        lemma_count_le_sorted(x, x[0], 1);
        lemma_count_le_none(y, x[0]);
        assert(bounds_contain(x, x[0]) != bounds_contain(y, x[0]));
    } else if x[0] < y[0] {
        lemma_count_le_sorted(x, x[0], 1);
        lemma_count_le_none(y, x[0]);
        assert(bounds_contain(x, x[0]) != bounds_contain(y, x[0]));
    } else if y[0] < x[0] {
        lemma_count_le_sorted(y, y[0], 1);
        lemma_count_le_none(x, y[0]);
        assert(bounds_contain(y, y[0]) != bounds_contain(x, y[0]));
    } else {
        assert forall|v: u64| bounds_contain(x.skip(1), v) == bounds_contain(y.skip(1), v) by {
            if v < x[0] {
                assert forall|i: int| 0 <= i < x.skip(1).len() implies x.skip(1)[i] > v by {
                    assert(x[0] < x[i + 1]);
                }
                assert forall|i: int| 0 <= i < y.skip(1).len() implies y.skip(1)[i] > v by {
                    assert(y[0] < y[i + 1]);
                }
                lemma_count_le_none(x.skip(1), v);
                lemma_count_le_none(y.skip(1), v);
            } else {
                assert(count_le(x, v) == 1 + count_le(x.skip(1), v));
                assert(count_le(y, v) == 1 + count_le(y.skip(1), v));
                assert(bounds_contain(x, v) == bounds_contain(y, v));
            }
        }
        assert(strictly_increasing(x.skip(1))) by {
            assert forall|i: int, j: int| 0 <= i < j < x.skip(1).len() implies x.skip(1)[i] < x.skip(
                1,
            )[j] by {
                assert(x[i + 1] < x[j + 1]);
            }
        }
        assert(strictly_increasing(y.skip(1))) by {
            assert forall|i: int, j: int| 0 <= i < j < y.skip(1).len() implies y.skip(1)[i] < y.skip(
                1,
            )[j] by {
                assert(y[i + 1] < y[j + 1]);
            }
        }
        lemma_bounds_unique(x.skip(1), y.skip(1));
        assert(x =~= y) by {
            assert(x.len() == y.len());
            assert forall|i: int| 0 <= i < x.len() implies x[i] == y[i] by {
                if i > 0 {
                    assert(x.skip(1)[i - 1] == y.skip(1)[i - 1]);
                }
            }
        }
    }
}

/// Copies a bound list.
fn copy_bounds(src: &Vec<u64>) -> (out: Vec<u64>)
    ensures
        out@ == src@,
{
    let mut out: Vec<u64> = Vec::new();
    let mut k: usize = 0;
    while k < src.len()
        invariant
            k <= src@.len(),
            out@ == src@.take(k as int),
        decreases src@.len() - k,
    {
        out.push(src[k]);
        proof {
            assert(src@.take(k + 1 as int) =~= src@.take(k as int).push(src@[k as int]));
        }
        k = k + 1;
    }
    proof {
        assert(src@.take(src@.len() as int) =~= src@);
    }
    out
}

impl Clone for Range {
    fn clone(&self) -> (res: Self)
        ensures
            res@ == self@,
    {
        Range { bounds: copy_bounds(&self.bounds) }
    }
}

impl Range {
    /// The bounds are strictly increasing; every operation keeps this.
    pub open spec fn wf(self) -> bool {
        strictly_increasing(self@)
    }

    /// The mathematical meaning of the range: which versions it holds.
    pub open spec fn contains_spec(self, v: u64) -> bool {
        bounds_contain(self@, v)
    }

    /// The empty set of versions.
    pub fn none() -> (r: Range)
        ensures
            r.wf(),
            r@.len() == 0,
            forall|v: u64| !r.contains_spec(v),
    {
        Range { bounds: Vec::new() }
    }

    /// The set of all versions.
    pub fn any() -> (r: Range)
        ensures
            r.wf(),
            forall|v: u64| r.contains_spec(v),
    {
        let r = Range { bounds: vec![0u64] };
        proof {
            assert forall|v: u64| r.contains_spec(v) by {
                lemma_count_le_sorted(r@, v, 1);
            }
        }
        r
    }

    /// The set holding exactly one version.
    pub fn exact(version: u64) -> (r: Range)
        ensures
            r.wf(),
            forall|w: u64| r.contains_spec(w) == (w == version),
    {
        if version == u64::MAX {
            let r = Range { bounds: vec![version] };
            proof {
                assert forall|w: u64| r.contains_spec(w) == (w == version) by {
                    if w < version {
                        lemma_count_le_sorted(r@, w, 0);
                    } else {
                        lemma_count_le_sorted(r@, w, 1);
                    }
                }
            }
            r
        } else {
            let r = Range { bounds: vec![version, version + 1] };
            proof {
                assert forall|w: u64| r.contains_spec(w) == (w == version) by {
                    if w < version {
                        lemma_count_le_sorted(r@, w, 0);
                    } else if w == version {
                        lemma_count_le_sorted(r@, w, 1);
                    } else {
                        lemma_count_le_sorted(r@, w, 2);
                    }
                }
            }
            r
        }
    }

    /// All versions `lo <= v < hi`.
    pub fn between(lo: u64, hi: u64) -> (r: Range)
        ensures
            r.wf(),
            forall|w: u64| r.contains_spec(w) == (lo <= w < hi),
    {
        if lo < hi {
            let r = Range { bounds: vec![lo, hi] };
            proof {
                assert forall|w: u64| r.contains_spec(w) == (lo <= w < hi) by {
                    if w < lo {
                        lemma_count_le_sorted(r@, w, 0);
                    } else if w < hi {
                        lemma_count_le_sorted(r@, w, 1);
                    } else {
                        lemma_count_le_sorted(r@, w, 2);
                    }
                }
            }
            r
        } else {
            Range { bounds: Vec::new() }
        }
    }

    /// Whether the range holds no version at all.
    pub fn is_empty(&self) -> (r: bool)
        requires
            self.wf(),
        ensures
            r == (self@.len() == 0),
            r ==> forall|v: u64| !self.contains_spec(v),
            !r ==> exists|v: u64| self.contains_spec(v),
    {
        let r = self.bounds.len() == 0;
        proof {
            if self@.len() > 0 {
                lemma_count_le_sorted(self@, self@[0], 1);
                assert(self.contains_spec(self@[0]));
            }
        }
        r
    }

    /// Membership test.
    pub fn contains(&self, v: u64) -> (r: bool)
        ensures
            r == self.contains_spec(v),
    {
        let mut k: usize = 0;
        let mut odd: bool = false;
        while k < self.bounds.len()
            invariant
                k <= self.bounds@.len(),
                odd == bounds_contain(self.bounds@.take(k as int), v),
            decreases self.bounds@.len() - k,
        {
            proof {
                assert(self.bounds@.take(k + 1 as int) =~= self.bounds@.take(k as int).push(
                    self.bounds@[k as int],
                ));
                lemma_count_le_push(self.bounds@.take(k as int), self.bounds@[k as int], v);
            }
            if self.bounds[k] <= v {
                odd = !odd;
            }
            k = k + 1;
        }
        proof {
            assert(self.bounds@.take(self.bounds@.len() as int) =~= self.bounds@);
        }
        odd
    }

    /// The complement set.
    pub fn negate(&self) -> (r: Range)
        requires
            self.wf(),
        ensures
            r.wf(),
            forall|v: u64| #[trigger] r.contains_spec(v) == !self.contains_spec(v),
    {
        if self.bounds.len() > 0 && self.bounds[0] == 0 {
            let mut out: Vec<u64> = Vec::new();
            let mut k: usize = 1;
            while k < self.bounds.len()
                invariant
                    1 <= k <= self.bounds@.len(),
                    out@ == self.bounds@.subrange(1, k as int),
                decreases self.bounds@.len() - k,
            {
                out.push(self.bounds[k]);
                proof {
                    assert(self.bounds@.subrange(1, k + 1 as int) =~= self.bounds@.subrange(
                        1,
                        k as int,
                    ).push(self.bounds@[k as int]));
                }
                k = k + 1;
            }
            let r = Range { bounds: out };
            proof {
                assert(r@ =~= self@.skip(1));
                assert forall|v: u64| #[trigger] r.contains_spec(v) == !self.contains_spec(v) by {
                    assert(count_le(self@, v) == 1 + count_le(self@.skip(1), v));
                }
                assert forall|i: int, j: int| 0 <= i < j < r@.len() implies r@[i] < r@[j] by {
                    assert(self@[i + 1] < self@[j + 1]);
                }
            }
            r
        } else {
            let mut out: Vec<u64> = vec![0u64];
            let mut k: usize = 0;
            while k < self.bounds.len()
                invariant
                    k <= self.bounds@.len(),
                    out@ == seq![0u64] + self.bounds@.take(k as int),
                decreases self.bounds@.len() - k,
            {
                out.push(self.bounds[k]);
                proof {
                    assert(seq![0u64] + self.bounds@.take(k + 1 as int) =~= (seq![0u64]
                        + self.bounds@.take(k as int)).push(self.bounds@[k as int]));
                }
                k = k + 1;
            }
            let r = Range { bounds: out };
            proof {
                assert(r@ =~= seq![0u64] + self.bounds@.take(self.bounds@.len() as int));
                assert(r@.skip(1) =~= self@);
                assert(r@[0] == 0);
                assert forall|v: u64| #[trigger] r.contains_spec(v) == !self.contains_spec(v) by {
                    assert(count_le(r@, v) == 1 + count_le(self@, v));
                }
                assert forall|i: int, j: int| 0 <= i < j < r@.len() implies r@[i] < r@[j] by {
                    if i == 0 {
                        if self@.len() > 0 && j > 1 {
                            assert(self@[0] < self@[j - 1]);
                        }
                    } else {
                        assert(self@[i - 1] < self@[j - 1]);
                    }
                }
            }
            r
        }
    }

    /// The set of versions in both ranges, built by one merge sweep.
    #[verifier::loop_isolation(false)]
    pub fn intersection(&self, other: &Range) -> (r: Range)
        requires
            self.wf(),
            other.wf(),
        ensures
            r.wf(),
            forall|v: u64|
                #[trigger] r.contains_spec(v) == (self.contains_spec(v) && other.contains_spec(v)),
    {
        let a = &self.bounds;
        let b = &other.bounds;
        let mut out: Vec<u64> = Vec::new();
        let mut i: usize = 0;
        let mut j: usize = 0;
        proof {
            assert forall|v: u64|
                ((0 < a@.len() ==> v < a@[0]) && (0 < b@.len() ==> v < b@[0])) implies (
            bounds_contain(out@, v) == (bounds_contain(a@, v) && bounds_contain(b@, v))) by {
                lemma_count_le_sorted(a@, v, 0);
                lemma_count_le_sorted(b@, v, 0);
            }
        }
        while i < a.len() || j < b.len()
            invariant
                i <= a@.len(),
                j <= b@.len(),
                strictly_increasing(out@),
                forall|k: int|
                    0 <= k < out@.len() ==> ((i < a@.len() ==> out@[k] < a@[i as int]) && (j
                        < b@.len() ==> out@[k] < b@[j as int])),
                i > 0 && j < b@.len() ==> a@[i - 1] < b@[j as int],
                j > 0 && i < a@.len() ==> b@[j - 1] < a@[i as int],
                (out@.len() % 2 == 1) == (i % 2 == 1 && j % 2 == 1),
                forall|v: u64|
                    ((i < a@.len() ==> v < a@[i as int]) && (j < b@.len() ==> v < b@[j as int]))
                        ==> (#[trigger] bounds_contain(out@, v) == (bounds_contain(a@, v)
                        && bounds_contain(b@, v))),
            decreases (a@.len() - i) + (b@.len() - j),
        {
            let ghost old_i = i as int;
            let ghost old_j = j as int;
            let ghost old_out = out@;
            let take_a = j >= b.len() || (i < a.len() && a[i] <= b[j]);
            let t: u64;
            if take_a && i < a.len() && j < b.len() && a[i] == b[j] {
                t = a[i];
                i = i + 1;
                j = j + 1;
            } else if take_a {
                t = a[i];
                i = i + 1;
            } else {
                t = b[j];
                j = j + 1;
            }
            let inboth = i % 2 == 1 && j % 2 == 1;
            let was = out.len() % 2 == 1;
            if inboth != was {
                proof {
                    assert forall|k: int| 0 <= k < out@.len() implies out@[k] < t by {}
                }
                out.push(t);
            }
            proof {
                // Every bound already placed is below the new frontiers.
                assert forall|k: int|
                    0 <= k < out@.len() implies ((i < a@.len() ==> out@[k] < a@[i as int]) && (j
                    < b@.len() ==> out@[k] < b@[j as int])) by {
                    assert(out@[k] <= t);
                    if i < a@.len() {
                        if old_i < i {
                            assert(a@[old_i] < a@[i as int]);
                        }
                    }
                    if j < b@.len() {
                        if old_j < j {
                            assert(b@[old_j] < b@[j as int]);
                        }
                    }
                }
                assert forall|v: u64|
                    ((i < a@.len() ==> v < a@[i as int]) && (j < b@.len() ==> v < b@[j as int]))
                    implies (#[trigger] bounds_contain(out@, v) == (bounds_contain(a@, v)
                    && bounds_contain(b@, v))) by {
                    if v < t {
                        assert((old_i < a@.len() ==> v < a@[old_i]) && (old_j < b@.len() ==> v
                            < b@[old_j]));
                        assert(bounds_contain(old_out, v) == (bounds_contain(a@, v)
                            && bounds_contain(b@, v)));
                        if out@.len() > old_out.len() {
                            lemma_count_le_push(old_out, t, v);
                        }
                    } else {
                        lemma_count_le_sorted(a@, v, i as int);
                        lemma_count_le_sorted(b@, v, j as int);
                        lemma_count_le_all(out@, v);
                        assert(count_le(a@, v) == i);
                        assert(count_le(b@, v) == j);
                        assert(count_le(out@, v) == out@.len());
                    }
                }
            }
        }
        Range { bounds: out }
    }

    /// The set of versions in either range.
    pub fn union(&self, other: &Range) -> (r: Range)
        requires
            self.wf(),
            other.wf(),
        ensures
            r.wf(),
            forall|v: u64|
                #[trigger] r.contains_spec(v) == (self.contains_spec(v) || other.contains_spec(v)),
    {
        self.negate().intersection(&other.negate()).negate()
    }

    /// Structural equality test; by canonicity this is also set equality.
    pub fn eq_range(&self, other: &Range) -> (r: bool)
        ensures
            r == (self@ == other@),
    {
        if self.bounds.len() != other.bounds.len() {
            proof {
                assert(self@ != other@);
            }
            return false;
        }
        let mut k: usize = 0;
        while k < self.bounds.len()
            invariant
                k <= self.bounds@.len(),
                self.bounds@.len() == other.bounds@.len(),
                forall|m: int| 0 <= m < k ==> self.bounds@[m] == other.bounds@[m],
            decreases self.bounds@.len() - k,
        {
            if self.bounds[k] != other.bounds[k] {
                proof {
                    assert(self@[k as int] != other@[k as int]);
                }
                return false;
            }
            k = k + 1;
        }
        proof {
            assert(self@ =~= other@);
        }
        true
    }
}

/// Two well-formed ranges that hold exactly the same versions are
/// structurally identical: the canonical form is unique, so any two algebraic
/// paths to the same set yield equal values.
pub proof fn lemma_range_canonical(a: Range, b: Range)
    requires
        a.wf(),
        b.wf(),
        forall|v: u64| a.contains_spec(v) == b.contains_spec(v),
    ensures
        a@ == b@,
{
    assert forall|v: u64| bounds_contain(a@, v) == bounds_contain(b@, v) by {
        assert(a.contains_spec(v) == b.contains_spec(v));
    }
    lemma_bounds_unique(a@, b@);
}

} // verus!
