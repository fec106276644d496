//! An in-memory dependency provider: for each package the list of its
//! available versions, preferred first, and for each version its dependency
//! ranges. The solver only ever consumes these through `list_available_versions`
//! and `get_dependencies`.

use vstd::prelude::*;
use crate::range::Range;

verus! {

/// One version of a package: the version number and its dependencies, each a
/// package with the range of versions that satisfies it.
pub struct VersionEntry {
    pub version: u64,
    pub deps: Vec<(u64, Range)>,
}

/// The registry: per package, its versions in preference order.
pub struct Registry {
    entries: Vec<(u64, Vec<VersionEntry>)>,
}

/// The abstract registry: package, then version with its dependency ranges.
pub type RegView = Seq<(u64, Seq<(u64, Seq<(u64, Range)>)>)>;

pub open spec fn version_entry_view(e: VersionEntry) -> (u64, Seq<(u64, Range)>) {
    (e.version, e.deps@)
}

impl View for Registry {
    type V = RegView;

    closed spec fn view(&self) -> RegView {
        self.entries@.map_values(
            |pe: (u64, Vec<VersionEntry>)|
                (pe.0, pe.1@.map_values(|ve: VersionEntry| version_entry_view(ve))),
        )
    }
}

pub open spec fn reg_has(r: RegView, p: u64) -> bool {
    exists|i: int| 0 <= i < r.len() && (#[trigger] r[i]).0 == p
}

pub open spec fn reg_index(r: RegView, p: u64) -> int {
    choose|i: int| 0 <= i < r.len() && (#[trigger] r[i]).0 == p
}

/// The version numbers the registry lists for `p`, preferred first; empty
/// when the registry does not know the package.
pub open spec fn reg_versions(r: RegView, p: u64) -> Seq<u64> {
    if reg_has(r, p) {
        r[reg_index(r, p)].1.map_values(|ve: (u64, Seq<(u64, Range)>)| ve.0)
    } else {
        Seq::empty()
    }
}

pub open spec fn reg_has_version(r: RegView, p: u64, v: u64) -> bool {
    reg_has(r, p) && exists|j: int|
        0 <= j < r[reg_index(r, p)].1.len() && (#[trigger] r[reg_index(r, p)].1[j]).0 == v
}

/// The dependency ranges of `p` at `v`.
pub open spec fn reg_deps(r: RegView, p: u64, v: u64) -> Seq<(u64, Range)> {
    let vs = r[reg_index(r, p)].1;
    vs[choose|j: int| 0 <= j < vs.len() && (#[trigger] vs[j]).0 == v].1
}

/// Packages appear once, versions of a package appear once, and every
/// dependency range is well formed.
pub open spec fn reg_wf(r: RegView) -> bool {
    &&& forall|i: int, j: int| 0 <= i < j < r.len() ==> (#[trigger] r[i]).0 != (#[trigger] r[j]).0
    &&& forall|i: int, j: int, l: int|
        0 <= i < r.len() && 0 <= j < l < r[i].1.len() ==> (#[trigger] r[i].1[j]).0 != (
        #[trigger] r[i].1[l]).0
    &&& forall|i: int, j: int, d: int|
        0 <= i < r.len() && 0 <= j < r[i].1.len() && 0 <= d < r[i].1[j].1.len() ==> (#[trigger] r[i].1[j].1[d]).1.wf()
}

impl Registry {
    /// An empty registry.
    pub fn new() -> (r: Registry)
        ensures
            r@.len() == 0,
            reg_wf(r@),
    {
        let r = Registry { entries: Vec::new() };
        proof {
            assert(r@ =~= Seq::<(u64, Seq<(u64, Seq<(u64, Range)>)>)>::empty());
        }
        r
    }

    /// Record that `package` at `version` has the given dependencies. The
    /// version is appended to the package's list, so calls for one package
    /// must go from the preferred version down.
    pub fn add_dependencies(&mut self, package: u64, version: u64, deps: Vec<(u64, Range)>)
        requires
            reg_wf(old(self)@),
            !reg_has_version(old(self)@, package, version),
            forall|d: int| 0 <= d < deps@.len() ==> (#[trigger] deps@[d]).1.wf(),
        ensures
            reg_wf(final(self)@),
            reg_has_version(final(self)@, package, version),
            reg_deps(final(self)@, package, version) == deps@,
            reg_versions(final(self)@, package) == reg_versions(old(self)@, package).push(version),
    {
        let ghost r0 = self@;
        let mut idx: usize = 0;
        let mut found: bool = false;
        while idx < self.entries.len() && !found
            invariant
                idx <= self.entries@.len(),
                self@ == r0,
                !found ==> forall|i: int| 0 <= i < idx ==> (#[trigger] self.entries@[i]).0
                    != package,
                found ==> idx < self.entries@.len() && self.entries@[idx as int].0 == package,
            decreases self.entries@.len() - idx, (if found {
                0int
            } else {
                1int
            }),
        {
            if self.entries[idx].0 == package {
                found = true;
            } else {
                idx = idx + 1;
            }
        }
        proof {
            assert(self@.len() == self.entries@.len());
            assert forall|i: int| 0 <= i < self@.len() implies (#[trigger] self@[i]).0
                == self.entries@[i].0 by {}
        }
        let ghost dv = deps@;
        if !found {
            proof {
                if reg_has(r0, package) {
                    let w = reg_index(r0, package);
                    assert(r0[w].0 == package);
                    assert(self.entries@[w].0 != package);
                }
            }
            let ve = VersionEntry { version, deps };
            self.entries.push((package, vec![ve]));
            proof {
                let r1 = self@;
                let n = r0.len() as int;
                assert(r1.len() == n + 1);
                assert forall|i: int| 0 <= i < n implies r1[i] == r0[i] by {}
                assert(r1[n].0 == package);
                assert(r1[n].1 =~= seq![(version, dv)]);
                lemma_reg_index(r1, package, n);
                assert(reg_has_version(r1, package, version)) by {
                    assert(r1[n].1[0].0 == version);
                }
                assert(reg_deps(r1, package, version) == dv) by {
                    let j = choose|j: int|
                        0 <= j < r1[n].1.len() && (#[trigger] r1[n].1[j]).0 == version;
                    assert(j == 0);
                }
                assert(reg_versions(r1, package) =~= reg_versions(r0, package).push(version)) by {
                    if reg_has(r0, package) {
                        let w = reg_index(r0, package);
                        assert(r0[w].0 == package);
                        assert(self.entries@[w].0 != package);
                    }
                }
                assert(reg_wf(r1)) by {
                    assert forall|i: int, j: int| 0 <= i < j < r1.len() implies (
                    #[trigger] r1[i]).0 != (#[trigger] r1[j]).0 by {
                        if j == n {
                            assert(r1[i] == r0[i]);
                        }
                    }
                }
            }
        } else {
            let ve = VersionEntry { version, deps };
            let mut pe = self.entries.remove(idx);
            pe.1.push(ve);
            self.entries.insert(idx, pe);
            proof {
                let r1 = self@;
                let n = r0.len() as int;
                assert(r1.len() == n);
                assert forall|i: int| 0 <= i < n && i != idx implies r1[i] == r0[i] by {}
                assert(r1[idx as int].0 == package);
                assert(r1[idx as int].1 =~= r0[idx as int].1.push((version, dv)));
                lemma_reg_index(r0, package, idx as int);
                lemma_reg_index(r1, package, idx as int);
                let m = r0[idx as int].1.len() as int;
                assert(reg_has_version(r1, package, version)) by {
                    assert(r1[idx as int].1[m].0 == version);
                }
                assert(reg_deps(r1, package, version) == dv) by {
                    let j = choose|j: int|
                        0 <= j < r1[idx as int].1.len() && (#[trigger] r1[idx as int].1[j]).0
                            == version;
                    assert(j == m) by {
                        if j < m {
                            assert(r0[idx as int].1[j] == r1[idx as int].1[j]);
                            assert(reg_has_version(r0, package, version));
                        }
                    }
                }
                assert(reg_versions(r1, package) =~= reg_versions(r0, package).push(version));
                assert(reg_wf(r1)) by {
                    assert forall|i: int, j: int, l: int|
                        0 <= i < r1.len() && 0 <= j < l < r1[i].1.len() implies (
                    #[trigger] r1[i].1[j]).0 != (#[trigger] r1[i].1[l]).0 by {
                        if i == idx {
                            if l == m {
                                assert(r1[i].1[j] == r0[i].1[j]);
                                if r0[i].1[j].0 == version {
                                    assert(reg_has_version(r0, package, version));
                                }
                            } else {
                                assert(r1[i].1[j] == r0[i].1[j] && r1[i].1[l] == r0[i].1[l]);
                            }
                        } else {
                            assert(r1[i] == r0[i]);
                        }
                    }
                    assert forall|i: int, j: int, d: int|
                        0 <= i < r1.len() && 0 <= j < r1[i].1.len() && 0 <= d < r1[i].1[j].1.len()
                            implies (#[trigger] r1[i].1[j].1[d]).1.wf() by {
                        if i == idx {
                            if j < m {
                                assert(r1[i].1[j] == r0[i].1[j]);
                            } else {
                                assert(r1[i].1[j].1 == dv);
                            }
                        } else {
                            assert(r1[i] == r0[i]);
                        }
                    }
                }
            }
        }
    }

    /// The versions the registry lists for the package, preferred first.
    pub fn list_available_versions(&self, package: u64) -> (r: Vec<u64>)
        requires
            reg_wf(self@),
        ensures
            r@ == reg_versions(self@, package),
    {
        let mut idx: usize = 0;
        let mut found: bool = false;
        while idx < self.entries.len() && !found
            invariant
                idx <= self.entries@.len(),
                reg_wf(self@),
                self@.len() == self.entries@.len(),
                forall|i: int| 0 <= i < self@.len() ==> (#[trigger] self@[i]).0
                    == self.entries@[i].0,
                !found ==> forall|i: int| 0 <= i < idx ==> (#[trigger] self.entries@[i]).0
                    != package,
                found ==> idx < self.entries@.len() && self.entries@[idx as int].0 == package,
            decreases self.entries@.len() - idx, (if found {
                0int
            } else {
                1int
            }),
        {
            if self.entries[idx].0 == package {
                found = true;
            } else {
                idx = idx + 1;
            }
        }
        if !found {
            proof {
                if reg_has(self@, package) {
                    let w = reg_index(self@, package);
                    assert(self@[w].0 == package);
                    assert(self.entries@[w].0 != package);
                }
                assert(reg_versions(self@, package) =~= Seq::<u64>::empty());
            }
            Vec::new()
        } else {
            let vs = &self.entries[idx].1;
            let mut out: Vec<u64> = Vec::new();
            let mut k: usize = 0;
            while k < vs.len()
                invariant
                    k <= vs@.len(),
                    out@.len() == k,
                    forall|i: int| 0 <= i < k ==> (#[trigger] out@[i]) == vs@[i].version,
                decreases vs@.len() - k,
            {
                out.push(vs[k].version);
                k = k + 1;
            }
            proof {
                assert(self@[idx as int].0 == package);
                crate::registry::lemma_reg_index(self@, package, idx as int);
                assert(out@ =~= reg_versions(self@, package));
            }
            out
        }
    }

    /// The dependencies of `package` at `version`, or `None` when the
    /// registry does not list that version.
    pub fn get_dependencies(&self, package: u64, version: u64) -> (r: Option<&Vec<(u64, Range)>>)
        requires
            reg_wf(self@),
        ensures
            match r {
                Some(deps) => reg_has_version(self@, package, version) && deps@ == reg_deps(
                    self@,
                    package,
                    version,
                ) && forall|d: int| 0 <= d < deps@.len() ==> (#[trigger] deps@[d]).1.wf(),
                None => !reg_has_version(self@, package, version),
            },
    {
        let mut idx: usize = 0;
        let mut found: bool = false;
        while idx < self.entries.len() && !found
            invariant
                idx <= self.entries@.len(),
                reg_wf(self@),
                self@.len() == self.entries@.len(),
                forall|i: int| 0 <= i < self@.len() ==> (#[trigger] self@[i]).0
                    == self.entries@[i].0,
                !found ==> forall|i: int| 0 <= i < idx ==> (#[trigger] self.entries@[i]).0
                    != package,
                found ==> idx < self.entries@.len() && self.entries@[idx as int].0 == package,
            decreases self.entries@.len() - idx, (if found {
                0int
            } else {
                1int
            }),
        {
            if self.entries[idx].0 == package {
                found = true;
            } else {
                idx = idx + 1;
            }
        }
        if !found {
            proof {
                if reg_has(self@, package) {
                    let w = reg_index(self@, package);
                    assert(self@[w].0 == package);
                    assert(self.entries@[w].0 != package);
                }
            }
            return None;
        }
        proof {
            lemma_reg_index(self@, package, idx as int);
        }
        let vs = &self.entries[idx].1;
        let mut k: usize = 0;
        while k < vs.len()
            invariant
                k <= vs@.len(),
                reg_wf(self@),
                idx < self.entries@.len(),
                vs@ == self.entries@[idx as int].1@,
                self@[idx as int].1 == vs@.map_values(|ve: VersionEntry| version_entry_view(ve)),
                reg_index(self@, package) == idx as int,
                reg_has(self@, package),
                self@[idx as int].0 == package,
                forall|i: int| 0 <= i < k ==> (#[trigger] vs@[i]).version != version,
            decreases vs@.len() - k,
        {
            if vs[k].version == version {
                proof {
                    let rv = self@[idx as int].1;
                    assert(rv[k as int].0 == version);
                    assert(reg_has_version(self@, package, version));
                    let j = choose|j: int| 0 <= j < rv.len() && (#[trigger] rv[j]).0 == version;
                    assert(j == k as int) by {
                        if j != k {
                            assert(rv[j].0 != rv[k as int].0);
                        }
                    }
                    assert(rv[k as int].1 == vs@[k as int].deps@);
                }
                return Some(&vs[k].deps);
            }
            k = k + 1;
        }
        proof {
            if reg_has_version(self@, package, version) {
                let rv = self@[idx as int].1;
                let j = choose|j: int| 0 <= j < rv.len() && (#[trigger] rv[j]).0 == version;
                assert(vs@[j].version != version);
            }
        }
        None
    }
}

/// Packages of a view keep their position.
pub proof fn lemma_reg_index(r: RegView, p: u64, i: int)
    requires
        forall|a: int, b: int| 0 <= a < b < r.len() ==> (#[trigger] r[a]).0 != (#[trigger] r[b]).0,
        0 <= i < r.len(),
        r[i].0 == p,
    ensures
        reg_has(r, p),
        reg_index(r, p) == i,
{
    assert(reg_has(r, p));
    let w = reg_index(r, p);
    assert(r[w].0 == p);
    if w != i {
        assert(r[w].0 != r[i].0);
    }
}

} // verus!
