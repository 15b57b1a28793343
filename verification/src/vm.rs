//! First-fit interval allocator for GPU virtual-address ranges.
//!
//! The allocator hands out aligned, non-overlapping ranges from
//! `[start, start + size)` and takes them back one by one. Its free
//! space is kept as a sorted, coalesced list of intervals; the set of
//! outstanding allocations is carried as ghost state, so the contracts
//! can say exactly which addresses are free after any sequence of
//! calls.

use vstd::prelude::*;
use vstd::arithmetic::div_mod::{
    lemma_fundamental_div_mod, lemma_mod_pos_bound, lemma_mod_multiples_basic,
    lemma_mod_self_0,
};

verus! {

/// A reserved range, identified by its starting address.
pub struct VMA {
    vma: u64,
}

impl VMA {
    /// The reserved range's starting address; never zero.
    pub closed spec fn spec_address(self) -> u64 {
        self.vma
    }

    pub fn address(&self) -> (a: u64)
        ensures
            a == self.spec_address(),
    {
        self.vma
    }
}

/// The lowest aligned non-zero address at or above `lo`.
pub open spec fn spec_cand(lo: int, al: int) -> int {
    let c = if lo % al == 0 { lo } else { lo + al - lo % al };
    if c == 0 { al } else { c }
}

/// `spec_cand` is aligned, non-zero, at least `lo`, and minimal among
/// aligned non-zero addresses at or above `lo`.
proof fn lemma_cand(lo: int, al: int)
    requires
        0 <= lo,
        1 <= al,
    ensures
        spec_cand(lo, al) % al == 0,
        spec_cand(lo, al) != 0,
        lo <= spec_cand(lo, al),
        spec_cand(lo, al) <= lo + al,
{
    let rem = lo % al;
    lemma_mod_pos_bound(lo, al);
    lemma_fundamental_div_mod(lo, al);
    let c = if rem == 0 { lo } else { lo + al - rem };
    assert(c % al == 0) by {
        if rem == 0 {
        } else {
            assert(c == al * (lo / al) + al);
            assert(c == al * (lo / al + 1)) by (nonlinear_arith)
                requires c == al * (lo / al) + al;
            assert((lo / al + 1) * al % al == 0) by {
                lemma_mod_multiples_basic(lo / al + 1, al);
            }
            vstd::arithmetic::mul::lemma_mul_is_commutative(al, lo / al + 1);
        }
    }
    if c == 0 {
        lemma_mod_self_0(al);
    }
}

/// `spec_cand` is the least aligned non-zero address at or above `lo`.
proof fn lemma_cand_min(lo: int, al: int, a: int)
    requires
        0 <= lo,
        1 <= al,
        a != 0,
        a % al == 0,
        lo <= a,
    ensures
        spec_cand(lo, al) <= a,
{
    lemma_cand(lo, al);
    let rem = lo % al;
    lemma_mod_pos_bound(lo, al);
    lemma_fundamental_div_mod(lo, al);
    let c = if rem == 0 { lo } else { lo + al - rem };
    if a < c {
        crate::arith::lemma_aligned_lt(a, c, al);
        assert(a <= c - al < lo);
    }
    if c == 0 {
        // a is a positive multiple of al
        lemma_fundamental_div_mod(a, al);
        assert(a == al * (a / al));
        assert(al <= a) by (nonlinear_arith)
            requires a == al * (a / al), 1 <= al, 0 < a;
    }
}

/// Carving `[c, cs)` out of the free interval `j` removes exactly
/// those addresses from the free set.
proof fn lemma_carve_free_sets(
    o: VMInner, n: VMInner, f0: Seq<(u64, u64)>, j: int,
    lo: u64, hi: u64, c: u64, cs: u64, lo_keep: bool, hi_keep: bool,
)
    requires
        o.free@ == f0,
        0 <= j < f0.len(),
        f0[j] == (lo, hi),
        lo <= c,
        c < cs,
        cs <= hi,
        lo_keep == (lo < c),
        hi_keep == ((cs as int) < hi),
        o.intervals_wf(),
        n.free@ == (if lo_keep && hi_keep {
            f0.update(j, (lo, c)).insert(j + 1, (cs, hi))
        } else if lo_keep {
            f0.update(j, (lo, c))
        } else if hi_keep {
            f0.update(j, (cs, hi))
        } else {
            f0.remove(j)
        }),
    ensures
        forall|x: int| #[trigger] n.free_at(x) <==> o.free_at(x) && !(c <= x < cs),
{
    let s1 = n.free@;
    assert forall|x: int| #[trigger] n.free_at(x) <==> o.free_at(x) && !(c <= x < cs) by {
        if n.free_at(x) {
            let i = choose|i: int| 0 <= i < s1.len()
                && (#[trigger] s1[i]).0 <= x < s1[i].1;
            if lo_keep && hi_keep {
                if i < j {
                    assert(f0[i].0 <= x < f0[i].1);
                    assert(f0[i].1 < f0[j].0);
                } else if i == j {
                    assert(f0[j].0 <= x < f0[j].1);
                } else if i == j + 1 {
                    assert(f0[j].0 <= x < f0[j].1);
                } else {
                    assert(s1[i] == f0[i - 1]);
                    assert(f0[i - 1].0 <= x < f0[i - 1].1);
                    assert(f0[j].1 < f0[i - 1].0);
                }
            } else if lo_keep || hi_keep {
                if i == j {
                    assert(f0[j].0 <= x < f0[j].1);
                } else {
                    assert(f0[i].0 <= x < f0[i].1);
                    if i < j {
                        assert(f0[i].1 < f0[j].0);
                    } else {
                        assert(f0[j].1 < f0[i].0);
                    }
                }
            } else {
                if i < j {
                    assert(f0[i].0 <= x < f0[i].1);
                    assert(f0[i].1 < f0[j].0);
                } else {
                    assert(s1[i] == f0[i + 1]);
                    assert(f0[i + 1].0 <= x < f0[i + 1].1);
                    assert(f0[j].1 < f0[i + 1].0);
                }
            }
        }
        if o.free_at(x) && !(c <= x < cs) {
            let i = choose|i: int| 0 <= i < f0.len()
                && (#[trigger] f0[i]).0 <= x < f0[i].1;
            if lo_keep && hi_keep {
                if i < j {
                    assert(s1[i].0 <= x < s1[i].1);
                } else if i == j {
                    if x < c {
                        assert(s1[j].0 <= x < s1[j].1);
                    } else {
                        assert(s1[j + 1].0 <= x < s1[j + 1].1);
                    }
                } else {
                    assert(s1[i + 1] == f0[i]);
                    assert(s1[i + 1].0 <= x < s1[i + 1].1);
                }
            } else if lo_keep {
                if i == j {
                    assert(x < c || x >= cs);
                    assert(x < c);
                    assert(s1[j].0 <= x < s1[j].1);
                } else {
                    assert(s1[i].0 <= x < s1[i].1);
                }
            } else if hi_keep {
                if i == j {
                    assert(s1[j].0 <= x < s1[j].1);
                } else {
                    assert(s1[i].0 <= x < s1[i].1);
                }
            } else {
                if i < j {
                    assert(s1[i].0 <= x < s1[i].1);
                } else if i == j {
                    assert(false);
                } else {
                    assert(s1[i - 1] == f0[i]);
                    assert(s1[i - 1].0 <= x < s1[i - 1].1);
                }
            }
        }
    };
}

/// Handing the range `[a, ae)` back, merged with its neighbours as the
/// flags say, adds exactly those addresses to the free set.
proof fn lemma_return_free_sets(
    o: VMInner, n: VMInner, f0: Seq<(u64, u64)>, idx: int,
    a: u64, ae: u64, merge_l: bool, merge_r: bool,
)
    requires
        o.free@ == f0,
        0 <= idx <= f0.len(),
        a < ae,
        forall|i: int| 0 <= i < idx ==> (#[trigger] f0[i]).1 <= a,
        forall|i: int| idx <= i < f0.len() ==> ae <= (#[trigger] f0[i]).0,
        merge_l ==> 0 < idx && f0[idx - 1].1 == a,
        merge_r ==> idx < f0.len() && f0[idx].0 == ae,
        o.intervals_wf(),
        n.free@ == (if merge_l && merge_r {
            f0.update(idx - 1, (f0[idx - 1].0, f0[idx].1)).remove(idx)
        } else if merge_l {
            f0.update(idx - 1, (f0[idx - 1].0, ae))
        } else if merge_r {
            f0.update(idx, (a, f0[idx].1))
        } else {
            f0.insert(idx, (a, ae))
        }),
    ensures
        forall|x: int| #[trigger] n.free_at(x) <==> o.free_at(x) || (a <= x < ae),
{
    let s1 = n.free@;
    assert forall|x: int| #[trigger] n.free_at(x) <==> o.free_at(x) || (a <= x < ae) by {
        if n.free_at(x) {
            let i = choose|i: int| 0 <= i < s1.len()
                && (#[trigger] s1[i]).0 <= x < s1[i].1;
            if merge_l && merge_r {
                if i < idx - 1 {
                    assert(f0[i].0 <= x < f0[i].1);
                } else if i == idx - 1 {
                    if x < a {
                        assert(f0[idx - 1].0 <= x < f0[idx - 1].1);
                    } else if x >= ae {
                        assert(f0[idx].0 <= x < f0[idx].1);
                    }
                } else {
                    assert(s1[i] == f0[i + 1]);
                    assert(f0[i + 1].0 <= x < f0[i + 1].1);
                }
            } else if merge_l {
                if i == idx - 1 {
                    if x < a {
                        assert(f0[idx - 1].0 <= x < f0[idx - 1].1);
                    }
                } else {
                    assert(f0[i].0 <= x < f0[i].1);
                }
            } else if merge_r {
                if i == idx {
                    if x >= ae {
                        assert(f0[idx].0 <= x < f0[idx].1);
                    }
                } else {
                    assert(f0[i].0 <= x < f0[i].1);
                }
            } else {
                if i < idx {
                    assert(f0[i].0 <= x < f0[i].1);
                } else if i > idx {
                    assert(s1[i] == f0[i - 1]);
                    assert(f0[i - 1].0 <= x < f0[i - 1].1);
                }
            }
        }
        if o.free_at(x) {
            let i = choose|i: int| 0 <= i < f0.len()
                && (#[trigger] f0[i]).0 <= x < f0[i].1;
            if merge_l && merge_r {
                if i < idx - 1 {
                    assert(s1[i].0 <= x < s1[i].1);
                } else if i == idx - 1 {
                    assert(s1[idx - 1].0 <= x < s1[idx - 1].1);
                } else if i == idx {
                    assert(f0[idx - 1].0 < f0[idx].0);
                    assert(s1[idx - 1].0 <= x < s1[idx - 1].1);
                } else {
                    assert(s1[i - 1] == f0[i]);
                    assert(s1[i - 1].0 <= x < s1[i - 1].1);
                }
            } else if merge_l {
                if i == idx - 1 {
                    assert(s1[idx - 1].0 <= x < s1[idx - 1].1);
                } else {
                    assert(s1[i].0 <= x < s1[i].1);
                }
            } else if merge_r {
                if i == idx {
                    assert(s1[idx].0 <= x < s1[idx].1);
                } else {
                    assert(s1[i].0 <= x < s1[i].1);
                }
            } else {
                if i < idx {
                    assert(s1[i].0 <= x < s1[i].1);
                } else {
                    assert(s1[i + 1] == f0[i]);
                    assert(s1[i + 1].0 <= x < s1[i + 1].1);
                }
            }
        }
        if a <= x < ae {
            if merge_l && merge_r {
                assert(s1[idx - 1].0 <= x < s1[idx - 1].1);
            } else if merge_l {
                assert(s1[idx - 1].0 <= x < s1[idx - 1].1);
            } else if merge_r {
                assert(s1[idx].0 <= x < s1[idx].1);
            } else {
                assert(s1[idx].0 <= x < s1[idx].1);
            }
        }
    };
}

/// The allocator proper.
pub struct VMInner {
    start: u64,
    size: u64,
    free: Vec<(u64, u64)>,
    allocated: Ghost<Set<(int, int)>>,
}

impl VMInner {
    pub closed spec fn spec_start(self) -> int {
        self.start as int
    }

    pub closed spec fn spec_end(self) -> int {
        self.start + self.size
    }

    /// The outstanding `(address, size)` pairs.
    pub closed spec fn allocations(self) -> Set<(int, int)> {
        self.allocated@
    }

    /// Whether the address `x` is free.
    pub closed spec fn free_at(self, x: int) -> bool {
        exists|j: int| 0 <= j < self.free@.len()
            && (#[trigger] self.free@[j]).0 <= x < self.free@[j].1
    }

    /// Whether the address `x` lies in an outstanding allocation.
    pub open spec fn allocated_at(self, x: int) -> bool {
        exists|pr: (int, int)| #[trigger] self.allocations().contains(pr)
            && pr.0 <= x < pr.0 + pr.1
    }

    /// The whole range `[a, a + s)` is free.
    pub open spec fn fits(self, a: int, s: int) -> bool {
        forall|x: int| a <= x < a + s ==> #[trigger] self.free_at(x)
    }

    spec fn intervals_wf(self) -> bool {
        &&& forall|j: int| 0 <= j < self.free@.len() ==> {
            &&& self.spec_start() <= (#[trigger] self.free@[j]).0
            &&& self.free@[j].0 < self.free@[j].1
            &&& self.free@[j].1 <= self.spec_end()
        }
        &&& forall|j1: int, j2: int|
            0 <= j1 < j2 < self.free@.len()
                ==> (#[trigger] self.free@[j1]).1 < (#[trigger] self.free@[j2]).0
    }

    spec fn allocations_wf(self) -> bool {
        &&& forall|pr: (int, int)| #[trigger] self.allocations().contains(pr) ==> {
            &&& 1 <= pr.1
            &&& pr.0 != 0
            &&& self.spec_start() <= pr.0
            &&& pr.0 + pr.1 <= self.spec_end()
        }
        &&& forall|pr: (int, int), x: int|
            #![trigger self.allocations().contains(pr), self.free_at(x)]
            self.allocations().contains(pr) && pr.0 <= x < pr.0 + pr.1
                ==> !self.free_at(x)
        &&& forall|pr1: (int, int), pr2: (int, int)|
            #[trigger] self.allocations().contains(pr1)
                && #[trigger] self.allocations().contains(pr2) && pr1 != pr2
                ==> pr1.0 + pr1.1 <= pr2.0 || pr2.0 + pr2.1 <= pr1.0
        &&& forall|x: int|
            self.spec_start() <= x < self.spec_end() && !(#[trigger] self.free_at(x))
                ==> self.allocated_at(x)
    }

    pub closed spec fn wf(self) -> bool {
        &&& self.spec_end() <= u64::MAX
        &&& self.intervals_wf()
        &&& self.allocations_wf()
    }

    fn new(start: u64, size: u64) -> (r: VMInner)
        requires
            start + size <= u64::MAX,
        ensures
            r.wf(),
            r.spec_start() == start,
            r.spec_end() == start + size,
            r.allocations() =~= Set::<(int, int)>::empty(),
            forall|x: int| r.free_at(x) <==> start <= x < start + size,
    {
        let mut free: Vec<(u64, u64)> = Vec::new();
        if size > 0 {
            free.push((start, start + size));
        }
        let r = VMInner { start, size, free, allocated: Ghost(Set::empty()) };
        proof {
            assert forall|x: int| r.free_at(x) <==> start <= x < start + size by {
                if start <= x < start + size {
                    assert(r.free@[0].0 <= x < r.free@[0].1);
                }
            };
        }
        r
    }

    /// Carve the range `[c, c + size)` out of free interval `j` and
    /// record it as an allocation.
    #[verifier::rlimit(100)]
    fn carve_at(&mut self, j: usize, c: u64, size: u64)
        requires
            old(self).wf(),
            j < old(self).free@.len(),
            1 <= size,
            c != 0,
            old(self).free@[j as int].0 <= c,
            c + size <= old(self).free@[j as int].1,
        ensures
            final(self).wf(),
            final(self).spec_start() == old(self).spec_start(),
            final(self).spec_end() == old(self).spec_end(),
            forall|x: int| c <= x < c + size ==> old(self).free_at(x),
            forall|x: int| #[trigger] final(self).free_at(x)
                <==> old(self).free_at(x) && !(c <= x < c + size),
            final(self).allocations()
                == old(self).allocations().insert((c as int, size as int)),
    {
        proof {
            assert(self.free@.len() == self.free.len());
        }
        let (lo, hi) = self.free[j];
        let cs = c + size;
        let ghost f0 = self.free@;
        let ghost pair = (c as int, size as int);
        let lo_keep = lo < c;
        let hi_keep = cs < hi;
        if lo_keep && hi_keep {
            self.free[j] = (lo, c);
            self.free.insert(j + 1, (cs, hi));
        } else if lo_keep {
            self.free[j] = (lo, c);
        } else if hi_keep {
            self.free[j] = (cs, hi);
        } else {
            self.free.remove(j);
        }
        proof {
            self.allocated@ = self.allocated@.insert(pair);
            assert(f0[j as int] == (lo, hi));
            // How the interval list was rearranged.
            if lo_keep && hi_keep {
                assert(self.free@.len() == f0.len() + 1);
                assert forall|i: int| 0 <= i < self.free@.len() implies
                    (#[trigger] self.free@[i]) == (if i < j { f0[i] }
                        else if i == j { (lo, c) }
                        else if i == j + 1 { (cs, hi) }
                        else { f0[i - 1] })
                by {};
            } else if lo_keep {
                assert(self.free@.len() == f0.len());
                assert forall|i: int| 0 <= i < self.free@.len() implies
                    (#[trigger] self.free@[i])
                        == (if i == j { (lo, c) } else { f0[i] })
                by {};
            } else if hi_keep {
                assert(self.free@.len() == f0.len());
                assert forall|i: int| 0 <= i < self.free@.len() implies
                    (#[trigger] self.free@[i])
                        == (if i == j { (cs, hi) } else { f0[i] })
                by {};
            } else {
                assert(self.free@.len() == f0.len() - 1);
                assert forall|i: int| 0 <= i < self.free@.len() implies
                    (#[trigger] self.free@[i])
                        == (if i < j { f0[i] } else { f0[i + 1] })
                by {};
            }
            // The interval list stays sorted, separated and in range.
            assert forall|i: int| 0 <= i < self.free@.len() implies {
                &&& self.spec_start() <= (#[trigger] self.free@[i]).0
                &&& self.free@[i].0 < self.free@[i].1
                &&& self.free@[i].1 <= self.spec_end()
            } by {
                if i < j {
                    assert(f0[i] == f0[i]);
                } else if j + 1 <= i < f0.len() {
                    assert(f0[i] == f0[i]);
                }
            };
            assert forall|i1: int, i2: int| 0 <= i1 < i2 < self.free@.len() implies
                (#[trigger] self.free@[i1]).1 < (#[trigger] self.free@[i2]).0
            by {
                if i1 < j {
                    assert(f0[i1].1 < f0[j as int].0);
                }
                if i2 > j + 1 {
                    assert(f0[j as int].1 < f0[j + 1].0);
                }
            };
            lemma_carve_free_sets(*old(self), *self, f0, j as int, lo, hi, c, cs,
                lo_keep, hi_keep);
            // Every carved byte was free.
            assert forall|x: int| c <= x < cs implies old(self).free_at(x) by {
                assert(f0[j as int].0 <= x < f0[j as int].1);
            };
            // The new pair lies inside the heap range.
            assert(old(self).free@[j as int] == (lo, hi));
            assert(old(self).spec_start() <= lo && hi <= old(self).spec_end());
            assert forall|pr: (int, int)| #[trigger] self.allocations().contains(pr)
                implies {
                    &&& 1 <= pr.1
                    &&& pr.0 != 0
                    &&& self.spec_start() <= pr.0
                    &&& pr.0 + pr.1 <= self.spec_end()
                }
            by {
                if pr != pair {
                    assert(old(self).allocations().contains(pr));
                }
            };
            // No allocation range is free.
            assert forall|pr: (int, int), x: int|
                #![trigger self.allocations().contains(pr), self.free_at(x)]
                self.allocations().contains(pr) && pr.0 <= x < pr.0 + pr.1
                    && self.free_at(x)
                implies false
            by {
                assert(old(self).free_at(x) && !(c <= x < cs));
                if pr != pair {
                    assert(old(self).allocations().contains(pr));
                    assert(!old(self).free_at(x));
                }
            };
            // The allocation list stays well-formed.
            assert forall|pr1: (int, int), pr2: (int, int)|
                #[trigger] self.allocations().contains(pr1)
                    && #[trigger] self.allocations().contains(pr2) && pr1 != pr2
                implies pr1.0 + pr1.1 <= pr2.0 || pr2.0 + pr2.1 <= pr1.0
            by {
                if pr1 == pair || pr2 == pair {
                    let o = if pr1 == pair { pr2 } else { pr1 };
                    assert(old(self).allocations().contains(o));
                    if !(o.0 + o.1 <= c || cs <= o.0) {
                        let x = if o.0 <= c { c as int } else { o.0 };
                        assert(o.0 <= x < o.0 + o.1);
                        assert(c <= x < cs);
                        assert(f0[j as int].0 <= x < f0[j as int].1);
                        assert(old(self).free_at(x));
                        assert(!old(self).free_at(x));
                    }
                } else {
                    assert(old(self).allocations().contains(pr1));
                    assert(old(self).allocations().contains(pr2));
                }
            };
            assert forall|x: int|
                self.spec_start() <= x < self.spec_end()
                    && !(#[trigger] self.free_at(x))
                implies self.allocated_at(x)
            by {
                if c <= x < cs {
                    assert(self.allocations().contains(pair));
                } else {
                    assert(!old(self).free_at(x));
                    assert(old(self).allocated_at(x));
                    let pr = choose|pr: (int, int)|
                        #[trigger] old(self).allocations().contains(pr)
                            && pr.0 <= x < pr.0 + pr.1;
                    assert(self.allocations().contains(pr));
                }
            };
        }
    }

    /// First-fit allocation of `size` bytes at `alignment`: the lowest
    /// aligned non-zero address whose whole range is free, or `None`
    /// when no such address exists.
    #[verifier::loop_isolation(false)]
    pub fn allocate(&mut self, size: u64, alignment: u64) -> (r: Option<VMA>)
        requires
            old(self).wf(),
            1 <= size,
            1 <= alignment,
        ensures
            final(self).wf(),
            final(self).spec_start() == old(self).spec_start(),
            final(self).spec_end() == old(self).spec_end(),
            r.is_some() ==> ({
                let a = r.unwrap().spec_address() as int;
                &&& a != 0
                &&& a % (alignment as int) == 0
                &&& old(self).spec_start() <= a
                &&& a + size <= old(self).spec_end()
                &&& forall|x: int| a <= x < a + size ==> old(self).free_at(x)
                &&& forall|x: int| #[trigger] final(self).free_at(x)
                        <==> old(self).free_at(x) && !(a <= x < a + size)
                &&& final(self).allocations()
                        == old(self).allocations().insert((a, size as int))
                &&& forall|a2: int| a2 != 0 && a2 % (alignment as int) == 0
                        && #[trigger] old(self).fits(a2, size as int) ==> a <= a2
            }),
            r.is_none() ==> ({
                &&& *final(self) == *old(self)
                &&& forall|a: int| a != 0 && a % (alignment as int) == 0
                        ==> !(#[trigger] old(self).fits(a, size as int))
            }),
    {
        let ghost al = alignment as int;
        let mut j: usize = 0;
        while j < self.free.len()
            invariant
                *self == *old(self),
                j <= self.free@.len(),
                forall|i: int| 0 <= i < j
                    ==> spec_cand((#[trigger] self.free@[i]).0 as int, al) + size
                        > self.free@[i].1,
            decreases self.free@.len() - j,
        {
            let (lo, hi) = self.free[j];
            proof {
                lemma_cand(lo as int, al);
            }
            let rem = lo % alignment;
            let pad = if rem == 0 { 0 } else { alignment - rem };
            let mut fit = false;
            let mut c: u64 = 0;
            if pad <= u64::MAX - lo {
                c = lo + pad;
                if c == 0 {
                    c = alignment;
                }
                proof {
                    assert(c == spec_cand(lo as int, al));
                }
                if c <= hi && size <= hi - c {
                    fit = true;
                }
            }
            if fit {
                proof {
                    // No aligned address below c has its whole range
                    // free: earlier intervals were rejected, and c is
                    // the least aligned candidate of this one.
                    assert forall|a2: int| a2 != 0 && a2 % al == 0
                        && #[trigger] old(self).fits(a2, size as int)
                        implies c <= a2
                    by {
                        assert(old(self).free_at(a2));
                        let i = choose|i: int| 0 <= i < self.free@.len()
                            && (#[trigger] self.free@[i]).0 <= a2 < self.free@[i].1;
                        let lo_i = self.free@[i].0 as int;
                        let hi_i = self.free@[i].1 as int;
                        if a2 + size > hi_i {
                            assert(old(self).free_at(hi_i));
                            let i2 = choose|i2: int| 0 <= i2 < self.free@.len()
                                && (#[trigger] self.free@[i2]).0 <= hi_i < self.free@[i2].1;
                            if i2 < i {
                                assert(self.free@[i2].1 < self.free@[i].0);
                            } else if i2 > i {
                                assert(self.free@[i].1 < self.free@[i2].0);
                            }
                            assert(false);
                        }
                        lemma_cand_min(lo_i, al, a2);
                        if i < j {
                            assert(spec_cand(lo_i, al) + size > hi_i);
                            assert(false);
                        } else if i == j {
                            assert(c <= a2);
                        } else {
                            assert(self.free@[j as int].1 < self.free@[i].0);
                        }
                    };
                }
                self.carve_at(j, c, size);
                return Some(VMA { vma: c });
            }
            j = j + 1;
        }
        proof {
            // No aligned non-zero address fits anywhere in the free set.
            assert forall|a: int| a != 0 && a % al == 0
                implies !(#[trigger] old(self).fits(a, size as int))
            by {
                if old(self).fits(a, size as int) {
                    assert(old(self).free_at(a));
                    let i = choose|i: int| 0 <= i < self.free@.len()
                        && (#[trigger] self.free@[i]).0 <= a < self.free@[i].1;
                    let lo = self.free@[i].0 as int;
                    let hi = self.free@[i].1 as int;
                    // The whole range stays inside this interval: its
                    // upper end is not free, being in the gap before
                    // the next interval.
                    if a + size > hi {
                        assert(old(self).free_at(hi));
                        let i2 = choose|i2: int| 0 <= i2 < self.free@.len()
                            && (#[trigger] self.free@[i2]).0 <= hi < self.free@[i2].1;
                        if i2 < i {
                            assert(self.free@[i2].1 < self.free@[i].0);
                        } else if i2 > i {
                            assert(self.free@[i].1 < self.free@[i2].0);
                        }
                        assert(false);
                    }
                    lemma_cand_min(lo, al, a);
                    assert(spec_cand(lo, al) + size > hi);
                }
            };
        }
        None
    }

    /// Return the exact range handed out by an earlier allocation to
    /// the free set, coalescing it with its neighbours.
    #[verifier::loop_isolation(false)]
    #[verifier::rlimit(100)]
    pub fn free(&mut self, address: u64, size: u64)
        requires
            old(self).wf(),
            old(self).allocations().contains((address as int, size as int)),
        ensures
            final(self).wf(),
            final(self).spec_start() == old(self).spec_start(),
            final(self).spec_end() == old(self).spec_end(),
            forall|x: int| #[trigger] final(self).free_at(x)
                <==> old(self).free_at(x) || (address <= x < address + size),
            final(self).allocations()
                == old(self).allocations().remove((address as int, size as int)),
    {
        let ghost pair = (address as int, size as int);
        proof {
            assert(self.free@.len() == self.free.len());
        }
        let a_end = address + size;
        let mut idx: usize = 0;
        while idx < self.free.len() && self.free[idx].1 <= address
            invariant
                *self == *old(self),
                idx <= self.free@.len(),
                forall|i: int| 0 <= i < idx ==> (#[trigger] self.free@[i]).1 <= address,
            decreases self.free@.len() - idx,
        {
            idx = idx + 1;
        }
        proof {
            // Every interval from idx on starts at or after the
            // returned range's end: the range is disjoint from the
            // free set, and the list is sorted.
            assert forall|i: int| idx <= i < self.free@.len()
                implies address + size <= (#[trigger] self.free@[i]).0
            by {
                if self.free@[i].0 < address + size {
                    assert(address < self.free@[i].1) by {
                        if i > idx {
                            assert(self.free@[idx as int].1 < self.free@[i].0);
                        }
                    }
                    let x: int = if self.free@[i].0 <= address {
                        address as int
                    } else {
                        self.free@[i].0 as int
                    };
                    assert(self.free@[i].0 <= x < self.free@[i].1);
                    assert(old(self).free_at(x));
                    assert(!old(self).free_at(x));
                }
            };
        }
        let merge_l = idx > 0 && self.free[idx - 1].1 == address;
        let merge_r = idx < self.free.len() && self.free[idx].0 == a_end;
        let ghost f0 = self.free@;
        if merge_l && merge_r {
            let l_prev = self.free[idx - 1].0;
            let h_next = self.free[idx].1;
            self.free[idx - 1] = (l_prev, h_next);
            self.free.remove(idx);
        } else if merge_l {
            let l_prev = self.free[idx - 1].0;
            self.free[idx - 1] = (l_prev, a_end);
        } else if merge_r {
            let h_next = self.free[idx].1;
            self.free[idx] = (address, h_next);
        } else {
            self.free.insert(idx, (address, a_end));
        }
        proof {
            self.allocated@ = self.allocated@.remove(pair);
            // How the interval list was rearranged.
            if merge_l && merge_r {
                assert(self.free@.len() == f0.len() - 1);
                assert forall|i: int| 0 <= i < self.free@.len() implies
                    (#[trigger] self.free@[i]) == (if i < idx - 1 { f0[i] }
                        else if i == idx - 1 { (f0[idx - 1].0, f0[idx as int].1) }
                        else { f0[i + 1] })
                by {};
            } else if merge_l {
                assert forall|i: int| 0 <= i < self.free@.len() implies
                    (#[trigger] self.free@[i])
                        == (if i == idx - 1 { (f0[idx - 1].0, a_end) } else { f0[i] })
                by {};
            } else if merge_r {
                assert forall|i: int| 0 <= i < self.free@.len() implies
                    (#[trigger] self.free@[i])
                        == (if i == idx { (address, f0[idx as int].1) } else { f0[i] })
                by {};
            } else {
                assert(self.free@.len() == f0.len() + 1);
                assert forall|i: int| 0 <= i < self.free@.len() implies
                    (#[trigger] self.free@[i]) == (if i < idx { f0[i] }
                        else if i == idx { (address, a_end) }
                        else { f0[i - 1] })
                by {};
            }
            // The interval list stays sorted, separated and in range.
            assert forall|i: int| 0 <= i < self.free@.len() implies {
                &&& self.spec_start() <= (#[trigger] self.free@[i]).0
                &&& self.free@[i].0 < self.free@[i].1
                &&& self.free@[i].1 <= self.spec_end()
            } by {
                assert(f0[i] == f0[i] || i >= 0);
            };
            assert forall|i1: int, i2: int| 0 <= i1 < i2 < self.free@.len() implies
                (#[trigger] self.free@[i1]).1 < (#[trigger] self.free@[i2]).0
            by {
                if !merge_l && idx > 0 {
                    assert(f0[idx - 1].1 <= address);
                }
                if !merge_r && idx < f0.len() {
                    assert(address + size <= f0[idx as int].0);
                }
            };
            lemma_return_free_sets(*old(self), *self, f0, idx as int,
                address, a_end, merge_l, merge_r);
            // The remaining allocations are unchanged and stay apart
            // from the enlarged free set.
            assert forall|pr: (int, int)| #[trigger] self.allocations().contains(pr)
                implies {
                    &&& 1 <= pr.1
                    &&& pr.0 != 0
                    &&& self.spec_start() <= pr.0
                    &&& pr.0 + pr.1 <= self.spec_end()
                }
            by {
                assert(old(self).allocations().contains(pr));
            };
            assert forall|pr: (int, int), x: int|
                #![trigger self.allocations().contains(pr), self.free_at(x)]
                self.allocations().contains(pr) && pr.0 <= x < pr.0 + pr.1
                    && self.free_at(x)
                implies false
            by {
                assert(old(self).allocations().contains(pr));
                assert(pr != pair);
                if old(self).free_at(x) {
                    assert(!old(self).free_at(x));
                } else {
                    assert(address <= x < address + size);
                    assert(pr.0 + pr.1 <= pair.0 || pair.0 + pair.1 <= pr.0);
                }
            };
            assert forall|pr1: (int, int), pr2: (int, int)|
                #[trigger] self.allocations().contains(pr1)
                    && #[trigger] self.allocations().contains(pr2) && pr1 != pr2
                implies pr1.0 + pr1.1 <= pr2.0 || pr2.0 + pr2.1 <= pr1.0
            by {
                assert(old(self).allocations().contains(pr1));
                assert(old(self).allocations().contains(pr2));
            };
            assert forall|x: int|
                self.spec_start() <= x < self.spec_end()
                    && !(#[trigger] self.free_at(x))
                implies self.allocated_at(x)
            by {
                assert(!old(self).free_at(x));
                assert(old(self).allocated_at(x));
                let pr = choose|pr: (int, int)|
                    #[trigger] old(self).allocations().contains(pr)
                        && pr.0 <= x < pr.0 + pr.1;
                assert(pr != pair);
                assert(self.allocations().contains(pr));
            };
        }
    }
}

/// Two outstanding allocations never overlap.
pub proof fn lemma_allocations_disjoint(vm: VMInner, pr1: (int, int), pr2: (int, int))
    requires
        vm.wf(),
        vm.allocations().contains(pr1),
        vm.allocations().contains(pr2),
        pr1 != pr2,
    ensures
        pr1.0 + pr1.1 <= pr2.0 || pr2.0 + pr2.1 <= pr1.0,
{
}

/// Once every allocation has been freed again, the heap's free set is
/// exactly the range it was created over: the allocator always returns
/// to its initial state.
pub proof fn lemma_drained_heap_is_initial(vm: VMInner)
    requires
        vm.wf(),
        forall|pr: (int, int)| !(#[trigger] vm.allocations().contains(pr)),
    ensures
        forall|x: int| #[trigger] vm.free_at(x)
            <==> vm.spec_start() <= x < vm.spec_end(),
{
    assert forall|x: int| #[trigger] vm.free_at(x)
        <==> vm.spec_start() <= x < vm.spec_end()
    by {
        if vm.free_at(x) {
            let j = choose|j: int| 0 <= j < vm.free@.len()
                && (#[trigger] vm.free@[j]).0 <= x < vm.free@[j].1;
        }
        if vm.spec_start() <= x < vm.spec_end() && !vm.free_at(x) {
            assert(vm.allocated_at(x));
            let pr = choose|pr: (int, int)|
                #[trigger] vm.allocations().contains(pr) && pr.0 <= x < pr.0 + pr.1;
        }
    };
}

/// Handle owning one allocator. Callers that share a heap across
/// threads put this handle behind a lock; the allocator itself is a
/// plain value and never moves its own storage.
pub struct VM {
    vm: VMInner,
}

impl VM {
    pub closed spec fn inner(self) -> VMInner {
        self.vm
    }

    /// A heap over `[start, start + size)`, initially all free.
    pub fn new(start: u64, size: u64) -> (r: VM)
        requires
            start + size <= u64::MAX,
        ensures
            r.inner().wf(),
            r.inner().spec_start() == start,
            r.inner().spec_end() == start + size,
            r.inner().allocations() =~= Set::<(int, int)>::empty(),
            forall|x: int| r.inner().free_at(x) <==> start <= x < start + size,
    {
        VM { vm: VMInner::new(start, size) }
    }

    /// First-fit allocation; see `VMInner::allocate`.
    pub fn allocate(&mut self, size: u64, alignment: u64) -> (r: Option<VMA>)
        requires
            old(self).inner().wf(),
            1 <= size,
            1 <= alignment,
        ensures
            final(self).inner().wf(),
            final(self).inner().spec_start() == old(self).inner().spec_start(),
            final(self).inner().spec_end() == old(self).inner().spec_end(),
            r.is_some() ==> ({
                let a = r.unwrap().spec_address() as int;
                &&& a != 0
                &&& a % (alignment as int) == 0
                &&& old(self).inner().spec_start() <= a
                &&& a + size <= old(self).inner().spec_end()
                &&& forall|x: int| a <= x < a + size ==> old(self).inner().free_at(x)
                &&& forall|x: int| #[trigger] final(self).inner().free_at(x)
                        <==> old(self).inner().free_at(x) && !(a <= x < a + size)
                &&& final(self).inner().allocations()
                        == old(self).inner().allocations().insert((a, size as int))
                &&& forall|a2: int| a2 != 0 && a2 % (alignment as int) == 0
                        && #[trigger] old(self).inner().fits(a2, size as int) ==> a <= a2
            }),
            r.is_none() ==> ({
                &&& final(self).inner() == old(self).inner()
                &&& forall|a: int| a != 0 && a % (alignment as int) == 0
                        ==> !(#[trigger] old(self).inner().fits(a, size as int))
            }),
    {
        self.vm.allocate(size, alignment)
    }

    /// Release an allocation; see `VMInner::free`.
    pub fn free(&mut self, address: u64, size: u64)
        requires
            old(self).inner().wf(),
            old(self).inner().allocations().contains((address as int, size as int)),
        ensures
            final(self).inner().wf(),
            final(self).inner().spec_start() == old(self).inner().spec_start(),
            final(self).inner().spec_end() == old(self).inner().spec_end(),
            forall|x: int| #[trigger] final(self).inner().free_at(x)
                <==> old(self).inner().free_at(x) || (address <= x < address + size),
            final(self).inner().allocations()
                == old(self).inner().allocations().remove((address as int, size as int)),
    {
        self.vm.free(address, size)
    }
}

} // verus!
