//! Free-list allocation of entity slot ids.
//!
//! The allocator keeps a sorted, coalesced list of free integer ranges over
//! `[0, size)`. Allocation is first-fit and may return fewer slots than
//! requested; deallocation re-inserts a range and merges it with adjacent
//! neighbours so the list stays coalesced.

use core::ops::Range;
use vstd::prelude::*;

use crate::EntityId;

verus! {

/// The set of integers covered by the half-open interval `[start, end)`.
pub open spec fn range_set(start: int, end: int) -> Set<int> {
    Set::new(|x: int| start <= x < end)
}

/// Law: a range taken out of the free set by `allocate` and immediately
/// handed back by `deallocate` restores the free set exactly, independent of
/// how the free ranges were listed.
pub proof fn lemma_allocate_deallocate_round_trip(
    f0: Set<int>,
    f1: Set<int>,
    f2: Set<int>,
    s: int,
    e: int,
)
    requires
        range_set(s, e).subset_of(f0),
        f1 == f0.difference(range_set(s, e)),
        f2 == f1.union(range_set(s, e)),
    ensures
        f2 == f0,
{
    assert(f2 =~= f0);
}

/// Law: two ranges handed out by successive `allocate` calls are disjoint,
/// because the first allocation removes its range from the free set and the
/// second comes entirely out of what remains.
pub proof fn lemma_successive_allocations_disjoint(
    f0: Set<int>,
    f1: Set<int>,
    r1s: int,
    r1e: int,
    r2s: int,
    r2e: int,
)
    requires
        range_set(r1s, r1e).subset_of(f0),
        f1 == f0.difference(range_set(r1s, r1e)),
        range_set(r2s, r2e).subset_of(f1),
    ensures
        range_set(r1s, r1e).disjoint(range_set(r2s, r2e)),
{
}

/// Law: the allocated ids (the complement of the free set within the managed
/// range) are disjoint from the free ids, and the two together cover exactly
/// `[0, size)`.
pub proof fn lemma_allocated_free_partition(a: Allocator)
    requires
        a.wf(),
    ensures
        range_set(0, a.spec_size()).difference(a.free_set()).disjoint(a.free_set()),
        range_set(0, a.spec_size()).difference(a.free_set()).union(a.free_set()) == range_set(
            0,
            a.spec_size(),
        ),
{
    a.lemma_free_in_bounds();
    assert(range_set(0, a.spec_size()).difference(a.free_set()).union(a.free_set()) =~= range_set(
        0,
        a.spec_size(),
    ));
}

/// First-fit range allocator with a sorted, coalesced free list.
pub struct Allocator {
    size: EntityId,
    free_list: Vec<Range<EntityId>>,
}

impl Allocator {
    /// The free ranges, in ascending order, as `(start, end)` pairs.
    pub closed spec fn free_ranges(self) -> Seq<(int, int)> {
        self.free_list@.map(|_k: int, r: Range<EntityId>| (r.start as int, r.end as int))
    }

    /// The total number of ids managed, free or allocated.
    pub closed spec fn spec_size(self) -> int {
        self.size as int
    }

    /// The set of ids that are currently free.
    pub open spec fn free_set(self) -> Set<int> {
        Set::new(
            |x: int|
                exists|k: int|
                    0 <= k < self.free_ranges().len() && (#[trigger] self.free_ranges()[k]).0 <= x
                        < self.free_ranges()[k].1,
        )
    }

    /// The free list is sorted, non-adjacent (fully coalesced), and every
    /// range is a non-empty sub-range of `[0, size)`.
    pub open spec fn wf(self) -> bool {
        &&& forall|k: int|
            0 <= k < self.free_ranges().len() ==> 0 <= (#[trigger] self.free_ranges()[k]).0
                < self.free_ranges()[k].1 <= self.spec_size()
        &&& forall|k: int|
            0 <= k < self.free_ranges().len() - 1 ==> (#[trigger] self.free_ranges()[k]).1
                < self.free_ranges()[k + 1].0
    }

    /// In a well-formed allocator the free ranges appear in strictly
    /// ascending, non-touching order, so an earlier range ends before a later
    /// one begins.
    proof fn lemma_sorted(self, i: int, j: int)
        requires
            self.wf(),
            0 <= i < j < self.free_ranges().len(),
        ensures
            self.free_ranges()[i].1 < self.free_ranges()[j].0,
        decreases j - i,
    {
        if i + 1 < j {
            self.lemma_sorted(i + 1, j);
        }
    }

    /// An empty allocator managing no ids at all.
    pub fn new() -> (r: Allocator)
        ensures
            r.wf(),
            r.spec_size() == 0,
            r.free_set() == Set::<int>::empty(),
    {
        let r = Allocator { size: 0, free_list: Vec::new() };
        proof {
            assert(r.free_set() =~= Set::<int>::empty());
        }
        r
    }

    /// An allocator whose whole range `[0, size)` starts out free.
    pub fn with_capacity(size: EntityId) -> (r: Allocator)
        ensures
            r.wf(),
            r.spec_size() == size as int,
            r.free_set() == range_set(0, size as int),
    {
        let mut free_list: Vec<Range<EntityId>> = Vec::new();
        if size > 0 {
            free_list.push(Range { start: 0, end: size });
        }
        let r = Allocator { size, free_list };
        proof {
            if size > 0 {
                assert forall|x: int| 0 <= x < size as int implies r.free_set().contains(x) by {
                    assert(r.free_ranges()[0] == (0int, size as int));
                }
            }
            assert(r.free_set() =~= range_set(0, size as int));
        }
        r
    }
    /// Allocate up to `size` ids from the first free range (first-fit). The
    /// returned range may be shorter than requested; `None` comes back only
    /// when no free range exists at all, and a request for zero ids yields
    /// the empty range `0..0` without touching the free list.
    pub fn allocate(&mut self, size: EntityId) -> (r: Option<Range<EntityId>>)
        requires
            old(self).wf(),
        ensures
            final(self).wf(),
            final(self).spec_size() == old(self).spec_size(),
            size == 0 ==> (r matches Some(a) && a.start == 0 && a.end == 0
                && final(self).free_ranges() == old(self).free_ranges()),
            size > 0 && old(self).free_ranges().len() == 0 ==> r is None
                && final(self).free_ranges() == old(self).free_ranges(),
            size > 0 && old(self).free_ranges().len() > 0 ==> ({
                let s = old(self).free_ranges()[0].0;
                let e = old(self).free_ranges()[0].1;
                let k = if size as int <= e - s {
                    size as int
                } else {
                    e - s
                };
                &&& r matches Some(a) && a.start == s && a.end == s + k
                &&& range_set(s, s + k).subset_of(old(self).free_set())
                &&& final(self).free_set() == old(self).free_set().difference(range_set(s, s + k))
            }),
    {
        if size == 0 {
            return Some(Range { start: 0, end: 0 });
        }
        if self.free_list.len() == 0 {
            return None;
        }
        proof {
            assert(self.free_ranges()[0] == (
                self.free_list@[0].start as int,
                self.free_list@[0].end as int,
            ));
        }
        let s = self.free_list[0].start;
        let e = self.free_list[0].end;
        let avail = e - s;
        let k = if size <= avail {
            size
        } else {
            avail
        };
        let ghost prev = *self;
        if k == avail {
            self.free_list.remove(0);
            proof {
                assert(self.free_ranges() =~= prev.free_ranges().remove(0));
            }
        } else {
            self.free_list.set(0, Range { start: s + k, end: e });
            proof {
                assert(self.free_ranges() =~= prev.free_ranges().update(
                    0,
                    (s + k as int, e as int),
                ));
            }
        }
        proof {
            self.lemma_allocate_first(prev, s as int, e as int, k as int);
        }
        Some(Range { start: s, end: s + k })
    }

    /// All free ids lie inside the managed range `[0, size)`; together with
    /// `allocate` and `deallocate` keeping the free set exact, the allocated
    /// ids (the complement of the free set) and the free ids always partition
    /// `[0, size)`.
    pub proof fn lemma_free_in_bounds(self)
        requires
            self.wf(),
        ensures
            self.free_set().subset_of(range_set(0, self.spec_size())),
    {
        assert forall|x: int| self.free_set().contains(x) implies range_set(
            0,
            self.spec_size(),
        ).contains(x) by {
            let k = choose|k: int|
                0 <= k < self.free_ranges().len() && (#[trigger] self.free_ranges()[k]).0 <= x
                    < self.free_ranges()[k].1;
        }
    }

    /// Grow the managed range by `num` ids, all of them free.
    pub fn append(&mut self, num: EntityId)
        requires
            old(self).wf(),
            old(self).spec_size() + num as int <= u32::MAX as int,
        ensures
            final(self).wf(),
            final(self).spec_size() == old(self).spec_size() + num as int,
            final(self).free_set() == old(self).free_set().union(
                range_set(old(self).spec_size(), old(self).spec_size() + num as int),
            ),
    {
        let start = self.size;
        self.size = self.size + num;
        proof {
            old(self).lemma_free_in_bounds();
            assert forall|x: int|
                range_set(start as int, self.size as int).contains(x) implies !old(
                self,
            ).free_set().contains(x) by {
                if old(self).free_set().contains(x) {
                    assert(range_set(0, old(self).spec_size()).contains(x));
                }
            }
        }
        self.deallocate(Range { start, end: self.size });
        proof {
            if num == 0 {
                assert(self.free_set() =~= old(self).free_set().union(
                    range_set(old(self).spec_size(), old(self).spec_size() + num as int),
                ));
            }
        }
    }

    /// Return a range of ids to the free list, merging it with adjacent free
    /// ranges on either side. Empty or inverted ranges are ignored.
    #[verifier::rlimit(100)]
    #[verifier::spinoff_prover]
    pub fn deallocate(&mut self, range: Range<EntityId>)
        requires
            old(self).wf(),
            range.start < range.end ==> range.end as int <= old(self).spec_size() && range_set(
                range.start as int,
                range.end as int,
            ).disjoint(old(self).free_set()),
        ensures
            final(self).wf(),
            final(self).spec_size() == old(self).spec_size(),
            range.end <= range.start ==> final(self).free_ranges() == old(self).free_ranges(),
            range.start < range.end ==> final(self).free_set() == old(self).free_set().union(
                range_set(range.start as int, range.end as int),
            ),
    {
        if range.end <= range.start {
            return;
        }
        let ghost prev = *self;
        let ghost rs = range.start as int;
        let ghost re = range.end as int;

        // Find the first free range that starts past the returned range; the
        // new range is inserted just before it to keep the list sorted.
        let mut idx: usize = 0;
        while idx < self.free_list.len() && self.free_list[idx].start <= range.start
            invariant
                *self == prev,
                prev.wf(),
                rs == range.start as int,
                idx <= self.free_list@.len(),
                forall|k: int| 0 <= k < idx ==> (#[trigger] prev.free_ranges()[k]).0 <= rs,
            decreases self.free_list@.len() - idx,
        {
            proof {
                assert(prev.free_ranges()[idx as int] == (
                    self.free_list@[idx as int].start as int,
                    self.free_list@[idx as int].end as int,
                ));
            }
            idx += 1;
        }
        proof {
            if idx < self.free_list.len() {
                assert(prev.free_ranges()[idx as int] == (
                    self.free_list@[idx as int].start as int,
                    self.free_list@[idx as int].end as int,
                ));
            }
            if idx > 0 {
                assert(prev.free_ranges()[idx - 1] == (
                    self.free_list@[idx - 1].start as int,
                    self.free_list@[idx - 1].end as int,
                ));
                // The previous range cannot reach into the returned range.
                if prev.free_ranges()[idx - 1].1 > rs {
                    assert(prev.free_set().contains(rs));
                    assert(false);
                }
            }
            if idx < self.free_list.len() {
                // The next range cannot start inside the returned range.
                if prev.free_ranges()[idx as int].0 < re {
                    let w = prev.free_ranges()[idx as int].0;
                    assert(prev.free_set().contains(w));
                    assert(range_set(rs, re).contains(w));
                    assert(false);
                }
            }
            assert forall|k: int| 0 <= k < idx implies (#[trigger] prev.free_ranges()[k]).1
                <= rs by {
                if k < idx - 1 {
                    prev.lemma_sorted(k, idx - 1);
                }
            }
            assert forall|k: int|
                idx <= k < prev.free_ranges().len() implies re <= (
            #[trigger] prev.free_ranges()[k]).0 by {
                prev.lemma_le(idx as int, k);
            }
        }
        let n = self.free_list.len();
        let merge_prev = idx > 0 && self.free_list[idx - 1].end == range.start;
        let merge_next = idx < n && self.free_list[idx].start == range.end;
        if merge_prev && merge_next {
            let ps = self.free_list[idx - 1].start;
            let ne = self.free_list[idx].end;
            self.free_list.set(idx - 1, Range { start: ps, end: ne });
            self.free_list.remove(idx);
            proof {
                let lo = idx - 1;
                assert(self.free_ranges() =~= prev.free_ranges().subrange(0, lo) + seq![
                    (ps as int, ne as int),
                ] + prev.free_ranges().subrange(idx + 1, prev.free_ranges().len() as int));
                assert forall|x: int|
                    ps as int <= x < ne as int implies range_set(rs, re).contains(x)
                    || prev.free_set().contains(x) by {
                    if x < rs {
                        assert(prev.free_ranges()[lo].0 <= x < prev.free_ranges()[lo].1);
                    } else if x >= re {
                        assert(prev.free_ranges()[idx as int].0 <= x
                            < prev.free_ranges()[idx as int].1);
                    }
                }
                self.lemma_deallocate_window(prev, lo, idx + 1, ps as int, ne as int, rs, re);
            }
        } else if merge_prev {
            let ps = self.free_list[idx - 1].start;
            self.free_list.set(idx - 1, Range { start: ps, end: range.end });
            proof {
                let lo = idx - 1;
                assert(self.free_ranges() =~= prev.free_ranges().subrange(0, lo) + seq![
                    (ps as int, re),
                ] + prev.free_ranges().subrange(idx as int, prev.free_ranges().len() as int));
                assert forall|x: int|
                    ps as int <= x < re implies range_set(rs, re).contains(x)
                    || prev.free_set().contains(x) by {
                    if x < rs {
                        assert(prev.free_ranges()[lo].0 <= x < prev.free_ranges()[lo].1);
                    }
                }
                self.lemma_deallocate_window(prev, lo, idx as int, ps as int, re, rs, re);
            }
        } else if merge_next {
            let ne = self.free_list[idx].end;
            self.free_list.set(idx, Range { start: range.start, end: ne });
            proof {
                assert(self.free_ranges() =~= prev.free_ranges().subrange(0, idx as int) + seq![
                    (rs, ne as int),
                ] + prev.free_ranges().subrange(idx + 1, prev.free_ranges().len() as int));
                assert forall|x: int|
                    rs <= x < ne as int implies range_set(rs, re).contains(x)
                    || prev.free_set().contains(x) by {
                    if x >= re {
                        assert(prev.free_ranges()[idx as int].0 <= x
                            < prev.free_ranges()[idx as int].1);
                    }
                }
                self.lemma_deallocate_window(prev, idx as int, idx + 1, rs, ne as int, rs, re);
            }
        } else {
            self.free_list.insert(idx, Range { start: range.start, end: range.end });
            proof {
                assert(self.free_ranges() =~= prev.free_ranges().subrange(0, idx as int) + seq![
                    (rs, re),
                ] + prev.free_ranges().subrange(idx as int, prev.free_ranges().len() as int));
                self.lemma_deallocate_window(prev, idx as int, idx as int, rs, re, rs, re);
            }
        }
    }

    /// Replacing the free ranges in positions `[lo, hi)` together with the
    /// returned range `[rs, re)` by the single merged range `[ns, ne)` keeps
    /// the list well formed and adds exactly `[rs, re)` to the free set.
    #[verifier::rlimit(60)]
    #[verifier::spinoff_prover]
    proof fn lemma_deallocate_window(
        self,
        prev: Allocator,
        lo: int,
        hi: int,
        ns: int,
        ne: int,
        rs: int,
        re: int,
    )
        requires
            prev.wf(),
            0 <= lo <= hi <= prev.free_ranges().len(),
            0 <= ns <= rs < re <= ne <= prev.spec_size(),
            forall|x: int|
                ns <= x < ne ==> range_set(rs, re).contains(x) || prev.free_set().contains(x),
            forall|k: int| lo <= k < hi ==> ns <= (#[trigger] prev.free_ranges()[k]).0
                && prev.free_ranges()[k].1 <= ne,
            lo > 0 ==> prev.free_ranges()[lo - 1].1 < ns,
            hi < prev.free_ranges().len() ==> ne < prev.free_ranges()[hi].0,
            range_set(rs, re).disjoint(prev.free_set()),
            forall|k: int| 0 <= k < lo ==> (#[trigger] prev.free_ranges()[k]).1 <= rs,
            forall|k: int|
                hi <= k < prev.free_ranges().len() ==> re <= (#[trigger] prev.free_ranges()[k]).0,
            self.spec_size() == prev.spec_size(),
            self.free_ranges() == prev.free_ranges().subrange(0, lo) + seq![(ns, ne)]
                + prev.free_ranges().subrange(hi, prev.free_ranges().len() as int),
        ensures
            self.wf(),
            self.free_set() == prev.free_set().union(range_set(rs, re)),
    {
        let pr = prev.free_ranges();
        let sr = self.free_ranges();
        assert forall|m: int| 0 <= m < sr.len() implies 0 <= (#[trigger] sr[m]).0 < sr[m].1
            <= self.spec_size() by {
            if m < lo {
                assert(sr[m] == pr[m]);
                if lo > 0 && m < lo {
                    prev.lemma_le(m, lo - 1);
                }
            } else if m == lo {
            } else {
                assert(sr[m] == pr[m + hi - lo - 1]);
            }
        }
        assert forall|m: int| 0 <= m < sr.len() - 1 implies (#[trigger] sr[m]).1 < sr[m + 1].0 by {
            if m + 1 < lo {
                assert(sr[m] == pr[m]);
                assert(sr[m + 1] == pr[m + 1]);
            } else if m + 1 == lo {
                assert(sr[m] == pr[m]);
            } else if m == lo {
                assert(sr[m + 1] == pr[m + hi - lo]);
                if hi < pr.len() {
                    prev.lemma_le(hi, m + hi - lo);
                }
            } else {
                assert(sr[m] == pr[m + hi - lo - 1]);
                assert(sr[m + 1] == pr[m + hi - lo]);
            }
        }
        assert forall|x: int| self.free_set().contains(x) implies prev.free_set().contains(x)
            || range_set(rs, re).contains(x) by {
            let m = choose|m: int| 0 <= m < sr.len() && (#[trigger] sr[m]).0 <= x < sr[m].1;
            if m < lo {
                assert(sr[m] == pr[m]);
                assert(pr[m].0 <= x < pr[m].1);
            } else if m == lo {
            } else {
                assert(sr[m] == pr[m + hi - lo - 1]);
                assert(pr[m + hi - lo - 1].0 <= x < pr[m + hi - lo - 1].1);
            }
        }
        assert forall|x: int| prev.free_set().contains(x) implies self.free_set().contains(x) by {
            let k = choose|k: int| 0 <= k < pr.len() && (#[trigger] pr[k]).0 <= x < pr[k].1;
            if k < lo {
                assert(sr[k] == pr[k]);
                assert(sr[k].0 <= x < sr[k].1);
            } else if k < hi {
                assert(sr[lo].0 <= x < sr[lo].1);
            } else {
                assert(sr[k - hi + lo + 1] == pr[k]);
                assert(sr[k - hi + lo + 1].0 <= x < sr[k - hi + lo + 1].1);
            }
        }
        assert forall|x: int| range_set(rs, re).contains(x) implies self.free_set().contains(x) by {
            assert(sr[lo].0 <= x < sr[lo].1);
        }
        assert(self.free_set() =~= prev.free_set().union(range_set(rs, re)));
    }

    /// An earlier free range starts no later than a later one.
    proof fn lemma_le(self, i: int, j: int)
        requires
            self.wf(),
            0 <= i <= j < self.free_ranges().len(),
        ensures
            self.free_ranges()[i].0 <= self.free_ranges()[j].0,
            self.free_ranges()[i].1 <= self.free_ranges()[j].1,
    {
        if i < j {
            self.lemma_sorted(i, j);
        }
    }

    /// Removing the first `k` ids of the first free range takes exactly the
    /// set `[s, s + k)` out of the free set.
    proof fn lemma_allocate_first(self, prev: Allocator, s: int, e: int, k: int)
        requires
            prev.wf(),
            prev.free_ranges().len() > 0,
            prev.free_ranges()[0] == (s, e),
            0 < k <= e - s,
            k == e - s ==> self.free_ranges() == prev.free_ranges().remove(0),
            k < e - s ==> self.free_ranges() == prev.free_ranges().update(0, (s + k, e)),
        ensures
            range_set(s, s + k).subset_of(prev.free_set()),
            self.free_set() == prev.free_set().difference(range_set(s, s + k)),
    {
        assert forall|x: int| range_set(s, s + k).contains(x) implies prev.free_set().contains(
            x,
        ) by {
            assert(prev.free_ranges()[0].0 <= x < prev.free_ranges()[0].1);
        }
        assert forall|x: int| self.free_set().contains(x) implies prev.free_set().contains(x)
            && !range_set(s, s + k).contains(x) by {
            let j = choose|j: int|
                0 <= j < self.free_ranges().len() && (#[trigger] self.free_ranges()[j]).0 <= x
                    < self.free_ranges()[j].1;
            if k == e - s {
                assert(self.free_ranges()[j] == prev.free_ranges()[j + 1]);
                prev.lemma_sorted(0, j + 1);
            } else {
                if j == 0 {
                    assert(prev.free_ranges()[0].0 <= x < prev.free_ranges()[0].1);
                } else {
                    assert(self.free_ranges()[j] == prev.free_ranges()[j]);
                    assert(prev.free_ranges()[j].0 <= x < prev.free_ranges()[j].1);
                    prev.lemma_sorted(0, j);
                }
            }
        }
        assert forall|x: int|
            prev.free_set().contains(x) && !range_set(s, s + k).contains(
                x,
            ) implies self.free_set().contains(x) by {
            let j = choose|j: int|
                0 <= j < prev.free_ranges().len() && (#[trigger] prev.free_ranges()[j]).0 <= x
                    < prev.free_ranges()[j].1;
            if k == e - s {
                if j == 0 {
                    assert(false);
                } else {
                    assert(self.free_ranges()[j - 1] == prev.free_ranges()[j]);
                    assert(self.free_ranges()[j - 1].0 <= x < self.free_ranges()[j - 1].1);
                }
            } else {
                if j == 0 {
                    assert(self.free_ranges()[0].0 <= x < self.free_ranges()[0].1);
                } else {
                    assert(self.free_ranges()[j].0 <= x < self.free_ranges()[j].1);
                }
            }
        }
        assert(self.free_set() =~= prev.free_set().difference(range_set(s, s + k)));
    }
}

} // verus!
