use vstd::prelude::*;

use crate::safety::{
    add_row, all_finished, count_unfinished, fits, give_back, held_by, ints, lemma_held_by_bounds,
    lemma_held_by_mark, lemma_held_by_none, lemma_pass_count, pass_upto, row_of, unsafe_from,
    visited,
};
use crate::table::{cell, grow, held, lemma_grow, lemma_held_change, materialize, row_at, table_view};

verus! {

/// The state of one class of countable resources: free units per resource,
/// units held per task, and the pending request per task.
pub struct ResourceList {
    /// Free units of each resource, indexed by resource id.
    pub available: Vec<i32>,
    /// Units held, indexed by task id, then by resource id.
    pub allocation: Vec<Vec<usize>>,
    /// Pending request sizes, indexed by task id, then by resource id.
    pub need: Vec<Vec<usize>>,
}

impl ResourceList {
    /// Free units of resource `r`; 0 for a resource never given a capacity.
    pub open spec fn avail_at(&self, r: int) -> int {
        if 0 <= r < self.available@.len() {
            self.available@[r] as int
        } else {
            0
        }
    }

    /// Units held, as a table of sequences.
    pub open spec fn alloc_view(&self) -> Seq<Seq<usize>> {
        table_view(self.allocation@)
    }

    /// Pending requests, as a table of sequences.
    pub open spec fn need_view(&self) -> Seq<Seq<usize>> {
        table_view(self.need@)
    }

    /// Units of `r` held by task `t`.
    pub open spec fn alloc_at(&self, t: int, r: int) -> int {
        cell(self.alloc_view(), t, r)
    }

    /// Pending request of task `t` on `r`.
    pub open spec fn need_at(&self, t: int, r: int) -> int {
        cell(self.need_view(), t, r)
    }

    /// Free units plus units held by tasks, for resource `r`.
    pub open spec fn units(&self, r: int) -> int {
        self.avail_at(r) + held(self.alloc_view(), r)
    }

    /// `next` is this domain with the capacity of `rid` set to `size`.
    pub open spec fn capacity_set(&self, next: Self, size: int, rid: int) -> bool {
        &&& next.available@.len() == if rid < self.available@.len() {
            self.available@.len() as int
        } else {
            rid + 1
        }
        &&& next.available@[rid] == size
        &&& forall|j: int|
            0 <= j < next.available@.len() && j != rid ==> next.available@[j]
                == self.avail_at(j)
        &&& next.allocation@ == self.allocation@
        &&& next.need@ == self.need@
    }

    /// `next` is this domain after task `tid` is granted `size` units of `rid`:
    /// they move from the free units to the task's holding, and its recorded
    /// request shrinks by as much.
    pub open spec fn granted(&self, next: Self, size: int, rid: int, tid: int) -> bool {
        let g = grow(self.alloc_view(), tid, rid);
        &&& next.available@ == self.available@.update(rid, (self.available@[rid] - size) as i32)
        &&& next.alloc_view() == g.update(tid, g[tid].update(rid, (g[tid][rid] + size) as usize))
        &&& next.need_view() == self.need_view().update(
            tid,
            self.need_view()[tid].update(rid, (self.need_view()[tid][rid] - size) as usize),
        )
    }

    /// `next` is this domain after task `tid` gives back `size` units of `rid`.
    pub open spec fn released(&self, next: Self, rid: int, size: int, tid: int) -> bool {
        &&& next.available@ == self.available@.update(rid, (self.available@[rid] + size) as i32)
        &&& next.alloc_view() == self.alloc_view().update(
            tid,
            self.alloc_view()[tid].update(rid, (self.alloc_view()[tid][rid] - size) as usize),
        )
        &&& next.need@ == self.need@
    }

    /// `next` is this domain with `size` recorded as the request of task `tid`
    /// on `rid`, rows materialized as needed.
    pub open spec fn request_recorded(&self, next: Self, tid: int, rid: int, size: int) -> bool {
        let g = grow(self.need_view(), tid, rid);
        &&& next.available@ == self.available@
        &&& next.allocation@ == self.allocation@
        &&& next.need_view() == g.update(tid, g[tid].update(rid, size as usize))
    }

    /// An empty domain: no resources, no tasks.
    pub fn new() -> (res: Self)
        ensures
            res.available@.len() == 0,
            res.allocation@.len() == 0,
            res.need@.len() == 0,
            forall|r: int| #[trigger] res.units(r) == 0,
    {
        ResourceList { available: Vec::new(), allocation: Vec::new(), need: Vec::new() }
    }

    /// Sets the capacity of resource `rid` to `size`, materializing every
    /// resource id up to `rid` with 0 free units.
    pub fn init_size(&mut self, size: usize, rid: usize)
        requires
            size <= i32::MAX,
        ensures
            old(self).capacity_set(*final(self), size as int, rid as int),
            final(self).units(rid as int) == size + held(old(self).alloc_view(), rid as int),
            held(old(self).alloc_view(), rid as int) == 0 ==> final(self).units(rid as int) == size,
            forall|r: int| r != rid ==> final(self).units(r) == old(self).units(r),
    {
        if rid < self.available.len() {
            self.available.set(rid, size as i32);
        } else {
            while self.available.len() < rid
                invariant
                    old(self).available@.len() <= self.available@.len() <= rid,
                    forall|j: int|
                        0 <= j < self.available@.len() ==> self.available@[j] == old(self).avail_at(j),
                    self.allocation@ == old(self).allocation@,
                    self.need@ == old(self).need@,
                decreases rid - self.available@.len(),
            {
                self.available.push(0);
            }
            self.available.push(size as i32);
        }
    }

    /// Grants task `tid` its pending request of `size` units of resource `rid`,
    /// materializing its holding row up to `rid` (and task rows up to `tid`).
    pub fn grant(&mut self, size: usize, rid: usize, tid: usize)
        requires
            rid < old(self).available@.len(),
            size <= old(self).available@[rid as int],
            tid < old(self).need@.len(),
            rid < old(self).need@[tid as int]@.len(),
            size <= old(self).need@[tid as int]@[rid as int],
            old(self).alloc_at(tid as int, rid as int) + size <= usize::MAX,
        ensures
            old(self).granted(*final(self), size as int, rid as int, tid as int),
            forall|t: int, r: int|
                #[trigger] final(self).alloc_at(t, r) == old(self).alloc_at(t, r) + (if t == tid
                    && r == rid {
                    size as int
                } else {
                    0
                }),
            forall|r: int| #[trigger] final(self).units(r) == old(self).units(r),
    {
        let ghost a0 = old(self).alloc_view();
        materialize(&mut self.allocation, tid, rid);
        proof {
            lemma_grow(a0, tid as int, rid as int);
        }
        self.allocation[tid][rid] = self.allocation[tid][rid] + size;
        self.available[rid] = self.available[rid] - size as i32;
        self.need[tid][rid] = self.need[tid][rid] - size;
        proof {
            let g = grow(a0, tid as int, rid as int);
            assert(self.alloc_view() =~= g.update(tid as int, g[tid as int].update(rid as int, (g[tid as int][rid as int] + size) as usize)));
            assert(self.need_view() =~= old(self).need_view().update(
                tid as int,
                old(self).need_view()[tid as int].update(
                    rid as int,
                    (old(self).need_view()[tid as int][rid as int] - size) as usize,
                ),
            ));
            assert forall|t: int, r: int|
                #[trigger] self.alloc_at(t, r) == old(self).alloc_at(t, r) + (if t == tid
                    && r == rid {
                    size as int
                } else {
                    0
                }) by {}
            assert forall|r: int| #[trigger] self.units(r) == old(self).units(r) by {
                let d = if r == rid { size as int } else { 0 };
                assert forall|t: int|
                    cell(self.alloc_view(), t, r) == cell(a0, t, r) + (if t
                        == tid { d } else { 0 }) by {}
                lemma_held_change(a0, self.alloc_view(), r, tid as int, d);
            }
        }
    }

    /// Task `tid` gives back `size` units of resource `rid`.
    pub fn release(&mut self, rid: usize, size: usize, tid: usize)
        requires
            rid < old(self).available@.len(),
            tid < old(self).allocation@.len(),
            rid < old(self).allocation@[tid as int]@.len(),
            size <= old(self).allocation@[tid as int]@[rid as int],
            old(self).available@[rid as int] + size <= i32::MAX,
            size <= i32::MAX,
        ensures
            old(self).released(*final(self), rid as int, size as int, tid as int),
            forall|t: int, r: int|
                #[trigger] final(self).alloc_at(t, r) == old(self).alloc_at(t, r) - (if t == tid
                    && r == rid {
                    size as int
                } else {
                    0
                }),
            forall|r: int| #[trigger] final(self).units(r) == old(self).units(r),
    {
        self.available[rid] = self.available[rid] + size as i32;
        self.allocation[tid][rid] = self.allocation[tid][rid] - size;
        proof {
            assert(self.alloc_view() =~= old(self).alloc_view().update(
                tid as int,
                old(self).alloc_view()[tid as int].update(
                    rid as int,
                    (old(self).alloc_view()[tid as int][rid as int] - size) as usize,
                ),
            ));
            assert forall|r: int| #[trigger] self.units(r) == old(self).units(r) by {
                let d = if r == rid { -size } else { 0 };
                assert forall|t: int|
                    cell(self.alloc_view(), t, r) == cell(old(self).alloc_view(), t, r) + (if t
                        == tid { d } else { 0 }) by {}
                lemma_held_change(old(self).alloc_view(), self.alloc_view(), r, tid as int, d);
            }
        }
    }

    /// Free units and held units of each given resource fit together in an `i32`.
    pub open spec fn within_i32(&self) -> bool {
        forall|r: int|
            0 <= r < self.available@.len() ==> #[trigger] self.available@[r] + held(
                self.alloc_view(),
                r,
            ) <= i32::MAX
    }

    /// Runs the safety search on the current tables, starting from `finish`.
    fn search(&self, finish: &Vec<bool>) -> (res: bool)
        requires
            self.within_i32(),
        ensures
            res == unsafe_from(self.need_view(), self.alloc_view(), ints(self.available@), finish@),
    {
        let need = Ghost(self.need_view());
        let alloc = Ghost(self.alloc_view());
        let goal = Ghost(unsafe_from(need@, alloc@, ints(self.available@), finish@));
        let n: usize = if finish.len() < self.need.len() {
            finish.len()
        } else {
            self.need.len()
        };
        let mut flags = finish.clone();
        assert(flags@ =~= finish@);
        let mut work: Vec<i32> = Vec::new();
        let mut j: usize = 0;
        while j < self.available.len()
            invariant
                j <= self.available@.len(),
                work@ == self.available@.subrange(0, j as int),
            decreases self.available@.len() - j,
        {
            work.push(self.available[j]);
            j = j + 1;
        }
        assert(work@ =~= self.available@);
        let ghost mut taken: Seq<bool> = Seq::new(flags@.len(), |i: int| false);
        proof {
            assert forall|r: int| held_by(alloc@, taken, alloc@.len() as int, r) == 0 by {
                lemma_held_by_none(alloc@, taken, alloc@.len() as int, r);
            }
        }
        loop
            invariant
                need@ == self.need_view(),
                alloc@ == self.alloc_view(),
                self.within_i32(),
                n == visited(flags@, need@),
                work@.len() == self.available@.len(),
                taken.len() == flags@.len(),
                forall|i: int| 0 <= i < taken.len() && taken[i] ==> flags@[i],
                forall|r: int|
                    0 <= r < work@.len() ==> work@[r] == self.available@[r] + #[trigger] held_by(
                        alloc@,
                        taken,
                        alloc@.len() as int,
                        r,
                    ),
                goal@ == unsafe_from(need@, alloc@, ints(work@), flags@),
                goal@ == unsafe_from(need@, alloc@, ints(self.available@), finish@),
            decreases count_unfinished(flags@),
        {
            if all_finished(&flags) {
                return false;
            }
            let ghost w0 = ints(work@);
            let ghost f0 = flags@;
            let mut cnt: usize = 0;
            let mut i: usize = 0;
            while i < n
                invariant
                    need@ == self.need_view(),
                    alloc@ == self.alloc_view(),
                    self.within_i32(),
                    n == visited(f0, need@),
                    i <= n,
                    cnt <= i,
                    flags@.len() == f0.len(),
                    pass_upto(need@, alloc@, w0, f0, i as int) == (ints(work@), flags@, cnt as nat),
                    work@.len() == self.available@.len(),
                    taken.len() == flags@.len(),
                    forall|k: int| 0 <= k < taken.len() && taken[k] ==> flags@[k],
                    forall|r: int|
                        0 <= r < work@.len() ==> work@[r] == self.available@[r] + #[trigger] held_by(
                            alloc@,
                            taken,
                            alloc@.len() as int,
                            r,
                        ),
                decreases n - i,
            {
                proof {
                    lemma_pass_count(need@, alloc@, w0, f0, i as int);
                }
                if !flags[i] && fits(&self.need[i], &work) {
                    let ghost t2 = taken.update(i as int, true);
                    proof {
                        assert forall|r: int|
                            0 <= r < work@.len() implies i32::MIN <= work@[r] + #[trigger] row_at(
                                row_of(alloc@, i as int),
                                r,
                            ) <= i32::MAX && work@[r] + row_at(row_of(alloc@, i as int), r)
                                == self.available@[r] + held_by(alloc@, t2, alloc@.len() as int, r) by {
                            lemma_held_by_mark(alloc@, taken, alloc@.len() as int, r, i as int);
                            lemma_held_by_bounds(alloc@, t2, alloc@.len() as int, r);
                            lemma_held_by_bounds(alloc@, taken, alloc@.len() as int, r);
                        }
                    }
                    let ghost before = work@;
                    if i < self.allocation.len() {
                        assert(row_of(alloc@, i as int) == self.allocation@[i as int]@);
                        add_row(&mut work, &self.allocation[i]);
                    } else {
                        proof {
                            assert(ints(work@) =~= give_back(ints(work@), row_of(alloc@, i as int)));
                        }
                    }
                    assert forall|r: int| 0 <= r < work@.len() implies work@[r] == before[r] + row_at(row_of(alloc@, i as int), r) by {
                        assert(ints(work@)[r] == work@[r]);
                        assert(ints(before)[r] == before[r]);
                    }
                    flags.set(i, true);
                    cnt = cnt + 1;
                    proof {
                        taken = t2;
                    }
                }
                i = i + 1;
            }
            proof {
                lemma_pass_count(need@, alloc@, w0, f0, n as int);
            }
            if cnt == 0 {
                return true;
            }
        }
    }

    /// Whether granting task `tid` its recorded request for `size` units of
    /// `rid` must be refused: resource 0 is exempt for every task but task 0,
    /// a request that the free units cover is safe, as is any request once all
    /// tasks are finished; otherwise the safety search decides.
    pub open spec fn request_unsafe(&self, tid: int, rid: int, size: int, finish: Seq<bool>) -> bool {
        if tid != 0 && rid == 0 {
            false
        } else if self.available@[rid] >= size {
            false
        } else if forall|i: int| 0 <= i < finish.len() ==> finish[i] {
            false
        } else {
            unsafe_from(self.need_view(), self.alloc_view(), ints(self.available@), finish)
        }
    }

    /// Records the request of task `tid` for `size` units of `rid`, then tells
    /// whether granting it could leave the unfinished tasks in a circular wait
    /// (`true`: refuse) or whether some order lets every task finish (`false`).
    pub fn is_dead_lock(&mut self, tid: usize, rid: usize, size: usize, finish: Vec<bool>) -> (res: bool)
        requires
            (tid != 0 && rid == 0) || rid < old(self).available@.len(),
            old(self).within_i32(),
        ensures
            old(self).request_recorded(*final(self), tid as int, rid as int, size as int),
            forall|t: int, r: int|
                #[trigger] final(self).need_at(t, r) == if t == tid && r == rid {
                    size as int
                } else {
                    old(self).need_at(t, r)
                },
            res == final(self).request_unsafe(tid as int, rid as int, size as int, finish@),
            rid < old(self).available@.len() && old(self).available@[rid as int] >= size ==> !res,
            (forall|i: int| 0 <= i < finish@.len() ==> finish@[i]) ==> !res,
    {
        let ghost n0 = old(self).need_view();
        materialize(&mut self.need, tid, rid);
        proof {
            lemma_grow(n0, tid as int, rid as int);
            assert(self.need_view()[tid as int] == self.need@[tid as int]@);
        }
        self.need[tid][rid] = size;
        proof {
            let g = grow(n0, tid as int, rid as int);
            assert(self.need_view() =~= g.update(tid as int, g[tid as int].update(rid as int, size)));
            assert forall|t: int, r: int|
                #[trigger] self.need_at(t, r) == if t == tid && r == rid {
                    size as int
                } else {
                    old(self).need_at(t, r)
                } by {
                assert(cell(g, t, r) == cell(n0, t, r));
            }
        }
        if tid != 0 && rid == 0 {
            return false;
        }
        if self.is_enough(rid, size) {
            return false;
        }
        if all_finished(&finish) {
            return false;
        }
        self.search(&finish)
    }

    /// Whether resource `rid` has at least `size` free units.
    pub fn is_enough(&self, rid: usize, size: usize) -> (res: bool)
        requires
            rid < self.available@.len(),
        ensures
            res == (self.available@[rid as int] >= size),
    {
        let a = self.available[rid];
        a >= 0 && a as usize >= size
    }
}

} // verus!
