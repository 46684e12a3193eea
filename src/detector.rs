use vstd::prelude::*;

use crate::resource_list::ResourceList;

verus! {

/// Deadlock avoidance for the kernel's two kinds of blocking primitives: locks,
/// each with one unit, and counting semaphores, with a capacity set at
/// creation. Lock ids and semaphore ids are separate id spaces.
pub struct Detector {
    /// The domain of locks.
    pub mutexes: ResourceList,
    /// The domain of counting semaphores.
    pub semes: ResourceList,
}

impl Detector {
    /// A detector with no locks, no semaphores and no tasks.
    pub fn new() -> (res: Self)
        ensures
            res.mutexes.available@.len() == 0,
            res.mutexes.allocation@.len() == 0,
            res.mutexes.need@.len() == 0,
            res.semes.available@.len() == 0,
            res.semes.allocation@.len() == 0,
            res.semes.need@.len() == 0,
    {
        Detector { mutexes: ResourceList::new(), semes: ResourceList::new() }
    }

    /// Registers lock `mid`, with one unit.
    pub fn create_mutex(&mut self, mid: usize)
        ensures
            old(self).mutexes.capacity_set(final(self).mutexes, 1, mid as int),
            final(self).semes == old(self).semes,
    {
        self.mutexes.init_size(1, mid);
    }

    /// Task `tid` has acquired lock `mid`, after a check that allowed it.
    pub fn alloc_mutex(&mut self, tid: usize, mid: usize)
        requires
            mid < old(self).mutexes.available@.len(),
            1 <= old(self).mutexes.available@[mid as int],
            tid < old(self).mutexes.need@.len(),
            mid < old(self).mutexes.need@[tid as int]@.len(),
            1 <= old(self).mutexes.need@[tid as int]@[mid as int],
            old(self).mutexes.alloc_at(tid as int, mid as int) < usize::MAX,
        ensures
            old(self).mutexes.granted(final(self).mutexes, 1, mid as int, tid as int),
            forall|r: int| #[trigger] final(self).mutexes.units(r) == old(self).mutexes.units(r),
            final(self).semes == old(self).semes,
    {
        self.mutexes.grant(1, mid, tid);
    }

    /// Task `tid` has unlocked lock `mid`.
    pub fn release_mutex(&mut self, tid: usize, mid: usize)
        requires
            mid < old(self).mutexes.available@.len(),
            tid < old(self).mutexes.allocation@.len(),
            mid < old(self).mutexes.allocation@[tid as int]@.len(),
            1 <= old(self).mutexes.allocation@[tid as int]@[mid as int],
            old(self).mutexes.available@[mid as int] < i32::MAX,
        ensures
            old(self).mutexes.released(final(self).mutexes, mid as int, 1, tid as int),
            forall|r: int| #[trigger] final(self).mutexes.units(r) == old(self).mutexes.units(r),
            final(self).semes == old(self).semes,
    {
        self.mutexes.release(mid, 1, tid);
    }

    /// Records that task `tid` asks for lock `mid`, and tells whether granting
    /// it must be refused (`true`) given the finished tasks in `task_set`.
    pub fn check_mutex(&mut self, tid: usize, mid: usize, task_set: Vec<bool>) -> (res: bool)
        requires
            (tid != 0 && mid == 0) || mid < old(self).mutexes.available@.len(),
            old(self).mutexes.within_i32(),
        ensures
            old(self).mutexes.request_recorded(final(self).mutexes, tid as int, mid as int, 1),
            res == final(self).mutexes.request_unsafe(tid as int, mid as int, 1, task_set@),
            final(self).semes == old(self).semes,
    {
        self.mutexes.is_dead_lock(tid, mid, 1, task_set)
    }

    /// Registers semaphore `sid` with `size` units.
    pub fn create_semaphore(&mut self, sid: usize, size: usize)
        requires
            size <= i32::MAX,
        ensures
            old(self).semes.capacity_set(final(self).semes, size as int, sid as int),
            final(self).mutexes == old(self).mutexes,
    {
        self.semes.init_size(size, sid);
    }

    /// Task `tid` has taken one unit of semaphore `sid`, after a check that
    /// allowed it.
    pub fn alloc_semaphore(&mut self, tid: usize, sid: usize)
        requires
            sid < old(self).semes.available@.len(),
            1 <= old(self).semes.available@[sid as int],
            tid < old(self).semes.need@.len(),
            sid < old(self).semes.need@[tid as int]@.len(),
            1 <= old(self).semes.need@[tid as int]@[sid as int],
            old(self).semes.alloc_at(tid as int, sid as int) < usize::MAX,
        ensures
            old(self).semes.granted(final(self).semes, 1, sid as int, tid as int),
            forall|r: int| #[trigger] final(self).semes.units(r) == old(self).semes.units(r),
            final(self).mutexes == old(self).mutexes,
    {
        self.semes.grant(1, sid, tid);
    }

    /// Task `tid` has given back one unit of semaphore `sid`.
    pub fn release_semaphore(&mut self, tid: usize, sid: usize)
        requires
            sid < old(self).semes.available@.len(),
            tid < old(self).semes.allocation@.len(),
            sid < old(self).semes.allocation@[tid as int]@.len(),
            1 <= old(self).semes.allocation@[tid as int]@[sid as int],
            old(self).semes.available@[sid as int] < i32::MAX,
        ensures
            old(self).semes.released(final(self).semes, sid as int, 1, tid as int),
            forall|r: int| #[trigger] final(self).semes.units(r) == old(self).semes.units(r),
            final(self).mutexes == old(self).mutexes,
    {
        self.semes.release(sid, 1, tid)
    }

    /// Records that task `tid` asks for one unit of semaphore `sid`, and tells
    /// whether granting it must be refused (`true`) given the finished tasks in
    /// `task_set`.
    pub fn check_semaphore(&mut self, tid: usize, sid: usize, task_set: Vec<bool>) -> (res: bool)
        requires
            (tid != 0 && sid == 0) || sid < old(self).semes.available@.len(),
            old(self).semes.within_i32(),
        ensures
            old(self).semes.request_recorded(final(self).semes, tid as int, sid as int, 1),
            res == final(self).semes.request_unsafe(tid as int, sid as int, 1, task_set@),
            final(self).mutexes == old(self).mutexes,
    {
        self.semes.is_dead_lock(tid, sid, 1, task_set)
    }
}

} // verus!
