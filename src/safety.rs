//! The safety search: passes over the unfinished tasks that finish every task
//! whose whole request fits the free units, until all are finished or a pass
//! makes no progress.

use vstd::prelude::*;

use crate::table::{cell, held_upto, row_at};

verus! {

/// A vector of free units read as mathematical integers.
pub open spec fn ints(v: Seq<i32>) -> Seq<int> {
    v.map_values(|x: i32| x as int)
}

/// Row `i` of a table; a row never materialized is empty.
pub open spec fn row_of(table: Seq<Seq<usize>>, i: int) -> Seq<usize> {
    if 0 <= i < table.len() {
        table[i]
    } else {
        Seq::empty()
    }
}

/// Entry `j` of a working vector of free units; 0 past its end.
pub open spec fn work_at(work: Seq<int>, j: int) -> int {
    if 0 <= j < work.len() {
        work[j]
    } else {
        0
    }
}

/// Every request in `row` can be met from `work`.
pub open spec fn row_fits(row: Seq<usize>, work: Seq<int>) -> bool {
    forall|j: int| 0 <= j < row.len() ==> row[j] <= #[trigger] work_at(work, j)
}

/// `work` after a finishing task gives back the units it holds, for the
/// resource ids that `work` covers.
pub open spec fn give_back(work: Seq<int>, row: Seq<usize>) -> Seq<int> {
    Seq::new(work.len(), |j: int| work[j] + row_at(row, j))
}

/// How many tasks are not finished.
pub open spec fn count_unfinished(finish: Seq<bool>) -> nat
    decreases finish.len(),
{
    if finish.len() == 0 {
        0
    } else {
        count_unfinished(finish.drop_last()) + if finish.last() {
            0nat
        } else {
            1nat
        }
    }
}

/// Tasks that the search is allowed to visit: those with a flag and a request row.
pub open spec fn visited(finish: Seq<bool>, need: Seq<Seq<usize>>) -> int {
    if finish.len() < need.len() {
        finish.len() as int
    } else {
        need.len() as int
    }
}

/// One pass of the search over tasks `0..k`: every unfinished task whose whole
/// request fits the working vector finishes and gives back what it holds.
/// Returns the working vector, the flags, and how many tasks finished.
pub open spec fn pass_upto(
    need: Seq<Seq<usize>>,
    alloc: Seq<Seq<usize>>,
    work: Seq<int>,
    finish: Seq<bool>,
    k: int,
) -> (Seq<int>, Seq<bool>, nat)
    decreases k,
{
    if k <= 0 {
        (work, finish, 0)
    } else {
        let p = pass_upto(need, alloc, work, finish, k - 1);
        let i = k - 1;
        if !p.1[i] && row_fits(row_of(need, i), p.0) {
            (give_back(p.0, row_of(alloc, i)), p.1.update(i, true), p.2 + 1)
        } else {
            p
        }
    }
}

/// Finishing one task lowers the count of unfinished tasks by one.
pub proof fn lemma_count_finish(finish: Seq<bool>, i: int)
    requires
        0 <= i < finish.len(),
        !finish[i],
    ensures
        count_unfinished(finish.update(i, true)) + 1 == count_unfinished(finish),
    decreases finish.len(),
{
    let f2 = finish.update(i, true);
    if i < finish.len() - 1 {
        assert(f2.drop_last() =~= finish.drop_last().update(i, true));
        lemma_count_finish(finish.drop_last(), i);
    } else {
        assert(f2.drop_last() =~= finish.drop_last());
    }
}

/// A pass keeps the flags' length and finishes exactly as many tasks as it counts.
pub proof fn lemma_pass_count(
    need: Seq<Seq<usize>>,
    alloc: Seq<Seq<usize>>,
    work: Seq<int>,
    finish: Seq<bool>,
    k: int,
)
    requires
        k <= finish.len(),
    ensures
        pass_upto(need, alloc, work, finish, k).1.len() == finish.len(),
        pass_upto(need, alloc, work, finish, k).0.len() == work.len(),
        count_unfinished(pass_upto(need, alloc, work, finish, k).1) + pass_upto(
            need,
            alloc,
            work,
            finish,
            k,
        ).2 == count_unfinished(finish),
    decreases k,
{
    if k > 0 {
        lemma_pass_count(need, alloc, work, finish, k - 1);
        let p = pass_upto(need, alloc, work, finish, k - 1);
        if !p.1[k - 1] && row_fits(row_of(need, k - 1), p.0) {
            lemma_count_finish(p.1, k - 1);
        }
    }
}

/// The safety search from working vector `work` and flags `finish`: true when
/// some pass finishes no task while tasks remain unfinished (unsafe), false
/// once every task is finished (safe).
pub open spec fn unsafe_from(
    need: Seq<Seq<usize>>,
    alloc: Seq<Seq<usize>>,
    work: Seq<int>,
    finish: Seq<bool>,
) -> bool
    decreases count_unfinished(finish),
{
    if forall|i: int| 0 <= i < finish.len() ==> finish[i] {
        false
    } else {
        let p = pass_upto(need, alloc, work, finish, visited(finish, need));
        if p.2 == 0 {
            true
        } else {
            proof {
                lemma_pass_count(need, alloc, work, finish, visited(finish, need));
            }
            unsafe_from(need, alloc, p.0, p.1)
        }
    }
}

/// Units of `r` held by the tasks among `0..n` that `sel` marks.
pub open spec fn held_by(table: Seq<Seq<usize>>, sel: Seq<bool>, n: int, r: int) -> int
    decreases n,
{
    if n <= 0 {
        0
    } else {
        held_by(table, sel, n - 1, r) + if 0 <= n - 1 < sel.len() && sel[n - 1] {
            cell(table, n - 1, r)
        } else {
            0
        }
    }
}

/// Marking one more task adds its holding.
pub proof fn lemma_held_by_mark(table: Seq<Seq<usize>>, sel: Seq<bool>, n: int, r: int, i: int)
    requires
        0 <= i < sel.len(),
        !sel[i],
    ensures
        held_by(table, sel.update(i, true), n, r) == held_by(table, sel, n, r) + if i < n {
            cell(table, i, r)
        } else {
            0
        },
    decreases n,
{
    if n > 0 {
        lemma_held_by_mark(table, sel, n - 1, r, i);
    }
}

/// What marked tasks hold lies between nothing and what all tasks hold.
pub proof fn lemma_held_by_bounds(table: Seq<Seq<usize>>, sel: Seq<bool>, n: int, r: int)
    ensures
        0 <= held_by(table, sel, n, r) <= held_upto(table, n, r),
    decreases n,
{
    if n > 0 {
        lemma_held_by_bounds(table, sel, n - 1, r);
    }
}

/// With no task marked, nothing is held.
pub proof fn lemma_held_by_none(table: Seq<Seq<usize>>, sel: Seq<bool>, n: int, r: int)
    requires
        forall|i: int| 0 <= i < sel.len() ==> !sel[i],
    ensures
        held_by(table, sel, n, r) == 0,
    decreases n,
{
    if n > 0 {
        lemma_held_by_none(table, sel, n - 1, r);
    }
}

/// Whether every flag is set.
pub(crate) fn all_finished(finish: &Vec<bool>) -> (res: bool)
    ensures
        res == forall|i: int| 0 <= i < finish@.len() ==> finish@[i],
{
    let mut i: usize = 0;
    while i < finish.len()
        invariant
            i <= finish@.len(),
            forall|k: int| 0 <= k < i ==> finish@[k],
        decreases finish@.len() - i,
    {
        if !finish[i] {
            return false;
        }
        i = i + 1;
    }
    true
}

/// Whether every request in `row` can be met from `work`.
pub(crate) fn fits(row: &Vec<usize>, work: &Vec<i32>) -> (res: bool)
    ensures
        res == row_fits(row@, ints(work@)),
{
    let mut j: usize = 0;
    while j < row.len()
        invariant
            j <= row@.len(),
            forall|k: int| 0 <= k < j ==> row@[k] <= #[trigger] work_at(ints(work@), k),
        decreases row@.len() - j,
    {
        let w: i32 = if j < work.len() {
            work[j]
        } else {
            0
        };
        if w < 0 || (w as usize) < row[j] {
            assert(!(row@[j as int] <= work_at(ints(work@), j as int)));
            return false;
        }
        j = j + 1;
    }
    true
}

/// Adds the units in `row` to `work`, for the resource ids that `work` covers.
pub(crate) fn add_row(work: &mut Vec<i32>, row: &Vec<usize>)
    requires
        forall|j: int|
            0 <= j < old(work)@.len() ==> i32::MIN <= old(work)@[j] + #[trigger] row_at(row@, j)
                <= i32::MAX,
    ensures
        final(work)@.len() == old(work)@.len(),
        ints(final(work)@) == give_back(ints(old(work)@), row@),
{
    let ghost w0 = work@;
    let mut j: usize = 0;
    while j < work.len()
        invariant
            work@.len() == w0.len(),
            j <= work@.len(),
            forall|k: int| 0 <= k < j ==> work@[k] == w0[k] + #[trigger] row_at(row@, k),
            forall|k: int| j <= k < work@.len() ==> work@[k] == w0[k],
            forall|k: int|
                0 <= k < w0.len() ==> i32::MIN <= w0[k] + #[trigger] row_at(row@, k) <= i32::MAX,
        decreases work@.len() - j,
    {
        if j < row.len() {
            assert(row_at(row@, j as int) == row@[j as int]);
            work[j] = (work[j] as i64 + row[j] as i64) as i32;
        }
        j = j + 1;
    }
    assert(ints(work@) =~= give_back(ints(w0), row@));
}

} // verus!
