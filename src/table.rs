//! Task-by-resource tables that grow on first reference: their model, where
//! an entry never materialized reads as 0, and what tasks hold in sum.

use vstd::prelude::*;

verus! {

/// Reads entry `j` of a row, where an entry that was never materialized reads as 0.
pub open spec fn row_at(row: Seq<usize>, j: int) -> int {
    if 0 <= j < row.len() {
        row[j] as int
    } else {
        0
    }
}

/// Reads entry `(t, r)` of a task-by-resource table; unseen entries read as 0.
pub open spec fn cell(table: Seq<Seq<usize>>, t: int, r: int) -> int {
    if 0 <= t < table.len() {
        row_at(table[t], r)
    } else {
        0
    }
}

/// The rows of a table of vectors, as sequences.
pub open spec fn table_view(table: Seq<Vec<usize>>) -> Seq<Seq<usize>> {
    table.map_values(|row: Vec<usize>| row@)
}

/// The row padded with zeros so that index `r` exists.
pub open spec fn pad_row(row: Seq<usize>, r: int) -> Seq<usize> {
    if r < row.len() {
        row
    } else {
        row + Seq::new((r + 1 - row.len()) as nat, |j: int| 0usize)
    }
}

/// The table with rows materialized (empty) up to `t`, and row `t` padded up to `r`.
pub open spec fn grow(table: Seq<Seq<usize>>, t: int, r: int) -> Seq<Seq<usize>> {
    let rows = if t < table.len() {
        table
    } else {
        table + Seq::new((t + 1 - table.len()) as nat, |i: int| Seq::<usize>::empty())
    };
    rows.update(t, pad_row(rows[t], r))
}

/// Units of resource `r` held by tasks `0..n`.
pub open spec fn held_upto(table: Seq<Seq<usize>>, n: int, r: int) -> int
    decreases n,
{
    if n <= 0 {
        0
    } else {
        held_upto(table, n - 1, r) + cell(table, n - 1, r)
    }
}

/// Units of resource `r` held by all tasks of the table.
pub open spec fn held(table: Seq<Seq<usize>>, r: int) -> int {
    held_upto(table, table.len() as int, r)
}

/// Changing one task's holding of `r` by `d` changes the sum by `d`.
pub proof fn lemma_held_delta(a: Seq<Seq<usize>>, b: Seq<Seq<usize>>, n: int, r: int, tid: int, d: int)
    requires
        forall|t: int| 0 <= t < n ==> cell(b, t, r) == cell(a, t, r) + (if t == tid { d } else { 0 }),
    ensures
        held_upto(b, n, r) == held_upto(a, n, r) + (if 0 <= tid < n { d } else { 0 }),
    decreases n,
{
    if n > 0 {
        lemma_held_delta(a, b, n - 1, r, tid, d);
    }
}

/// Rows past the end of the table hold nothing.
pub proof fn lemma_held_beyond(table: Seq<Seq<usize>>, n: int, r: int)
    requires
        n >= table.len(),
    ensures
        held_upto(table, n, r) == held(table, r),
    decreases n,
{
    if n > table.len() {
        lemma_held_beyond(table, n - 1, r);
    }
}

/// Tables that agree on every cell, up to one task's holding of `r` changed by
/// `d`, differ in what is held of `r` by exactly `d`.
pub proof fn lemma_held_change(a: Seq<Seq<usize>>, b: Seq<Seq<usize>>, r: int, tid: int, d: int)
    requires
        a.len() <= b.len(),
        0 <= tid < b.len(),
        forall|t: int| cell(b, t, r) == cell(a, t, r) + (if t == tid { d } else { 0 }),
    ensures
        held(b, r) == held(a, r) + d,
{
    lemma_held_delta(a, b, b.len() as int, r, tid, d);
    lemma_held_beyond(a, b.len() as int, r);
}

/// Growing a table adds the cell `(t, r)` and changes no cell's value.
pub proof fn lemma_grow(table: Seq<Seq<usize>>, t: int, r: int)
    requires
        0 <= t,
        0 <= r,
    ensures
        grow(table, t, r).len() == if t < table.len() { table.len() as int } else { t + 1 },
        r < grow(table, t, r)[t].len(),
        forall|i: int, j: int| #[trigger] cell(grow(table, t, r), i, j) == cell(table, i, j),
{
    let g = grow(table, t, r);
    assert forall|i: int, j: int| #[trigger] cell(g, i, j) == cell(table, i, j) by {
        if 0 <= i < g.len() && i != t && i >= table.len() {
            assert(g[i] == Seq::<usize>::empty());
        }
    }
}

/// Materializes rows up to `t` (empty) and row `t` up to index `r` (zeros).
pub(crate) fn materialize(table: &mut Vec<Vec<usize>>, t: usize, r: usize)
    ensures
        table_view(final(table)@) == grow(table_view(old(table)@), t as int, r as int),
{
    let ghost a0 = table_view(old(table)@);
    while table.len() <= t
        invariant
            a0.len() <= table@.len(),
            table@.len() == a0.len() || table@.len() <= t + 1,
            forall|i: int| 0 <= i < a0.len() ==> #[trigger] table@[i]@ == a0[i],
            forall|i: int| a0.len() <= i < table@.len() ==> #[trigger] table@[i]@ == Seq::<usize>::empty(),
        decreases t + 1 - table@.len(),
    {
        table.push(Vec::new());
    }
    let ghost a1 = table_view(table@);
    assert(a1 =~= grow(a0, t as int, r as int).update(t as int, a1[t as int]));
    while table[t].len() <= r
        invariant
            t < table@.len(),
            table@.len() == a1.len(),
            forall|i: int| 0 <= i < a1.len() && i != t ==> #[trigger] table@[i]@ == a1[i],
            a1[t as int].len() <= table@[t as int]@.len(),
            table@[t as int]@.len() == a1[t as int].len() || table@[t as int]@.len() <= r + 1,
            forall|j: int| 0 <= j < a1[t as int].len() ==> #[trigger] table@[t as int]@[j] == a1[t as int][j],
            forall|j: int|
                a1[t as int].len() <= j < table@[t as int]@.len() ==> #[trigger] table@[t as int]@[j] == 0,
        decreases r + 1 - table@[t as int]@.len(),
    {
        table[t].push(0);
    }
    let ghost a2 = table_view(table@);
    assert(a2[t as int] =~= pad_row(a1[t as int], r as int));
    assert(a2 =~= grow(a0, t as int, r as int));
}

} // verus!
