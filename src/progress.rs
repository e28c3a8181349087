//! Boarding always moves on: a measure of the work left in the aisles that
//! every tick lowers while anyone stands in an aisle.
use vstd::prelude::*;

use crate::airplane::{step_aisle, step_aisles, step_cell, tick_result, Cabin, Grid};
use crate::person::Person;

verus! {

/// Ticks that the passenger in cell `r` still needs at the least: the rows
/// to walk, the delay, and the tick in which they sit down.
pub open spec fn cell_cost(x: Option<Person>, r: int) -> int {
    match x {
        None => 0,
        Some(p) => p.seat.row - r + p.time_left_to_sit + 1,
    }
}

/// The cost of all cells of one aisle.
pub open spec fn lane_cost(l: Seq<Option<Person>>) -> int
    decreases l.len(),
{
    if l.len() == 0 {
        0
    } else {
        lane_cost(l.drop_last()) + cell_cost(l.last(), l.len() - 1)
    }
}

/// The cost of all aisles: the work left in the cabin.
pub open spec fn grid_cost(g: Grid) -> int
    decreases g.len(),
{
    if g.len() == 0 {
        0
    } else {
        grid_cost(g.drop_last()) + lane_cost(g.last())
    }
}

/// Whether no passenger stands in any aisle.
pub open spec fn aisles_empty(g: Grid) -> bool {
    forall|a: int, r: int| 0 <= a < g.len() && 0 <= r < g[a].len() ==> (#[trigger] g[a][r]) is None
}

/// Whether every passenger stands at or before their own row.
pub open spec fn before_own_row(g: Grid) -> bool {
    forall|a: int, r: int|
        0 <= a < g.len() && 0 <= r < g[a].len() && (#[trigger] g[a][r]) is Some ==> g[a][r]->Some_0.seat.row
            >= r
}

/// Whether every aisle has `rows` cells.
pub open spec fn lanes_of(g: Grid, rows: int) -> bool {
    forall|a: int| 0 <= a < g.len() ==> (#[trigger] g[a]).len() == rows
}

proof fn lemma_lane_update(l: Seq<Option<Person>>, i: int, x: Option<Person>)
    requires
        0 <= i < l.len(),
    ensures
        lane_cost(l.update(i, x)) == lane_cost(l) - cell_cost(l[i], i) + cell_cost(x, i),
    decreases l.len(),
{
    let u = l.update(i, x);
    if i == l.len() - 1 {
        assert(u.drop_last() =~= l.drop_last());
    } else {
        assert(u.drop_last() =~= l.drop_last().update(i, x));
        lemma_lane_update(l.drop_last(), i, x);
    }
}

proof fn lemma_grid_update(g: Grid, a: int, l: Seq<Option<Person>>)
    requires
        0 <= a < g.len(),
    ensures
        grid_cost(g.update(a, l)) == grid_cost(g) - lane_cost(g[a]) + lane_cost(l),
    decreases g.len(),
{
    let u = g.update(a, l);
    if a == g.len() - 1 {
        assert(u.drop_last() =~= g.drop_last());
    } else {
        assert(u.drop_last() =~= g.drop_last().update(a, l));
        lemma_grid_update(g.drop_last(), a, l);
    }
}

proof fn lemma_lane_nonneg(l: Seq<Option<Person>>)
    requires
        forall|r: int| 0 <= r < l.len() && (#[trigger] l[r]) is Some ==> l[r]->Some_0.seat.row >= r,
    ensures
        lane_cost(l) >= 0,
        (exists|r: int| 0 <= r < l.len() && (#[trigger] l[r]) is Some) ==> lane_cost(l) >= 1,
    decreases l.len(),
{
    if l.len() > 0 {
        let d = l.drop_last();
        assert forall|r: int| 0 <= r < d.len() && (#[trigger] d[r]) is Some implies d[r]->Some_0.seat.row
            >= r by {
            assert(d[r] == l[r]);
        }
        lemma_lane_nonneg(d);
        if exists|r: int| 0 <= r < l.len() && (#[trigger] l[r]) is Some {
            let r = choose|r: int| 0 <= r < l.len() && (#[trigger] l[r]) is Some;
            if r < l.len() - 1 {
                assert(d[r] == l[r]);
            }
        }
    }
}

/// The work left in a cabin is never negative, and is positive while anyone
/// stands in an aisle.
pub proof fn lemma_cost_nonneg(g: Grid)
    requires
        before_own_row(g),
    ensures
        grid_cost(g) >= 0,
        !aisles_empty(g) ==> grid_cost(g) >= 1,
    decreases g.len(),
{
    if g.len() > 0 {
        let d = g.drop_last();
        let l = g.last();
        assert forall|a: int, r: int|
            0 <= a < d.len() && 0 <= r < d[a].len() && (#[trigger] d[a][r]) is Some implies d[a][r]->Some_0.seat.row
            >= r by {
            assert(d[a] == g[a]);
        }
        assert forall|r: int| 0 <= r < l.len() && (#[trigger] l[r]) is Some implies l[r]->Some_0.seat.row
            >= r by {
            assert(l == g[g.len() - 1]);
        }
        lemma_cost_nonneg(d);
        lemma_lane_nonneg(l);
        if !aisles_empty(g) {
            let (a, r) = choose|a: int, r: int|
                0 <= a < g.len() && 0 <= r < g[a].len() && (#[trigger] g[a][r]) is Some;
            if a < g.len() - 1 {
                assert(d[a] == g[a]);
                assert(!aisles_empty(d));
            } else {
                assert(l[r] is Some);
            }
        }
    }
}

proof fn lemma_cell_progress(st: Cabin, a: int, r: int, rows: int)
    requires
        0 <= a < st.0.len(),
        0 <= r < rows,
        st.0[a].len() == rows,
    ensures
        step_cell(st, a, r, rows) matches Ok(next) ==> {
            &&& next.0 == st.0.update(a, next.0[a])
            &&& next.0[a].len() == rows
            &&& lane_cost(next.0[a]) <= lane_cost(st.0[a])
            &&& (st.0[a][r] is Some && (r + 1 >= rows || st.0[a][r + 1] is None)) ==> lane_cost(
                next.0[a],
            ) == lane_cost(st.0[a]) - 1
        },
{
    let g = st.0;
    let l = g[a];
    if let Ok(next) = step_cell(st, a, r, rows) {
        match l[r] {
            None => {
                assert(next.0 =~= g.update(a, next.0[a]));
            },
            Some(p) => {
                if p.seat.row == r {
                    if p.time_left_to_sit == 0 {
                        lemma_lane_update(l, r, None);
                        assert(next.0 =~= g.update(a, next.0[a]));
                    } else {
                        let w = Person { seat: p.seat, time_left_to_sit: (p.time_left_to_sit - 1) as u32 };
                        lemma_lane_update(l, r, Some(w));
                        assert(next.0 =~= g.update(a, next.0[a]));
                    }
                } else if l[r + 1] is Some {
                    assert(next.0 =~= g.update(a, next.0[a]));
                } else {
                    let m = l.update(r + 1, Some(p));
                    lemma_lane_update(l, r + 1, Some(p));
                    lemma_lane_update(m, r, None);
                    assert(next.0[a] =~= m.update(r, None));
                    assert(next.0 =~= g.update(a, next.0[a]));
                }
            },
        }
    }
}

proof fn lemma_aisle_nonincrease(st: Cabin, a: int, k: int, rows: int)
    requires
        0 <= a < st.0.len(),
        0 <= k <= rows,
        st.0[a].len() == rows,
    ensures
        step_aisle(st, a, k, rows) matches Ok(next) ==> {
            &&& next.0 == st.0.update(a, next.0[a])
            &&& next.0[a].len() == rows
            &&& lane_cost(next.0[a]) <= lane_cost(st.0[a])
        },
    decreases k,
{
    if k > 0 {
        lemma_cell_progress(st, a, k - 1, rows);
        if let Ok(mid) = step_cell(st, a, k - 1, rows) {
            lemma_aisle_nonincrease(mid, a, k - 1, rows);
            if let Ok(next) = step_aisle(mid, a, k - 1, rows) {
                assert(next.0 =~= st.0.update(a, next.0[a]));
            }
        }
    }
}

proof fn lemma_aisle_strict(st: Cabin, a: int, k: int, rows: int)
    requires
        0 <= a < st.0.len(),
        0 <= k <= rows,
        st.0[a].len() == rows,
        forall|j: int| k <= j < rows ==> (#[trigger] st.0[a][j]) is None,
        exists|j: int| 0 <= j < k && (#[trigger] st.0[a][j]) is Some,
    ensures
        step_aisle(st, a, k, rows) matches Ok(next) ==> lane_cost(next.0[a]) < lane_cost(st.0[a]),
    decreases k,
{
    lemma_cell_progress(st, a, k - 1, rows);
    if st.0[a][k - 1] is None {
        let j = choose|j: int| 0 <= j < k && (#[trigger] st.0[a][j]) is Some;
        assert(j < k - 1);
        lemma_aisle_strict(st, a, k - 1, rows);
    } else {
        if k < rows {
            assert(st.0[a][k] is None);
        }
        if let Ok(mid) = step_cell(st, a, k - 1, rows) {
            lemma_aisle_nonincrease(mid, a, k - 1, rows);
        }
    }
}

proof fn lemma_aisles_progress(st: Cabin, a: int, n: int, rows: int)
    requires
        n == st.0.len(),
        0 <= a <= n,
        0 <= rows,
        lanes_of(st.0, rows),
    ensures
        step_aisles(st, a, n, rows) matches Ok(next) ==> {
            &&& next.0.len() == n
            &&& lanes_of(next.0, rows)
            &&& grid_cost(next.0) <= grid_cost(st.0)
            &&& (exists|b: int, j: int| a <= b < n && 0 <= j < rows && (#[trigger] st.0[b][j]) is Some)
                ==> grid_cost(next.0) < grid_cost(st.0)
        },
    decreases n - a,
{
    if a < n {
        lemma_aisle_nonincrease(st, a, rows, rows);
        if exists|j: int| 0 <= j < rows && (#[trigger] st.0[a][j]) is Some {
            lemma_aisle_strict(st, a, rows, rows);
        }
        if let Ok(mid) = step_aisle(st, a, rows, rows) {
            lemma_grid_update(st.0, a, mid.0[a]);
            assert forall|b: int| 0 <= b < mid.0.len() implies (#[trigger] mid.0[b]).len() == rows by {
                if b != a {
                    assert(mid.0[b] == st.0[b]);
                }
            }
            lemma_aisles_progress(mid, a + 1, n, rows);
            if exists|b: int, j: int| a <= b < n && 0 <= j < rows && (#[trigger] st.0[b][j]) is Some {
                let (b, j) = choose|b: int, j: int|
                    a <= b < n && 0 <= j < rows && (#[trigger] st.0[b][j]) is Some;
                if b != a {
                    assert(mid.0[b] == st.0[b]);
                    assert(mid.0[b][j] is Some);
                } else {
                    assert(st.0[a][j] is Some);
                }
            }
        }
    }
}

/// A tick never adds to the work left in the aisles, and takes at least one
/// unit off it while anyone stands in an aisle. With that work never
/// negative (`lemma_cost_nonneg`), a cabin that admits no one else empties
/// within `grid_cost` ticks, and as passengers leave an aisle only by sitting
/// down, everyone admitted ends up seated.
pub proof fn lemma_tick_progress(st: Cabin, rows: int)
    requires
        0 <= rows,
        lanes_of(st.0, rows),
    ensures
        tick_result(st, rows) matches Ok(next) ==> {
            &&& lanes_of(next.0, rows)
            &&& grid_cost(next.0) <= grid_cost(st.0)
            &&& !aisles_empty(st.0) ==> grid_cost(next.0) < grid_cost(st.0)
        },
{
    lemma_aisles_progress(st, 0, st.0.len() as int, rows);
    if !aisles_empty(st.0) {
        let (a, r) = choose|a: int, r: int|
            0 <= a < st.0.len() && 0 <= r < st.0[a].len() && (#[trigger] st.0[a][r]) is Some;
        assert(st.0[a].len() == rows);
    }
}

proof fn lemma_lane_upper(l: Seq<Option<Person>>)
    ensures
        lane_cost(l) <= l.len() * 0x2_0000_0000,
    decreases l.len(),
{
    if l.len() > 0 {
        lemma_lane_upper(l.drop_last());
    }
}

/// The work left is bounded by the cabin's size: each cell holds at most
/// `2^33` of it.
pub proof fn lemma_cost_upper(g: Grid, rows: int)
    requires
        0 <= rows,
        lanes_of(g, rows),
    ensures
        grid_cost(g) <= g.len() * rows * 0x2_0000_0000,
    decreases g.len(),
{
    if g.len() > 0 {
        let d = g.drop_last();
        assert forall|a: int| 0 <= a < d.len() implies (#[trigger] d[a]).len() == rows by {
            assert(d[a] == g[a]);
        }
        lemma_cost_upper(d, rows);
        lemma_lane_upper(g.last());
        let n = g.len() as int;
        assert((n - 1) * rows * 0x2_0000_0000 + rows * 0x2_0000_0000 == n * rows * 0x2_0000_0000)
            by (nonlinear_arith);
    }
}

} // verus!
