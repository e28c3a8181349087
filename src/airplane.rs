//! The cabin: its aisles, the seats already taken, and the rule that
//! advances boarding by one tick.
use vstd::prelude::*;

use crate::person::{Person, Seat};
use crate::progress::{
    aisles_empty, before_own_row, grid_cost, lanes_of, lemma_cost_nonneg, lemma_cost_upper,
    lemma_tick_progress,
};
use crate::seat_set::{capacity, seat_in, SeatSet};

verus! {

/// The geometry of a cabin.
#[derive(Clone, Copy, Debug, Default)]
pub struct PlaneSize {
    pub rows: u32,
    pub cols: u32,
    pub seats_per_cols: u32,
}

/// What went wrong in a tick: the cabin's state no longer fits its geometry.
#[derive(Clone, Copy, Debug, PartialEq, Eq, Structural)]
pub enum TickError {
    /// A passenger sat down on a seat that was already taken.
    SeatTaken,
    /// A passenger reached the last row without reaching their own. The
    /// contract of `Plane::tick` shows that a well-formed cabin never does.
    MissedRow,
}

/// Number of aisles of a cabin with `cols` columns: one between each two
/// neighbouring columns, and one in a cabin of a single column.
pub open spec fn aisle_count(cols: int) -> int {
    if cols > 1 {
        cols - 1
    } else {
        1
    }
}

/// An aisle serves the two columns beside it.
pub open spec fn valid_pathway(aisle: int, col: int) -> bool {
    col == aisle || col == aisle + 1
}

/// The two aisles that a passenger of column `col` may enter, in the order
/// they are tried; the first two columns both go to the first aisle.
pub open spec fn candidate_aisles(col: int) -> (int, int) {
    if col > 1 {
        (col, col - 1)
    } else {
        (0, 0)
    }
}

/// The aisles, each a sequence of cells from the entrance (row 0) backwards.
pub type Grid = Seq<Seq<Option<Person>>>;

/// The whole state of a cabin: its aisles and the seats taken, in the order
/// in which they were taken.
pub type Cabin = (Grid, Seq<Seat>);

/// Whether the entrance cell of aisle `a` exists and is free.
pub open spec fn entrance_free(g: Grid, a: int) -> bool {
    0 <= a < g.len() && g[a].len() > 0 && g[a][0] is None
}

/// The aisle that a passenger of column `col` enters, if any of theirs is free.
pub open spec fn admit_aisle(g: Grid, col: int) -> Option<int> {
    let (first, second) = candidate_aisles(col);
    if entrance_free(g, first) {
        Some(first)
    } else if entrance_free(g, second) {
        Some(second)
    } else {
        None
    }
}

/// `g` with cell `r` of aisle `a` replaced by `x`.
pub open spec fn put(g: Grid, a: int, r: int, x: Option<Person>) -> Grid {
    g.update(a, g[a].update(r, x))
}

/// One cell of one aisle handled within a tick; `rows` is the aisle's length.
pub open spec fn step_cell(st: Cabin, a: int, r: int, rows: int) -> Result<Cabin, TickError> {
    let (g, seated) = st;
    match g[a][r] {
        None => Ok(st),
        Some(p) => {
            if p.seat.row == r {
                if p.time_left_to_sit == 0 {
                    if seated.contains(p.seat) {
                        Err(TickError::SeatTaken)
                    } else {
                        Ok((put(g, a, r, None), seated.push(p.seat)))
                    }
                } else {
                    let waiting = Person {
                        seat: p.seat,
                        time_left_to_sit: (p.time_left_to_sit - 1) as u32,
                    };
                    Ok((put(g, a, r, Some(waiting)), seated))
                }
            } else if r + 1 >= rows {
                Err(TickError::MissedRow)
            } else if g[a][r + 1] is Some {
                Ok(st)
            } else {
                Ok((put(put(g, a, r + 1, Some(p)), a, r, None), seated))
            }
        },
    }
}

/// Cells `k - 1` down to `0` of aisle `a` handled in turn.
pub open spec fn step_aisle(st: Cabin, a: int, k: int, rows: int) -> Result<Cabin, TickError>
    decreases k,
{
    if k <= 0 {
        Ok(st)
    } else {
        match step_cell(st, a, k - 1, rows) {
            Err(e) => Err(e),
            Ok(next) => step_aisle(next, a, k - 1, rows),
        }
    }
}

/// Aisles `a` onwards handled in turn, each from its last row to its first.
pub open spec fn step_aisles(st: Cabin, a: int, n: int, rows: int) -> Result<Cabin, TickError>
    decreases n - a,
{
    if a >= n {
        Ok(st)
    } else {
        match step_aisle(st, a, rows, rows) {
            Err(e) => Err(e),
            Ok(next) => step_aisles(next, a + 1, n, rows),
        }
    }
}

/// The outcome of one tick on a cabin whose aisles have `rows` rows.
pub open spec fn tick_result(st: Cabin, rows: int) -> Result<Cabin, TickError> {
    step_aisles(st, 0, st.0.len() as int, rows)
}

/// The outcome of `k` ticks in a row, stopping at the first that fails.
pub open spec fn ticks_from(st: Cabin, k: nat, rows: int) -> Result<Cabin, TickError>
    decreases k,
{
    if k == 0 {
        Ok(st)
    } else {
        match ticks_from(st, (k - 1) as nat, rows) {
            Ok(mid) => tick_result(mid, rows),
            Err(e) => Err(e),
        }
    }
}

/// Whether, after each of the first `k` ticks from `st` (none included),
/// the cabin stands and a passenger of column `col` finds no free entrance.
pub open spec fn refused_through(st: Cabin, k: nat, col: int, rows: int) -> bool {
    forall|j: nat|
        j < k ==> (#[trigger] ticks_from(st, j, rows) matches Ok(mid) && admit_aisle(mid.0, col) is None)
}

/// Whether `a` is an initial part of `b`.
pub open spec fn is_prefix(a: Seq<Seat>, b: Seq<Seat>) -> bool {
    a.len() <= b.len() && forall|i: int| 0 <= i < a.len() ==> #[trigger] b[i] == a[i]
}

proof fn lemma_step_cell_prefix(st: Cabin, a: int, r: int, rows: int)
    ensures
        step_cell(st, a, r, rows) matches Ok(next) ==> is_prefix(st.1, next.1),
{
}

proof fn lemma_step_aisle_prefix(st: Cabin, a: int, k: int, rows: int)
    ensures
        step_aisle(st, a, k, rows) matches Ok(next) ==> is_prefix(st.1, next.1),
    decreases k,
{
    if k > 0 {
        lemma_step_cell_prefix(st, a, k - 1, rows);
        if let Ok(mid) = step_cell(st, a, k - 1, rows) {
            lemma_step_aisle_prefix(mid, a, k - 1, rows);
        }
    }
}

proof fn lemma_step_aisles_prefix(st: Cabin, a: int, n: int, rows: int)
    ensures
        step_aisles(st, a, n, rows) matches Ok(next) ==> is_prefix(st.1, next.1),
    decreases n - a,
{
    if a < n {
        lemma_step_aisle_prefix(st, a, rows, rows);
        if let Ok(mid) = step_aisle(st, a, rows, rows) {
            lemma_step_aisles_prefix(mid, a + 1, n, rows);
        }
    }
}

/// A tick never gives up a seat: the seats taken before it are, in the same
/// order, the first seats taken after it, so their number never goes down.
pub proof fn lemma_tick_keeps_seated(st: Cabin, rows: int)
    ensures
        tick_result(st, rows) matches Ok(next) ==> is_prefix(st.1, next.1),
{
    lemma_step_aisles_prefix(st, 0, st.0.len() as int, rows);
}

proof fn lemma_cell_frame(st: Cabin, a: int, r: int, rows: int)
    requires
        0 <= a < st.0.len(),
        0 <= r < rows,
        st.0[a].len() == rows,
    ensures
        step_cell(st, a, r, rows) matches Ok(next) ==> {
            &&& next.0.len() == st.0.len()
            &&& forall|b: int| 0 <= b < st.0.len() && b != a ==> #[trigger] next.0[b] == st.0[b]
            &&& next.0[a].len() == rows
            &&& forall|i: int| 0 <= i < rows && i != r && i != r + 1 ==> #[trigger] next.0[a][i]
                == st.0[a][i]
            &&& is_prefix(st.1, next.1)
        },
{
    lemma_step_cell_prefix(st, a, r, rows);
}

proof fn lemma_aisle_frame(st: Cabin, a: int, k: int, rows: int)
    requires
        0 <= a < st.0.len(),
        0 <= k <= rows,
        st.0[a].len() == rows,
    ensures
        step_aisle(st, a, k, rows) matches Ok(next) ==> {
            &&& next.0.len() == st.0.len()
            &&& forall|b: int| 0 <= b < st.0.len() && b != a ==> #[trigger] next.0[b] == st.0[b]
            &&& next.0[a].len() == rows
            &&& is_prefix(st.1, next.1)
        },
    decreases k,
{
    if k > 0 {
        lemma_cell_frame(st, a, k - 1, rows);
        if let Ok(mid) = step_cell(st, a, k - 1, rows) {
            lemma_aisle_frame(mid, a, k - 1, rows);
        }
    }
}

proof fn lemma_aisle_hits_taken(st: Cabin, a: int, k: int, r: int, rows: int)
    requires
        0 <= a < st.0.len(),
        0 <= r < k <= rows,
        st.0[a].len() == rows,
        st.0[a][r] matches Some(p) && p.seat.row == r && p.time_left_to_sit == 0
            && st.1.contains(p.seat),
    ensures
        step_aisle(st, a, k, rows) is Err,
    decreases k,
{
    lemma_cell_frame(st, a, k - 1, rows);
    if k - 1 > r {
        if let Ok(mid) = step_cell(st, a, k - 1, rows) {
            let p = st.0[a][r]->Some_0;
            let i = choose|i: int| 0 <= i < st.1.len() && st.1[i] == p.seat;
            assert(mid.1[i] == p.seat);
            assert(mid.0[a][r] == st.0[a][r]);
            lemma_aisle_hits_taken(mid, a, k - 1, r, rows);
        }
    }
}

proof fn lemma_aisles_hit_taken(st: Cabin, b: int, n: int, a: int, r: int, rows: int)
    requires
        n == st.0.len(),
        0 <= b <= a < n,
        0 <= r < rows,
        forall|c: int| 0 <= c < n ==> (#[trigger] st.0[c]).len() == rows,
        st.0[a][r] matches Some(p) && p.seat.row == r && p.time_left_to_sit == 0
            && st.1.contains(p.seat),
    ensures
        step_aisles(st, b, n, rows) is Err,
    decreases a - b,
{
    if b == a {
        lemma_aisle_hits_taken(st, a, rows, r, rows);
    } else {
        lemma_aisle_frame(st, b, rows, rows);
        if let Ok(mid) = step_aisle(st, b, rows, rows) {
            let p = st.0[a][r]->Some_0;
            let i = choose|i: int| 0 <= i < st.1.len() && st.1[i] == p.seat;
            assert(mid.1[i] == p.seat);
            assert(mid.0[a] == st.0[a]);
            assert forall|c: int| 0 <= c < n implies (#[trigger] mid.0[c]).len() == rows by {
                if c != b {
                    assert(mid.0[c] == st.0[c]);
                }
            }
            lemma_aisles_hit_taken(mid, b + 1, n, a, r, rows);
        }
    }
}

/// A tick fails where a passenger is due to sit down on a seat that is
/// already taken: no seat is ever taken twice.
pub proof fn lemma_taken_seat_fails(st: Cabin, rows: int, a: int, r: int)
    requires
        forall|c: int| 0 <= c < st.0.len() ==> (#[trigger] st.0[c]).len() == rows,
        0 <= a < st.0.len(),
        0 <= r < rows,
        st.0[a][r] matches Some(p) && p.seat.row == r && p.time_left_to_sit == 0
            && st.1.contains(p.seat),
    ensures
        tick_result(st, rows) is Err,
{
    lemma_aisles_hit_taken(st, 0, st.0.len() as int, a, r, rows);
}

/// A passenger of the first two columns is refused while the first aisle's
/// entrance is taken (and a refused admission changes nothing, by the
/// contract of `Plane::add_passenger_to_line`).
pub proof fn lemma_blocked_entrance(g: Grid, col: int)
    requires
        0 <= col <= 1,
        g.len() > 0,
        g[0].len() > 0,
        g[0][0] is Some,
    ensures
        admit_aisle(g, col) is None,
{
}

/// A cabin: its geometry, the seats taken so far, and the aisles.
pub struct Plane {
    size: PlaneSize,
    seats_map: SeatSet,
    pathways: Vec<Vec<Option<Person>>>,
}

impl PlaneSize {
    /// Whether `s` is a seat of this geometry.
    pub open spec fn has_seat(&self, s: Seat) -> bool {
        seat_in(s, self.rows as int, self.cols as int, self.seats_per_cols as int)
    }

    /// Number of seats of this geometry.
    pub open spec fn seat_count(&self) -> int {
        capacity(self.rows as int, self.cols as int, self.seats_per_cols as int)
    }

    /// Number of aisles.
    pub fn get_pathways(&self) -> (r: u32)
        ensures
            r == aisle_count(self.cols as int),
    {
        let cols = self.cols;
        if cols > 1 {
            cols - 1
        } else {
            1
        }
    }
}

impl Plane {
    /// The aisles' cells.
    pub closed spec fn grid(&self) -> Grid {
        self.pathways@.map_values(|lane: Vec<Option<Person>>| lane@)
    }

    /// The seats taken, in the order in which they were taken.
    pub closed spec fn seated(&self) -> Seq<Seat> {
        self.seats_map@
    }

    /// The geometry of the cabin.
    pub closed spec fn geometry(&self) -> PlaneSize {
        self.size
    }

    pub open spec fn cabin(&self) -> Cabin {
        (self.grid(), self.seated())
    }

    /// Whether passenger `p` may stand in row `r` of aisle `a`: their seat is
    /// in the cabin, beside that aisle, and not behind them.
    pub open spec fn fits(&self, a: int, r: int, p: Person) -> bool {
        &&& self.geometry().has_seat(p.seat)
        &&& valid_pathway(a, p.seat.col as int)
        &&& p.seat.row >= r
    }

    pub closed spec fn wf(&self) -> bool {
        &&& self.size.seat_count() <= usize::MAX
        &&& self.pathways.len() == aisle_count(self.size.cols as int)
        &&& forall|a: int| 0 <= a < self.pathways.len() ==> #[trigger] self.pathways[a].len()
            == self.size.rows
        &&& forall|a: int, r: int|
            0 <= a < self.pathways.len() && 0 <= r < self.pathways[a].len() && (
            #[trigger] self.pathways[a][r]) is Some ==> self.fits(a, r, self.pathways[a][r]->Some_0)
        &&& self.seats_map.wf()
        &&& self.seats_map.rows() == self.size.rows
        &&& self.seats_map.cols() == self.size.cols
        &&& self.seats_map.spc() == self.size.seats_per_cols
    }

    /// What a well-formed cabin guarantees of its model.
    pub proof fn lemma_wf(&self)
        requires
            self.wf(),
        ensures
            self.grid().len() == aisle_count(self.geometry().cols as int),
            forall|a: int| 0 <= a < self.grid().len() ==> #[trigger] self.grid()[a].len()
                == self.geometry().rows,
            forall|a: int, r: int|
                0 <= a < self.grid().len() && 0 <= r < self.grid()[a].len() && (
                #[trigger] self.grid()[a][r]) is Some ==> self.fits(a, r, self.grid()[a][r]->Some_0),
            before_own_row(self.grid()),
            lanes_of(self.grid(), self.geometry().rows as int),
            self.seated().no_duplicates(),
            forall|i: int| 0 <= i < self.seated().len() ==> #[trigger] self.geometry().has_seat(
                self.seated()[i],
            ),
            self.seated().len() <= self.geometry().seat_count(),
    {
        self.seats_map.lemma_bounded();
        assert forall|a: int| 0 <= a < self.grid().len() implies #[trigger] self.grid()[a].len()
            == self.geometry().rows by {
            assert(self.grid()[a] == self.pathways[a]@);
            assert(self.pathways[a].len() == self.size.rows);
        }
        assert forall|a: int, r: int|
            0 <= a < self.grid().len() && 0 <= r < self.grid()[a].len() && (
            #[trigger] self.grid()[a][r]) is Some implies self.fits(a, r, self.grid()[a][r]->Some_0) by {
            assert(self.grid()[a] == self.pathways[a]@);
            assert(self.pathways[a][r] == self.grid()[a][r]);
        }
        assert forall|i: int| 0 <= i < self.seated().len() implies #[trigger] self.geometry().has_seat(
            self.seated()[i],
        ) by {
            assert(self.seats_map.holds_seat(self.seats_map@[i]));
        }
    }

    /// An empty cabin of the given geometry.
    pub fn new(size: PlaneSize) -> (r: Plane)
        requires
            size.seat_count() <= usize::MAX,
        ensures
            r.wf(),
            r.geometry() == size,
            r.seated() == Seq::<Seat>::empty(),
            r.grid().len() == aisle_count(size.cols as int),
            forall|a: int| 0 <= a < r.grid().len() ==> #[trigger] r.grid()[a].len() == size.rows,
            forall|a: int, k: int|
                0 <= a < r.grid().len() && 0 <= k < r.grid()[a].len() ==> (
                #[trigger] r.grid()[a][k]) is None,
    {
        let n = size.get_pathways();
        let mut pathways: Vec<Vec<Option<Person>>> = Vec::new();
        let mut a: u32 = 0;
        while a < n
            invariant
                a <= n,
                pathways.len() == a,
                forall|b: int| 0 <= b < a ==> #[trigger] pathways[b]@ == Seq::new(
                    size.rows as nat,
                    |_k: int| None::<Person>,
                ),
            decreases n - a,
        {
            let mut lane: Vec<Option<Person>> = Vec::new();
            let mut k: u32 = 0;
            while k < size.rows
                invariant
                    k <= size.rows,
                    lane@ == Seq::new(k as nat, |_k: int| None::<Person>),
                decreases size.rows - k,
            {
                lane.push(None);
                k = k + 1;
                assert(lane@ =~= Seq::new(k as nat, |_k: int| None::<Person>));
            }
            let ghost prev = pathways@;
            pathways.push(lane);
            a = a + 1;
            proof {
                assert forall|b: int| 0 <= b < a implies #[trigger] pathways[b]@ == Seq::new(
                    size.rows as nat,
                    |_k: int| None::<Person>,
                ) by {
                    if b < a - 1 {
                        assert(pathways[b] == prev[b]);
                    }
                }
            }
        }
        let seats_map = SeatSet::new(size.rows, size.cols, size.seats_per_cols);
        let r = Plane { size, seats_map, pathways };
        proof {
            assert forall|b: int| 0 <= b < r.grid().len() implies #[trigger] r.grid()[b]
                == r.pathways[b]@ by {}
        }
        r
    }

    /// Writes `x` into cell `r` of aisle `a`.
    fn set_cell(&mut self, a: usize, r: usize, x: Option<Person>)
        requires
            old(self).wf(),
            a < old(self).grid().len(),
            r < old(self).geometry().rows,
            x is Some ==> old(self).fits(a as int, r as int, x->Some_0),
        ensures
            final(self).wf(),
            final(self).grid() == put(old(self).grid(), a as int, r as int, x),
            final(self).seated() == old(self).seated(),
            final(self).geometry() == old(self).geometry(),
    {
        proof {
            self.lemma_wf();
        }
        let ghost before = self.pathways@;
        let mut lane: Vec<Option<Person>> = Vec::new();
        std::mem::swap(&mut lane, &mut self.pathways[a]);
        assert(lane@ == before[a as int]@);
        lane.set(r, x);
        std::mem::swap(&mut lane, &mut self.pathways[a]);
        proof {
            assert(self.pathways@ == before.update(a as int, self.pathways[a as int]));
            assert(self.grid() =~= put(old(self).grid(), a as int, r as int, x)) by {
                assert forall|b: int| 0 <= b < self.grid().len() implies #[trigger] self.grid()[b]
                    == put(old(self).grid(), a as int, r as int, x)[b] by {
                    if b != a {
                        assert(self.pathways[b] == old(self).pathways[b]);
                    } else {
                        assert(self.grid()[b] =~= old(self).grid()[b].update(r as int, x));
                    }
                }
            }
            assert forall|b: int| 0 <= b < self.pathways.len() implies #[trigger] self.pathways[b].len()
                == self.size.rows by {
                if b != a {
                    assert(self.pathways[b] == old(self).pathways[b]);
                }
            }
            assert forall|b: int, k: int|
                0 <= b < self.pathways.len() && 0 <= k < self.pathways[b].len() && (
                #[trigger] self.pathways[b][k]) is Some implies self.fits(
                b,
                k,
                self.pathways[b][k]->Some_0,
            ) by {
                if b != a {
                    assert(self.pathways[b] == old(self).pathways[b]);
                } else if k != r {
                    assert(self.pathways[b][k] == old(self).pathways[b][k]);
                }
            }
        }
    }

    /// Whether aisle `pathway` serves column `col`.
    pub fn is_valid_pathway(pathway: u32, col: u32) -> (r: bool)
        ensures
            r == valid_pathway(pathway as int, col as int),
    {
        col == pathway || col as u64 == pathway as u64 + 1
    }

    /// The two aisles that a passenger of column `col` tries, in order.
    pub fn get_pathway(&self, col: u32) -> (r: [u32; 2])
        ensures
            r@[0] == candidate_aisles(col as int).0,
            r@[1] == candidate_aisles(col as int).1,
    {
        if col > 1 {
            [col, col - 1]
        } else {
            [0, 0]
        }
    }

    fn entrance_is_free(&self, a: u32) -> (r: bool)
        requires
            self.wf(),
        ensures
            r == entrance_free(self.grid(), a as int),
    {
        proof {
            self.lemma_wf();
        }
        let i = a as usize;
        if i < self.pathways.len() && self.pathways[i].len() > 0 {
            assert(self.grid()[i as int] == self.pathways[i as int]@);
            self.pathways[i][0].is_none()
        } else {
            false
        }
    }

    /// Puts `person` at the entrance of the first of their aisles that is
    /// free there; returns whether that succeeded. A candidate aisle that the
    /// cabin does not have (the last column's own) is passed over.
    pub fn add_passenger_to_line(&mut self, person: Person) -> (r: bool)
        requires
            old(self).wf(),
            old(self).geometry().has_seat(person.seat),
        ensures
            final(self).wf(),
            final(self).geometry() == old(self).geometry(),
            final(self).seated() == old(self).seated(),
            r == admit_aisle(old(self).grid(), person.seat.col as int) is Some,
            r ==> final(self).grid() == put(
                old(self).grid(),
                admit_aisle(old(self).grid(), person.seat.col as int)->Some_0,
                0,
                Some(person),
            ),
            !r ==> final(self).grid() == old(self).grid(),
    {
        let candidates = self.get_pathway(person.seat.col);
        let mut k: usize = 0;
        while k < 2
            invariant
                *self == *old(self),
                self.wf(),
                self.geometry().has_seat(person.seat),
                k <= 2,
                candidates@[0] == candidate_aisles(person.seat.col as int).0,
                candidates@[1] == candidate_aisles(person.seat.col as int).1,
                k >= 1 ==> !entrance_free(self.grid(), candidates@[0] as int),
                k >= 2 ==> !entrance_free(self.grid(), candidates@[1] as int),
            decreases 2 - k,
        {
            let a = candidates[k];
            if self.entrance_is_free(a) {
                proof {
                    self.lemma_wf();
                    assert(a == candidates@[k as int]);
                    assert(valid_pathway(a as int, person.seat.col as int));
                }
                self.set_cell(a as usize, 0, Some(person));
                return true;
            }
            k = k + 1;
        }
        false
    }

    /// Handles cell `row` of aisle `a` as one step of a tick.
    fn step_cell(&mut self, a: usize, row: usize) -> (r: Result<(), TickError>)
        requires
            old(self).wf(),
            a < old(self).grid().len(),
            row < old(self).geometry().rows,
        ensures
            final(self).wf(),
            final(self).geometry() == old(self).geometry(),
            match step_cell(old(self).cabin(), a as int, row as int, old(self).geometry().rows as int) {
                Ok(st) => r is Ok && final(self).cabin() == st,
                Err(e) => r == Err::<(), TickError>(e),
            },
            r != Err::<(), TickError>(TickError::MissedRow),
            is_prefix(old(self).seated(), final(self).seated()),
    {
        proof {
            self.lemma_wf();
            assert(self.grid()[a as int] == self.pathways[a as int]@);
            lemma_step_cell_prefix(self.cabin(), a as int, row as int, self.size.rows as int);
        }
        let rows = self.size.rows as usize;
        let cell = self.pathways[a][row];
        match cell {
            None => Ok(()),
            Some(p) => {
                assert(self.fits(a as int, row as int, p));
                if p.seat.row as usize == row {
                    if p.time_left_to_sit == 0 {
                        if self.seats_map.contains(p.seat) {
                            return Err(TickError::SeatTaken);
                        }
                        self.seats_map.insert(p.seat);
                        self.set_cell(a, row, None);
                    } else {
                        let waiting = Person {
                            seat: p.seat,
                            time_left_to_sit: p.time_left_to_sit - 1,
                        };
                        self.set_cell(a, row, Some(waiting));
                    }
                    Ok(())
                } else if row + 1 >= rows {
                    Err(TickError::MissedRow)
                } else if self.pathways[a][row + 1].is_some() {
                    Ok(())
                } else {
                    self.set_cell(a, row + 1, Some(p));
                    self.set_cell(a, row, None);
                    Ok(())
                }
            },
        }
    }

    /// Advances the cabin by one tick: every aisle in turn, each from its
    /// last row to its entrance. An error stops the tick where it was found;
    /// nothing done before it is undone.
    pub fn tick(&mut self) -> (r: Result<(), TickError>)
        requires
            old(self).wf(),
        ensures
            final(self).wf(),
            final(self).geometry() == old(self).geometry(),
            match tick_result(old(self).cabin(), old(self).geometry().rows as int) {
                Ok(st) => r is Ok && final(self).cabin() == st,
                Err(e) => r == Err::<(), TickError>(e),
            },
            r != Err::<(), TickError>(TickError::MissedRow),
            is_prefix(old(self).seated(), final(self).seated()),
    {
        proof {
            self.lemma_wf();
        }
        let n = self.pathways.len();
        let rows = self.size.rows as usize;
        let ghost init = self.cabin();
        let ghost size = self.geometry();
        let mut a: usize = 0;
        while a < n
            invariant
                self.wf(),
                self.geometry() == size,
                size == old(self).geometry(),
                init == old(self).cabin(),
                rows == size.rows,
                n == init.0.len(),
                n == self.grid().len(),
                a <= n,
                is_prefix(old(self).seated(), self.seated()),
                tick_result(init, rows as int) == step_aisles(self.cabin(), a as int, n as int, rows as int),
            decreases n - a,
        {
            let ghost start = self.cabin();
            let mut k: usize = rows;
            while k > 0
                invariant
                    self.wf(),
                    self.geometry() == size,
                    size == old(self).geometry(),
                    init == old(self).cabin(),
                    rows == size.rows,
                    n == self.grid().len(),
                    a < n,
                    k <= rows,
                    is_prefix(old(self).seated(), self.seated()),
                    tick_result(init, rows as int) == step_aisles(start, a as int, n as int, rows as int),
                    step_aisle(start, a as int, rows as int, rows as int) == step_aisle(
                        self.cabin(),
                        a as int,
                        k as int,
                        rows as int,
                    ),
                decreases k,
            {
                let row = k - 1;
                let ghost before = self.cabin();
                let res = self.step_cell(a, row);
                proof {
                    self.lemma_wf();
                }
                match res {
                    Err(e) => {
                        assert(step_aisle(before, a as int, k as int, rows as int) == Err::<
                            Cabin,
                            TickError,
                        >(e));
                        return Err(e);
                    },
                    Ok(()) => {},
                }
                k = row;
            }
            assert(step_aisle(start, a as int, rows as int, rows as int) == Ok::<Cabin, TickError>(
                self.cabin(),
            ));
            a = a + 1;
        }
        Ok(())
    }

    /// The geometry of the cabin.
    pub fn size(&self) -> (r: PlaneSize)
        ensures
            r == self.geometry(),
    {
        self.size
    }

    /// The seats taken so far, in the order in which they were taken.
    pub fn occupied_seats(&self) -> (r: &Vec<Seat>)
        ensures
            r@ == self.seated(),
    {
        self.seats_map.seats()
    }

    /// Whether seat `s` has been taken.
    pub fn is_seated(&self, s: Seat) -> (r: bool)
        requires
            self.wf(),
        ensures
            r == (self.geometry().has_seat(s) && self.seated().contains(s)),
    {
        if s.row < self.size.rows && s.col < self.size.cols && s.seat_id < self.size.seats_per_cols {
            self.seats_map.contains(s)
        } else {
            proof {
                self.lemma_wf();
            }
            false
        }
    }

    /// What stands in cell `row` of aisle `aisle`; `None` also where there is
    /// no such cell.
    pub fn cell(&self, aisle: usize, row: usize) -> (r: Option<Person>)
        requires
            self.wf(),
        ensures
            aisle < self.grid().len() && row < self.grid()[aisle as int].len() ==> r == self.grid()[aisle as int][row as int],
            !(aisle < self.grid().len() && row < self.grid()[aisle as int].len()) ==> r is None,
    {
        proof {
            self.lemma_wf();
        }
        if aisle < self.pathways.len() && row < self.pathways[aisle].len() {
            assert(self.grid()[aisle as int] == self.pathways[aisle as int]@);
            self.pathways[aisle][row]
        } else {
            None
        }
    }

    /// Whether no passenger stands in any aisle.
    pub fn is_empty(&self) -> (r: bool)
        requires
            self.wf(),
        ensures
            r == (forall|a: int, k: int|
                0 <= a < self.grid().len() && 0 <= k < self.grid()[a].len() ==> (
                #[trigger] self.grid()[a][k]) is None),
    {
        proof {
            self.lemma_wf();
        }
        let n = self.pathways.len();
        let mut a: usize = 0;
        while a < n
            invariant
                self.wf(),
                n == self.grid().len(),
                a <= n,
                forall|b: int, k: int|
                    0 <= b < a && 0 <= k < self.grid()[b].len() ==> (
                    #[trigger] self.grid()[b][k]) is None,
            decreases n - a,
        {
            assert(self.grid()[a as int] == self.pathways[a as int]@);
            let m = self.pathways[a].len();
            let mut k: usize = 0;
            while k < m
                invariant
                    self.wf(),
                    n == self.grid().len(),
                    a < n,
                    m == self.grid()[a as int].len(),
                    self.grid()[a as int] == self.pathways[a as int]@,
                    k <= m,
                    forall|b: int, j: int|
                        0 <= b < a && 0 <= j < self.grid()[b].len() ==> (
                        #[trigger] self.grid()[b][j]) is None,
                    forall|j: int| 0 <= j < k ==> (#[trigger] self.grid()[a as int][j]) is None,
                decreases m - k,
            {
                if self.pathways[a][k].is_some() {
                    return false;
                }
                k = k + 1;
            }
            a = a + 1;
        }
        true
    }

    /// No seat is ever taken twice, every seat taken belongs to the cabin, and
    /// so no more seats are taken than the cabin has.
    pub proof fn lemma_seated_bounded(&self)
        requires
            self.wf(),
        ensures
            self.seated().no_duplicates(),
            forall|i: int| 0 <= i < self.seated().len() ==> #[trigger] self.geometry().has_seat(
                self.seated()[i],
            ),
            self.seated().len() <= self.geometry().seat_count(),
    {
        self.lemma_wf();
    }

    /// Boarding cannot stall: the work left in the aisles is never negative,
    /// positive while anyone stands in an aisle, and every tick that does not
    /// fail lowers it while anyone does. So a cabin that admits no one else
    /// empties within `grid_cost` ticks, with everyone admitted seated.
    pub proof fn lemma_boarding_progress(&self)
        requires
            self.wf(),
        ensures
            grid_cost(self.grid()) >= 0,
            !aisles_empty(self.grid()) ==> grid_cost(self.grid()) >= 1,
            tick_result(self.cabin(), self.geometry().rows as int) matches Ok(next) ==> {
                &&& grid_cost(next.0) <= grid_cost(self.grid())
                &&& !aisles_empty(self.grid()) ==> grid_cost(next.0) < grid_cost(self.grid())
            },
    {
        self.lemma_wf();
        assert(before_own_row(self.grid()));
        assert(lanes_of(self.grid(), self.geometry().rows as int));
        lemma_cost_nonneg(self.grid());
        lemma_tick_progress(self.cabin(), self.geometry().rows as int);
    }

    /// Lets `person` in, ticking the cabin as long as none of their aisles is
    /// free at the entrance, and returns the number of ticks that took. It
    /// always ends: the count never exceeds the work that was left in the
    /// aisles at the start.
    pub fn board(&mut self, person: Person) -> (r: Result<u128, TickError>)
        requires
            old(self).wf(),
            old(self).geometry().has_seat(person.seat),
        ensures
            final(self).wf(),
            final(self).geometry() == old(self).geometry(),
            is_prefix(old(self).seated(), final(self).seated()),
            admit_aisle(old(self).grid(), person.seat.col as int) is Some ==> r == Ok::<
                u128,
                TickError,
            >(0) && final(self).grid() == put(
                old(self).grid(),
                admit_aisle(old(self).grid(), person.seat.col as int)->Some_0,
                0,
                Some(person),
            ),
            r matches Ok(t) ==> {
                &&& t <= grid_cost(old(self).grid())
                &&& refused_through(
                    old(self).cabin(),
                    t as nat,
                    person.seat.col as int,
                    old(self).geometry().rows as int,
                )
                &&& ticks_from(old(self).cabin(), t as nat, old(self).geometry().rows as int) matches Ok(
                    st,
                ) && admit_aisle(st.0, person.seat.col as int) is Some && final(self).cabin() == (
                    put(st.0, admit_aisle(st.0, person.seat.col as int)->Some_0, 0, Some(person)),
                    st.1,
                )
            },
            r matches Err(e) ==> exists|k: nat|
                {
                    &&& refused_through(
                        old(self).cabin(),
                        k + 1,
                        person.seat.col as int,
                        old(self).geometry().rows as int,
                    )
                    &&& #[trigger] ticks_from(old(self).cabin(), k + 1, old(self).geometry().rows as int)
                        == Err::<Cabin, TickError>(e)
                },
    {
        let ghost start = grid_cost(self.grid());
        let ghost size = self.geometry();
        proof {
            self.lemma_wf();
            self.lemma_boarding_progress();
            lemma_cost_upper(self.grid(), size.rows as int);
            assert(self.grid().len() * size.rows * 0x2_0000_0000 <= 0x1_0000_0000 * 0x1_0000_0000
                * 0x2_0000_0000) by (nonlinear_arith)
                requires
                    0 <= self.grid().len() <= 0x1_0000_0000,
                    0 <= size.rows <= 0x1_0000_0000,
            ;
        }
        let mut ticks: u128 = 0;
        loop
            invariant
                self.wf(),
                self.geometry() == size,
                size == old(self).geometry(),
                size.has_seat(person.seat),
                start == grid_cost(old(self).grid()),
                start <= 0x1_0000_0000 * 0x1_0000_0000 * 0x2_0000_0000,
                0 <= grid_cost(self.grid()),
                ticks + grid_cost(self.grid()) <= start,
                is_prefix(old(self).seated(), self.seated()),
                ticks == 0 ==> *self == *old(self),
                ticks > 0 ==> admit_aisle(old(self).grid(), person.seat.col as int) is None,
                ticks_from(old(self).cabin(), ticks as nat, size.rows as int) == Ok::<Cabin, TickError>(
                    self.cabin(),
                ),
                refused_through(old(self).cabin(), ticks as nat, person.seat.col as int, size.rows as int),
            decreases grid_cost(self.grid()),
        {
            let ghost before = *self;
            if self.add_passenger_to_line(person) {
                assert(admit_aisle(before.grid(), person.seat.col as int) is Some);
                return Ok(ticks);
            }
            proof {
                before.lemma_wf();
                before.lemma_boarding_progress();
                let g = before.grid();
                let col = person.seat.col as int;
                let a = if col > 1 {
                    col - 1
                } else {
                    0
                };
                assert(0 <= a < g.len());
                assert(g[a].len() == size.rows);
                assert(!entrance_free(g, a));
                assert(g[a][0] is Some);
                assert(!aisles_empty(g));
                crate::airplane::lemma_tick_keeps_seated(before.cabin(), size.rows as int);
            }
            let ghost t = ticks as nat;
            let ghost st0 = old(self).cabin();
            let ghost rows = size.rows as int;
            let ghost col = person.seat.col as int;
            proof {
                assert(ticks_from(st0, t + 1, rows) == tick_result(before.cabin(), rows));
                assert forall|j: nat| j < t + 1 implies (#[trigger] ticks_from(st0, j, rows) matches Ok(
                    mid,
                ) && admit_aisle(mid.0, col) is None) by {
                    if j < t {
                        assert(refused_through(st0, t, col, rows));
                    }
                }
            }
            match self.tick() {
                Ok(()) => {},
                Err(e) => {
                    assert(refused_through(st0, t + 1, col, rows));
                    assert(ticks_from(st0, t + 1, rows) == Err::<Cabin, TickError>(e));
                    return Err(e);
                },
            }
            proof {
                self.lemma_boarding_progress();
            }
            ticks = ticks + 1;
        }
    }
}

} // verus!
