//! A set of seats of one cabin geometry, stored as one flag per seat.
use vstd::prelude::*;

use crate::person::Seat;

verus! {

/// Whether `s` lies inside a cabin of `rows` rows, `cols` columns and `spc`
/// seats per column.
pub open spec fn seat_in(s: Seat, rows: int, cols: int, spc: int) -> bool {
    s.row < rows && s.col < cols && s.seat_id < spc
}

/// Position of a seat in the row-major layout of the cabin.
pub open spec fn seat_index(s: Seat, cols: int, spc: int) -> int {
    (s.row * cols + s.col) * spc + s.seat_id
}

/// The seat stored at position `i` of the row-major layout.
pub open spec fn seat_at(i: int, cols: int, spc: int) -> Seat {
    Seat {
        row: ((i / spc) / cols) as u32,
        col: ((i / spc) % cols) as u32,
        seat_id: (i % spc) as u32,
    }
}

/// Number of seats of the geometry.
pub open spec fn capacity(rows: int, cols: int, spc: int) -> int {
    rows * cols * spc
}

/// Number of set flags.
pub open spec fn count_true(b: Seq<bool>) -> nat
    decreases b.len(),
{
    if b.len() == 0 {
        0
    } else {
        count_true(b.drop_last()) + if b.last() {
            1nat
        } else {
            0nat
        }
    }
}

proof fn lemma_count_le(b: Seq<bool>)
    ensures
        count_true(b) <= b.len(),
    decreases b.len(),
{
    if b.len() > 0 {
        lemma_count_le(b.drop_last());
    }
}

proof fn lemma_count_all(b: Seq<bool>)
    requires
        forall|i: int| 0 <= i < b.len() ==> b[i],
    ensures
        count_true(b) == b.len(),
    decreases b.len(),
{
    if b.len() > 0 {
        lemma_count_all(b.drop_last());
    }
}

proof fn lemma_count_set(b: Seq<bool>, i: int)
    requires
        0 <= i < b.len(),
        !b[i],
    ensures
        count_true(b.update(i, true)) == count_true(b) + 1,
    decreases b.len(),
{
    let u = b.update(i, true);
    if i == b.len() - 1 {
        assert(u.drop_last() =~= b.drop_last());
    } else {
        assert(u.drop_last() =~= b.drop_last().update(i, true));
        lemma_count_set(b.drop_last(), i);
    }
}

/// Every seat of the geometry has a position below the capacity.
pub proof fn lemma_index_bound(s: Seat, rows: int, cols: int, spc: int)
    requires
        seat_in(s, rows, cols, spc),
    ensures
        0 <= s.row * cols + s.col < rows * cols,
        0 <= seat_index(s, cols, spc) < capacity(rows, cols, spc),
        s.row * cols <= s.row * cols + s.col <= seat_index(s, cols, spc),
{
    let (r, c, k) = (s.row as int, s.col as int, s.seat_id as int);
    assert(0 <= r * cols + c < rows * cols) by (nonlinear_arith)
        requires
            0 <= r < rows,
            0 <= c < cols,
    ;
    let q = r * cols + c;
    assert(0 <= q * spc + k < (rows * cols) * spc) by (nonlinear_arith)
        requires
            0 <= q < rows * cols,
            0 <= k < spc,
    ;
    assert((rows * cols) * spc == rows * cols * spc) by (nonlinear_arith);
    assert(q <= q * spc) by (nonlinear_arith)
        requires
            0 <= q,
            1 <= spc,
    ;
}

/// Positions decode back to the seat they were taken from.
pub proof fn lemma_index_inverse(s: Seat, rows: int, cols: int, spc: int)
    requires
        seat_in(s, rows, cols, spc),
    ensures
        seat_at(seat_index(s, cols, spc), cols, spc) == s,
{
    lemma_index_bound(s, rows, cols, spc);
    let q = s.row * cols + s.col;
    vstd::arithmetic::div_mod::lemma_fundamental_div_mod_converse(
        seat_index(s, cols, spc),
        spc,
        q,
        s.seat_id as int,
    );
    vstd::arithmetic::div_mod::lemma_fundamental_div_mod_converse(
        q,
        cols,
        s.row as int,
        s.col as int,
    );
}

/// Every position below the capacity holds a seat of the geometry.
pub proof fn lemma_position_seat(i: int, rows: int, cols: int, spc: int)
    requires
        0 <= i < capacity(rows, cols, spc),
        rows <= u32::MAX,
        cols <= u32::MAX,
        spc <= u32::MAX,
        rows >= 0,
        cols >= 0,
        spc >= 0,
    ensures
        seat_in(seat_at(i, cols, spc), rows, cols, spc),
        seat_index(seat_at(i, cols, spc), cols, spc) == i,
        0 < rows && 0 < cols && 0 < spc,
{
    assert(0 < rows && 0 < cols && 0 < spc) by (nonlinear_arith)
        requires
            0 <= i < rows * cols * spc,
            rows >= 0,
            cols >= 0,
            spc >= 0,
    ;
    let q = i / spc;
    vstd::arithmetic::div_mod::lemma_fundamental_div_mod(i, spc);
    vstd::arithmetic::div_mod::lemma_fundamental_div_mod(q, cols);
    vstd::arithmetic::div_mod::lemma_mod_bound(i, spc);
    vstd::arithmetic::div_mod::lemma_mod_bound(q, cols);
    assert(0 <= q < rows * cols) by (nonlinear_arith)
        requires
            0 <= i < rows * cols * spc,
            i == spc * q + i % spc,
            0 <= i % spc < spc,
    ;
    assert(0 <= q / cols < rows) by (nonlinear_arith)
        requires
            0 <= q < rows * cols,
            q == cols * (q / cols) + q % cols,
            0 <= q % cols < cols,
    ;
    let t = seat_at(i, cols, spc);
    assert(t.row == q / cols && t.col == q % cols && t.seat_id == i % spc);
    assert(t.row * cols + t.col == q) by (nonlinear_arith)
        requires
            t.row == q / cols,
            t.col == q % cols,
            q == cols * (q / cols) + q % cols,
    ;
    assert(seat_index(t, cols, spc) == i) by (nonlinear_arith)
        requires
            t.row * cols + t.col == q,
            t.seat_id == i % spc,
            i == spc * q + i % spc,
    ;
}

/// The seats of one cabin that have been recorded, in the order in which they
/// were added, with a flag per seat for constant-time lookup.
pub struct SeatSet {
    rows: u32,
    cols: u32,
    spc: u32,
    flags: Vec<bool>,
    items: Vec<Seat>,
}

impl View for SeatSet {
    type V = Seq<Seat>;

    closed spec fn view(&self) -> Seq<Seat> {
        self.items@
    }
}

impl SeatSet {
    pub closed spec fn rows(&self) -> int {
        self.rows as int
    }

    pub closed spec fn cols(&self) -> int {
        self.cols as int
    }

    pub closed spec fn spc(&self) -> int {
        self.spc as int
    }

    /// Whether `s` belongs to the geometry of this set.
    pub open spec fn holds_seat(&self, s: Seat) -> bool {
        seat_in(s, self.rows(), self.cols(), self.spc())
    }

    pub open spec fn size(&self) -> int {
        capacity(self.rows(), self.cols(), self.spc())
    }

    pub closed spec fn wf(&self) -> bool {
        &&& self.flags.len() == capacity(self.rows as int, self.cols as int, self.spc as int)
        &&& self.items@.no_duplicates()
        &&& forall|i: int| 0 <= i < self.items.len() ==> #[trigger] self.holds_seat(self.items[i])
        &&& forall|s: Seat| #[trigger]
            self.holds_seat(s) ==> self.flags[seat_index(s, self.cols as int, self.spc as int)]
                == self.items@.contains(s)
        &&& count_true(self.flags@) == self.items.len()
    }

    /// Every recorded seat is distinct and inside the geometry, so there are
    /// never more of them than the cabin has seats.
    pub proof fn lemma_bounded(&self)
        requires
            self.wf(),
        ensures
            self@.no_duplicates(),
            forall|i: int| 0 <= i < self@.len() ==> #[trigger] self.holds_seat(self@[i]),
            self@.len() <= self.size(),
    {
        lemma_count_le(self.flags@);
    }

    /// An empty set for a cabin of the given geometry.
    pub fn new(rows: u32, cols: u32, spc: u32) -> (r: SeatSet)
        requires
            capacity(rows as int, cols as int, spc as int) <= usize::MAX,
        ensures
            r.wf(),
            r@ == Seq::<Seat>::empty(),
            r.rows() == rows,
            r.cols() == cols,
            r.spc() == spc,
    {
        assert(rows as int * cols as int <= rows as int * cols as int * spc as int || spc == 0)
            by (nonlinear_arith);
        let n: usize = if spc == 0 {
            0
        } else {
            (rows as usize) * (cols as usize) * (spc as usize)
        };
        assert(n == capacity(rows as int, cols as int, spc as int)) by (nonlinear_arith)
            requires
                spc == 0 ==> n == 0,
                spc != 0 ==> n == rows as int * cols as int * spc as int,
        ;
        let mut flags: Vec<bool> = Vec::new();
        let mut j: usize = 0;
        while j < n
            invariant
                j <= n,
                flags@ == Seq::new(j as nat, |_i: int| false),
            decreases n - j,
        {
            flags.push(false);
            j = j + 1;
            assert(flags@ =~= Seq::new(j as nat, |_i: int| false));
        }
        proof {
            lemma_count_none(flags@);
        }
        let r = SeatSet { rows, cols, spc, flags, items: Vec::new() };
        proof {
            assert forall|s: Seat| #[trigger] r.holds_seat(s) implies r.flags[seat_index(
                s,
                cols as int,
                spc as int,
            )] == r.items@.contains(s) by {
                lemma_index_bound(s, rows as int, cols as int, spc as int);
            }
        }
        r
    }

    fn position(&self, s: Seat) -> (r: usize)
        requires
            self.wf(),
            self.holds_seat(s),
        ensures
            r == seat_index(s, self.cols(), self.spc()),
            r < self.flags.len(),
    {
        proof {
            lemma_index_bound(s, self.rows(), self.cols(), self.spc());
        }
        ((s.row as usize) * (self.cols as usize) + (s.col as usize)) * (self.spc as usize)
            + (s.seat_id as usize)
    }

    /// Whether `s` has been recorded.
    pub fn contains(&self, s: Seat) -> (r: bool)
        requires
            self.wf(),
            self.holds_seat(s),
        ensures
            r == self@.contains(s),
    {
        let i = self.position(s);
        self.flags[i]
    }

    /// Number of recorded seats.
    pub fn len(&self) -> (r: usize)
        requires
            self.wf(),
        ensures
            r == self@.len(),
    {
        self.items.len()
    }

    /// The recorded seats, in the order in which they were added.
    pub fn seats(&self) -> (r: &Vec<Seat>)
        ensures
            r@ == self@,
    {
        &self.items
    }

    /// Records a seat that was not recorded yet.
    pub fn insert(&mut self, s: Seat)
        requires
            old(self).wf(),
            old(self).holds_seat(s),
            !old(self)@.contains(s),
        ensures
            final(self).wf(),
            final(self)@ == old(self)@.push(s),
            final(self).rows() == old(self).rows(),
            final(self).cols() == old(self).cols(),
            final(self).spc() == old(self).spc(),
    {
        let i = self.position(s);
        proof {
            lemma_count_set(self.flags@, i as int);
        }
        self.flags.set(i, true);
        self.items.push(s);
        proof {
            assert(self.items@ == old(self).items@.push(s));
            assert(self.flags@ == old(self).flags@.update(i as int, true));
            let (rows, cols, spc) = (self.rows as int, self.cols as int, self.spc as int);
            assert forall|t: Seat| #[trigger] self.holds_seat(t) implies self.flags[seat_index(
                t,
                cols,
                spc,
            )] == self.items@.contains(t) by {
                lemma_index_bound(t, rows, cols, spc);
                if t != s {
                    lemma_index_inverse(t, rows, cols, spc);
                    lemma_index_inverse(s, rows, cols, spc);
                    assert(seat_index(t, cols, spc) != i);
                    assert(old(self).holds_seat(t));
                    assert(self.flags[seat_index(t, cols, spc)] == old(self).flags[seat_index(
                        t,
                        cols,
                        spc,
                    )]);
                    assert(self.items@.contains(t) == old(self).items@.contains(t)) by {
                        if self.items@.contains(t) {
                            let k = choose|k: int| 0 <= k < self.items.len() && self.items[k] == t;
                            assert(old(self).items[k] == t);
                        }
                        if old(self).items@.contains(t) {
                            let k = choose|k: int|
                                0 <= k < old(self).items.len() && old(self).items[k] == t;
                            assert(self.items[k] == t);
                        }
                    }
                } else {
                    assert(self.items[self.items.len() - 1] == s);
                }
            }
            assert forall|a: int, b: int|
                0 <= a < self.items.len() && 0 <= b < self.items.len() && a != b implies
                self.items[a] != self.items[b] by {
                if a == self.items.len() - 1 {
                    assert(!old(self).items@.contains(s));
                    assert(old(self).items[b] == self.items[b]);
                } else if b == self.items.len() - 1 {
                    assert(old(self).items[a] == self.items[a]);
                }
            }
            assert forall|k: int| 0 <= k < self.items.len() implies #[trigger] self.holds_seat(
                self.items[k],
            ) by {
                if k < old(self).items.len() {
                    assert(self.items[k] == old(self).items[k]);
                    assert(old(self).holds_seat(old(self).items[k]));
                }
            }
        }
    }

    /// Number of seats of the geometry.
    pub fn seat_count(&self) -> (r: usize)
        requires
            self.wf(),
        ensures
            r == self.size(),
    {
        self.flags.len()
    }

    /// Number of seats at positions below `i` that have not been recorded.
    pub closed spec fn free_below(&self, i: int) -> int {
        i - count_true(self.flags@.subrange(0, i))
    }

    /// The `k`-th seat, counting from zero in row-major order, among those
    /// not recorded.
    pub fn nth_free(&self, k: usize) -> (r: Seat)
        requires
            self.wf(),
            k < self.size() - self@.len(),
        ensures
            self.holds_seat(r),
            !self@.contains(r),
            self.free_below(seat_index(r, self.cols(), self.spc())) == k,
    {
        let n = self.flags.len();
        let mut i: usize = 0;
        let mut c: usize = 0;
        while i < n
            invariant
                self.wf(),
                n == self.flags.len(),
                k < self.size() - self@.len(),
                i <= n,
                c <= k,
                c == self.free_below(i as int),
            decreases n - i,
        {
            proof {
                let b = self.flags@;
                assert(b.subrange(0, i as int + 1).drop_last() =~= b.subrange(0, i as int));
            }
            if !self.flags[i] {
                if c == k {
                    proof {
                        lemma_position_seat(i as int, self.rows(), self.cols(), self.spc());
                    }
                    let q = i / (self.spc as usize);
                    let s = Seat {
                        row: (q / (self.cols as usize)) as u32,
                        col: (q % (self.cols as usize)) as u32,
                        seat_id: (i % (self.spc as usize)) as u32,
                    };
                    assert(s == seat_at(i as int, self.cols(), self.spc()));
                    assert(self.holds_seat(s));
                    assert(seat_index(s, self.cols(), self.spc()) == i);
                    return s;
                }
                c = c + 1;
            }
            i = i + 1;
        }
        proof {
            assert(self.flags@.subrange(0, n as int) =~= self.flags@);
        }
        assert(false);
        Seat { row: 0, col: 0, seat_id: 0 }
    }
}

proof fn lemma_count_none(b: Seq<bool>)
    requires
        forall|i: int| 0 <= i < b.len() ==> !b[i],
    ensures
        count_true(b) == 0,
    decreases b.len(),
{
    if b.len() > 0 {
        lemma_count_none(b.drop_last());
    }
}

} // verus!
