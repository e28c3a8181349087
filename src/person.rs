//! Passengers, their seats, and the order in which they arrive.
use vstd::prelude::*;

use crate::seat_set::{capacity, seat_in, SeatSet};

verus! {

/// A seat of the cabin: its row, its column, and its place within the column.
#[derive(Clone, Copy, Debug, Default, Hash, PartialEq, Eq, Structural)]
pub struct Seat {
    pub row: u32,
    pub col: u32,
    pub seat_id: u32,
}

/// A passenger: the seat they hold and the ticks they still need to sit down.
#[derive(Clone, Copy, Debug, Default, PartialEq, Eq, Structural)]
pub struct Person {
    pub seat: Seat,
    pub time_left_to_sit: u32,
}

impl Person {
    /// Sit delays are drawn below this bound.
    pub const MAX_TIME_PER_PERSON: u32 = 5;
}

/// Number of passengers that board a cabin of `rows * cols * spc` seats
/// filled to `loading_factor` percent, rounded down.
pub open spec fn allowed_people(rows: int, cols: int, spc: int, loading_factor: int) -> int {
    capacity(rows, cols, spc) * loading_factor / 100
}

/// Why a generator could not be built.
#[derive(Clone, Copy, Debug, PartialEq, Eq, Structural)]
pub enum GeneratorError {
    /// The loading factor is above 100 percent.
    LoadingFactorTooHigh,
    /// The cabin has more seats than this machine can index.
    CabinTooLarge,
}

/// A boarding order: hands out passengers, each on a seat not handed out
/// before, until its limit is reached.
pub trait PersonGenerator {
    /// The generator's own consistency.
    spec fn inv(&self) -> bool;

    /// The seats handed out so far, in order.
    spec fn issued(&self) -> Seq<Seat>;

    /// How many passengers the generator hands out in all.
    spec fn limit(&self) -> int;

    /// Whether `s` is a seat of the cabin the generator fills.
    spec fn has_seat(&self, s: Seat) -> bool;

    /// The next passenger, or `None` once the limit is reached.
    fn next(&mut self) -> (r: Option<Person>)
        requires
            old(self).inv(),
        ensures
            final(self).inv(),
            final(self).limit() == old(self).limit(),
            forall|s: Seat| final(self).has_seat(s) == old(self).has_seat(s),
            match r {
                Some(p) => {
                    &&& old(self).issued().len() < old(self).limit()
                    &&& old(self).has_seat(p.seat)
                    &&& !old(self).issued().contains(p.seat)
                    &&& p.time_left_to_sit < Person::MAX_TIME_PER_PERSON
                    &&& final(self).issued() == old(self).issued().push(p.seat)
                },
                None => {
                    &&& old(self).issued().len() >= old(self).limit()
                    &&& final(self).issued() == old(self).issued()
                },
            },
    ;
}

proof fn lemma_product_fits(a: int, b: int, c: int, l: int)
    requires
        0 <= a <= u32::MAX,
        0 <= b <= u32::MAX,
        0 <= c <= u32::MAX,
        0 <= l <= 100,
    ensures
        0 <= a * b <= 0x1_0000_0000_0000_0000,
        0 <= a * b * c <= 0x1_0000_0000_0000_0000_0000_0000,
        0 <= a * b * c * l <= 100 * 0x1_0000_0000_0000_0000_0000_0000,
        a * b * c == capacity(a, b, c),
{
    assert(0 <= a * b <= 0x1_0000_0000 * 0x1_0000_0000) by (nonlinear_arith)
        requires
            0 <= a <= 0x1_0000_0000,
            0 <= b <= 0x1_0000_0000,
    ;
    let p = a * b;
    assert(0 <= p * c <= 0x1_0000_0000_0000_0000 * 0x1_0000_0000) by (nonlinear_arith)
        requires
            0 <= p <= 0x1_0000_0000_0000_0000,
            0 <= c <= 0x1_0000_0000,
    ;
    let q = a * b * c;
    assert(0 <= q * l <= 0x1_0000_0000_0000_0000_0000_0000 * 100) by (nonlinear_arith)
        requires
            0 <= q <= 0x1_0000_0000_0000_0000_0000_0000,
            0 <= l <= 100,
    ;
}

/// Relies on rand::random::<u32>: a value from the thread-local random
/// generator; nothing is known of it.
#[verifier::external_body]
fn draw_u32() -> u32 {
    rand::random::<u32>()
}

/// Hands out the seats of a cabin in random order.
pub struct RandomPersonGenerator {
    seat_map: SeatSet,
    max_row: u32,
    max_col: u32,
    max_seat: u32,
    loading_factor: u32,
}

impl RandomPersonGenerator {
    /// Random draws made for one passenger before one of the free seats is
    /// picked directly.
    pub const MAX_DRAWS: u32 = 10000;

    pub closed spec fn rows(&self) -> int {
        self.max_row as int
    }

    pub closed spec fn cols(&self) -> int {
        self.max_col as int
    }

    pub closed spec fn seats(&self) -> int {
        self.max_seat as int
    }

    pub closed spec fn loading(&self) -> int {
        self.loading_factor as int
    }

    /// A generator for a cabin of `max_row` rows, `max_col` columns and
    /// `max_seat` seats per column, filled to `loading_factor` percent.
    pub fn new(max_row: u32, max_col: u32, max_seat: u32, loading_factor: u32) -> (r: Result<
        RandomPersonGenerator,
        GeneratorError,
    >)
        ensures
            loading_factor > 100 ==> r == Err::<RandomPersonGenerator, GeneratorError>(
                GeneratorError::LoadingFactorTooHigh,
            ),
            loading_factor <= 100 && capacity(max_row as int, max_col as int, max_seat as int)
                > usize::MAX ==> r == Err::<RandomPersonGenerator, GeneratorError>(
                GeneratorError::CabinTooLarge,
            ),
            loading_factor <= 100 && capacity(max_row as int, max_col as int, max_seat as int)
                <= usize::MAX ==> r is Ok,
            r matches Ok(g) ==> {
                &&& g.inv()
                &&& g.issued() == Seq::<Seat>::empty()
                &&& g.rows() == max_row
                &&& g.cols() == max_col
                &&& g.seats() == max_seat
                &&& g.loading() == loading_factor
                &&& g.limit() == allowed_people(
                    max_row as int,
                    max_col as int,
                    max_seat as int,
                    loading_factor as int,
                )
            },
    {
        if loading_factor > 100 {
            return Err(GeneratorError::LoadingFactorTooHigh);
        }
        proof {
            lemma_product_fits(max_row as int, max_col as int, max_seat as int, 0);
        }
        let seats: u128 = (max_row as u128) * (max_col as u128) * (max_seat as u128);
        if seats > usize::MAX as u128 {
            return Err(GeneratorError::CabinTooLarge);
        }
        Ok(RandomPersonGenerator {
            seat_map: SeatSet::new(max_row, max_col, max_seat),
            max_row,
            max_col,
            max_seat,
            loading_factor,
        })
    }

    /// Number of passengers this generator hands out in all.
    pub fn total_allowed_people(&self) -> (r: usize)
        requires
            self.inv(),
        ensures
            r == self.limit(),
            r <= capacity(self.rows(), self.cols(), self.seats()),
    {
        proof {
            lemma_product_fits(
                self.max_row as int,
                self.max_col as int,
                self.max_seat as int,
                self.loading_factor as int,
            );
        }
        let seats: u128 = (self.max_row as u128) * (self.max_col as u128) * (self.max_seat as u128);
        let total = seats * (self.loading_factor as u128) / 100;
        proof {
            let c = seats as int;
            let l = self.loading_factor as int;
            assert(c * l <= c * 100) by (nonlinear_arith)
                requires
                    0 <= c,
                    0 <= l <= 100,
            ;
            vstd::arithmetic::div_mod::lemma_div_is_ordered(c * l, c * 100, 100);
            vstd::arithmetic::div_mod::lemma_div_by_multiple(c, 100);
        }
        total as usize
    }

    /// The passengers handed out so far sit on pairwise distinct seats of the
    /// cabin, and there are never more of them than the loading factor
    /// allows; with `next` returning `None` exactly at that number, a run
    /// hands out exactly `allowed_people` passengers.
    pub proof fn lemma_issued_distinct(&self)
        requires
            self.inv(),
        ensures
            self.issued().no_duplicates(),
            forall|i: int| 0 <= i < self.issued().len() ==> #[trigger] self.has_seat(
                self.issued()[i],
            ),
            self.issued().len() <= self.limit(),
            self.limit() == allowed_people(self.rows(), self.cols(), self.seats(), self.loading()),
            self.limit() <= capacity(self.rows(), self.cols(), self.seats()),
    {
        self.seat_map.lemma_bounded();
        lemma_product_fits(
            self.max_row as int,
            self.max_col as int,
            self.max_seat as int,
            self.loading_factor as int,
        );
        let c = capacity(self.rows(), self.cols(), self.seats());
        let l = self.loading();
        assert(c * l <= c * 100) by (nonlinear_arith)
            requires
                0 <= c,
                0 <= l <= 100,
        ;
        vstd::arithmetic::div_mod::lemma_div_is_ordered(c * l, c * 100, 100);
        vstd::arithmetic::div_mod::lemma_div_by_multiple(c, 100);
        assert forall|i: int| 0 <= i < self.issued().len() implies #[trigger] self.has_seat(
            self.issued()[i],
        ) by {
            assert(self.seat_map.holds_seat(self.seat_map@[i]));
        }
    }

    /// The seat that three random draws pick: row, column and place, each
    /// taken modulo its bound.
    pub fn seat_of_draws(&self, a: u32, b: u32, c: u32) -> (r: Seat)
        requires
            self.rows() > 0,
            self.cols() > 0,
            self.seats() > 0,
        ensures
            r == (Seat {
                row: (a as int % self.rows()) as u32,
                col: (b as int % self.cols()) as u32,
                seat_id: (c as int % self.seats()) as u32,
            }),
            seat_in(r, self.rows(), self.cols(), self.seats()),
    {
        Seat { row: a % self.max_row, col: b % self.max_col, seat_id: c % self.max_seat }
    }

    /// The sit delay that a random draw gives.
    pub fn sit_delay_of_draw(d: u32) -> (r: u32)
        ensures
            r == d % Person::MAX_TIME_PER_PERSON,
            r < Person::MAX_TIME_PER_PERSON,
    {
        d % Person::MAX_TIME_PER_PERSON
    }

    /// A seat drawn at random from the whole cabin.
    fn random_seat(&self) -> (r: Seat)
        requires
            self.inv(),
            self.max_row > 0,
            self.max_col > 0,
            self.max_seat > 0,
        ensures
            self.has_seat(r),
    {
        let a = draw_u32();
        let b = draw_u32();
        let c = draw_u32();
        self.seat_of_draws(a, b, c)
    }
}

impl PersonGenerator for RandomPersonGenerator {
    closed spec fn inv(&self) -> bool {
        &&& self.seat_map.wf()
        &&& self.seat_map.rows() == self.max_row
        &&& self.seat_map.cols() == self.max_col
        &&& self.seat_map.spc() == self.max_seat
        &&& self.loading_factor <= 100
        &&& self.seat_map@.len() <= self.limit()
        &&& capacity(self.max_row as int, self.max_col as int, self.max_seat as int) <= usize::MAX
    }

    closed spec fn issued(&self) -> Seq<Seat> {
        self.seat_map@
    }

    closed spec fn limit(&self) -> int {
        allowed_people(
            self.max_row as int,
            self.max_col as int,
            self.max_seat as int,
            self.loading_factor as int,
        )
    }

    open spec fn has_seat(&self, s: Seat) -> bool {
        seat_in(s, self.rows(), self.cols(), self.seats())
    }

    /// Draws seats at random until a free one comes up; after `MAX_DRAWS`
    /// taken seats in a row, picks one of the free seats at random instead.
    fn next(&mut self) -> (r: Option<Person>) {
        if self.seat_map.len() >= self.total_allowed_people() {
            return None;
        }
        proof {
            self.seat_map.lemma_bounded();
            assert(self.seat_map.size() == capacity(self.rows(), self.cols(), self.seats()));
            crate::seat_set::lemma_position_seat(
                0,
                self.max_row as int,
                self.max_col as int,
                self.max_seat as int,
            );
        }
        let mut seat = self.random_seat();
        let mut free = !self.seat_map.contains(seat);
        let mut draws: u32 = 1;
        while !free && draws < Self::MAX_DRAWS
            invariant
                self.inv(),
                self.has_seat(seat),
                free == !self.seat_map@.contains(seat),
                self.max_row > 0,
                self.max_col > 0,
                self.max_seat > 0,
                self.seat_map@.len() < self.seat_map.size(),
            decreases Self::MAX_DRAWS - draws,
        {
            seat = self.random_seat();
            free = !self.seat_map.contains(seat);
            draws = draws + 1;
        }
        if !free {
            let left = self.seat_map.seat_count() - self.seat_map.len();
            let k = (draw_u32() as usize) % left;
            seat = self.seat_map.nth_free(k);
        }
        self.seat_map.insert(seat);
        let delay = Self::sit_delay_of_draw(draw_u32());
        Some(Person { seat, time_left_to_sit: delay })
    }
}

} // verus!
