use boarding::airplane::{Plane, PlaneSize, TickError};
use boarding::person::{GeneratorError, Person, PersonGenerator, RandomPersonGenerator, Seat};

fn seat(row: u32, col: u32, seat_id: u32) -> Seat {
    Seat { row, col, seat_id }
}

fn person(row: u32, col: u32, seat_id: u32, delay: u32) -> Person {
    Person { seat: seat(row, col, seat_id), time_left_to_sit: delay }
}

fn size(rows: u32, cols: u32, seats_per_cols: u32) -> PlaneSize {
    PlaneSize { rows, cols, seats_per_cols }
}

fn drain(generator: &mut RandomPersonGenerator) -> Vec<Person> {
    let mut out = Vec::new();
    while let Some(p) = generator.next() {
        out.push(p);
    }
    out
}

#[test]
fn aisle_count_has_one_aisle_for_few_columns() {
    assert_eq!(size(3, 0, 1).get_pathways(), 1);
    assert_eq!(size(3, 1, 1).get_pathways(), 1);
    assert_eq!(size(3, 2, 1).get_pathways(), 1);
}

#[test]
fn aisle_count_is_one_less_than_columns() {
    assert_eq!(size(3, 3, 1).get_pathways(), 2);
    assert_eq!(size(3, 4, 1).get_pathways(), 3);
    assert_eq!(size(3, 7, 2).get_pathways(), 6);
}

#[test]
fn generator_hands_out_every_seat_once() {
    let mut g = RandomPersonGenerator::new(3, 2, 2, 100).unwrap();
    assert_eq!(g.total_allowed_people(), 12);
    let people = drain(&mut g);
    assert_eq!(people.len(), 12);
    for (i, p) in people.iter().enumerate() {
        assert!(p.seat.row < 3 && p.seat.col < 2 && p.seat.seat_id < 2);
        assert!(p.time_left_to_sit < Person::MAX_TIME_PER_PERSON);
        for q in &people[i + 1..] {
            assert_ne!(p.seat, q.seat);
        }
    }
    assert!(g.next().is_none());
}

#[test]
fn generator_count_rounds_down() {
    let mut g = RandomPersonGenerator::new(3, 1, 1, 50).unwrap();
    assert_eq!(g.total_allowed_people(), 1);
    assert_eq!(drain(&mut g).len(), 1);
    let mut g = RandomPersonGenerator::new(10, 3, 2, 75).unwrap();
    assert_eq!(g.total_allowed_people(), 45);
    let people = drain(&mut g);
    assert_eq!(people.len(), 45);
    for (i, p) in people.iter().enumerate() {
        for q in &people[i + 1..] {
            assert_ne!(p.seat, q.seat);
        }
    }
}

#[test]
fn generator_with_zero_loading_factor_is_empty() {
    let mut g = RandomPersonGenerator::new(4, 4, 4, 0).unwrap();
    assert_eq!(g.total_allowed_people(), 0);
    assert!(g.next().is_none());
}

#[test]
fn generator_of_empty_cabin_is_empty() {
    let mut g = RandomPersonGenerator::new(0, 4, 4, 100).unwrap();
    assert!(g.next().is_none());
}

#[test]
fn loading_factor_above_hundred_is_rejected() {
    assert!(matches!(
        RandomPersonGenerator::new(2, 2, 2, 101),
        Err(GeneratorError::LoadingFactorTooHigh)
    ));
    assert!(matches!(
        RandomPersonGenerator::new(2, 2, 2, u32::MAX),
        Err(GeneratorError::LoadingFactorTooHigh)
    ));
    assert!(RandomPersonGenerator::new(2, 2, 2, 100).is_ok());
}

#[test]
fn oversized_cabin_is_rejected() {
    assert!(matches!(
        RandomPersonGenerator::new(u32::MAX, u32::MAX, u32::MAX, 100),
        Err(GeneratorError::CabinTooLarge)
    ));
}

#[test]
fn single_seat_cabin_boards_one_passenger() {
    let mut g = RandomPersonGenerator::new(1, 1, 1, 100).unwrap();
    let p = g.next().unwrap();
    assert_eq!(p.seat, seat(0, 0, 0));
    assert!(g.next().is_none());

    let mut plane = Plane::new(size(1, 1, 1));
    assert!(plane.add_passenger_to_line(p));
    let mut ticks: u32 = 0;
    while !plane.is_seated(p.seat) {
        plane.tick().unwrap();
        ticks += 1;
    }
    assert_eq!(ticks, p.time_left_to_sit + 1);
    assert!(plane.is_empty());
    assert_eq!(plane.occupied_seats(), &vec![seat(0, 0, 0)]);
}

#[test]
fn sit_delay_counts_down_before_seating() {
    let mut plane = Plane::new(size(1, 1, 1));
    let p = person(0, 0, 0, 3);
    assert!(plane.add_passenger_to_line(p));
    plane.tick().unwrap();
    assert_eq!(plane.cell(0, 0), Some(person(0, 0, 0, 2)));
    plane.tick().unwrap();
    plane.tick().unwrap();
    assert_eq!(plane.cell(0, 0), Some(person(0, 0, 0, 0)));
    assert!(!plane.is_seated(p.seat));
    plane.tick().unwrap();
    assert_eq!(plane.cell(0, 0), None);
    assert!(plane.is_seated(p.seat));
}

#[test]
fn two_columns_share_the_first_aisle() {
    let plane = Plane::new(size(2, 2, 1));
    assert_eq!(plane.size().get_pathways(), 1);
    assert_eq!(plane.get_pathway(1), [0, 0]);
    assert_eq!(plane.get_pathway(0), [0, 0]);
    assert!(Plane::is_valid_pathway(0, 1));
    assert!(Plane::is_valid_pathway(0, 0));
    assert!(!Plane::is_valid_pathway(0, 2));
}

#[test]
fn later_columns_try_two_aisles() {
    let plane = Plane::new(size(2, 4, 1));
    assert_eq!(plane.get_pathway(2), [2, 1]);
    assert_eq!(plane.get_pathway(3), [3, 2]);
    assert!(Plane::is_valid_pathway(2, 3));
    assert!(Plane::is_valid_pathway(1, 2));
}

#[test]
fn blocked_entrance_refuses_until_tick() {
    let mut plane = Plane::new(size(2, 2, 1));
    let first = person(1, 0, 0, 0);
    let second = person(1, 1, 0, 0);
    assert!(plane.add_passenger_to_line(first));
    assert!(!plane.add_passenger_to_line(second));
    assert!(!plane.add_passenger_to_line(second));
    assert_eq!(plane.cell(0, 0), Some(first));
    plane.tick().unwrap();
    assert_eq!(plane.cell(0, 1), Some(first));
    assert_eq!(plane.cell(0, 0), None);
    assert!(plane.add_passenger_to_line(second));
    assert_eq!(plane.cell(0, 0), Some(second));
}

#[test]
fn board_into_free_entrance_takes_no_tick() {
    let mut plane = Plane::new(size(2, 2, 1));
    assert_eq!(plane.board(person(1, 0, 0, 0)), Ok(0));
    assert_eq!(plane.cell(0, 0), Some(person(1, 0, 0, 0)));
}

#[test]
fn board_waits_for_the_entrance() {
    let mut plane = Plane::new(size(2, 2, 1));
    assert_eq!(plane.board(person(1, 0, 0, 0)), Ok(0));
    assert_eq!(plane.board(person(1, 1, 0, 0)), Ok(1));
    assert_eq!(plane.cell(0, 1), Some(person(1, 0, 0, 0)));
    assert_eq!(plane.cell(0, 0), Some(person(1, 1, 0, 0)));
}

#[test]
fn board_waits_behind_a_sitting_passenger() {
    let mut plane = Plane::new(size(1, 1, 2));
    assert_eq!(plane.board(person(0, 0, 0, 3)), Ok(0));
    assert_eq!(plane.board(person(0, 0, 1, 0)), Ok(4));
    assert!(plane.is_seated(seat(0, 0, 0)));
    assert_eq!(plane.cell(0, 0), Some(person(0, 0, 1, 0)));
}

#[test]
fn second_column_pair_uses_its_own_aisle() {
    let mut plane = Plane::new(size(1, 3, 1));
    assert!(plane.add_passenger_to_line(person(0, 2, 0, 0)));
    assert_eq!(plane.cell(1, 0), Some(person(0, 2, 0, 0)));
    assert!(plane.add_passenger_to_line(person(0, 1, 0, 0)));
    assert_eq!(plane.cell(0, 0), Some(person(0, 1, 0, 0)));
    assert!(!plane.add_passenger_to_line(person(0, 0, 0, 0)));
    assert!(!plane.add_passenger_to_line(person(0, 2, 0, 0)));
}

#[test]
fn waiting_passenger_blocks_the_one_behind() {
    let mut plane = Plane::new(size(3, 1, 1));
    let front = person(1, 0, 0, 2);
    let back = person(2, 0, 0, 0);
    assert!(plane.add_passenger_to_line(front));
    plane.tick().unwrap();
    assert!(plane.add_passenger_to_line(back));
    plane.tick().unwrap();
    assert_eq!(plane.cell(0, 1), Some(person(1, 0, 0, 1)));
    assert_eq!(plane.cell(0, 0), Some(back));
    plane.tick().unwrap();
    assert_eq!(plane.cell(0, 0), Some(back));
    plane.tick().unwrap();
    assert!(plane.is_seated(front.seat));
    assert_eq!(plane.cell(0, 1), Some(back));
    plane.tick().unwrap();
    assert_eq!(plane.cell(0, 2), Some(back));
    plane.tick().unwrap();
    assert!(plane.is_seated(back.seat));
    assert!(plane.is_empty());
}

#[test]
fn same_seat_twice_is_a_tick_error() {
    let mut plane = Plane::new(size(1, 1, 1));
    let p = person(0, 0, 0, 0);
    assert!(plane.add_passenger_to_line(p));
    plane.tick().unwrap();
    assert!(plane.add_passenger_to_line(p));
    assert_eq!(plane.tick(), Err(TickError::SeatTaken));
}

#[test]
fn full_run_seats_everyone() {
    let mut g = RandomPersonGenerator::new(6, 3, 2, 100).unwrap();
    let mut plane = Plane::new(size(6, 3, 2));
    let mut seated = 0;
    let mut admitted = 0;
    while let Some(p) = g.next() {
        plane.board(p).unwrap();
        let now = plane.occupied_seats().len();
        assert!(now >= seated);
        assert!(now <= 36);
        seated = now;
        admitted += 1;
    }
    assert_eq!(admitted, 36);
    let mut ticks = 0;
    while !plane.is_empty() {
        plane.tick().unwrap();
        ticks += 1;
        assert!(ticks < 10_000);
    }
    assert_eq!(plane.occupied_seats().len(), 36);
}

#[test]
fn cell_outside_the_cabin_is_none() {
    let plane = Plane::new(size(2, 2, 1));
    assert_eq!(plane.cell(1, 0), None);
    assert_eq!(plane.cell(0, 2), None);
    assert!(!plane.is_seated(seat(5, 0, 0)));
}

#[test]
fn draws_pick_seat_by_remainder() {
    let g = RandomPersonGenerator::new(3, 4, 5, 100).unwrap();
    assert_eq!(g.seat_of_draws(7, 9, 23), seat(1, 1, 3));
    assert_eq!(g.seat_of_draws(2, 3, 4), seat(2, 3, 4));
    assert_eq!(g.seat_of_draws(u32::MAX, 0, 5), seat(0, 0, 0));
}

#[test]
fn draw_gives_sit_delay_by_remainder() {
    assert_eq!(RandomPersonGenerator::sit_delay_of_draw(0), 0);
    assert_eq!(RandomPersonGenerator::sit_delay_of_draw(13), 3);
    assert_eq!(RandomPersonGenerator::sit_delay_of_draw(4), 4);
}

#[test]
fn two_seat_cabin_hands_out_both_seats() {
    let mut g = RandomPersonGenerator::new(2, 1, 1, 100).unwrap();
    let a = g.next().unwrap();
    let b = g.next().unwrap();
    assert!(g.next().is_none());
    let mut rows = vec![a.seat.row, b.seat.row];
    rows.sort();
    assert_eq!(rows, vec![0, 1]);
    assert_eq!(a.seat.col, 0);
    assert_eq!(b.seat.seat_id, 0);
}

#[test]
fn failed_tick_keeps_earlier_seats() {
    let mut plane = Plane::new(size(1, 1, 2));
    let p = person(0, 0, 0, 0);
    assert!(plane.add_passenger_to_line(p));
    plane.tick().unwrap();
    assert!(plane.add_passenger_to_line(p));
    assert_eq!(plane.tick(), Err(TickError::SeatTaken));
    assert_eq!(plane.occupied_seats(), &vec![seat(0, 0, 0)]);
}
