//! Discrete-time simulation of passengers boarding an airplane.
pub mod person;
pub mod seat_set;
pub mod airplane;
pub mod progress;
