use std::str::FromStr;

use advent::seat::Bound;
use advent::seat::Seat;
use advent::seat::SeatError;

#[test]
fn seat_bfffbbfrrr() {
    let spec: Seat = "BFFFBBFRRR".parse().unwrap();

    assert_eq!(spec.row_number(), 70);
    assert_eq!(spec.col_number(), 7);
    assert_eq!(spec.seat_number(), 567);
}

#[test]
fn seat_fffbbbfrrr() {
    let spec: Seat = "FFFBBBFRRR".parse().unwrap();

    assert_eq!(spec.row_number(), 14);
    assert_eq!(spec.col_number(), 7);
    assert_eq!(spec.seat_number(), 119);
}

#[test]
fn test_third() {
    let spec: Seat = "BBFFBBFRLL".parse().unwrap();

    assert_eq!(spec.row_number(), 102);
    assert_eq!(spec.col_number(), 4);
    assert_eq!(spec.seat_number(), 820);
}

#[test]
fn test_extra() {
    let spec: Seat = "BBFFBBBRLR".parse().unwrap();

    assert_eq!(spec.row_number(), 103);
    assert_eq!(spec.col_number(), 5);
    assert_eq!(spec.seat_number(), 829);
}

#[test]
fn seat_code_errors() {
    assert_eq!(Seat::from_str("BFFXBBFRRR").err(), Some(SeatError::InvalidRowValue));
    assert_eq!(Seat::from_str("BFF").err(), Some(SeatError::InvalidRowCount));
    assert_eq!(Seat::from_str("BFFFBBFRXR").err(), Some(SeatError::InvalidColValue));
    assert_eq!(Seat::from_str("BFFFBBFR").err(), Some(SeatError::InvalidColCount));
    assert_eq!(Seat::from_str("BFFFBBFRRRL").err(), Some(SeatError::InvalidValueCount));
    assert_eq!(Bound::try_from_row('L'), Err(SeatError::InvalidRowValue));
    assert_eq!(Bound::try_from_col('R'), Ok(Bound::Upper));
}

#[test]
fn number_reads_binary() {

    assert_eq!(Seat::number(&[Bound::Upper]), 1);
    assert_eq!(Seat::number(&[Bound::Lower]), 0);
    assert_eq!(Seat::number(&[Bound::Upper, Bound::Lower, Bound::Upper]), 5);
    assert_eq!(Seat::number(&[Bound::Upper; 15]), 32767);
}
