use advent::answers::AnswerError;
use advent::answers::Group;
use advent::answers::Sheet;

#[test]
fn tests_test_first() {
    let group: Group = "abc".parse().unwrap();

    assert_eq!(Group::count(group.union()), 3);
    assert_eq!(Group::count(group.intersection()), 3);
}

#[test]
fn tests_test_second() {
    let group: Group = "a\nb\nc".parse().unwrap();

    assert_eq!(Group::count(group.union()), 3);
    assert_eq!(Group::count(group.intersection()), 0);
}

#[test]
fn tests_test_third() {
    let group: Group = "ab\nac".parse().unwrap();

    assert_eq!(Group::count(group.union()), 3);
    assert_eq!(Group::count(group.intersection()), 1);
}

#[test]
fn test_fourth() {
    let group: Group = "a\na\na\na\na".parse().unwrap();

    assert_eq!(Group::count(group.union()), 1);
    assert_eq!(Group::count(group.intersection()), 1);
}

#[test]
fn test_fifth() {
    let group: Group = "b".parse().unwrap();

    assert_eq!(Group::count(group.union()), 1);
    assert_eq!(Group::count(group.intersection()), 1);
}

#[test]
fn bitmask_and_errors() {
    assert_eq!(Sheet::bitmask('a'), Ok(1));
    assert_eq!(Sheet::bitmask('z'), Ok(1 << 25));
    assert_eq!(Sheet::bitmask('A'), Err(AnswerError::InvalidCharacter));
    assert_eq!("ab\na1".parse::<Group>().err(), Some(AnswerError::InvalidCharacter));
    let group: Group = "  abz \n zb\n".parse().unwrap();
    assert_eq!(group.union(), 0b10_0000_0000_0000_0000_0000_0011);
    assert_eq!(group.intersection(), (1 << 25) | 2);
    assert_eq!(Group::count(u32::MAX), 32);
    assert_eq!(Group::count(0), 0);
    assert_eq!(Group(vec![]).intersection(), u32::MAX);
}

use advent::answers::answer_sums;

#[test]
fn sums_over_groups() {
    let text = "abc\n\na\nb\nc\n\nab\nac\n\na\na\na\na\n\nb\n";
    assert_eq!(answer_sums(text), Ok((11, 6)));
    assert_eq!(answer_sums("ab\n\nx!"), Err(AnswerError::InvalidCharacter));
}
