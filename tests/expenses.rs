use advent::expenses::find_pair;
use advent::expenses::find_triplet;
use advent::expenses::parse;

#[test]
fn pair_and_triplet_of_sample() {
    let mut values = parse("1721\n979\n366\n299\n675\n1456\n").unwrap();
    values.sort();
    let (x, y) = find_pair(&values).unwrap();
    assert_eq!(x * y, 514579);
    let (a, b, c) = find_triplet(&values).unwrap();
    assert_eq!(a + b + c, 2020);
    assert_eq!(a * b * c, 241861950);
}

#[test]
fn pair_missing_and_bad_input() {
    assert_eq!(find_pair(&[1, 2, 3]), None);
    assert_eq!(find_pair(&[]), None);
    assert_eq!(find_pair(&[1010]), Some((1010, 1010)));
    assert_eq!(find_triplet(&[1, 2, 3]), None);
    assert_eq!(parse("12\nx1\n"), None);
    assert_eq!(parse("-5\r\n+7"), Some(vec![-5, 7]));
    assert_eq!(parse(""), Some(vec![]));
}
