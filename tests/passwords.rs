use advent::passwords::parse;
use advent::passwords::parse_line;
use advent::passwords::validate_primary;
use advent::passwords::validate_secondary;
use advent::passwords::PasswordError;

#[test]
fn sample_policies() {
    let entries = parse("1-3 a: abcde\n1-3 b: cdefg\n2-9 c: ccccccccc\n").unwrap();
    let primary: Vec<bool> = entries.iter().map(validate_primary).collect();
    assert_eq!(primary, vec![true, false, true]);
    let secondary: Vec<bool> = entries.iter().map(validate_secondary).collect();
    assert_eq!(secondary, vec![true, false, false]);
    assert_eq!(entries[0].policy.min, 1);
    assert_eq!(entries[0].policy.max, 3);
    assert_eq!(entries[0].policy.target, 'a');
    assert_eq!(entries[0].password, vec!['a', 'b', 'c', 'd', 'e']);
}

#[test]
fn password_errors_carry_the_line() {
    let err = parse("1-3 a: abcde\n1-3 b cdefg\n").err().unwrap();
    assert_eq!(err.line, 1);
    assert_eq!(err.error, PasswordError::InvalidPasswordDivider);
    let err = parse_line((4, "1-3: abc")).err().unwrap();
    assert_eq!(err.line, 4);
    assert_eq!(err.error, PasswordError::InvalidTargetDivider);
    assert_eq!(parse_line((0, "13 a: abc")).err().unwrap().error, PasswordError::InvalidSpecifierDivider);
    assert_eq!(parse_line((0, "1-3 ab: abc")).err().unwrap().error, PasswordError::InvalidTargetLength);
    assert_eq!(parse_line((0, "x-3 a: abc")).err().unwrap().error, PasswordError::InvalidMinSpecifier);
    assert_eq!(parse_line((0, "1-y a: abc")).err().unwrap().error, PasswordError::InvalidMaxSpecifier);
}

#[test]
fn positions_past_the_end_hold_nothing() {
    let entry = parse_line((0, "2-9 c: cc")).unwrap();
    assert!(validate_secondary(&entry));
    assert!(validate_primary(&entry));
    let entry = parse_line((0, "3-3 c: ccc")).unwrap();
    assert!(!validate_secondary(&entry));
}

#[test]
fn unicode_whitespace_separates_words() {
    let entry = parse_line((0, "1-3\u{A0}a:\u{3000}abcde")).unwrap();
    assert_eq!(entry.policy.target, 'a');
    assert_eq!(entry.policy.min, 1);
    assert_eq!(entry.policy.max, 3);
    assert_eq!(entry.password, vec!['a', 'b', 'c', 'd', 'e']);
}
