use advent::calibration::extract_digit;
use advent::calibration::find_value;
use advent::calibration::scan_lines;
use advent::calibration::sum_values;
use advent::text::paragraphs;

const FIRST_SAMPLE: &str = "
    1abc2
    pqr3stu8vwx
    a1b2c3d4e5f
    treb7uchet
";

const SECOND_SAMPLE: &str = "
    two1nine
    eightwothree
    abcone2threexyz
    xtwone3four
    4nineeightseven2
    zoneight234
    7pqrstsixteen
";

fn collect_values(input: &str) -> Option<Vec<i32>> {
    scan_lines(input).iter().map(|line| find_value(line)).collect()
}

#[test]
fn test_first_values() {
    let actual = collect_values(FIRST_SAMPLE);
    let expect = Some(vec![12, 38, 15, 77]);

    assert_eq!(actual, expect);
}

#[test]
fn test_first_result() {
    let actual = sum_values(FIRST_SAMPLE);
    let expect = Some(142);

    assert_eq!(actual, expect);
}

#[test]
fn test_second_values() {
    let actual = collect_values(SECOND_SAMPLE);
    let expect = Some(vec![29, 83, 13, 24, 42, 14, 76]);

    assert_eq!(actual, expect);
}

#[test]
fn test_second_result() {
    let actual = sum_values(SECOND_SAMPLE);
    let expect = Some(281);

    assert_eq!(actual, expect);
}

#[test]
fn digits_and_missing_values() {
    let chars: Vec<char> = "seven".chars().collect();
    assert_eq!(extract_digit(&chars), Some('7'));
    let chars: Vec<char> = "xseven".chars().collect();
    assert_eq!(extract_digit(&chars), None);
    let chars: Vec<char> = "5x".chars().collect();
    assert_eq!(extract_digit(&chars), Some('5'));
    assert_eq!(sum_values("abc\n12"), None);
    assert_eq!(sum_values("\n  \n"), Some(0));
    let lines = scan_lines(" a \n\n b");
    assert_eq!(lines, vec![vec!['a'], vec!['b']]);
}

#[test]
fn blank_line_pieces() {

    assert_eq!(paragraphs("a\n\nb"), vec!["a", "b"]);
    assert_eq!(paragraphs("a\n\n\nb"), vec!["a", "\nb"]);
    assert_eq!(paragraphs("\n\n\n\n"), vec!["", "", ""]);
    assert_eq!(paragraphs(""), vec![""]);
}
