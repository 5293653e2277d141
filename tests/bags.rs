use advent::bags::BagError;
use advent::bags::BagRule;
use advent::bags::BagType;
use advent::bags::RuleBook;
use advent::bags::RulePair;

const SAMPLE: &str = "
light red bags contain 1 bright white bag, 2 muted yellow bags.
dark orange bags contain 3 bright white bags, 4 muted yellow bags.
bright white bags contain 1 shiny gold bag.
muted yellow bags contain 2 shiny gold bags, 9 faded blue bags.
shiny gold bags contain 1 dark olive bag, 2 vibrant plum bags.
dark olive bags contain 3 faded blue bags, 4 dotted black bags.
vibrant plum bags contain 5 faded blue bags, 6 dotted black bags.
faded blue bags contain no other bags.
dotted black bags contain no other bags.
";

const DEEP: &str = "shiny gold bags contain 2 dark red bags.
dark red bags contain 2 dark orange bags.
dark orange bags contain 2 dark yellow bags.
dark yellow bags contain 2 dark green bags.
dark green bags contain 2 dark blue bags.
dark blue bags contain 2 dark violet bags.
dark violet bags contain no other bags.";

fn gold() -> BagType {
    BagType("gold".to_string(), "shiny".to_string())
}

#[test]
fn sample_holders_and_count() {
    let book: RuleBook = SAMPLE.parse().unwrap();
    assert_eq!(book.0.len(), 9);
    let mut holders: Vec<String> = book
        .solve(&gold())
        .unwrap()
        .iter()
        .map(|t| format!("{} {}", t.1, t.0))
        .collect();
    holders.sort();
    assert_eq!(holders, vec!["bright white", "dark orange", "light red", "muted yellow"]);
    assert_eq!(book.count(&gold()).unwrap() - 1, 32);
}

#[test]
fn deep_count() {
    let book: RuleBook = DEEP.parse().unwrap();
    assert_eq!(book.count(&gold()).unwrap() - 1, 126);
    assert!(book.solve(&gold()).unwrap().is_empty());
}

#[test]
fn inverted_rules() {
    let book: RuleBook = SAMPLE.parse().unwrap();
    let inv = book.invert();
    assert_eq!(inv[4], vec![false, false, true, true, false, false, false, false, false]);
    assert!(inv[0].iter().all(|b| !b));
}

#[test]
fn rule_book_errors() {
    let unknown = BagType("teal".to_string(), "plain".to_string());
    let book: RuleBook = SAMPLE.parse().unwrap();
    assert_eq!(book.solve(&unknown).err(), Some(BagError::UnknownBagType));
    assert_eq!(book.count(&unknown).err(), Some(BagError::UnknownBagType));
    assert_eq!(
        "a b bags contain 1 c d bag.".parse::<RuleBook>().err(),
        Some(BagError::UndefinedKeys)
    );
    assert_eq!(
        "a b bags contain no other bags.\na b bags contain no other bags.".parse::<RuleBook>().err(),
        Some(BagError::DuplicateKeys)
    );
    assert_eq!("a b bags contain no other bags".parse::<RuleBook>().err(), Some(BagError::MissingPairSuffix));
    assert_eq!("a b bags hold no other bags.".parse::<RuleBook>().err(), Some(BagError::InvalidPairSyntax));
    assert_eq!("a b boxes contain no other bags.".parse::<RuleBook>().err(), Some(BagError::InvalidTypeSuffix));
    assert_eq!("a bags contain no other bags.".parse::<RuleBook>().err(), Some(BagError::InvalidTypeSyntax));
    assert_eq!("a b bags contain x c d bags.".parse::<RuleBook>().err(), Some(BagError::InvalidNumberFormat));
    assert_eq!("a b bags contain 3.".parse::<RuleBook>().err(), Some(BagError::InvalidRuleSyntax));
    let rule = BagRule::parse(" 2 shiny gold bags ").unwrap();
    assert_eq!(rule.1, 2);
    assert_eq!(rule.0 .0, "gold");
    let pair = RulePair::parse("faded blue bags contain no other bags.").unwrap();
    assert!(pair.1.is_empty());
    assert_eq!(BagType::parse("shiny gold").err(), Some(BagError::InvalidTypeSyntax));
}

#[test]
fn cycles_are_found() {
    let book: RuleBook = "a b bags contain 1 c d bag.\nc d bags contain 2 a b bags.".parse().unwrap();
    let holders = book.solve(&BagType("b".to_string(), "a".to_string())).unwrap();
    assert_eq!(holders.len(), 2);
}

#[test]
fn unicode_whitespace_in_rules() {
    let book: RuleBook = "shiny\u{A0}gold bags contain 2 dark\u{2003}red bags.\ndark red bags contain no other bags.\u{85}"
        .parse()
        .unwrap();
    assert_eq!(book.count_checked(&gold()), Ok(3));
}

#[test]
fn checked_count_reports_overflow() {
    let book: RuleBook = "shiny gold bags contain 70000 dark red bags.
dark red bags contain 70000 dark blue bags.
dark blue bags contain no other bags."
        .parse()
        .unwrap();
    assert_eq!(book.count_checked(&gold()), Err(BagError::CountOverflow));
    let unknown = BagType("teal".to_string(), "plain".to_string());
    assert_eq!(book.count_checked(&unknown), Err(BagError::UnknownBagType));
    let sample: RuleBook = SAMPLE.parse().unwrap();
    assert_eq!(sample.count_checked(&gold()), Ok(33));
}
