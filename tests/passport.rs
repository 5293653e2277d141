use advent::passport::BirthYear;
use advent::passport::CountryId;
use advent::passport::ExpirationYear;
use advent::passport::EyeColor;
use advent::passport::HairColor;
use advent::passport::Height;
use advent::passport::Issue;
use advent::passport::IssueYear;
use advent::passport::ParserError;
use advent::passport::PassportId;

#[test]
fn years() {
    assert_eq!("2002".parse::<BirthYear>(), Ok(BirthYear(2002)));
    assert_eq!("2003".parse::<BirthYear>(), Err(ParserError(Issue::InvalidByrRange)));
    assert_eq!("20x3".parse::<BirthYear>(), Err(ParserError(Issue::NotANumber)));
    assert_eq!("2010".parse::<IssueYear>(), Ok(IssueYear(2010)));
    assert_eq!("2021".parse::<IssueYear>(), Err(ParserError(Issue::InvalidIyrRange)));
    assert_eq!("2030".parse::<ExpirationYear>(), Ok(ExpirationYear(2030)));
    assert_eq!("2019".parse::<ExpirationYear>(), Err(ParserError(Issue::InvalidEyrRange)));
    assert_eq!("70000".parse::<ExpirationYear>(), Err(ParserError(Issue::NotANumber)));
}

#[test]
fn heights() {
    assert_eq!("60in".parse::<Height>(), Ok(Height::In(60)));
    assert_eq!("190cm".parse::<Height>(), Ok(Height::Cm(190)));
    assert_eq!("190in".parse::<Height>(), Err(ParserError(Issue::InvalidHgtRange)));
    assert_eq!("190".parse::<Height>(), Err(ParserError(Issue::InvalidHgtFormat)));
    assert_eq!("cm".parse::<Height>(), Err(ParserError(Issue::NotANumber)));
}

#[test]
fn colors_and_ids() {
    assert_eq!("#123abc".parse::<HairColor>().unwrap().0, "#123abc");
    assert_eq!("#123abz".parse::<HairColor>().err(), Some(ParserError(Issue::InvalidHclCharacter)));
    assert_eq!("123abc".parse::<HairColor>().err(), Some(ParserError(Issue::MissingHclPrefix)));
    assert_eq!("#123ab".parse::<HairColor>().err(), Some(ParserError(Issue::InvalidHclLength)));
    assert_eq!("brn".parse::<EyeColor>(), Ok(EyeColor::Brown));
    assert_eq!("gry".parse::<EyeColor>(), Ok(EyeColor::Gray));
    assert_eq!("wat".parse::<EyeColor>(), Err(ParserError(Issue::InvalidEclValue)));
    assert_eq!("000000001".parse::<PassportId>().unwrap().0, "000000001");
    assert_eq!("0123456789".parse::<PassportId>().err(), Some(ParserError(Issue::InvalidPidLength)));
    assert_eq!("01234567x".parse::<PassportId>().err(), Some(ParserError(Issue::InvalidPidCharacter)));
    assert_eq!("anything".parse::<CountryId>().unwrap().0, "anything");
}

use advent::passport::OptPassport;
use advent::passport::Passport;
use advent::passport::RawPassport;

#[test]
fn passport_records() {
    let text = "ecl:gry pid:860033327 eyr:2020 hcl:#fffffd\nbyr:1937 iyr:2017 cid:147 hgt:183cm";
    let opt = OptPassport::parse(text).unwrap();
    assert_eq!(opt.ecl.as_deref(), Some("gry"));
    assert_eq!(opt.cid.as_deref(), Some("147"));
    let raw = RawPassport::try_from(opt).unwrap();
    let valid = Passport::try_from(raw).unwrap();
    assert_eq!(valid.byr, BirthYear(1937));
    assert_eq!(valid.hgt, Height::Cm(183));
    assert_eq!(valid.ecl, EyeColor::Gray);
    assert_eq!(valid.cid.unwrap().0, "147");
}

#[test]
fn passport_record_errors() {
    assert_eq!(OptPassport::split_entry("a:b:c"), Ok(("a", "b:c")));
    assert_eq!(OptPassport::split_entry("abc").err(), Some(ParserError(Issue::InvalidEntry)));
    assert_eq!(OptPassport::parse("byr:1 xyz:2").err(), Some(ParserError(Issue::InvalidKey)));
    assert_eq!(OptPassport::parse("xyz:2 byr").err(), Some(ParserError(Issue::InvalidEntry)));
    let opt = OptPassport::parse("byr:1 byr:2").unwrap();
    assert_eq!(opt.byr.as_deref(), Some("2"));
    let missing = OptPassport::parse("iyr:2013 ecl:amb cid:350 eyr:2023 pid:028048884 hcl:#cfa07d byr:1929").unwrap();
    assert_eq!(RawPassport::try_from(missing).err(), Some(ParserError(Issue::MissingHgt)));
    let bad = OptPassport::parse("eyr:1972 cid:100 hcl:#18171d ecl:amb hgt:170 pid:186cm iyr:2018 byr:1926").unwrap();
    let raw = RawPassport::try_from(bad).unwrap();
    assert_eq!(Passport::try_from(raw).err(), Some(ParserError(Issue::InvalidEyrRange)));
}

use advent::passport::passport_counts;

#[test]
fn counts_records() {
    let text = "ecl:gry pid:860033327 eyr:2020 hcl:#fffffd
byr:1937 iyr:2017 cid:147 hgt:183cm

iyr:2013 ecl:amb cid:350 eyr:2023 pid:028048884
hcl:#cfa07d byr:1929

hcl:#ae17e1 iyr:2013
eyr:2024
ecl:brn pid:760753108 byr:1931
hgt:179cm

hcl:#cfa07d eyr:2025 pid:166559648
iyr:2011 ecl:brn hgt:59in


";
    assert_eq!(passport_counts(text), Ok((4, 2, 2)));
    assert_eq!(passport_counts("byr:1\n\nfoo"), Err(ParserError(Issue::InvalidEntry)));
    assert_eq!(passport_counts(""), Ok((0, 0, 0)));
}

#[test]
fn unicode_whitespace_between_fields() {
    let opt = OptPassport::parse("byr:1990\u{A0}iyr:2010\u{2029}").unwrap();
    assert_eq!(opt.byr.as_deref(), Some("1990"));
    assert_eq!(opt.iyr.as_deref(), Some("2010"));
}
