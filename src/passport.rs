use vstd::prelude::*;
use crate::text::{
    chars_of, paragraphs, paragraphs_spec, parse_unsigned, parse_unsigned_spec, trim_spec, trim_str,
    word_slices, words_spec,
};

verus! {

/// What was wrong with a passport or one of its fields.
#[derive(Clone, Copy, Debug, PartialEq, Eq, Structural)]
pub enum Issue {
    NotANumber,
    InvalidByrRange,
    InvalidIyrRange,
    InvalidEyrRange,
    InvalidHgtFormat,
    InvalidHgtRange,
    MissingHclPrefix,
    InvalidHclCharacter,
    InvalidHclLength,
    InvalidEclValue,
    InvalidPidCharacter,
    InvalidPidLength,
    /// A word that is not a key and a value around a `:`.
    InvalidEntry,
    /// A key other than the eight known ones.
    InvalidKey,
    MissingByr,
    MissingIyr,
    MissingEyr,
    MissingHgt,
    MissingHcl,
    MissingEcl,
    MissingPid,
}

/// A refused passport field.
#[derive(Clone, Copy, Debug, PartialEq, Eq, Structural)]
pub struct ParserError(pub Issue);

/// A year within `lo..=hi`, read as an unsigned 16-bit number.
pub open spec fn year_spec(s: Seq<char>, lo: int, hi: int, out_of_range: Issue) -> Result<
    u16,
    ParserError,
> {
    match parse_unsigned_spec(s, 0xffff) {
        None => Err(ParserError(Issue::NotANumber)),
        Some(v) => if lo <= v <= hi {
            Ok(v as u16)
        } else {
            Err(ParserError(out_of_range))
        },
    }
}

fn parse_year(s: &str, lo: u16, hi: u16, out_of_range: Issue) -> (r: Result<u16, ParserError>)
    ensures
        r == year_spec(s@, lo as int, hi as int, out_of_range),
{
    let chars = chars_of(s);
    match parse_unsigned(chars.as_slice(), 0xffff) {
        None => Err(ParserError(Issue::NotANumber)),
        Some(v) => if lo as u64 <= v && v <= hi as u64 {
            Ok(v as u16)
        } else {
            Err(ParserError(out_of_range))
        },
    }
}

/// A birth year, 1920 to 2002.
#[derive(Clone, Copy, Debug, PartialEq, Eq, Structural)]
pub struct BirthYear(pub u16);

/// An issue year, 2010 to 2020.
#[derive(Clone, Copy, Debug, PartialEq, Eq, Structural)]
pub struct IssueYear(pub u16);

/// An expiration year, 2020 to 2030.
#[derive(Clone, Copy, Debug, PartialEq, Eq, Structural)]
pub struct ExpirationYear(pub u16);

impl BirthYear {
    pub fn parse(s: &str) -> (r: Result<BirthYear, ParserError>)
        ensures
            r == (match year_spec(s@, 1920, 2002, Issue::InvalidByrRange) {
                Ok(v) => Ok(BirthYear(v)),
                Err(e) => Err(e),
            }),
    {
        match parse_year(s, 1920, 2002, Issue::InvalidByrRange) {
            Ok(v) => Ok(BirthYear(v)),
            Err(e) => Err(e),
        }
    }
}

impl IssueYear {
    pub fn parse(s: &str) -> (r: Result<IssueYear, ParserError>)
        ensures
            r == (match year_spec(s@, 2010, 2020, Issue::InvalidIyrRange) {
                Ok(v) => Ok(IssueYear(v)),
                Err(e) => Err(e),
            }),
    {
        match parse_year(s, 2010, 2020, Issue::InvalidIyrRange) {
            Ok(v) => Ok(IssueYear(v)),
            Err(e) => Err(e),
        }
    }
}

impl ExpirationYear {
    pub fn parse(s: &str) -> (r: Result<ExpirationYear, ParserError>)
        ensures
            r == (match year_spec(s@, 2020, 2030, Issue::InvalidEyrRange) {
                Ok(v) => Ok(ExpirationYear(v)),
                Err(e) => Err(e),
            }),
    {
        match parse_year(s, 2020, 2030, Issue::InvalidEyrRange) {
            Ok(v) => Ok(ExpirationYear(v)),
            Err(e) => Err(e),
        }
    }
}

/// A height in centimetres (150 to 193) or inches (59 to 76).
#[derive(Clone, Copy, Debug, PartialEq, Eq, Structural)]
pub enum Height {
    Cm(u16),
    In(u16),
}

pub open spec fn ends_with2(s: Seq<char>, a: char, b: char) -> bool {
    s.len() >= 2 && s[s.len() - 2] == a && s[s.len() - 1] == b
}

/// A height: a number followed by `cm` or `in`, within the unit's range.
pub open spec fn height_spec(s: Seq<char>) -> Result<Height, ParserError> {
    let num = s.subrange(0, s.len() - 2);
    if ends_with2(s, 'c', 'm') {
        match parse_unsigned_spec(num, 0xffff) {
            None => Err(ParserError(Issue::NotANumber)),
            Some(v) => if 150 <= v <= 193 {
                Ok(Height::Cm(v as u16))
            } else {
                Err(ParserError(Issue::InvalidHgtRange))
            },
        }
    } else if ends_with2(s, 'i', 'n') {
        match parse_unsigned_spec(num, 0xffff) {
            None => Err(ParserError(Issue::NotANumber)),
            Some(v) => if 59 <= v <= 76 {
                Ok(Height::In(v as u16))
            } else {
                Err(ParserError(Issue::InvalidHgtRange))
            },
        }
    } else {
        Err(ParserError(Issue::InvalidHgtFormat))
    }
}

impl Height {
    pub fn parse(s: &str) -> (r: Result<Height, ParserError>)
        ensures
            r == height_spec(s@),
    {
        let chars = chars_of(s);
        let n = chars.len();
        let is_cm = n >= 2 && chars[n - 2] == 'c' && chars[n - 1] == 'm';
        let is_in = n >= 2 && chars[n - 2] == 'i' && chars[n - 1] == 'n';
        if !is_cm && !is_in {
            return Err(ParserError(Issue::InvalidHgtFormat));
        }
        let num = vstd::slice::slice_subrange(chars.as_slice(), 0, n - 2);
        match parse_unsigned(num, 0xffff) {
            None => Err(ParserError(Issue::NotANumber)),
            Some(v) => if is_cm {
                if 150 <= v && v <= 193 {
                    Ok(Height::Cm(v as u16))
                } else {
                    Err(ParserError(Issue::InvalidHgtRange))
                }
            } else {
                if 59 <= v && v <= 76 {
                    Ok(Height::In(v as u16))
                } else {
                    Err(ParserError(Issue::InvalidHgtRange))
                }
            },
        }
    }
}

pub open spec fn is_hex_lower(c: char) -> bool {
    ('0' <= c <= '9') || ('a' <= c <= 'f')
}

/// A hair colour: `#` then six lowercase hexadecimal digits.
pub open spec fn hair_issue(s: Seq<char>) -> Option<Issue> {
    if s.len() == 0 || s[0] != '#' {
        Some(Issue::MissingHclPrefix)
    } else if exists|i: int| 1 <= i < s.len() && !is_hex_lower(#[trigger] s[i]) {
        Some(Issue::InvalidHclCharacter)
    } else if s.len() != 7 {
        Some(Issue::InvalidHclLength)
    } else {
        None
    }
}

/// A hair colour, kept as written.
#[derive(Clone, Debug)]
pub struct HairColor(pub String);

impl HairColor {
    pub fn parse(s: &str) -> (r: Result<HairColor, ParserError>)
        ensures
            match r {
                Ok(h) => hair_issue(s@) is None && h.0@ == s@,
                Err(e) => hair_issue(s@) == Some(e.0),
            },
    {
        let chars = chars_of(s);
        if chars.len() == 0 || chars[0] != '#' {
            return Err(ParserError(Issue::MissingHclPrefix));
        }
        let mut i: usize = 1;
        while i < chars.len()
            invariant
                chars@ == s@,
                1 <= i <= s@.len(),
                s@[0] == '#',
                forall|k: int| 1 <= k < i ==> is_hex_lower(#[trigger] s@[k]),
            decreases s@.len() - i,
        {
            let c = chars[i];
            if !(('0' <= c && c <= '9') || ('a' <= c && c <= 'f')) {
                assert(!is_hex_lower(s@[i as int]));
                return Err(ParserError(Issue::InvalidHclCharacter));
            }
            i += 1;
        }
        if chars.len() != 7 {
            return Err(ParserError(Issue::InvalidHclLength));
        }
        Ok(HairColor(s.to_owned()))
    }
}

/// An eye colour, from its three-letter code.
#[derive(Clone, Copy, Debug, PartialEq, Eq, Structural)]
pub enum EyeColor {
    Amber,
    Blue,
    Brown,
    Gray,
    Green,
    Hazel,
    Other,
}

pub open spec fn eye_spec(s: Seq<char>) -> Option<EyeColor> {
    if s == seq!['a', 'm', 'b'] {
        Some(EyeColor::Amber)
    } else if s == seq!['b', 'l', 'u'] {
        Some(EyeColor::Blue)
    } else if s == seq!['b', 'r', 'n'] {
        Some(EyeColor::Brown)
    } else if s == seq!['g', 'r', 'n'] {
        Some(EyeColor::Green)
    } else if s == seq!['g', 'r', 'y'] {
        Some(EyeColor::Gray)
    } else if s == seq!['h', 'z', 'l'] {
        Some(EyeColor::Hazel)
    } else if s == seq!['o', 't', 'h'] {
        Some(EyeColor::Other)
    } else {
        None
    }
}

impl EyeColor {
    pub fn parse(s: &str) -> (r: Result<EyeColor, ParserError>)
        ensures
            r == (match eye_spec(s@) {
                Some(e) => Ok(e),
                None => Err(ParserError(Issue::InvalidEclValue)),
            }),
    {
        let c = chars_of(s);
        if c.len() != 3 {
            return Err(ParserError(Issue::InvalidEclValue));
        }
        let (a, b, d) = (c[0], c[1], c[2]);
        assert(s@ =~= seq![a, b, d]);
        if a == 'a' && b == 'm' && d == 'b' {
            Ok(EyeColor::Amber)
        } else if a == 'b' && b == 'l' && d == 'u' {
            Ok(EyeColor::Blue)
        } else if a == 'b' && b == 'r' && d == 'n' {
            Ok(EyeColor::Brown)
        } else if a == 'g' && b == 'r' && d == 'n' {
            Ok(EyeColor::Green)
        } else if a == 'g' && b == 'r' && d == 'y' {
            Ok(EyeColor::Gray)
        } else if a == 'h' && b == 'z' && d == 'l' {
            Ok(EyeColor::Hazel)
        } else if a == 'o' && b == 't' && d == 'h' {
            Ok(EyeColor::Other)
        } else {
            Err(ParserError(Issue::InvalidEclValue))
        }
    }
}

/// A passport id: nine decimal digits.
pub open spec fn pid_issue(s: Seq<char>) -> Option<Issue> {
    if exists|i: int| 0 <= i < s.len() && !('0' <= #[trigger] s[i] <= '9') {
        Some(Issue::InvalidPidCharacter)
    } else if s.len() != 9 {
        Some(Issue::InvalidPidLength)
    } else {
        None
    }
}

/// A passport id, kept as written.
#[derive(Clone, Debug)]
pub struct PassportId(pub String);

impl PassportId {
    pub fn parse(s: &str) -> (r: Result<PassportId, ParserError>)
        ensures
            match r {
                Ok(p) => pid_issue(s@) is None && p.0@ == s@,
                Err(e) => pid_issue(s@) == Some(e.0),
            },
    {
        let chars = chars_of(s);
        let mut i: usize = 0;
        while i < chars.len()
            invariant
                chars@ == s@,
                i <= s@.len(),
                forall|k: int| 0 <= k < i ==> '0' <= #[trigger] s@[k] <= '9',
            decreases s@.len() - i,
        {
            let c = chars[i];
            if !('0' <= c && c <= '9') {
                return Err(ParserError(Issue::InvalidPidCharacter));
            }
            i += 1;
        }
        if chars.len() != 9 {
            return Err(ParserError(Issue::InvalidPidLength));
        }
        Ok(PassportId(s.to_owned()))
    }
}

/// A country id: any text.
#[derive(Clone, Debug)]
pub struct CountryId(pub String);

impl CountryId {
    pub fn parse(s: &str) -> (r: Result<CountryId, ParserError>)
        ensures
            r matches Ok(c) && c.0@ == s@,
    {
        Ok(CountryId(s.to_owned()))
    }
}

/// Where the first `:` of `s` is, or `s.len()` if it has none.
pub open spec fn first_colon(s: Seq<char>) -> int
    decreases s.len(),
{
    if s.len() == 0 {
        0
    } else if s[0] == ':' {
        0
    } else {
        1 + first_colon(s.drop_first())
    }
}

proof fn lemma_first_colon(s: Seq<char>, i: int)
    requires
        0 <= i <= s.len(),
        forall|j: int| 0 <= j < i ==> s[j] != ':',
        i == s.len() || s[i] == ':',
    ensures
        first_colon(s) == i,
    decreases i,
{
    if i > 0 {
        lemma_first_colon(s.drop_first(), i - 1);
    }
}

/// The key of a `key:value` word.
pub open spec fn entry_key(t: Seq<char>) -> Seq<char> {
    t.subrange(0, first_colon(t))
}

/// The value of a `key:value` word: everything after its first `:`.
pub open spec fn entry_value(t: Seq<char>) -> Seq<char> {
    t.subrange(first_colon(t) + 1, t.len() as int)
}

/// The field a key names: `byr`, `iyr`, `eyr`, `hgt`, `hcl`, `ecl`, `pid`,
/// `cid` in that order.
pub open spec fn key_index(k: Seq<char>) -> Option<int> {
    if k == seq!['b', 'y', 'r'] {
        Some(0)
    } else if k == seq!['i', 'y', 'r'] {
        Some(1)
    } else if k == seq!['e', 'y', 'r'] {
        Some(2)
    } else if k == seq!['h', 'g', 't'] {
        Some(3)
    } else if k == seq!['h', 'c', 'l'] {
        Some(4)
    } else if k == seq!['e', 'c', 'l'] {
        Some(5)
    } else if k == seq!['p', 'i', 'd'] {
        Some(6)
    } else if k == seq!['c', 'i', 'd'] {
        Some(7)
    } else {
        None
    }
}

pub open spec fn no_fields() -> Seq<Option<Seq<char>>> {
    Seq::new(8, |i: int| None)
}

/// The fields that the words set, each to the value of its last word, or
/// `None` if a word has an unknown key.
pub open spec fn fields_of(ts: Seq<Seq<char>>) -> Option<Seq<Option<Seq<char>>>>
    decreases ts.len(),
{
    if ts.len() == 0 {
        Some(no_fields())
    } else {
        match fields_of(ts.drop_last()) {
            None => None,
            Some(f) => match key_index(entry_key(ts.last())) {
                None => None,
                Some(i) => Some(f.update(i, Some(entry_value(ts.last())))),
            },
        }
    }
}

/// The fields of a passport's text: first every word must hold a `:`, then
/// every key must be known.
pub open spec fn opt_spec(s: Seq<char>) -> Result<Seq<Option<Seq<char>>>, ParserError> {
    let ts = words_spec(s);
    if exists|k: int| 0 <= k < ts.len() && first_colon(#[trigger] ts[k]) == ts[k].len() {
        Err(ParserError(Issue::InvalidEntry))
    } else {
        match fields_of(ts) {
            None => Err(ParserError(Issue::InvalidKey)),
            Some(f) => Ok(f),
        }
    }
}

pub open spec fn opt_view(o: Option<String>) -> Option<Seq<char>> {
    match o {
        Some(x) => Some(x@),
        None => None,
    }
}

/// A passport's fields as written, each perhaps absent.
#[derive(Clone, Debug)]
pub struct OptPassport {
    pub byr: Option<String>,
    pub iyr: Option<String>,
    pub eyr: Option<String>,
    pub hgt: Option<String>,
    pub hcl: Option<String>,
    pub ecl: Option<String>,
    pub pid: Option<String>,
    pub cid: Option<String>,
}

impl View for OptPassport {
    type V = Seq<Option<Seq<char>>>;

    open spec fn view(&self) -> Seq<Option<Seq<char>>> {
        seq![
            opt_view(self.byr),
            opt_view(self.iyr),
            opt_view(self.eyr),
            opt_view(self.hgt),
            opt_view(self.hcl),
            opt_view(self.ecl),
            opt_view(self.pid),
            opt_view(self.cid),
        ]
    }
}

fn key_of(k: &str) -> (r: Option<usize>)
    ensures
        r matches Some(i) ==> key_index(k@) == Some(i as int),
        r is None ==> key_index(k@) is None,
{
    let c = chars_of(k);
    if c.len() != 3 {
        return None;
    }
    let (a, b, d) = (c[0], c[1], c[2]);
    assert(k@ =~= seq![a, b, d]);
    if a == 'b' && b == 'y' && d == 'r' {
        Some(0)
    } else if a == 'i' && b == 'y' && d == 'r' {
        Some(1)
    } else if a == 'e' && b == 'y' && d == 'r' {
        Some(2)
    } else if a == 'h' && b == 'g' && d == 't' {
        Some(3)
    } else if a == 'h' && b == 'c' && d == 'l' {
        Some(4)
    } else if a == 'e' && b == 'c' && d == 'l' {
        Some(5)
    } else if a == 'p' && b == 'i' && d == 'd' {
        Some(6)
    } else if a == 'c' && b == 'i' && d == 'd' {
        Some(7)
    } else {
        None
    }
}

impl OptPassport {
    pub fn empty() -> (r: OptPassport)
        ensures
            r@ == no_fields(),
    {
        let r = OptPassport {
            byr: None,
            iyr: None,
            eyr: None,
            hgt: None,
            hcl: None,
            ecl: None,
            pid: None,
            cid: None,
        };
        assert(r@ =~= no_fields());
        r
    }

    /// A `key:value` word split at its first `:`.
    pub fn split_entry(entry: &str) -> (r: Result<(&str, &str), ParserError>)
        ensures
            match r {
                Ok((k, v)) => first_colon(entry@) < entry@.len() && k@ == entry_key(entry@) && v@
                    == entry_value(entry@),
                Err(e) => first_colon(entry@) == entry@.len() && e == ParserError(
                    Issue::InvalidEntry,
                ),
            },
    {
        let chars = chars_of(entry);
        let mut i: usize = 0;
        while i < chars.len() && chars[i] != ':'
            invariant
                chars@ == entry@,
                i <= entry@.len(),
                forall|j: int| 0 <= j < i ==> entry@[j] != ':',
            decreases entry@.len() - i,
        {
            i += 1;
        }
        proof {
            lemma_first_colon(entry@, i as int);
        }
        if i == chars.len() {
            return Err(ParserError(Issue::InvalidEntry));
        }
        Ok((entry.substring_char(0, i), entry.substring_char(i + 1, chars.len())))
    }

    fn set(&mut self, index: usize, value: &str)
        requires
            index < 8,
        ensures
            final(self)@ == old(self)@.update(index as int, Some(value@)),
    {
        let v = value.to_owned();
        if index == 0 {
            self.byr = Some(v);
        } else if index == 1 {
            self.iyr = Some(v);
        } else if index == 2 {
            self.eyr = Some(v);
        } else if index == 3 {
            self.hgt = Some(v);
        } else if index == 4 {
            self.hcl = Some(v);
        } else if index == 5 {
            self.ecl = Some(v);
        } else if index == 6 {
            self.pid = Some(v);
        } else {
            self.cid = Some(v);
        }
        assert(self@ =~= old(self)@.update(index as int, Some(value@)));
    }

    /// Reads a passport's `key:value` words; a key given twice keeps its last value.
    pub fn parse(s: &str) -> (r: Result<OptPassport, ParserError>)
        ensures
            match r {
                Ok(o) => opt_spec(s@) == Ok::<Seq<Option<Seq<char>>>, ParserError>(o@),
                Err(e) => opt_spec(s@) == Err::<Seq<Option<Seq<char>>>, ParserError>(e),
            },
    {
        let tokens = word_slices(s);
        let ghost ts = tokens@.map_values(|t: &str| t@);
        let mut keys: Vec<&str> = Vec::new();
        let mut values: Vec<&str> = Vec::new();
        let mut i: usize = 0;
        while i < tokens.len()
            invariant
                i <= tokens@.len(),
                ts == tokens@.map_values(|t: &str| t@),
                ts == words_spec(s@),
                keys@.len() == i,
                values@.len() == i,
                forall|k: int| 0 <= k < i ==> first_colon(#[trigger] ts[k]) < ts[k].len(),
                forall|k: int| 0 <= k < i ==> #[trigger] keys@[k]@ == entry_key(ts[k]),
                forall|k: int| 0 <= k < i ==> #[trigger] values@[k]@ == entry_value(ts[k]),
            decreases tokens@.len() - i,
        {
            assert(ts[i as int] == tokens@[i as int]@);
            match OptPassport::split_entry(tokens[i]) {
                Ok((k, v)) => {
                    keys.push(k);
                    values.push(v);
                },
                Err(e) => {
                    return Err(e);
                },
            }
            i += 1;
        }
        let mut builder = OptPassport::empty();
        let mut j: usize = 0;
        while j < keys.len()
            invariant
                j <= keys@.len(),
                keys@.len() == values@.len(),
                keys@.len() == ts.len(),
                ts == words_spec(s@),
                forall|k: int| 0 <= k < ts.len() ==> first_colon(#[trigger] ts[k]) < ts[k].len(),
                forall|k: int| 0 <= k < ts.len() ==> #[trigger] keys@[k]@ == entry_key(ts[k]),
                forall|k: int| 0 <= k < ts.len() ==> #[trigger] values@[k]@ == entry_value(ts[k]),
                fields_of(ts.subrange(0, j as int)) == Some(builder@),
            decreases keys@.len() - j,
        {
            assert(ts.subrange(0, j + 1).drop_last() =~= ts.subrange(0, j as int));
            assert(keys@[j as int]@ == entry_key(ts[j as int]));
            match key_of(keys[j]) {
                None => {
                    proof {
                        lemma_fields_none(ts, j as int);
                    }
                    return Err(ParserError(Issue::InvalidKey));
                },
                Some(index) => {
                    builder.set(index, values[j]);
                },
            }
            j += 1;
        }
        assert(ts.subrange(0, ts.len() as int) =~= ts);
        Ok(builder)
    }
}

proof fn lemma_fields_none(ts: Seq<Seq<char>>, i: int)
    requires
        0 <= i < ts.len(),
        key_index(entry_key(ts[i])) is None,
    ensures
        fields_of(ts) is None,
    decreases ts.len(),
{
    if i < ts.len() - 1 {
        lemma_fields_none(ts.drop_last(), i);
    }
}

/// The first required field (all but `cid`) that is absent.
pub open spec fn missing_field(f: Seq<Option<Seq<char>>>) -> Option<Issue> {
    if f[0] is None {
        Some(Issue::MissingByr)
    } else if f[1] is None {
        Some(Issue::MissingIyr)
    } else if f[2] is None {
        Some(Issue::MissingEyr)
    } else if f[3] is None {
        Some(Issue::MissingHgt)
    } else if f[4] is None {
        Some(Issue::MissingHcl)
    } else if f[5] is None {
        Some(Issue::MissingEcl)
    } else if f[6] is None {
        Some(Issue::MissingPid)
    } else {
        None
    }
}

/// A passport with every required field present.
#[derive(Clone, Debug)]
pub struct RawPassport {
    pub byr: String,
    pub iyr: String,
    pub eyr: String,
    pub hgt: String,
    pub hcl: String,
    pub ecl: String,
    pub pid: String,
    pub cid: Option<String>,
}

impl View for RawPassport {
    type V = Seq<Option<Seq<char>>>;

    open spec fn view(&self) -> Seq<Option<Seq<char>>> {
        seq![
            Some(self.byr@),
            Some(self.iyr@),
            Some(self.eyr@),
            Some(self.hgt@),
            Some(self.hcl@),
            Some(self.ecl@),
            Some(self.pid@),
            opt_view(self.cid),
        ]
    }
}

fn require(value: Option<String>, issue: Issue) -> (r: Result<String, ParserError>)
    ensures
        match r {
            Ok(v) => value == Some(v),
            Err(e) => value is None && e == ParserError(issue),
        },
{
    match value {
        Some(v) => Ok(v),
        None => Err(ParserError(issue)),
    }
}

impl RawPassport {
    /// Keeps a passport whose required fields are all present.
    pub fn try_from(value: OptPassport) -> (r: Result<RawPassport, ParserError>)
        ensures
            match r {
                Ok(p) => missing_field(value@) is None && p@ == value@,
                Err(e) => missing_field(value@) == Some(e.0),
            },
    {
        let ghost v = value@;
        let byr = require(value.byr, Issue::MissingByr)?;
        let iyr = require(value.iyr, Issue::MissingIyr)?;
        let eyr = require(value.eyr, Issue::MissingEyr)?;
        let hgt = require(value.hgt, Issue::MissingHgt)?;
        let hcl = require(value.hcl, Issue::MissingHcl)?;
        let ecl = require(value.ecl, Issue::MissingEcl)?;
        let pid = require(value.pid, Issue::MissingPid)?;
        let r = RawPassport { byr, iyr, eyr, hgt, hcl, ecl, pid, cid: value.cid };
        assert(r@ =~= v);
        Ok(r)
    }
}

/// The first field of a complete passport that is not valid, checked in
/// the order `byr`, `iyr`, `eyr`, `hgt`, `hcl`, `ecl`, `pid`.
pub open spec fn passport_issue(f: Seq<Option<Seq<char>>>) -> Option<Issue> {
    if year_spec(f[0]->0, 1920, 2002, Issue::InvalidByrRange) is Err {
        Some(year_spec(f[0]->0, 1920, 2002, Issue::InvalidByrRange)->Err_0.0)
    } else if year_spec(f[1]->0, 2010, 2020, Issue::InvalidIyrRange) is Err {
        Some(year_spec(f[1]->0, 2010, 2020, Issue::InvalidIyrRange)->Err_0.0)
    } else if year_spec(f[2]->0, 2020, 2030, Issue::InvalidEyrRange) is Err {
        Some(year_spec(f[2]->0, 2020, 2030, Issue::InvalidEyrRange)->Err_0.0)
    } else if height_spec(f[3]->0) is Err {
        Some(height_spec(f[3]->0)->Err_0.0)
    } else if hair_issue(f[4]->0) is Some {
        hair_issue(f[4]->0)
    } else if eye_spec(f[5]->0) is None {
        Some(Issue::InvalidEclValue)
    } else {
        pid_issue(f[6]->0)
    }
}

/// A passport whose fields are all valid.
#[derive(Clone, Debug)]
pub struct Passport {
    pub byr: BirthYear,
    pub iyr: IssueYear,
    pub eyr: ExpirationYear,
    pub hgt: Height,
    pub hcl: HairColor,
    pub ecl: EyeColor,
    pub pid: PassportId,
    pub cid: Option<CountryId>,
}

impl Passport {
    /// Validates every field of a complete passport.
    pub fn try_from(value: RawPassport) -> (r: Result<Passport, ParserError>)
        ensures
            match r {
                Ok(p) => {
                    &&& passport_issue(value@) is None
                    &&& year_spec(value.byr@, 1920, 2002, Issue::InvalidByrRange) == Ok::<
                        u16,
                        ParserError,
                    >(p.byr.0)
                    &&& year_spec(value.iyr@, 2010, 2020, Issue::InvalidIyrRange) == Ok::<
                        u16,
                        ParserError,
                    >(p.iyr.0)
                    &&& year_spec(value.eyr@, 2020, 2030, Issue::InvalidEyrRange) == Ok::<
                        u16,
                        ParserError,
                    >(p.eyr.0)
                    &&& height_spec(value.hgt@) == Ok::<Height, ParserError>(p.hgt)
                    &&& p.hcl.0@ == value.hcl@
                    &&& eye_spec(value.ecl@) == Some(p.ecl)
                    &&& p.pid.0@ == value.pid@
                    &&& match p.cid {
                        Some(c) => value.cid matches Some(x) && c.0@ == x@,
                        None => value.cid is None,
                    }
                },
                Err(e) => passport_issue(value@) == Some(e.0),
            },
    {
        let country = match value.cid {
            Some(text) => Some(CountryId::parse(text.as_str())?),
            None => None,
        };
        let byr = BirthYear::parse(value.byr.as_str())?;
        let iyr = IssueYear::parse(value.iyr.as_str())?;
        let eyr = ExpirationYear::parse(value.eyr.as_str())?;
        let hgt = Height::parse(value.hgt.as_str())?;
        let hcl = HairColor::parse(value.hcl.as_str())?;
        let ecl = EyeColor::parse(value.ecl.as_str())?;
        let pid = PassportId::parse(value.pid.as_str())?;
        Ok(Passport { byr, iyr, eyr, hgt, hcl, ecl, pid, cid: country })
    }
}

/// The records of a text: its blank-line separated pieces, trimmed, without
/// the empty ones.
pub open spec fn records_spec(s: Seq<char>) -> Seq<Seq<char>> {
    paragraphs_spec(s).map_values(|p: Seq<char>| trim_spec(p)).filter(|p: Seq<char>| p.len() > 0)
}

/// The fields of each record, or the error of the first record refused.
pub open spec fn opts_spec(rs: Seq<Seq<char>>) -> Result<Seq<Seq<Option<Seq<char>>>>, ParserError>
    decreases rs.len(),
{
    if rs.len() == 0 {
        Ok(Seq::empty())
    } else {
        match opts_spec(rs.drop_last()) {
            Err(e) => Err(e),
            Ok(v) => match opt_spec(rs.last()) {
                Err(e) => Err(e),
                Ok(f) => Ok(v.push(f)),
            },
        }
    }
}

/// How many of `fs` have every required field, and how many of those are valid.
pub open spec fn tally(fs: Seq<Seq<Option<Seq<char>>>>) -> (nat, nat)
    decreases fs.len(),
{
    if fs.len() == 0 {
        (0, 0)
    } else {
        let (c, v) = tally(fs.drop_last());
        let f = fs.last();
        if missing_field(f) is Some {
            (c, v)
        } else if passport_issue(f) is Some {
            (c + 1, v)
        } else {
            (c + 1, v + 1)
        }
    }
}

proof fn lemma_opts_err(rs: Seq<Seq<char>>, i: int)
    requires
        0 <= i < rs.len(),
        opts_spec(rs.subrange(0, i)) is Ok,
        opt_spec(rs[i]) is Err,
    ensures
        opts_spec(rs) == Err::<Seq<Seq<Option<Seq<char>>>>, ParserError>(opt_spec(rs[i])->Err_0),
    decreases rs.len() - i,
{
    if i == rs.len() - 1 {
        assert(rs.drop_last() =~= rs.subrange(0, i));
    } else {
        assert(rs.drop_last().subrange(0, i) =~= rs.subrange(0, i));
        lemma_opts_err(rs.drop_last(), i);
    }
}

/// For the records of a text, the number of records, of those with every
/// required field, and of those whose fields are all valid.
pub fn passport_counts(text: &str) -> (r: Result<(usize, usize, usize), ParserError>)
    ensures
        match r {
            Ok((n, c, v)) => opts_spec(records_spec(text@)) matches Ok(fs) && n == fs.len() && tally(fs)
                == (c as nat, v as nat),
            Err(e) => opts_spec(records_spec(text@)) == Err::<
                Seq<Seq<Option<Seq<char>>>>,
                ParserError,
            >(e),
        },
{
    let ps = paragraphs(text);
    let ghost pv = ps@.map_values(|x: &str| x@);
    let ghost trimmed = pv.map_values(|p: Seq<char>| trim_spec(p));
    let ghost keep = |p: Seq<char>| p.len() > 0;
    let mut items: Vec<&str> = Vec::new();
    let mut i: usize = 0;
    assert(items@.map_values(|x: &str| x@) =~= trimmed.subrange(0, 0).filter(keep)) by {
        reveal(Seq::filter);
    }
    while i < ps.len()
        invariant
            i <= ps@.len(),
            pv == ps@.map_values(|x: &str| x@),
            pv == paragraphs_spec(text@),
            trimmed == pv.map_values(|p: Seq<char>| trim_spec(p)),
            keep == (|p: Seq<char>| p.len() > 0),
            items@.map_values(|x: &str| x@) == trimmed.subrange(0, i as int).filter(keep),
        decreases ps@.len() - i,
    {
        proof {
            assert(trimmed.subrange(0, i + 1) =~= trimmed.subrange(0, i as int).push(trimmed[i as int]));
            trimmed.subrange(0, i as int).lemma_filter_push(trimmed[i as int], keep);
        }
        assert(pv[i as int] == ps@[i as int]@);
        let t = trim_str(ps[i]);
        if t.unicode_len() > 0 {
            let ghost before = items@.map_values(|x: &str| x@);
            items.push(t);
            assert(items@.map_values(|x: &str| x@) =~= before.push(t@));
        }
        i += 1;
    }
    assert(trimmed.subrange(0, pv.len() as int) =~= trimmed);
    let ghost rs = items@.map_values(|x: &str| x@);
    assert(rs == records_spec(text@));
    let mut records: usize = 0;
    let mut complete: usize = 0;
    let mut valid: usize = 0;
    let ghost mut fs: Seq<Seq<Option<Seq<char>>>> = Seq::empty();
    let mut j: usize = 0;
    assert(rs.subrange(0, 0) =~= Seq::<Seq<char>>::empty());
    while j < items.len()
        invariant
            j <= items@.len(),
            rs == items@.map_values(|x: &str| x@),
            rs == records_spec(text@),
            opts_spec(rs.subrange(0, j as int)) == Ok::<Seq<Seq<Option<Seq<char>>>>, ParserError>(fs),
            records == j,
            fs.len() == j,
            tally(fs) == (complete as nat, valid as nat),
            complete <= j,
            valid <= complete,
        decreases items@.len() - j,
    {
        assert(rs.subrange(0, j + 1).drop_last() =~= rs.subrange(0, j as int));
        assert(rs[j as int] == items@[j as int]@);
        let opt = match OptPassport::parse(items[j]) {
            Ok(o) => o,
            Err(e) => {
                proof {
                    lemma_opts_err(rs, j as int);
                }
                return Err(e);
            },
        };
        let ghost f = opt@;
        let ghost old_fs = fs;
        proof {
            fs = fs.push(f);
            assert(fs.drop_last() =~= old_fs);
        }
        assert(fs.last() == f);
        let ghost prev = fs.drop_last();
        assert(tally(fs) == {
            let (c, v) = tally(prev);
            if missing_field(f) is Some {
                (c, v)
            } else if passport_issue(f) is Some {
                (c + 1, v)
            } else {
                (c + 1, v + 1)
            }
        });
        records = records + 1;
        match RawPassport::try_from(opt) {
            Ok(raw) => {
                assert(raw@ == f);
                complete = complete + 1;
                match Passport::try_from(raw) {
                    Ok(_) => {
                        valid = valid + 1;
                    },
                    Err(_) => {},
                }
            },
            Err(_) => {},
        }
        j += 1;
    }
    assert(rs.subrange(0, rs.len() as int) =~= rs);
    Ok((records, complete, valid))
}

impl std::str::FromStr for BirthYear {
    type Err = ParserError;

    fn from_str(s: &str) -> Result<BirthYear, ParserError> {
        BirthYear::parse(s)
    }
}

impl std::str::FromStr for IssueYear {
    type Err = ParserError;

    fn from_str(s: &str) -> Result<IssueYear, ParserError> {
        IssueYear::parse(s)
    }
}

impl std::str::FromStr for ExpirationYear {
    type Err = ParserError;

    fn from_str(s: &str) -> Result<ExpirationYear, ParserError> {
        ExpirationYear::parse(s)
    }
}

impl std::str::FromStr for Height {
    type Err = ParserError;

    fn from_str(s: &str) -> Result<Height, ParserError> {
        Height::parse(s)
    }
}

impl std::str::FromStr for HairColor {
    type Err = ParserError;

    fn from_str(s: &str) -> Result<HairColor, ParserError> {
        HairColor::parse(s)
    }
}

impl std::str::FromStr for EyeColor {
    type Err = ParserError;

    fn from_str(s: &str) -> Result<EyeColor, ParserError> {
        EyeColor::parse(s)
    }
}

impl std::str::FromStr for PassportId {
    type Err = ParserError;

    fn from_str(s: &str) -> Result<PassportId, ParserError> {
        PassportId::parse(s)
    }
}

impl std::str::FromStr for CountryId {
    type Err = ParserError;

    fn from_str(s: &str) -> Result<CountryId, ParserError> {
        CountryId::parse(s)
    }
}

impl std::str::FromStr for OptPassport {
    type Err = ParserError;

    fn from_str(s: &str) -> Result<OptPassport, ParserError> {
        OptPassport::parse(s)
    }
}

} // verus!
