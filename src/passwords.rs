use vstd::prelude::*;
use crate::text::{
    chars_of, parse_unsigned, parse_unsigned_spec, split, split_on, text_lines, text_lines_spec,
    trim, trim_spec, views, words, words_spec,
};

verus! {

/// Why a password line was refused.
#[derive(Clone, Copy, Debug, PartialEq, Eq, Structural)]
pub enum PasswordError {
    /// The line is not a policy and a password around one `:`.
    InvalidPasswordDivider,
    /// The policy is not a range and a letter apart.
    InvalidTargetDivider,
    /// The range is not two numbers around one `-`.
    InvalidSpecifierDivider,
    /// The letter is not exactly one character.
    InvalidTargetLength,
    InvalidMinSpecifier,
    InvalidMaxSpecifier,
}

/// A refused line, with its index.
#[derive(Clone, Copy, Debug, PartialEq, Eq, Structural)]
pub struct LineError {
    pub error: PasswordError,
    pub line: usize,
}

/// A letter and two numbers that a password is checked against.
#[derive(Clone, Copy, Debug, PartialEq, Eq, Structural)]
pub struct Policy {
    pub target: char,
    pub min: usize,
    pub max: usize,
}

/// A policy with its password.
#[derive(Clone, Debug)]
pub struct Entry {
    pub policy: Policy,
    pub password: Vec<char>,
}

/// A policy such as `1-3 a`.
pub open spec fn policy_spec(s: Seq<char>) -> Result<Policy, PasswordError> {
    let parts = words_spec(s);
    if parts.len() != 2 {
        Err(PasswordError::InvalidTargetDivider)
    } else {
        let range = split_on(parts[0], '-');
        if range.len() != 2 {
            Err(PasswordError::InvalidSpecifierDivider)
        } else if parts[1].len() != 1 {
            Err(PasswordError::InvalidTargetLength)
        } else {
            match parse_unsigned_spec(trim_spec(range[0]), usize::MAX as int) {
                None => Err(PasswordError::InvalidMinSpecifier),
                Some(min) => match parse_unsigned_spec(trim_spec(range[1]), usize::MAX as int) {
                    None => Err(PasswordError::InvalidMaxSpecifier),
                    Some(max) => Ok(
                        Policy { target: parts[1][0], min: min as usize, max: max as usize },
                    ),
                },
            }
        }
    }
}

/// A line such as `1-3 a: abcde`: a policy and a password around a `:`.
pub open spec fn entry_spec(s: Seq<char>) -> Result<(Policy, Seq<char>), PasswordError> {
    let parts = split_on(s, ':');
    if parts.len() != 2 {
        Err(PasswordError::InvalidPasswordDivider)
    } else {
        match policy_spec(trim_spec(parts[0])) {
            Err(e) => Err(e),
            Ok(p) => Ok((p, trim_spec(parts[1]))),
        }
    }
}

/// How often `c` occurs in `s`.
pub open spec fn count_char(s: Seq<char>, c: char) -> nat
    decreases s.len(),
{
    if s.len() == 0 {
        0
    } else {
        count_char(s.drop_last(), c) + if s.last() == c {
            1nat
        } else {
            0nat
        }
    }
}

/// `1` if the character at `i` of `s` is `c`, else `0`.
pub open spec fn hit(s: Seq<char>, i: int, c: char) -> int {
    if 0 <= i < s.len() && s[i] == c {
        1
    } else {
        0
    }
}

impl Policy {
    pub fn parse(s: &[char]) -> (r: Result<Policy, PasswordError>)
        ensures
            r == policy_spec(s@),
    {
        let parts = words(s);
        assert(parts@.len() == views(parts@).len());
        if parts.len() != 2 {
            return Err(PasswordError::InvalidTargetDivider);
        }
        assert(views(parts@)[0] == parts@[0]@ && views(parts@)[1] == parts@[1]@);
        let range = split(parts[0].as_slice(), '-');
        assert(range@.len() == views(range@).len());
        if range.len() != 2 {
            return Err(PasswordError::InvalidSpecifierDivider);
        }
        assert(views(range@)[0] == range@[0]@ && views(range@)[1] == range@[1]@);
        if parts[1].len() != 1 {
            return Err(PasswordError::InvalidTargetLength);
        }
        let target = parts[1][0];
        let min = match parse_unsigned(trim(range[0].as_slice()), usize::MAX as u64) {
            None => {
                return Err(PasswordError::InvalidMinSpecifier);
            },
            Some(v) => v as usize,
        };
        let max = match parse_unsigned(trim(range[1].as_slice()), usize::MAX as u64) {
            None => {
                return Err(PasswordError::InvalidMaxSpecifier);
            },
            Some(v) => v as usize,
        };
        Ok(Policy { target, min, max })
    }
}

impl Entry {
    pub fn parse(s: &[char]) -> (r: Result<Entry, PasswordError>)
        ensures
            match r {
                Ok(e) => entry_spec(s@) == Ok::<(Policy, Seq<char>), PasswordError>(
                    (e.policy, e.password@),
                ),
                Err(e) => entry_spec(s@) == Err::<(Policy, Seq<char>), PasswordError>(e),
            },
    {
        let parts = split(s, ':');
        assert(parts@.len() == views(parts@).len());
        if parts.len() != 2 {
            return Err(PasswordError::InvalidPasswordDivider);
        }
        assert(views(parts@)[0] == parts@[0]@ && views(parts@)[1] == parts@[1]@);
        let policy = match Policy::parse(trim(parts[0].as_slice())) {
            Ok(p) => p,
            Err(e) => {
                return Err(e);
            },
        };
        let password = vstd::slice::slice_to_vec(trim(parts[1].as_slice()));
        Ok(Entry { policy, password })
    }
}

/// Reads the line `text` that has index `number`, marking an error with it.
pub fn parse_line(line: (usize, &str)) -> (r: Result<Entry, LineError>)
    ensures
        match r {
            Ok(e) => entry_spec(line.1@) == Ok::<(Policy, Seq<char>), PasswordError>(
                (e.policy, e.password@),
            ),
            Err(e) => e.line == line.0 && entry_spec(line.1@) == Err::<
                (Policy, Seq<char>),
                PasswordError,
            >(e.error),
        },
{
    let (number, text) = line;
    let chars = chars_of(text);
    match Entry::parse(chars.as_slice()) {
        Ok(e) => Ok(e),
        Err(error) => Err(LineError { error, line: number }),
    }
}

/// The entries of the lines, or the error of the first line refused, with its index.
pub open spec fn entries_spec(ls: Seq<Seq<char>>) -> Result<Seq<(Policy, Seq<char>)>, LineError>
    decreases ls.len(),
{
    if ls.len() == 0 {
        Ok(Seq::empty())
    } else {
        match entries_spec(ls.drop_last()) {
            Err(e) => Err(e),
            Ok(v) => match entry_spec(ls.last()) {
                Err(e) => Err(LineError { error: e, line: (ls.len() - 1) as usize }),
                Ok(x) => Ok(v.push(x)),
            },
        }
    }
}

proof fn lemma_entries_err(ls: Seq<Seq<char>>, i: int)
    requires
        0 <= i < ls.len(),
        entries_spec(ls.subrange(0, i)) is Ok,
        entry_spec(ls[i]) is Err,
    ensures
        entries_spec(ls) == Err::<Seq<(Policy, Seq<char>)>, LineError>(
            LineError { error: entry_spec(ls[i])->Err_0, line: i as usize },
        ),
    decreases ls.len() - i,
{
    if i == ls.len() - 1 {
        assert(ls.drop_last() =~= ls.subrange(0, i));
    } else {
        assert(ls.drop_last().subrange(0, i) =~= ls.subrange(0, i));
        lemma_entries_err(ls.drop_last(), i);
    }
}

pub open spec fn entry_views(v: Seq<Entry>) -> Seq<(Policy, Seq<char>)> {
    v.map_values(|e: Entry| (e.policy, e.password@))
}

/// Reads one entry per line.
pub fn parse(text: &str) -> (r: Result<Vec<Entry>, LineError>)
    ensures
        match r {
            Ok(v) => entries_spec(text_lines_spec(text@)) == Ok::<
                Seq<(Policy, Seq<char>)>,
                LineError,
            >(entry_views(v@)),
            Err(e) => entries_spec(text_lines_spec(text@)) == Err::<
                Seq<(Policy, Seq<char>)>,
                LineError,
            >(e),
        },
{
    let chars = chars_of(text);
    let ls = text_lines(chars.as_slice());
    let ghost lv = views(ls@);
    let mut out: Vec<Entry> = Vec::new();
    let mut i: usize = 0;
    assert(entry_views(out@) =~= Seq::empty());
    assert(lv.subrange(0, 0) =~= Seq::empty());
    while i < ls.len()
        invariant
            i <= ls@.len(),
            lv == views(ls@),
            lv == text_lines_spec(text@),
            entries_spec(lv.subrange(0, i as int)) == Ok::<Seq<(Policy, Seq<char>)>, LineError>(
                entry_views(out@),
            ),
        decreases ls@.len() - i,
    {
        assert(lv.subrange(0, i + 1).drop_last() =~= lv.subrange(0, i as int));
        assert(lv[i as int] == ls@[i as int]@);
        match Entry::parse(ls[i].as_slice()) {
            Ok(e) => {
                let ghost before = entry_views(out@);
                out.push(e);
                assert(entry_views(out@) =~= before.push((e.policy, e.password@)));
            },
            Err(error) => {
                proof {
                    lemma_entries_err(lv, i as int);
                }
                return Err(LineError { error, line: i });
            },
        }
        i += 1;
    }
    assert(lv.subrange(0, lv.len() as int) =~= lv);
    Ok(out)
}

/// The password holds the policy's letter at least `min` and at most `max` times.
pub fn validate_primary(entry: &Entry) -> (r: bool)
    ensures
        r == (entry.policy.min <= count_char(entry.password@, entry.policy.target)
            <= entry.policy.max),
{
    let password = &entry.password;
    let target = entry.policy.target;
    let mut count: usize = 0;
    let mut i: usize = 0;
    while i < password.len()
        invariant
            i <= password@.len(),
            count == count_char(password@.subrange(0, i as int), target),
            count <= i,
        decreases password@.len() - i,
    {
        assert(password@.subrange(0, i + 1).drop_last() =~= password@.subrange(0, i as int));
        if password[i] == target {
            count = count + 1;
        }
        i += 1;
    }
    assert(password@.subrange(0, password@.len() as int) =~= password@);
    entry.policy.min <= count && count <= entry.policy.max
}

/// Exactly one of the password's characters at the (one-based) positions
/// `min` and `max` is the policy's letter; a position past the end holds none.
pub fn validate_secondary(entry: &Entry) -> (r: bool)
    requires
        entry.policy.min >= 1,
        entry.policy.max >= 1,
    ensures
        r == (hit(entry.password@, entry.policy.min - 1, entry.policy.target) + hit(
            entry.password@,
            entry.policy.max - 1,
            entry.policy.target,
        ) == 1),
{
    let password = &entry.password;
    let target = entry.policy.target;
    let a = entry.policy.min - 1;
    let b = entry.policy.max - 1;
    let first = a < password.len() && password[a] == target;
    let second = b < password.len() && password[b] == target;
    (first && !second) || (!first && second)
}

impl std::str::FromStr for Policy {
    type Err = PasswordError;

    fn from_str(s: &str) -> Result<Policy, PasswordError> {
        let chars = chars_of(s);
        Policy::parse(chars.as_slice())
    }
}

impl std::str::FromStr for Entry {
    type Err = PasswordError;

    fn from_str(s: &str) -> Result<Entry, PasswordError> {
        let chars = chars_of(s);
        Entry::parse(chars.as_slice())
    }
}

} // verus!
