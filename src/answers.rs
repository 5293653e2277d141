use vstd::prelude::*;
use crate::text::{
    chars_of, lines, lines_spec, paragraphs, paragraphs_spec, trim, trim_spec, trim_str, views,
};

verus! {

/// Why a group's answers were refused.
#[derive(Clone, Copy, Debug, PartialEq, Eq, Structural)]
pub enum AnswerError {
    /// A character other than a lowercase letter.
    InvalidCharacter,
}

/// The bit of a lowercase letter: `a` is bit 0, `z` bit 25.
pub open spec fn letter_bit(c: char) -> Option<u32> {
    if 'a' <= c <= 'z' {
        Some(1u32 << ((c as u32) - ('a' as u32)) as u32)
    } else {
        None
    }
}

/// The bits of all the letters of `s`, or `None` if one is not a lowercase letter.
pub open spec fn letters_mask(s: Seq<char>) -> Option<u32>
    decreases s.len(),
{
    if s.len() == 0 {
        Some(0)
    } else {
        match (letters_mask(s.drop_last()), letter_bit(s.last())) {
            (Some(m), Some(b)) => Some(m | b),
            _ => None,
        }
    }
}

/// One person's answers, a bit per letter.
#[derive(Clone, Copy, Debug, PartialEq, Eq, Structural)]
pub struct Sheet(pub u32);

/// The answers of a group, one sheet per person.
#[derive(Clone, Debug)]
pub struct Group(pub Vec<Sheet>);

/// The number of one bits among the lowest `n` bits of `m`.
pub open spec fn ones(m: u32, n: nat) -> nat
    decreases n,
{
    if n == 0 {
        0
    } else {
        ones(m, (n - 1) as nat) + ((m >> ((n - 1) as u32)) & 1u32) as nat
    }
}

/// The bits answered by anyone of `s`.
pub open spec fn union_of(s: Seq<Sheet>) -> u32
    decreases s.len(),
{
    if s.len() == 0 {
        0
    } else {
        union_of(s.drop_last()) | s.last().0
    }
}

/// The bits answered by everyone of `s`.
pub open spec fn intersection_of(s: Seq<Sheet>) -> u32
    decreases s.len(),
{
    if s.len() == 0 {
        u32::MAX
    } else {
        intersection_of(s.drop_last()) & s.last().0
    }
}

/// The sheets of the lines of a group's text, or `None` if a line holds
/// anything but lowercase letters around its whitespace.
pub open spec fn sheets_of(ls: Seq<Seq<char>>) -> Option<Seq<Sheet>>
    decreases ls.len(),
{
    if ls.len() == 0 {
        Some(Seq::empty())
    } else {
        match (sheets_of(ls.drop_last()), letters_mask(trim_spec(ls.last()))) {
            (Some(s), Some(m)) => Some(s.push(Sheet(m))),
            _ => None,
        }
    }
}

impl Sheet {
    pub fn bitmask(chr: char) -> (r: Result<u32, AnswerError>)
        ensures
            r == (match letter_bit(chr) {
                Some(b) => Ok(b),
                None => Err(AnswerError::InvalidCharacter),
            }),
    {
        if 'a' <= chr && chr <= 'z' {
            Ok(1u32 << (chr as u32 - 'a' as u32))
        } else {
            Err(AnswerError::InvalidCharacter)
        }
    }

    /// Reads one line of answers, ignoring surrounding whitespace.
    pub fn parse(s: &[char]) -> (r: Result<Sheet, AnswerError>)
        ensures
            r == (match letters_mask(trim_spec(s@)) {
                Some(m) => Ok(Sheet(m)),
                None => Err(AnswerError::InvalidCharacter),
            }),
    {
        let t = trim(s);
        let mut pattern: u32 = 0;
        let mut i: usize = 0;
        while i < t.len()
            invariant
                i <= t@.len(),
                t@ == trim_spec(s@),
                letters_mask(t@.subrange(0, i as int)) == Some(pattern),
            decreases t@.len() - i,
        {
            assert(t@.subrange(0, i + 1).drop_last() =~= t@.subrange(0, i as int));
            match Sheet::bitmask(t[i]) {
                Ok(b) => {
                    pattern = pattern | b;
                },
                Err(e) => {
                    proof {
                        lemma_mask_none(t@, i as int);
                    }
                    return Err(e);
                },
            }
            i += 1;
        }
        assert(t@.subrange(0, t@.len() as int) =~= t@);
        Ok(Sheet(pattern))
    }
}

proof fn lemma_mask_none(s: Seq<char>, i: int)
    requires
        0 <= i < s.len(),
        letter_bit(s[i]) is None,
    ensures
        letters_mask(s) is None,
    decreases s.len(),
{
    if i < s.len() - 1 {
        lemma_mask_none(s.drop_last(), i);
    }
}

impl Group {
    /// The number of one bits of `bits`.
    pub fn count(bits: u32) -> (r: u32)
        ensures
            r == ones(bits, 32),
    {
        let mut total: u32 = 0;
        let mut i: u32 = 0;
        while i < 32
            invariant
                i <= 32,
                total == ones(bits, i as nat),
                total <= i,
            decreases 32 - i,
        {
            assert((bits >> i) & 1u32 <= 1u32) by (bit_vector);
            total = total + ((bits >> i) & 1);
            i += 1;
        }
        total
    }

    /// The letters that anyone of the group answered.
    pub fn union(&self) -> (r: u32)
        ensures
            r == union_of(self.0@),
    {
        let mut acc: u32 = 0;
        let mut i: usize = 0;
        while i < self.0.len()
            invariant
                i <= self.0@.len(),
                acc == union_of(self.0@.subrange(0, i as int)),
            decreases self.0@.len() - i,
        {
            assert(self.0@.subrange(0, i + 1).drop_last() =~= self.0@.subrange(0, i as int));
            acc = acc | self.0[i].0;
            i += 1;
        }
        assert(self.0@.subrange(0, self.0@.len() as int) =~= self.0@);
        acc
    }

    /// The letters that everyone of the group answered.
    pub fn intersection(&self) -> (r: u32)
        ensures
            r == intersection_of(self.0@),
    {
        let mut acc: u32 = u32::MAX;
        let mut i: usize = 0;
        while i < self.0.len()
            invariant
                i <= self.0@.len(),
                acc == intersection_of(self.0@.subrange(0, i as int)),
            decreases self.0@.len() - i,
        {
            assert(self.0@.subrange(0, i + 1).drop_last() =~= self.0@.subrange(0, i as int));
            acc = acc & self.0[i].0;
            i += 1;
        }
        assert(self.0@.subrange(0, self.0@.len() as int) =~= self.0@);
        acc
    }

    /// Reads a group: one sheet per line.
    pub fn parse(s: &str) -> (r: Result<Group, AnswerError>)
        ensures
            match r {
                Ok(g) => sheets_of(lines_spec(trim_spec(s@))) == Some(g.0@),
                Err(_) => sheets_of(lines_spec(trim_spec(s@))) is None,
            },
    {
        let chars = chars_of(s);
        let ls = lines(trim(chars.as_slice()));
        let ghost lv = views(ls@);
        let mut sheets: Vec<Sheet> = Vec::new();
        let mut i: usize = 0;
        while i < ls.len()
            invariant
                i <= ls@.len(),
                lv == views(ls@),
                lv == lines_spec(trim_spec(s@)),
                sheets_of(lv.subrange(0, i as int)) == Some(sheets@),
            decreases ls@.len() - i,
        {
            assert(lv.subrange(0, i + 1).drop_last() =~= lv.subrange(0, i as int));
            assert(lv[i as int] == ls@[i as int]@);
            match Sheet::parse(ls[i].as_slice()) {
                Ok(sheet) => sheets.push(sheet),
                Err(e) => {
                    proof {
                        lemma_sheets_none(lv, i as int);
                    }
                    return Err(e);
                },
            }
            i += 1;
        }
        assert(lv.subrange(0, lv.len() as int) =~= lv);
        Ok(Group(sheets))
    }
}

proof fn lemma_sheets_none(ls: Seq<Seq<char>>, i: int)
    requires
        0 <= i < ls.len(),
        letters_mask(trim_spec(ls[i])) is None,
    ensures
        sheets_of(ls) is None,
    decreases ls.len(),
{
    if i < ls.len() - 1 {
        lemma_sheets_none(ls.drop_last(), i);
    }
}

/// The sheets of each group's text, or `None` if one is refused.
pub open spec fn groups_spec(ps: Seq<Seq<char>>) -> Option<Seq<Seq<Sheet>>>
    decreases ps.len(),
{
    if ps.len() == 0 {
        Some(Seq::empty())
    } else {
        match (groups_spec(ps.drop_last()), sheets_of(lines_spec(trim_spec(ps.last())))) {
            (Some(gs), Some(g)) => Some(gs.push(g)),
            _ => None,
        }
    }
}

/// Over all groups, the letters anyone answered and the letters everyone answered.
pub open spec fn sums_spec(gs: Seq<Seq<Sheet>>) -> (int, int)
    decreases gs.len(),
{
    if gs.len() == 0 {
        (0, 0)
    } else {
        let (u, i) = sums_spec(gs.drop_last());
        (u + ones(union_of(gs.last()), 32), i + ones(intersection_of(gs.last()), 32))
    }
}

proof fn lemma_ones_bound(m: u32, n: nat)
    ensures
        ones(m, n) <= n,
    decreases n,
{
    if n > 0 {
        lemma_ones_bound(m, (n - 1) as nat);
        let k = (n - 1) as u32;
        assert((m >> k) & 1u32 <= 1u32) by (bit_vector);
    }
}

proof fn lemma_groups_none(ps: Seq<Seq<char>>, i: int)
    requires
        0 <= i < ps.len(),
        sheets_of(lines_spec(trim_spec(ps[i]))) is None,
    ensures
        groups_spec(ps) is None,
    decreases ps.len(),
{
    if i < ps.len() - 1 {
        lemma_groups_none(ps.drop_last(), i);
    }
}

proof fn lemma_paragraphs_len(s: Seq<char>)
    ensures
        crate::text::paragraphs_spec(s).len() <= s.len() + 1,
    decreases s.len(),
{
    if s.len() > 0 {
        lemma_paragraphs_len(s.drop_last());
        crate::text::lemma_paragraphs_nonempty(s.drop_last());
    }
}

/// For the groups of a text, separated by blank lines, the sums of the
/// letters anyone of a group answered and of those everyone answered.
pub fn answer_sums(text: &str) -> (r: Result<(u32, u32), AnswerError>)
    requires
        text@.len() <= 100_000_000,
    ensures
        match r {
            Ok((u, i)) => groups_spec(paragraphs_spec(trim_spec(text@))) matches Some(gs)
                && sums_spec(gs) == (u as int, i as int),
            Err(_) => groups_spec(paragraphs_spec(trim_spec(text@))) is None,
        },
{
    let t = trim_str(text);
    let ps = paragraphs(t);
    let ghost pv = ps@.map_values(|x: &str| x@);
    proof {
        lemma_paragraphs_len(t@);
        assert(t@.len() <= text@.len()) by {
            crate::text::lemma_trim_len(text@);
        }
    }
    let mut groups: Vec<Group> = Vec::new();
    let mut i: usize = 0;
    assert(pv.subrange(0, 0) =~= Seq::<Seq<char>>::empty());
    assert(groups@.map_values(|g: Group| g.0@) =~= Seq::empty());
    while i < ps.len()
        invariant
            i <= ps@.len(),
            pv == ps@.map_values(|x: &str| x@),
            pv == paragraphs_spec(t@),
            t@ == trim_spec(text@),
            ps@.len() <= 100_000_001,
            groups@.len() == i,
            groups_spec(pv.subrange(0, i as int)) == Some(groups@.map_values(|g: Group| g.0@)),
        decreases ps@.len() - i,
    {
        assert(pv.subrange(0, i + 1).drop_last() =~= pv.subrange(0, i as int));
        assert(pv[i as int] == ps@[i as int]@);
        match Group::parse(ps[i]) {
            Ok(g) => {
                let ghost before = groups@.map_values(|h: Group| h.0@);
                let ghost gv = g.0@;
                groups.push(g);
                assert(groups@.map_values(|h: Group| h.0@) =~= before.push(gv));
            },
            Err(e) => {
                proof {
                    lemma_groups_none(pv, i as int);
                }
                return Err(e);
            },
        }
        i += 1;
    }
    assert(pv.subrange(0, pv.len() as int) =~= pv);
    let ghost gs = groups@.map_values(|g: Group| g.0@);
    let mut anyone: u32 = 0;
    let mut everyone: u32 = 0;
    let mut k: usize = 0;
    while k < groups.len()
        invariant
            k <= groups@.len(),
            groups@.len() <= 100_000_001,
            gs == groups@.map_values(|g: Group| g.0@),
            sums_spec(gs.subrange(0, k as int)) == (anyone as int, everyone as int),
            anyone <= 32 * k,
            everyone <= 32 * k,
        decreases groups@.len() - k,
    {
        assert(gs.subrange(0, k + 1).drop_last() =~= gs.subrange(0, k as int));
        assert(gs[k as int] == groups@[k as int].0@);
        let a = Group::count(groups[k].union());
        let b = Group::count(groups[k].intersection());
        proof {
            lemma_ones_bound(union_of(gs[k as int]), 32);
            lemma_ones_bound(intersection_of(gs[k as int]), 32);
        }
        anyone = anyone + a;
        everyone = everyone + b;
        k += 1;
    }
    assert(gs.subrange(0, gs.len() as int) =~= gs);
    Ok((anyone, everyone))
}

impl std::str::FromStr for Group {
    type Err = AnswerError;

    fn from_str(s: &str) -> Result<Group, AnswerError> {
        Group::parse(s)
    }
}

impl std::str::FromStr for Sheet {
    type Err = AnswerError;

    fn from_str(s: &str) -> Result<Sheet, AnswerError> {
        let chars = chars_of(s);
        Sheet::parse(chars.as_slice())
    }
}

} // verus!
