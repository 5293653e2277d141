use vstd::prelude::*;
use crate::text::{chars_of, is_digit, split, split_on, trim, trim_spec, views};

verus! {

/// The spelled-out digit words, `one` for `k == 0` up to `nine` for `k == 8`.
pub open spec fn word_spec(k: int) -> Seq<char> {
    if k == 0 {
        seq!['o', 'n', 'e']
    } else if k == 1 {
        seq!['t', 'w', 'o']
    } else if k == 2 {
        seq!['t', 'h', 'r', 'e', 'e']
    } else if k == 3 {
        seq!['f', 'o', 'u', 'r']
    } else if k == 4 {
        seq!['f', 'i', 'v', 'e']
    } else if k == 5 {
        seq!['s', 'i', 'x']
    } else if k == 6 {
        seq!['s', 'e', 'v', 'e', 'n']
    } else if k == 7 {
        seq!['e', 'i', 'g', 'h', 't']
    } else {
        seq!['n', 'i', 'n', 'e']
    }
}

pub open spec fn starts_with(s: Seq<char>, w: Seq<char>) -> bool {
    w.len() <= s.len() && s.subrange(0, w.len() as int) == w
}

/// The digit of the first word among those from `k` on that `s` starts with.
pub open spec fn word_digit(s: Seq<char>, k: int) -> Option<char>
    decreases 9 - k,
{
    if k >= 9 || k < 0 {
        None
    } else if starts_with(s, word_spec(k)) {
        Some(((k + 49) as u8) as char)
    } else {
        word_digit(s, k + 1)
    }
}

/// The digit that `s` starts with, as a digit character or as a word.
pub open spec fn digit_of(s: Seq<char>) -> Option<char> {
    if s.len() > 0 && is_digit(s[0]) {
        Some(s[0])
    } else {
        word_digit(s, 0)
    }
}

/// The digits found at the first `n` positions of `s`, in order.
pub open spec fn digits_found(s: Seq<char>, n: int) -> Seq<char>
    decreases n,
{
    if n <= 0 {
        Seq::empty()
    } else {
        let before = digits_found(s, n - 1);
        match digit_of(s.subrange(n - 1, s.len() as int)) {
            Some(d) => before.push(d),
            None => before,
        }
    }
}

/// The two-digit value made of the first and the last digit found in `s`.
pub open spec fn value_spec(s: Seq<char>) -> Option<int> {
    let d = digits_found(s, s.len() as int);
    if d.len() == 0 {
        None
    } else {
        Some(10 * (d[0] as int - '0' as int) + (d.last() as int - '0' as int))
    }
}

/// The non-blank lines of `s`, trimmed.
pub open spec fn scan_spec(s: Seq<char>) -> Seq<Seq<char>> {
    split_on(s, '\n').map_values(|l: Seq<char>| trim_spec(l)).filter(|l: Seq<char>| l.len() > 0)
}

/// The sum of the values of the lines, or `None` if a line has no digit.
pub open spec fn sum_spec(ls: Seq<Seq<char>>) -> Option<int>
    decreases ls.len(),
{
    if ls.len() == 0 {
        Some(0)
    } else {
        match (sum_spec(ls.drop_last()), value_spec(ls.last())) {
            (Some(a), Some(b)) => Some(a + b),
            _ => None,
        }
    }
}

fn word(k: usize) -> (r: Vec<char>)
    requires
        k < 9,
    ensures
        r@ == word_spec(k as int),
{
    let r = if k == 0 {
        vec!['o', 'n', 'e']
    } else if k == 1 {
        vec!['t', 'w', 'o']
    } else if k == 2 {
        vec!['t', 'h', 'r', 'e', 'e']
    } else if k == 3 {
        vec!['f', 'o', 'u', 'r']
    } else if k == 4 {
        vec!['f', 'i', 'v', 'e']
    } else if k == 5 {
        vec!['s', 'i', 'x']
    } else if k == 6 {
        vec!['s', 'e', 'v', 'e', 'n']
    } else if k == 7 {
        vec!['e', 'i', 'g', 'h', 't']
    } else {
        vec!['n', 'i', 'n', 'e']
    };
    assert(r@ =~= word_spec(k as int));
    r
}

fn begins_with(s: &[char], w: &Vec<char>) -> (r: bool)
    ensures
        r == starts_with(s@, w@),
{
    if w.len() > s.len() {
        return false;
    }
    let mut i: usize = 0;
    while i < w.len()
        invariant
            w@.len() <= s@.len(),
            i <= w@.len(),
            forall|k: int| 0 <= k < i ==> s@[k] == w@[k],
        decreases w@.len() - i,
    {
        if s[i] != w[i] {
            assert(s@.subrange(0, w@.len() as int)[i as int] != w@[i as int]);
            return false;
        }
        i += 1;
    }
    assert(s@.subrange(0, w@.len() as int) =~= w@);
    true
}

/// The digit that `input` starts with: a digit character, or a digit
/// spelled out as a word.
pub fn extract_digit(input: &[char]) -> (r: Option<char>)
    ensures
        r == digit_of(input@),
{
    if input.len() > 0 {
        let chr = input[0];
        if '0' <= chr && chr <= '9' {
            return Some(chr);
        }
    }
    let mut k: usize = 0;
    while k < 9
        invariant
            k <= 9,
            word_digit(input@, 0) == word_digit(input@, k as int),
        decreases 9 - k,
    {
        let w = word(k);
        if begins_with(input, &w) {
            return Some((k as u8 + 49u8) as char);
        }
        k += 1;
    }
    None
}

/// The value of one line: its first digit, then its last.
pub fn find_value(input: &[char]) -> (r: Option<i32>)
    ensures
        r matches Some(v) ==> value_spec(input@) == Some(v as int) && 0 <= v <= 99,
        r is None ==> value_spec(input@) is None,
{
    let n = input.len();
    let mut first: Option<char> = None;
    let mut last: Option<char> = None;
    let mut i: usize = 0;
    while i < n
        invariant
            n == input@.len(),
            i <= n,
            digits_found(input@, i as int).len() == 0 ==> first is None && last is None,
            digits_found(input@, i as int).len() > 0 ==> first == Some(
                digits_found(input@, i as int)[0],
            ) && last == Some(digits_found(input@, i as int).last()),
            forall|k: int|
                0 <= k < digits_found(input@, i as int).len() ==> is_digit(
                    #[trigger] digits_found(input@, i as int)[k],
                ),
        decreases n - i,
    {
        let suffix = vstd::slice::slice_subrange(input, i, n);
        let found = extract_digit(suffix);
        proof {
            lemma_digit_of_is_digit(suffix@);
        }
        match found {
            Some(d) => {
                if first.is_none() {
                    first = Some(d);
                }
                last = Some(d);
            },
            None => {},
        }
        i += 1;
    }
    match (first, last) {
        (Some(a), Some(b)) => Some(10 * (a as u32 - '0' as u32) as i32 + (b as u32 - '0' as u32) as i32),
        _ => None,
    }
}

proof fn lemma_word_digit_is_digit(s: Seq<char>, k: int)
    ensures
        word_digit(s, k) matches Some(d) ==> is_digit(d),
    decreases 9 - k,
{
    if 0 <= k < 9 && !starts_with(s, word_spec(k)) {
        lemma_word_digit_is_digit(s, k + 1);
    }
}

proof fn lemma_digit_of_is_digit(s: Seq<char>)
    ensures
        digit_of(s) matches Some(d) ==> is_digit(d),
{
    lemma_word_digit_is_digit(s, 0);
}

/// The non-blank lines of `input`, trimmed.
pub fn scan_lines(input: &str) -> (r: Vec<Vec<char>>)
    ensures
        views(r@) == scan_spec(input@),
{
    let chars = chars_of(input);
    let pieces = split(chars.as_slice(), '\n');
    let ghost pv = views(pieces@);
    let ghost trimmed = pv.map_values(|l: Seq<char>| trim_spec(l));
    let ghost keep = |l: Seq<char>| l.len() > 0;
    let mut out: Vec<Vec<char>> = Vec::new();
    let mut i: usize = 0;
    while i < pieces.len()
        invariant
            i <= pieces@.len(),
            pv == views(pieces@),
            pv == split_on(input@, '\n'),
            trimmed == pv.map_values(|l: Seq<char>| trim_spec(l)),
            keep == (|l: Seq<char>| l.len() > 0),
            views(out@) == trimmed.subrange(0, i as int).filter(keep),
        decreases pieces@.len() - i,
    {
        proof {
            assert(trimmed.subrange(0, i + 1) =~= trimmed.subrange(0, i as int).push(trimmed[i as int]));
            trimmed.subrange(0, i as int).lemma_filter_push(trimmed[i as int], keep);
        }
        let t = trim(pieces[i].as_slice());
        assert(t@ == trimmed[i as int]);
        if t.len() > 0 {
            out.push(vstd::slice::slice_to_vec(t));
            assert(views(out@) =~= trimmed.subrange(0, i as int).filter(keep).push(t@));
        }
        i += 1;
    }
    assert(trimmed.subrange(0, pieces@.len() as int) =~= trimmed);
    out
}

proof fn lemma_split_on_len(s: Seq<char>, sep: char)
    ensures
        split_on(s, sep).len() <= s.len() + 1,
    decreases s.len(),
{
    if s.len() > 0 {
        lemma_split_on_len(s.drop_last(), sep);
        crate::text::lemma_split_on_nonempty(s.drop_last(), sep);
    }
}

proof fn lemma_sum_none(ls: Seq<Seq<char>>, i: int)
    requires
        0 <= i < ls.len(),
        value_spec(ls[i]) is None,
    ensures
        sum_spec(ls) is None,
    decreases ls.len(),
{
    if i < ls.len() - 1 {
        lemma_sum_none(ls.drop_last(), i);
    }
}

/// The sum of the values of the non-blank lines of `input`, or `None` if
/// one of them has no digit.
pub fn sum_values(input: &str) -> (r: Option<i32>)
    requires
        input@.len() <= 20_000_000,
    ensures
        r matches Some(v) ==> sum_spec(scan_spec(input@)) == Some(v as int),
        r is None ==> sum_spec(scan_spec(input@)) is None,
{
    let ls = scan_lines(input);
    let ghost lv = views(ls@);
    proof {
        lemma_split_on_len(input@, '\n');
        split_on(input@, '\n').map_values(|l: Seq<char>| trim_spec(l)).lemma_filter_len(
            |l: Seq<char>| l.len() > 0,
        );
        assert(ls@.len() == lv.len());
    }
    let mut total: i32 = 0;
    let mut i: usize = 0;
    while i < ls.len()
        invariant
            i <= ls@.len() <= 20_000_001,
            lv == views(ls@),
            lv == scan_spec(input@),
            0 <= total <= 99 * i,
            sum_spec(lv.subrange(0, i as int)) == Some(total as int),
        decreases ls@.len() - i,
    {
        assert(lv.subrange(0, i + 1).drop_last() =~= lv.subrange(0, i as int));
        assert(lv[i as int] == ls@[i as int]@);
        match find_value(ls[i].as_slice()) {
            Some(v) => {
                total = total + v;
            },
            None => {
                proof {
                    lemma_sum_none(lv, i as int);
                }
                return None;
            },
        }
        i += 1;
    }
    assert(lv.subrange(0, lv.len() as int) =~= lv);
    Some(total)
}

} // verus!
