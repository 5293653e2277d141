use vstd::prelude::*;
use vstd::slice::slice_subrange;
use vstd::std_specs::iter::IteratorSpec;

verus! {

/// The whitespace characters that trimming and splitting remove: those of
/// Unicode's White_Space property, as `char::is_whitespace` has them.
pub open spec fn is_ws(c: char) -> bool {
    ('\t' <= c && c <= '\r') || c == ' ' || c == '\u{85}' || c == '\u{A0}' || c == '\u{1680}' || (
    '\u{2000}' <= c && c <= '\u{200A}') || c == '\u{2028}' || c == '\u{2029}' || c == '\u{202F}'
        || c == '\u{205F}' || c == '\u{3000}'
}

pub fn is_space(c: char) -> (r: bool)
    ensures
        r == is_ws(c),
{
    ('\t' <= c && c <= '\r') || c == ' ' || c == '\u{85}' || c == '\u{A0}' || c == '\u{1680}' || (
    '\u{2000}' <= c && c <= '\u{200A}') || c == '\u{2028}' || c == '\u{2029}' || c == '\u{202F}'
        || c == '\u{205F}' || c == '\u{3000}'
}

/// The characters of `s`, one by one.
pub fn chars_of(s: &str) -> (r: Vec<char>)
    ensures
        r@ == s@,
{
    broadcast use vstd::string::group_string_axioms;

    let n = s.unicode_len();
    let mut out: Vec<char> = Vec::with_capacity(n);
    let mut it = s.chars();
    loop
        invariant
            n == s@.len(),
            out@ + it.remaining() == s@,
        ensures
            out@ == s@,
        decreases n - out@.len(),
    {
        let ghost before = it.remaining();
        match it.next() {
            Some(c) => {
                out.push(c);
                assert(out@ + it.remaining() =~= s@) by {
                    assert(before =~= seq![c] + before.drop_first());
                }
            },
            None => {
                assert(out@ =~= s@);
                break;
            },
        }
    }
    out
}

/// `s` without its leading whitespace.
pub open spec fn trim_front(s: Seq<char>) -> Seq<char>
    decreases s.len(),
{
    if s.len() > 0 && is_ws(s[0]) {
        trim_front(s.drop_first())
    } else {
        s
    }
}

/// `s` without its trailing whitespace.
pub open spec fn trim_back(s: Seq<char>) -> Seq<char>
    decreases s.len(),
{
    if s.len() > 0 && is_ws(s.last()) {
        trim_back(s.drop_last())
    } else {
        s
    }
}

/// `s` without leading or trailing whitespace.
pub open spec fn trim_spec(s: Seq<char>) -> Seq<char> {
    trim_back(trim_front(s))
}

pub proof fn lemma_trim_len(s: Seq<char>)
    ensures
        trim_spec(s).len() <= s.len(),
{
    lemma_trim_front_len(s);
    lemma_trim_back_len(trim_front(s));
}

proof fn lemma_trim_front_len(s: Seq<char>)
    ensures
        trim_front(s).len() <= s.len(),
    decreases s.len(),
{
    if s.len() > 0 && is_ws(s[0]) {
        lemma_trim_front_len(s.drop_first());
    }
}

proof fn lemma_trim_back_len(s: Seq<char>)
    ensures
        trim_back(s).len() <= s.len(),
    decreases s.len(),
{
    if s.len() > 0 && is_ws(s.last()) {
        lemma_trim_back_len(s.drop_last());
    }
}

/// `s` without leading or trailing whitespace.
pub fn trim(s: &[char]) -> (r: &[char])
    ensures
        r@ == trim_spec(s@),
{
    let n = s.len();
    let mut lo: usize = 0;
    assert(s@.subrange(0, n as int) =~= s@);
    while lo < n && is_space(s[lo])
        invariant
            n == s@.len(),
            lo <= n,
            trim_front(s@) == trim_front(s@.subrange(lo as int, n as int)),
        decreases n - lo,
    {
        assert(s@.subrange(lo as int, n as int).drop_first() =~= s@.subrange(lo + 1, n as int));
        lo += 1;
    }
    let ghost front = s@.subrange(lo as int, n as int);
    assert(trim_front(front) == front);
    let mut hi: usize = n;
    while hi > lo && is_space(s[hi - 1])
        invariant
            lo <= hi <= n,
            n == s@.len(),
            front == s@.subrange(lo as int, n as int),
            trim_back(front) == trim_back(s@.subrange(lo as int, hi as int)),
        decreases hi,
    {
        assert(s@.subrange(lo as int, hi as int).drop_last() =~= s@.subrange(lo as int, hi - 1));
        hi -= 1;
    }
    slice_subrange(s, lo, hi)
}

/// The pieces of `s` between occurrences of `sep`; there is always at least one.
pub open spec fn split_on(s: Seq<char>, sep: char) -> Seq<Seq<char>>
    decreases s.len(),
{
    if s.len() == 0 {
        seq![Seq::empty()]
    } else {
        let init = split_on(s.drop_last(), sep);
        if s.last() == sep {
            init.push(Seq::empty())
        } else {
            init.update(init.len() - 1, init.last().push(s.last()))
        }
    }
}

pub proof fn lemma_split_on_nonempty(s: Seq<char>, sep: char)
    ensures
        split_on(s, sep).len() >= 1,
    decreases s.len(),
{
    if s.len() > 0 {
        lemma_split_on_nonempty(s.drop_last(), sep);
    }
}

/// The lines of a text: none for an empty text, else the pieces between
/// line breaks.
pub open spec fn lines_spec(s: Seq<char>) -> Seq<Seq<char>> {
    if s.len() == 0 {
        Seq::empty()
    } else {
        split_on(s, '\n')
    }
}

pub open spec fn views(v: Seq<Vec<char>>) -> Seq<Seq<char>> {
    v.map_values(|x: Vec<char>| x@)
}

/// The pieces of `s` between occurrences of `sep`.
pub fn split(s: &[char], sep: char) -> (r: Vec<Vec<char>>)
    ensures
        views(r@) == split_on(s@, sep),
{
    let mut pieces: Vec<Vec<char>> = Vec::new();
    let mut cur: Vec<char> = Vec::new();
    let mut i: usize = 0;
    while i < s.len()
        invariant
            i <= s@.len(),
            views(pieces@).push(cur@) == split_on(s@.subrange(0, i as int), sep),
        decreases s@.len() - i,
    {
        let ghost before = s@.subrange(0, i as int);
        assert(s@.subrange(0, i + 1).drop_last() =~= before);
        proof {
            lemma_split_on_nonempty(before, sep);
        }
        if s[i] == sep {
            let done = cur;
            pieces.push(done);
            cur = Vec::new();
            assert(views(pieces@).push(cur@) =~= split_on(before, sep).push(Seq::empty()));
        } else {
            cur.push(s[i]);
            assert(views(pieces@).push(cur@) =~= split_on(before, sep).update(
                split_on(before, sep).len() - 1,
                split_on(before, sep).last().push(s@[i as int]),
            ));
        }
        i += 1;
    }
    pieces.push(cur);
    assert(s@.subrange(0, s@.len() as int) =~= s@);
    assert(views(pieces@) =~= split_on(s@, sep));
    pieces
}

/// The lines of `s`.
pub fn lines(s: &[char]) -> (r: Vec<Vec<char>>)
    ensures
        views(r@) == lines_spec(s@),
{
    if s.len() == 0 {
        let r: Vec<Vec<char>> = Vec::new();
        assert(views(r@) =~= Seq::empty());
        r
    } else {
        split(s, '\n')
    }
}

/// `l` without one trailing carriage return.
pub open spec fn strip_cr(l: Seq<char>) -> Seq<char> {
    if l.len() > 0 && l.last() == '\r' {
        l.drop_last()
    } else {
        l
    }
}

/// The lines of a text as `str::lines` gives them: the pieces between line
/// breaks, without a final empty piece, each without a trailing carriage
/// return.
pub open spec fn text_lines_spec(s: Seq<char>) -> Seq<Seq<char>> {
    let p = split_on(s, '\n');
    let q = if p.last().len() == 0 {
        p.drop_last()
    } else {
        p
    };
    q.map_values(|l: Seq<char>| strip_cr(l))
}

/// The lines of `s`, as `str::lines` gives them.
pub fn text_lines(s: &[char]) -> (r: Vec<Vec<char>>)
    ensures
        views(r@) == text_lines_spec(s@),
{
    let mut pieces = split(s, '\n');
    let ghost p = split_on(s@, '\n');
    proof {
        lemma_split_on_nonempty(s@, '\n');
    }
    assert(pieces@.len() == p.len());
    let last = pieces.len() - 1;
    assert(pieces@[last as int]@ == p.last());
    if pieces[last].len() == 0 {
        pieces.pop();
        assert(views(pieces@) =~= p.drop_last());
    }
    let ghost q = views(pieces@);
    let mut out: Vec<Vec<char>> = Vec::new();
    let mut i: usize = 0;
    while i < pieces.len()
        invariant
            i <= pieces@.len(),
            q == views(pieces@),
            views(out@) == q.subrange(0, i as int).map_values(|l: Seq<char>| strip_cr(l)),
        decreases pieces@.len() - i,
    {
        let mut line = pieces[i].clone();
        assert(line@ == q[i as int]);
        let n = line.len();
        if n > 0 && line[n - 1] == '\r' {
            line.pop();
            assert(line@ =~= q[i as int].drop_last());
        }
        assert(line@ == strip_cr(q[i as int]));
        let ghost before = views(out@);
        out.push(line);
        assert(views(out@) =~= before.push(strip_cr(q[i as int])));
        assert(q.subrange(0, i + 1).map_values(|l: Seq<char>| strip_cr(l)) =~= q.subrange(
            0,
            i as int,
        ).map_values(|l: Seq<char>| strip_cr(l)).push(strip_cr(q[i as int])));
        i += 1;
    }
    assert(q.subrange(0, q.len() as int) =~= q);
    out
}

/// The pieces of `s` between whitespace characters; there is always at least one.
pub open spec fn split_ws_spec(s: Seq<char>) -> Seq<Seq<char>>
    decreases s.len(),
{
    if s.len() == 0 {
        seq![Seq::empty()]
    } else {
        let init = split_ws_spec(s.drop_last());
        if is_ws(s.last()) {
            init.push(Seq::empty())
        } else {
            init.update(init.len() - 1, init.last().push(s.last()))
        }
    }
}

proof fn lemma_split_ws_nonempty(s: Seq<char>)
    ensures
        split_ws_spec(s).len() >= 1,
    decreases s.len(),
{
    if s.len() > 0 {
        lemma_split_ws_nonempty(s.drop_last());
    }
}

/// The words of `s`: its maximal runs of characters other than whitespace.
pub open spec fn words_spec(s: Seq<char>) -> Seq<Seq<char>> {
    split_ws_spec(s).filter(|w: Seq<char>| w.len() > 0)
}

/// The words of `s`.
pub fn words(s: &[char]) -> (r: Vec<Vec<char>>)
    ensures
        views(r@) == words_spec(s@),
{
    let ghost keep = |w: Seq<char>| w.len() > 0;
    let mut pieces: Vec<Vec<char>> = Vec::new();
    let mut cur: Vec<char> = Vec::new();
    let mut i: usize = 0;
    while i < s.len()
        invariant
            i <= s@.len(),
            keep == (|w: Seq<char>| w.len() > 0),
            split_ws_spec(s@.subrange(0, i as int)).last() == cur@,
            views(pieces@) == split_ws_spec(s@.subrange(0, i as int)).drop_last().filter(keep),
        decreases s@.len() - i,
    {
        let ghost before = s@.subrange(0, i as int);
        let ghost sp = split_ws_spec(before);
        assert(s@.subrange(0, i + 1).drop_last() =~= before);
        proof {
            lemma_split_ws_nonempty(before);
            assert(sp =~= sp.drop_last().push(sp.last()));
        }
        if is_space(s[i]) {
            proof {
                sp.drop_last().lemma_filter_push(sp.last(), keep);
                assert(split_ws_spec(s@.subrange(0, i + 1)).drop_last() =~= sp);
            }
            if cur.len() > 0 {
                let done = cur;
                pieces.push(done);
            }
            cur = Vec::new();
        } else {
            cur.push(s[i]);
            assert(split_ws_spec(s@.subrange(0, i + 1)).drop_last() =~= sp.drop_last());
        }
        i += 1;
    }
    assert(s@.subrange(0, s@.len() as int) =~= s@);
    proof {
        let sp = split_ws_spec(s@);
        lemma_split_ws_nonempty(s@);
        assert(sp =~= sp.drop_last().push(sp.last()));
        sp.drop_last().lemma_filter_push(sp.last(), keep);
    }
    if cur.len() > 0 {
        pieces.push(cur);
    }
    pieces
}

/// The words of `s`, as slices of it.
pub fn word_slices<'a>(s: &'a str) -> (r: Vec<&'a str>)
    ensures
        r@.map_values(|t: &str| t@) == words_spec(s@),
{
    let chars = chars_of(s);
    let ghost keep = |w: Seq<char>| w.len() > 0;
    let mut pieces: Vec<&'a str> = Vec::new();
    let mut start: usize = 0;
    let mut i: usize = 0;
    while i < chars.len()
        invariant
            chars@ == s@,
            start <= i <= s@.len(),
            keep == (|w: Seq<char>| w.len() > 0),
            split_ws_spec(s@.subrange(0, i as int)).last() == s@.subrange(start as int, i as int),
            pieces@.map_values(|t: &str| t@) == split_ws_spec(s@.subrange(0, i as int)).drop_last().filter(
                keep,
            ),
        decreases s@.len() - i,
    {
        let ghost before = s@.subrange(0, i as int);
        let ghost sp = split_ws_spec(before);
        assert(s@.subrange(0, i + 1).drop_last() =~= before);
        proof {
            lemma_split_ws_nonempty(before);
            assert(sp =~= sp.drop_last().push(sp.last()));
        }
        if is_space(chars[i]) {
            proof {
                sp.drop_last().lemma_filter_push(sp.last(), keep);
                assert(split_ws_spec(s@.subrange(0, i + 1)).drop_last() =~= sp);
            }
            if start < i {
                let ghost old_pieces = pieces@.map_values(|t: &str| t@);
                let w = s.substring_char(start, i);
                pieces.push(w);
                assert(pieces@.map_values(|t: &str| t@) =~= old_pieces.push(w@));
            }
            start = i + 1;
            assert(split_ws_spec(s@.subrange(0, i + 1)).last() =~= s@.subrange(
                start as int,
                i + 1,
            ));
        } else {
            assert(split_ws_spec(s@.subrange(0, i + 1)).drop_last() =~= sp.drop_last());
            assert(split_ws_spec(s@.subrange(0, i + 1)).last() =~= s@.subrange(
                start as int,
                i + 1,
            ));
        }
        i += 1;
    }
    assert(s@.subrange(0, s@.len() as int) =~= s@);
    proof {
        let sp = split_ws_spec(s@);
        lemma_split_ws_nonempty(s@);
        assert(sp =~= sp.drop_last().push(sp.last()));
        sp.drop_last().lemma_filter_push(sp.last(), keep);
    }
    if start < chars.len() {
        let ghost old_pieces = pieces@.map_values(|t: &str| t@);
        let w = s.substring_char(start, chars.len());
        pieces.push(w);
        assert(pieces@.map_values(|t: &str| t@) =~= old_pieces.push(w@));
    }
    pieces
}

/// `s` without leading or trailing whitespace, as a slice of it.
pub fn trim_str<'a>(s: &'a str) -> (r: &'a str)
    ensures
        r@ == trim_spec(s@),
{
    let chars = chars_of(s);
    let n = chars.len();
    let mut lo: usize = 0;
    assert(s@.subrange(0, n as int) =~= s@);
    while lo < n && is_space(chars[lo])
        invariant
            chars@ == s@,
            n == s@.len(),
            lo <= n,
            trim_front(s@) == trim_front(s@.subrange(lo as int, n as int)),
        decreases n - lo,
    {
        assert(s@.subrange(lo as int, n as int).drop_first() =~= s@.subrange(lo + 1, n as int));
        lo += 1;
    }
    let ghost front = s@.subrange(lo as int, n as int);
    assert(trim_front(front) == front);
    let mut hi: usize = n;
    while hi > lo && is_space(chars[hi - 1])
        invariant
            chars@ == s@,
            lo <= hi <= n,
            n == s@.len(),
            front == s@.subrange(lo as int, n as int),
            trim_back(front) == trim_back(s@.subrange(lo as int, hi as int)),
        decreases hi,
    {
        assert(s@.subrange(lo as int, hi as int).drop_last() =~= s@.subrange(lo as int, hi - 1));
        hi -= 1;
    }
    s.substring_char(lo, hi)
}

/// The pieces of `s` between occurrences of `sep`, as slices of it.
pub fn split_str<'a>(s: &'a str, sep: char) -> (r: Vec<&'a str>)
    ensures
        r@.map_values(|t: &str| t@) == split_on(s@, sep),
{
    let chars = chars_of(s);
    let mut pieces: Vec<&'a str> = Vec::new();
    let mut start: usize = 0;
    let mut i: usize = 0;
    while i < chars.len()
        invariant
            chars@ == s@,
            start <= i <= s@.len(),
            split_on(s@.subrange(0, i as int), sep).last() == s@.subrange(start as int, i as int),
            pieces@.map_values(|t: &str| t@) == split_on(s@.subrange(0, i as int), sep).drop_last(),
        decreases s@.len() - i,
    {
        let ghost before = s@.subrange(0, i as int);
        let ghost sp = split_on(before, sep);
        assert(s@.subrange(0, i + 1).drop_last() =~= before);
        proof {
            lemma_split_on_nonempty(before, sep);
            assert(sp =~= sp.drop_last().push(sp.last()));
        }
        if chars[i] == sep {
            let ghost old_pieces = pieces@.map_values(|t: &str| t@);
            let w = s.substring_char(start, i);
            pieces.push(w);
            assert(pieces@.map_values(|t: &str| t@) =~= old_pieces.push(w@));
            assert(split_on(s@.subrange(0, i + 1), sep).drop_last() =~= sp);
            start = i + 1;
            assert(split_on(s@.subrange(0, i + 1), sep).last() =~= s@.subrange(start as int, i + 1));
        } else {
            assert(split_on(s@.subrange(0, i + 1), sep).drop_last() =~= sp.drop_last());
            assert(split_on(s@.subrange(0, i + 1), sep).last() =~= s@.subrange(start as int, i + 1));
        }
        i += 1;
    }
    assert(s@.subrange(0, s@.len() as int) =~= s@);
    proof {
        let sp = split_on(s@, sep);
        lemma_split_on_nonempty(s@, sep);
        assert(sp =~= sp.drop_last().push(sp.last()));
    }
    let ghost old_pieces = pieces@.map_values(|t: &str| t@);
    let w = s.substring_char(start, chars.len());
    pieces.push(w);
    assert(pieces@.map_values(|t: &str| t@) =~= old_pieces.push(w@));
    pieces
}

/// The pieces of `s` between blank-line breaks (`\n\n`), matched from the
/// left without overlap, as `str::split("\n\n")` gives them; there is always
/// at least one.
pub open spec fn paragraphs_spec(s: Seq<char>) -> Seq<Seq<char>>
    decreases s.len(),
{
    if s.len() == 0 {
        seq![Seq::empty()]
    } else {
        let st = paragraphs_spec(s.drop_last());
        let cur = st.last();
        if s.last() == '\n' && cur.len() > 0 && cur.last() == '\n' {
            st.drop_last().push(cur.drop_last()).push(Seq::empty())
        } else {
            st.update(st.len() - 1, cur.push(s.last()))
        }
    }
}

pub proof fn lemma_paragraphs_nonempty(s: Seq<char>)
    ensures
        paragraphs_spec(s).len() >= 1,
    decreases s.len(),
{
    if s.len() > 0 {
        lemma_paragraphs_nonempty(s.drop_last());
    }
}

/// The pieces of `s` between blank-line breaks, as slices of it.
pub fn paragraphs<'a>(s: &'a str) -> (r: Vec<&'a str>)
    ensures
        r@.map_values(|t: &str| t@) == paragraphs_spec(s@),
{
    let chars = chars_of(s);
    let mut pieces: Vec<&'a str> = Vec::new();
    let mut start: usize = 0;
    let mut i: usize = 0;
    while i < chars.len()
        invariant
            chars@ == s@,
            start <= i <= s@.len(),
            paragraphs_spec(s@.subrange(0, i as int)).last() == s@.subrange(start as int, i as int),
            pieces@.map_values(|t: &str| t@) == paragraphs_spec(s@.subrange(0, i as int)).drop_last(),
        decreases s@.len() - i,
    {
        let ghost before = s@.subrange(0, i as int);
        let ghost sp = paragraphs_spec(before);
        assert(s@.subrange(0, i + 1).drop_last() =~= before);
        proof {
            lemma_paragraphs_nonempty(before);
            assert(sp =~= sp.drop_last().push(sp.last()));
        }
        if chars[i] == '\n' && start < i && chars[i - 1] == '\n' {
            assert(sp.last().last() == s@[i - 1]);
            let ghost old_pieces = pieces@.map_values(|t: &str| t@);
            let w = s.substring_char(start, i - 1);
            pieces.push(w);
            assert(w@ =~= sp.last().drop_last());
            assert(pieces@.map_values(|t: &str| t@) =~= old_pieces.push(w@));
            assert(paragraphs_spec(s@.subrange(0, i + 1)).drop_last() =~= sp.drop_last().push(
                sp.last().drop_last(),
            ));
            start = i + 1;
            assert(paragraphs_spec(s@.subrange(0, i + 1)).last() =~= s@.subrange(
                start as int,
                i + 1,
            ));
        } else {
            assert(paragraphs_spec(s@.subrange(0, i + 1)).drop_last() =~= sp.drop_last());
            assert(paragraphs_spec(s@.subrange(0, i + 1)).last() =~= s@.subrange(
                start as int,
                i + 1,
            ));
        }
        i += 1;
    }
    assert(s@.subrange(0, s@.len() as int) =~= s@);
    proof {
        let sp = paragraphs_spec(s@);
        lemma_paragraphs_nonempty(s@);
        assert(sp =~= sp.drop_last().push(sp.last()));
    }
    let ghost old_pieces = pieces@.map_values(|t: &str| t@);
    let w = s.substring_char(start, chars.len());
    pieces.push(w);
    assert(pieces@.map_values(|t: &str| t@) =~= old_pieces.push(w@));
    pieces
}

pub open spec fn is_digit(c: char) -> bool {
    '0' <= c <= '9'
}

pub open spec fn all_digits(s: Seq<char>) -> bool {
    forall|i: int| 0 <= i < s.len() ==> is_digit(#[trigger] s[i])
}

/// The value of a run of decimal digits.
pub open spec fn digits_value(s: Seq<char>) -> int
    decreases s.len(),
{
    if s.len() == 0 {
        0
    } else {
        10 * digits_value(s.drop_last()) + (s.last() as int - '0' as int)
    }
}

/// One or more decimal digits.
pub open spec fn is_decimal(s: Seq<char>) -> bool {
    s.len() > 0 && all_digits(s)
}

/// An unsigned number as `str::parse` reads it: an optional `+`, then one or
/// more digits, with a value of at most `limit`.
pub open spec fn parse_unsigned_spec(s: Seq<char>, limit: int) -> Option<int> {
    let d = if s.len() > 0 && s[0] == '+' {
        s.drop_first()
    } else {
        s
    };
    if is_decimal(d) && digits_value(d) <= limit {
        Some(digits_value(d))
    } else {
        None
    }
}

/// A 32-bit signed number as `str::parse` reads it: an optional sign, then
/// one or more digits, within the range of `i32`.
pub open spec fn parse_i32_spec(s: Seq<char>) -> Option<int> {
    if s.len() > 0 && s[0] == '-' {
        let d = s.drop_first();
        if is_decimal(d) && digits_value(d) <= 0x8000_0000 {
            Some(-digits_value(d))
        } else {
            None
        }
    } else {
        parse_unsigned_spec(s, 0x7fff_ffff)
    }
}

proof fn lemma_digits_prefix(s: Seq<char>, k: int, j: int)
    requires
        all_digits(s),
        0 <= k <= j <= s.len(),
    ensures
        0 <= digits_value(s.subrange(0, k)) <= digits_value(s.subrange(0, j)),
    decreases j,
{
    if j > 0 {
        assert(s.subrange(0, j).drop_last() =~= s.subrange(0, j - 1));
        if k < j {
            lemma_digits_prefix(s, k, j - 1);
        } else {
            lemma_digits_prefix(s, j - 1, j - 1);
        }
    }
}

/// The value of the digits `d`, if they are one or more digits worth at most `limit`.
fn digits_upto(d: &[char], limit: u64) -> (r: Option<u64>)
    ensures
        r == (if is_decimal(d@) && digits_value(d@) <= limit {
            Some(digits_value(d@) as u64)
        } else {
            None::<u64>
        }),
        r matches Some(v) ==> v as int == digits_value(d@),
{
    if d.len() == 0 {
        return None;
    }
    let mut val: u128 = 0;
    let mut i: usize = 0;
    while i < d.len()
        invariant
            i <= d@.len(),
            all_digits(d@.subrange(0, i as int)),
            val == digits_value(d@.subrange(0, i as int)),
            val <= limit,
        decreases d@.len() - i,
    {
        let c = d[i];
        if !('0' <= c && c <= '9') {
            return None;
        }
        assert(d@.subrange(0, i + 1).drop_last() =~= d@.subrange(0, i as int));
        let next = val * 10 + (c as u32 - '0' as u32) as u128;
        if next > limit as u128 {
            proof {
                if all_digits(d@) {
                    assert(d@.subrange(0, d@.len() as int) =~= d@);
                    lemma_digits_prefix(d@, i + 1, d@.len() as int);
                }
            }
            return None;
        }
        val = next;
        i += 1;
    }
    assert(d@.subrange(0, d@.len() as int) =~= d@);
    Some(val as u64)
}

/// An unsigned number: an optional `+`, then digits worth at most `limit`.
pub fn parse_unsigned(s: &[char], limit: u64) -> (r: Option<u64>)
    ensures
        r matches Some(v) ==> parse_unsigned_spec(s@, limit as int) == Some(v as int),
        r is None ==> parse_unsigned_spec(s@, limit as int) is None,
{
    if s.len() > 0 && s[0] == '+' {
        let d = slice_subrange(s, 1, s.len());
        assert(d@ =~= s@.drop_first());
        digits_upto(d, limit)
    } else {
        digits_upto(s, limit)
    }
}

/// A 32-bit signed number: an optional sign, then digits.
pub fn parse_i32(s: &[char]) -> (r: Option<i32>)
    ensures
        r matches Some(v) ==> parse_i32_spec(s@) == Some(v as int),
        r is None ==> parse_i32_spec(s@) is None,
{
    if s.len() > 0 && s[0] == '-' {
        let d = slice_subrange(s, 1, s.len());
        assert(d@ =~= s@.drop_first());
        match digits_upto(d, 0x8000_0000) {
            Some(v) => Some((0 - v as i64) as i32),
            None => None,
        }
    } else {
        match parse_unsigned(s, 0x7fff_ffff) {
            Some(v) => Some(v as i32),
            None => None,
        }
    }
}

} // verus!
