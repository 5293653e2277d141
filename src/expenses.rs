use vstd::prelude::*;
use crate::text::{chars_of, parse_i32, parse_i32_spec, text_lines, text_lines_spec, views};

verus! {

/// The sum that the entries must reach.
pub const TARGET: i32 = 2020;

pub open spec fn sorted(v: Seq<i32>) -> bool {
    forall|a: int, b: int| 0 <= a <= b < v.len() ==> v[a] <= v[b]
}

/// Some entry at or after `lo` equals `x`.
pub open spec fn has_from(v: Seq<i32>, lo: int, x: int) -> bool {
    exists|k: int| lo <= k < v.len() && v[k] == x
}

/// Whether some entry at or after `lo` of the sorted `v` equals `target`,
/// by binary search.
fn search_from(v: &[i32], lo: usize, target: i64) -> (r: bool)
    requires
        sorted(v@),
        lo <= v@.len(),
    ensures
        r == has_from(v@, lo as int, target as int),
{
    let mut a: usize = lo;
    let mut b: usize = v.len();
    while a < b
        invariant
            lo <= a <= b <= v@.len(),
            sorted(v@),
            forall|k: int| lo <= k < a ==> v@[k] < target,
            forall|k: int| b <= k < v@.len() ==> v@[k] > target,
        decreases b - a,
    {
        let mid = a + (b - a) / 2;
        let m = v[mid] as i64;
        if m == target {
            return true;
        } else if m < target {
            a = mid + 1;
        } else {
            b = mid;
        }
    }
    false
}

/// The first entry `x`, in order, for which `TARGET - x` is an entry too,
/// with that partner.
pub fn find_pair(values: &[i32]) -> (r: Option<(i32, i32)>)
    requires
        sorted(values@),
    ensures
        r is None ==> forall|i: int|
            0 <= i < values@.len() ==> !has_from(values@, 0, TARGET - #[trigger] values@[i]),
        r matches Some((x, y)) ==> exists|i: int|
            0 <= i < values@.len() && values@[i] == x && y == TARGET - x && has_from(
                values@,
                0,
                y as int,
            ) && forall|j: int|
                0 <= j < i ==> !has_from(values@, 0, TARGET - #[trigger] values@[j]),
{
    let mut i: usize = 0;
    while i < values.len()
        invariant
            i <= values@.len(),
            sorted(values@),
            forall|j: int| 0 <= j < i ==> !has_from(values@, 0, TARGET - #[trigger] values@[j]),
        decreases values@.len() - i,
    {
        let x = values[i];
        let y = TARGET as i64 - x as i64;
        if search_from(values, 0, y) {
            proof {
                let k = choose|k: int| 0 <= k < values@.len() && values@[k] == y;
                assert(values@[k] == y);
            }
            return Some((x, y as i32));
        }
        i += 1;
    }
    None
}

/// Some `z` at or after position `j` completes `x` and `y` to `TARGET`.
pub open spec fn completes(v: Seq<i32>, j: int, x: i32, y: i32) -> bool {
    has_from(v, j, TARGET - x - y)
}

/// The first `x` at position `i` and `y` at position `i + j`, in order of
/// `i` then `j`, for which an entry at or after position `j` makes the sum
/// `TARGET`, with that entry.
pub fn find_triplet(values: &[i32]) -> (r: Option<(i32, i32, i32)>)
    requires
        sorted(values@),
    ensures
        r is None ==> forall|i: int, j: int|
            0 <= i && 0 <= j && i + j < values@.len() ==> !completes(
                values@,
                j,
                #[trigger] values@[i],
                #[trigger] values@[i + j],
            ),
        r matches Some((x, y, z)) ==> exists|i: int, j: int|
            0 <= i && 0 <= j && i + j < values@.len() && #[trigger] values@[i] == x && #[trigger] values@[i + j] == y
                && z == TARGET - x - y && completes(values@, j, x, y),
{
    let n = values.len();
    let mut i: usize = 0;
    while i < n
        invariant
            n == values@.len(),
            i <= n,
            sorted(values@),
            forall|a: int, b: int|
                0 <= a < i && 0 <= b && a + b < n ==> !completes(
                    values@,
                    b,
                    #[trigger] values@[a],
                    #[trigger] values@[a + b],
                ),
        decreases n - i,
    {
        let x = values[i];
        let mut j: usize = 0;
        while j < n - i
            invariant
                n == values@.len(),
                i < n,
                j <= n - i,
                x == values@[i as int],
                sorted(values@),
                forall|a: int, b: int|
                    0 <= a < i && 0 <= b && a + b < n ==> !completes(
                        values@,
                        b,
                        #[trigger] values@[a],
                        #[trigger] values@[a + b],
                    ),
                forall|b: int|
                    0 <= b < j ==> !completes(values@, b, x, #[trigger] values@[i + b]),
            decreases n - i - j,
        {
            let y = values[i + j];
            let z = TARGET as i64 - x as i64 - y as i64;
            if search_from(values, j, z) {
                proof {
                    let k = choose|k: int| j <= k < values@.len() && values@[k] == z;
                    assert(values@[k] == z);
                }
                return Some((x, y, z as i32));
            }
            j += 1;
        }
        i += 1;
    }
    None
}

/// The numbers of the lines, or `None` if a line is not a 32-bit number.
pub open spec fn entries_spec(ls: Seq<Seq<char>>) -> Option<Seq<i32>>
    decreases ls.len(),
{
    if ls.len() == 0 {
        Some(Seq::empty())
    } else {
        match (entries_spec(ls.drop_last()), parse_i32_spec(ls.last())) {
            (Some(v), Some(x)) => Some(v.push(x as i32)),
            _ => None,
        }
    }
}

proof fn lemma_entries_none(ls: Seq<Seq<char>>, i: int)
    requires
        0 <= i < ls.len(),
        parse_i32_spec(ls[i]) is None,
    ensures
        entries_spec(ls) is None,
    decreases ls.len(),
{
    if i < ls.len() - 1 {
        lemma_entries_none(ls.drop_last(), i);
    }
}

/// Reads one number per line.
pub fn parse(text: &str) -> (r: Option<Vec<i32>>)
    ensures
        r matches Some(v) ==> entries_spec(text_lines_spec(text@)) == Some(v@),
        r is None ==> entries_spec(text_lines_spec(text@)) is None,
{
    let chars = chars_of(text);
    let ls = text_lines(chars.as_slice());
    let ghost lv = views(ls@);
    let mut out: Vec<i32> = Vec::new();
    let mut i: usize = 0;
    while i < ls.len()
        invariant
            i <= ls@.len(),
            lv == views(ls@),
            lv == text_lines_spec(text@),
            entries_spec(lv.subrange(0, i as int)) == Some(out@),
        decreases ls@.len() - i,
    {
        assert(lv.subrange(0, i + 1).drop_last() =~= lv.subrange(0, i as int));
        assert(lv[i as int] == ls@[i as int]@);
        match parse_i32(ls[i].as_slice()) {
            Some(x) => out.push(x),
            None => {
                proof {
                    lemma_entries_none(lv, i as int);
                }
                return None;
            },
        }
        i += 1;
    }
    assert(lv.subrange(0, lv.len() as int) =~= lv);
    Some(out)
}

} // verus!
