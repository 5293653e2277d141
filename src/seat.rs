use vstd::prelude::*;
use crate::text::chars_of;

verus! {

/// Which half of the remaining range a character of a seat code keeps.
#[derive(Clone, Copy, Debug, PartialEq, Eq, Structural)]
pub enum Bound {
    Lower,
    Upper,
}

/// Why a seat code was refused.
#[derive(Clone, Copy, Debug, PartialEq, Eq, Structural)]
pub enum SeatError {
    /// A row character other than `F` or `B`.
    InvalidRowValue,
    /// A column character other than `L` or `R`.
    InvalidColValue,
    /// Fewer than seven row characters.
    InvalidRowCount,
    /// Fewer than three column characters.
    InvalidColCount,
    /// Characters after the ten of the code.
    InvalidValueCount,
}

pub open spec fn row_bound(c: char) -> Option<Bound> {
    if c == 'F' {
        Some(Bound::Lower)
    } else if c == 'B' {
        Some(Bound::Upper)
    } else {
        None
    }
}

pub open spec fn col_bound(c: char) -> Option<Bound> {
    if c == 'L' {
        Some(Bound::Lower)
    } else if c == 'R' {
        Some(Bound::Upper)
    } else {
        None
    }
}

/// The number a sequence of halvings selects: read as binary digits, most
/// significant first, with `Upper` for one.
pub open spec fn bounds_value(s: Seq<Bound>) -> int
    decreases s.len(),
{
    if s.len() == 0 {
        0
    } else {
        2 * bounds_value(s.drop_last()) + if s.last() == Bound::Upper {
            1int
        } else {
            0int
        }
    }
}

proof fn lemma_bounds_value_range(s: Seq<Bound>)
    ensures
        0 <= bounds_value(s) < vstd::arithmetic::power2::pow2(s.len() as nat),
    decreases s.len(),
{
    if s.len() > 0 {
        lemma_bounds_value_range(s.drop_last());
        vstd::arithmetic::power2::lemma_pow2_unfold(s.len() as nat);
    } else {
        vstd::arithmetic::power2::lemma2_to64();
    }
}

impl Bound {
    pub fn try_from_row(value: char) -> (r: Result<Bound, SeatError>)
        ensures
            r == (match row_bound(value) {
                Some(b) => Ok(b),
                None => Err(SeatError::InvalidRowValue),
            }),
    {
        if value == 'F' {
            Ok(Bound::Lower)
        } else if value == 'B' {
            Ok(Bound::Upper)
        } else {
            Err(SeatError::InvalidRowValue)
        }
    }

    pub fn try_from_col(value: char) -> (r: Result<Bound, SeatError>)
        ensures
            r == (match col_bound(value) {
                Some(b) => Ok(b),
                None => Err(SeatError::InvalidColValue),
            }),
    {
        if value == 'L' {
            Ok(Bound::Lower)
        } else if value == 'R' {
            Ok(Bound::Upper)
        } else {
            Err(SeatError::InvalidColValue)
        }
    }
}

/// A boarding pass: seven row halvings, then three column halvings.
#[derive(Clone, Debug)]
pub struct Seat {
    pub row: Vec<Bound>,
    pub col: Vec<Bound>,
}

/// The row part (up to seven characters) of a code: all row characters.
pub open spec fn all_row(s: Seq<char>) -> bool {
    forall|i: int| 0 <= i < s.len() ==> (#[trigger] row_bound(s[i])) is Some
}

pub open spec fn all_col(s: Seq<char>) -> bool {
    forall|i: int| 0 <= i < s.len() ==> (#[trigger] col_bound(s[i])) is Some
}

pub open spec fn min(a: int, b: int) -> int {
    if a < b {
        a
    } else {
        b
    }
}

/// The error a seat code gives, if any: the row characters are read first,
/// then the column characters, then the rest must be empty.
pub open spec fn seat_error(s: Seq<char>) -> Option<SeatError> {
    if !all_row(s.subrange(0, min(7, s.len() as int))) {
        Some(SeatError::InvalidRowValue)
    } else if s.len() < 7 {
        Some(SeatError::InvalidRowCount)
    } else if !all_col(s.subrange(7, min(10, s.len() as int))) {
        Some(SeatError::InvalidColValue)
    } else if s.len() < 10 {
        Some(SeatError::InvalidColCount)
    } else if s.len() > 10 {
        Some(SeatError::InvalidValueCount)
    } else {
        None
    }
}

impl Seat {
    pub open spec fn wf(&self) -> bool {
        self.row@.len() == 7 && self.col@.len() == 3
    }

    /// The number that a sequence of halvings selects.
    pub fn number(slice: &[Bound]) -> (r: u16)
        requires
            1 <= slice@.len() < 16,
        ensures
            r == bounds_value(slice@),
    {
        proof {
            lemma_bounds_value_range(slice@);
            vstd::arithmetic::power2::lemma2_to64();
            vstd::arithmetic::power2::lemma_pow2_strictly_increases(slice@.len() as nat, 16);
        }
        let mut value: u16 = 0;
        let mut i: usize = 0;
        while i < slice.len()
            invariant
                i <= slice@.len() < 16,
                value == bounds_value(slice@.subrange(0, i as int)),
                bounds_value(slice@) < 0x10000,
            decreases slice@.len() - i,
        {
            assert(slice@.subrange(0, i + 1).drop_last() =~= slice@.subrange(0, i as int));
            proof {
                lemma_bounds_value_range(slice@.subrange(0, i + 1));
                vstd::arithmetic::power2::lemma2_to64();
                vstd::arithmetic::power2::lemma_pow2_strictly_increases((i + 1) as nat, 16);
            }
            let bit: u16 = match slice[i] {
                Bound::Lower => 0,
                Bound::Upper => 1,
            };
            assert(2 * value + bit == bounds_value(slice@.subrange(0, i + 1)));
            assert(bounds_value(slice@.subrange(0, i + 1)) < 0x10000);
            value = 2 * value + bit;
            i += 1;
        }
        assert(slice@.subrange(0, slice@.len() as int) =~= slice@);
        value
    }

    pub fn row_number(&self) -> (r: u16)
        requires
            self.wf(),
        ensures
            r == bounds_value(self.row@),
    {
        Self::number(self.row.as_slice())
    }

    pub fn col_number(&self) -> (r: u16)
        requires
            self.wf(),
        ensures
            r == bounds_value(self.col@),
    {
        Self::number(self.col.as_slice())
    }

    /// The seat's id: eight seats to a row.
    pub fn seat_number(&self) -> (r: u32)
        requires
            self.wf(),
        ensures
            r == bounds_value(self.row@) * 8 + bounds_value(self.col@),
    {
        let row = self.row_number() as u32;
        let col = self.col_number() as u32;
        row * 8 + col
    }

    /// Reads a code such as `FBFBBFFRLR`.
    pub fn parse(s: &str) -> (r: Result<Seat, SeatError>)
        ensures
            match r {
                Ok(seat) => {
                    &&& seat_error(s@) is None
                    &&& seat.wf()
                    &&& forall|i: int|
                        0 <= i < 7 ==> row_bound(s@[i]) == Some(#[trigger] seat.row@[i])
                    &&& forall|i: int|
                        0 <= i < 3 ==> col_bound(s@[7 + i]) == Some(#[trigger] seat.col@[i])
                },
                Err(e) => seat_error(s@) == Some(e),
            },
    {
        let chars = chars_of(s);
        let n = chars.len();
        let ghost rows = s@.subrange(0, min(7, n as int));
        let mut row: Vec<Bound> = Vec::new();
        let mut i: usize = 0;
        while i < n && i < 7
            invariant
                chars@ == s@,
                n == s@.len(),
                i <= 7,
                i <= n,
                row@.len() == i,
                rows == s@.subrange(0, min(7, n as int)),
                forall|k: int| 0 <= k < i ==> row_bound(s@[k]) == Some(#[trigger] row@[k]),
            decreases 7 - i,
        {
            match Bound::try_from_row(chars[i]) {
                Ok(b) => row.push(b),
                Err(e) => {
                    assert(rows[i as int] == s@[i as int]);
                    assert(row_bound(rows[i as int]) is None);
                    return Err(e);
                },
            }
            i += 1;
        }
        assert forall|k: int| 0 <= k < rows.len() implies (#[trigger] row_bound(rows[k])) is Some by {
            assert(row_bound(s@[k]) == Some(row@[k]));
        }
        if n < 7 {
            return Err(SeatError::InvalidRowCount);
        }
        let ghost cols = s@.subrange(7, min(10, n as int));
        let mut col: Vec<Bound> = Vec::new();
        let mut j: usize = 7;
        while j < n && j < 10
            invariant
                chars@ == s@,
                n == s@.len(),
                7 <= j <= 10,
                j <= n,
                col@.len() == j - 7,
                cols == s@.subrange(7, min(10, n as int)),
                all_row(s@.subrange(0, min(7, n as int))),
                forall|k: int| 0 <= k < j - 7 ==> col_bound(s@[7 + k]) == Some(#[trigger] col@[k]),
            decreases 10 - j,
        {
            match Bound::try_from_col(chars[j]) {
                Ok(b) => col.push(b),
                Err(e) => {
                    assert(cols[j - 7] == s@[j as int]);
                    assert(col_bound(cols[j - 7]) is None);
                    return Err(e);
                },
            }
            j += 1;
        }
        assert forall|k: int| 0 <= k < cols.len() implies (#[trigger] col_bound(cols[k])) is Some by {
            assert(col_bound(s@[7 + k]) == Some(col@[k]));
        }
        if n < 10 {
            return Err(SeatError::InvalidColCount);
        }
        if n > 10 {
            return Err(SeatError::InvalidValueCount);
        }
        Ok(Seat { row, col })
    }
}

/// The first number from `numbers[0]` on that is missing where it would
/// stand if `numbers` counted up by one, up to the last number.
pub fn first_gap(numbers: &[u32]) -> (r: Option<u32>)
    ensures
        numbers@.len() == 0 ==> r is None,
        r matches Some(g) ==> {
            let k = g - numbers@[0];
            &&& 0 <= k < numbers@.len()
            &&& g <= numbers@.last()
            &&& numbers@[k] != g
            &&& forall|j: int| 0 <= j < k ==> #[trigger] numbers@[j] == numbers@[0] + j
        },
        r is None && numbers@.len() > 0 ==> forall|k: int|
            0 <= k < numbers@.len() && numbers@[0] + k <= numbers@.last() ==> #[trigger] numbers@[k]
                == numbers@[0] + k,
{
    if numbers.len() == 0 {
        return None;
    }
    let lower = numbers[0];
    let upper = numbers[numbers.len() - 1];
    let mut k: usize = 0;
    while k < numbers.len() && lower <= upper && (k as u64) <= (upper - lower) as u64
        invariant
            k <= numbers@.len(),
            numbers@.len() > 0,
            lower == numbers@[0],
            upper == numbers@.last(),
            forall|j: int| 0 <= j < k ==> #[trigger] numbers@[j] == numbers@[0] + j,
        decreases numbers@.len() - k,
    {
        let expected = lower + k as u32;
        if numbers[k] != expected {
            return Some(expected);
        }
        k += 1;
    }
    None
}

impl std::str::FromStr for Seat {
    type Err = SeatError;

    fn from_str(s: &str) -> Result<Seat, SeatError> {
        Seat::parse(s)
    }
}

} // verus!
