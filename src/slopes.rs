use vstd::prelude::*;
use crate::text::{chars_of, text_lines, text_lines_spec, views};

verus! {

/// Why a map was refused.
#[derive(Clone, Copy, Debug, PartialEq, Eq, Structural)]
pub enum BoardError {
    /// A character other than `.` or `#`.
    InvalidCharacter,
}

/// One square of the map.
#[derive(Clone, Copy, Debug, PartialEq, Eq, Structural)]
pub enum Tile {
    Empty,
    Tree,
}

pub open spec fn tile_of(c: char) -> Option<Tile> {
    if c == '.' {
        Some(Tile::Empty)
    } else if c == '#' {
        Some(Tile::Tree)
    } else {
        None
    }
}

/// The tiles of one line, or `None` if a character is not a tile.
pub open spec fn row_spec(l: Seq<char>) -> Option<Seq<Tile>>
    decreases l.len(),
{
    if l.len() == 0 {
        Some(Seq::empty())
    } else {
        match (row_spec(l.drop_last()), tile_of(l.last())) {
            (Some(r), Some(t)) => Some(r.push(t)),
            _ => None,
        }
    }
}

/// The rows of the lines, or `None` if a line holds a character that is not a tile.
pub open spec fn rows_spec(ls: Seq<Seq<char>>) -> Option<Seq<Seq<Tile>>>
    decreases ls.len(),
{
    if ls.len() == 0 {
        Some(Seq::empty())
    } else {
        match (rows_spec(ls.drop_last()), row_spec(ls.last())) {
            (Some(b), Some(r)) => Some(b.push(r)),
            _ => None,
        }
    }
}

/// A map whose rows repeat to the right without end.
#[derive(Clone, Debug)]
pub struct Board {
    pub tiles: Vec<Vec<Tile>>,
}

impl View for Board {
    type V = Seq<Seq<Tile>>;

    open spec fn view(&self) -> Seq<Seq<Tile>> {
        self.tiles@.map_values(|r: Vec<Tile>| r@)
    }
}

/// Every row has at least one tile.
pub open spec fn rows_nonempty(b: Seq<Seq<Tile>>) -> bool {
    forall|i: int| 0 <= i < b.len() ==> #[trigger] b[i].len() > 0
}

/// The tile at `row` and `col`, the row repeating to the right.
pub open spec fn tile_at(b: Seq<Seq<Tile>>, row: int, col: int) -> Option<Tile> {
    if 0 <= row < b.len() && b[row].len() > 0 {
        Some(b[row][col % b[row].len() as int])
    } else {
        None
    }
}

/// The trees met from `row` and `col` on, moving `rs` rows down and `cs`
/// columns right at a time, until past the last row.
pub open spec fn trees_from(b: Seq<Seq<Tile>>, cs: int, rs: int, row: int, col: int) -> nat
    decreases (if row < b.len() {
        b.len() - row
    } else {
        0
    }),
{
    if rs <= 0 || row >= b.len() || row < 0 {
        0
    } else {
        (if tile_at(b, row, col) == Some(Tile::Tree) {
            1nat
        } else {
            0nat
        }) + trees_from(b, cs, rs, row + rs, col + cs)
    }
}

impl Tile {
    pub fn try_from(value: char) -> (r: Result<Tile, BoardError>)
        ensures
            r == (match tile_of(value) {
                Some(t) => Ok(t),
                None => Err(BoardError::InvalidCharacter),
            }),
    {
        if value == '.' {
            Ok(Tile::Empty)
        } else if value == '#' {
            Ok(Tile::Tree)
        } else {
            Err(BoardError::InvalidCharacter)
        }
    }
}

proof fn lemma_row_none(l: Seq<char>, i: int)
    requires
        0 <= i < l.len(),
        tile_of(l[i]) is None,
    ensures
        row_spec(l) is None,
    decreases l.len(),
{
    if i < l.len() - 1 {
        lemma_row_none(l.drop_last(), i);
    }
}

proof fn lemma_rows_none(ls: Seq<Seq<char>>, i: int)
    requires
        0 <= i < ls.len(),
        row_spec(ls[i]) is None,
    ensures
        rows_spec(ls) is None,
    decreases ls.len(),
{
    if i < ls.len() - 1 {
        lemma_rows_none(ls.drop_last(), i);
    }
}

fn parse_row(l: &[char]) -> (r: Result<Vec<Tile>, BoardError>)
    ensures
        match r {
            Ok(v) => row_spec(l@) == Some(v@),
            Err(e) => row_spec(l@) is None && e == BoardError::InvalidCharacter,
        },
{
    let mut out: Vec<Tile> = Vec::new();
    let mut i: usize = 0;
    while i < l.len()
        invariant
            i <= l@.len(),
            row_spec(l@.subrange(0, i as int)) == Some(out@),
        decreases l@.len() - i,
    {
        assert(l@.subrange(0, i + 1).drop_last() =~= l@.subrange(0, i as int));
        match Tile::try_from(l[i]) {
            Ok(t) => out.push(t),
            Err(e) => {
                proof {
                    lemma_row_none(l@, i as int);
                }
                return Err(e);
            },
        }
        i += 1;
    }
    assert(l@.subrange(0, l@.len() as int) =~= l@);
    Ok(out)
}

impl Board {
    /// Reads a map: one row per line, `.` for open ground and `#` for a tree.
    pub fn parse(s: &str) -> (r: Result<Board, BoardError>)
        ensures
            match r {
                Ok(b) => rows_spec(text_lines_spec(s@)) == Some(b@),
                Err(e) => rows_spec(text_lines_spec(s@)) is None && e == BoardError::InvalidCharacter,
            },
    {
        let chars = chars_of(s);
        let ls = text_lines(chars.as_slice());
        let ghost lv = views(ls@);
        let mut tiles: Vec<Vec<Tile>> = Vec::new();
        let mut i: usize = 0;
        while i < ls.len()
            invariant
                i <= ls@.len(),
                lv == views(ls@),
                lv == text_lines_spec(s@),
                rows_spec(lv.subrange(0, i as int)) == Some(
                    tiles@.map_values(|r: Vec<Tile>| r@),
                ),
            decreases ls@.len() - i,
        {
            assert(lv.subrange(0, i + 1).drop_last() =~= lv.subrange(0, i as int));
            assert(lv[i as int] == ls@[i as int]@);
            match parse_row(ls[i].as_slice()) {
                Ok(row) => {
                    let ghost before = tiles@.map_values(|r: Vec<Tile>| r@);
                    tiles.push(row);
                    assert(tiles@.map_values(|r: Vec<Tile>| r@) =~= before.push(row@));
                },
                Err(e) => {
                    proof {
                        lemma_rows_none(lv, i as int);
                    }
                    return Err(e);
                },
            }
            i += 1;
        }
        assert(lv.subrange(0, lv.len() as int) =~= lv);
        Ok(Board { tiles })
    }

    /// The tile at `row` and `column`, the row repeating to the right;
    /// `None` below the last row.
    pub fn get_tile(&self, row: usize, column: usize) -> (r: Option<Tile>)
        requires
            rows_nonempty(self@),
        ensures
            r == tile_at(self@, row as int, column as int),
    {
        if row >= self.tiles.len() {
            return None;
        }
        let line = &self.tiles[row];
        assert(line@ == self@[row as int]);
        Some(line[column % line.len()])
    }

    /// The trees met going from the top left corner `col_speed` columns
    /// right and `row_speed` rows down at a time, until past the last row.
    pub fn count_trees(&self, col_speed: usize, row_speed: usize) -> (r: usize)
        requires
            rows_nonempty(self@),
            row_speed > 0,
            col_speed * self@.len() <= usize::MAX,
        ensures
            r == trees_from(
                self@,
                col_speed as int,
                row_speed as int,
                row_speed as int,
                col_speed as int,
            ),
    {
        let row_count = self.tiles.len();
        let ghost b = self@;
        let ghost total = trees_from(b, col_speed as int, row_speed as int, row_speed as int, col_speed as int);
        let mut trees: usize = 0;
        let mut current_row: usize = row_speed;
        let mut current_col: usize = col_speed;
        let ghost mut k: int = 1;
        while current_row < row_count
            invariant
                b == self@,
                total == trees_from(b, col_speed as int, row_speed as int, row_speed as int, col_speed as int),
                row_count == b.len(),
                rows_nonempty(b),
                row_speed > 0,
                col_speed * b.len() <= usize::MAX,
                k >= 1,
                current_row == k * row_speed,
                current_col == k * col_speed,
                trees < k,
                trees + trees_from(b, col_speed as int, row_speed as int, current_row as int, current_col as int) == total,
            decreases row_count - current_row,
        {
            assert(k < row_count) by (nonlinear_arith)
                requires
                    k * row_speed < row_count,
                    row_speed > 0,
                    k >= 1,
            ;
            let tile = self.get_tile(current_row, current_col);
            assert(trees_from(b, col_speed as int, row_speed as int, current_row as int, current_col as int)
                == (if tile_at(b, current_row as int, current_col as int) == Some(Tile::Tree) {
                1nat
            } else {
                0nat
            }) + trees_from(
                b,
                col_speed as int,
                row_speed as int,
                current_row + row_speed,
                current_col + col_speed,
            ));
            match tile {
                Some(Tile::Tree) => {
                    trees = trees + 1;
                },
                _ => {},
            }
            if row_count - current_row <= row_speed {
                assert(trees_from(b, col_speed as int, row_speed as int, current_row + row_speed, current_col + col_speed) == 0);
                return trees;
            }
            assert((k + 1) * col_speed <= col_speed * row_count && k * col_speed + col_speed == (k
                + 1) * col_speed) by (nonlinear_arith)
                requires
                    k + 1 <= row_count,
            ;
            current_row = current_row + row_speed;
            current_col = current_col + col_speed;
            proof {
                assert(current_row == (k + 1) * row_speed) by (nonlinear_arith)
                    requires
                        current_row == k * row_speed + row_speed,
                ;
                assert(current_col == (k + 1) * col_speed) by (nonlinear_arith)
                    requires
                        current_col == k * col_speed + col_speed,
                ;
                k = k + 1;
            }
        }
        trees
    }
}

impl std::str::FromStr for Board {
    type Err = BoardError;

    fn from_str(s: &str) -> Result<Board, BoardError> {
        Board::parse(s)
    }
}

} // verus!
