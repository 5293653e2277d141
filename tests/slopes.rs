use advent::slopes::Board;
use advent::slopes::BoardError;
use advent::slopes::Tile;

const SAMPLE: &str = "..##.......
#...#...#..
.#....#..#.
..#.#...#.#
.#...##..#.
..#.##.....
.#.#.#....#
.#........#
#.##...#...
#...##....#
.#..#...#.#";

#[test]
fn sample_slopes() {
    let board: Board = SAMPLE.parse().unwrap();
    assert_eq!(board.count_trees(3, 1), 7);
    let runs = [(1, 1), (3, 1), (5, 1), (7, 1), (1, 2)];
    let counts: Vec<usize> = runs.iter().map(|r| board.count_trees(r.0, r.1)).collect();
    assert_eq!(counts, vec![2, 7, 3, 4, 2]);
    assert_eq!(counts.iter().product::<usize>(), 336);
}

#[test]
fn tiles_repeat_to_the_right() {
    let board: Board = ".#\n#.".parse().unwrap();
    assert_eq!(board.get_tile(0, 3), Some(Tile::Tree));
    assert_eq!(board.get_tile(1, 4), Some(Tile::Tree));
    assert_eq!(board.get_tile(2, 0), None);
    assert_eq!(Tile::try_from('x'), Err(BoardError::InvalidCharacter));
    assert_eq!(".x".parse::<Board>().err(), Some(BoardError::InvalidCharacter));
}
