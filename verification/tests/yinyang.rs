use puzzles::grid::{Grid, Gridlike};
use puzzles::yinyang::Cell::{Black, Empty, White};
use puzzles::yinyang::{decode, decode_fits_check, encode, Cell};

// . . W B .
// . W . W .
// . . B B .
// . . W . .
const PUZZLE: &'static str = "yinyang/5/4/1ia0o10";

const PUZZLE_DECODED: [Cell; 20] = [
    Cell::Empty,
    Cell::Empty,
    Cell::White,
    Cell::Black,
    Cell::Empty,
    Cell::Empty,
    Cell::White,
    Cell::Empty,
    Cell::White,
    Cell::Empty,
    Cell::Empty,
    Cell::Empty,
    Cell::Black,
    Cell::Black,
    Cell::Empty,
    Cell::Empty,
    Cell::Empty,
    Cell::White,
    Cell::Empty,
    Cell::Empty,
];

#[test]
pub fn yinyang_test_decode() {
    let puz = decode(PUZZLE).unwrap();

    assert_eq!(puz.shape().rows(), 4);
    assert_eq!(puz.shape().cols(), 5);

    assert_eq!(puz[0], Cell::Empty);
    assert_eq!(puz[1], Cell::Empty);
    assert_eq!(puz[2], Cell::White);
    assert_eq!(puz[3], Cell::Black);
    assert_eq!(puz[4], Cell::Empty);

    assert_eq!(puz[5], Cell::Empty);
    assert_eq!(puz[6], Cell::White);
    assert_eq!(puz[7], Cell::Empty);
    assert_eq!(puz[8], Cell::White);
    assert_eq!(puz[9], Cell::Empty);

    assert_eq!(puz[10], Cell::Empty);
    assert_eq!(puz[11], Cell::Empty);
    assert_eq!(puz[12], Cell::Black);
    assert_eq!(puz[13], Cell::Black);
    assert_eq!(puz[14], Cell::Empty);

    assert_eq!(puz[15], Cell::Empty);
    assert_eq!(puz[16], Cell::Empty);
    assert_eq!(puz[17], Cell::White);
    assert_eq!(puz[18], Cell::Empty);
    assert_eq!(puz[19], Cell::Empty);

    for (a, b) in PUZZLE_DECODED.iter().zip(puz.buffer().iter()) {
        assert_eq!(a, b);
    }
}

#[test]
pub fn yinyang_test_encode() {
    let grid_raw = vec![
        Empty, Empty, White, Black, Empty, Empty, White, Empty, White, Empty, Empty, Empty,
        Black, Black, Empty, Empty, Empty, White, Empty, Empty,
    ];
    let grid = Grid::from_vec(grid_raw).reshape(4, 5).unwrap();

    assert_eq!(encode(&grid).unwrap(), PUZZLE);

    let puz = Grid::from_vec(PUZZLE_DECODED.to_vec()).reshape(4, 5).unwrap();
    assert_eq!(encode(&puz).unwrap(), PUZZLE);
}

#[test]
fn yinyang_round_trips() {
    let g = Grid::from_vec(vec![White, Black, Empty, Empty, Black, White, White]).reshape(7, 1).unwrap();
    let text = encode(&g).unwrap();
    assert_eq!(text, "yinyang/1/7/f79");
    let back = decode(&text).unwrap();
    assert_eq!(back.shape(), g.shape());
    assert_eq!(back.buffer(), g.buffer());
}

#[test]
fn yinyang_decode_reports_each_fault() {
    assert_eq!(decode("yinyang/5/4").err(), Some("missing '/'".to_owned()));
    assert_eq!(decode("yinyang").err(), Some("missing '/'".to_owned()));
    assert_eq!(decode("yangyin/5/4/1ia0o10").err(), Some("puzzle type is not 'yinyang'".to_owned()));
    assert_eq!(decode("yinyang/x/4/1ia0o10").err(), Some("invalid columns".to_owned()));
    assert_eq!(decode("yinyang/5//1ia0o10").err(), Some("invalid rows".to_owned()));
    assert_eq!(decode("yinyang/5/0/1ia0o10").err(), Some("invalid size: 0,5".to_owned()));
    assert_eq!(decode("yinyang/5/4/1ia0o1!").err(), Some("invalid character in input".to_owned()));
    assert_eq!(decode("yinyang/5/4/1ia0o10/").err(), Some("invalid character in input".to_owned()));
    assert_eq!(decode("yinyang/5/4/1ia").err(), Some("invalid reshape: 1,9 -> 4,5".to_owned()));
}

#[test]
fn yinyang_decode_reads_what_it_can() {
    let g = decode("yinyang/+2/1/Q").unwrap();
    assert_eq!(g.shape().rows(), 1);
    assert_eq!(g.shape().cols(), 2);
    assert_eq!(g.buffer(), &[Black, Black]);
}

#[test]
fn cells_and_digits() {
    assert_eq!(Cell::try_from_digit(0), Ok(Empty));
    assert_eq!(Cell::try_from_digit(1), Ok(White));
    assert_eq!(Cell::try_from_digit(2), Ok(Black));
    assert_eq!(Cell::try_from_digit(3), Err("invalid digit: 3".to_owned()));
    assert_eq!(Black.to_digit(), 2);
    assert_eq!(Cell::default(), Empty);
}

#[test]
fn yinyang_size_check() {
    assert!(decode_fits_check(PUZZLE));
    assert!(decode_fits_check("yinyang/5/0/1"));
    assert!(decode_fits_check("nonsense"));
    assert!(!decode_fits_check("yinyang/9223372036854775807/2/0"));
    assert!(decode_fits_check("yinyang/9223372036854775807/2/!"));
}

#[test]
fn yinyang_negative_counts_get_the_size_message() {
    assert_eq!(decode("yinyang/-5/4/0").err(), Some("invalid size: 4,-5".to_owned()));
}
