use vstd::prelude::*;
use vstd::string::StringExecFns;

use crate::common::base27::{
    all_b27, b27_char_value, b27_decode, b27_encode, ib3_to_sb27be, sb27be_to_ib3,
};
use crate::common::text::{
    chars_eq, chars_of, find_char, int_decimal, is_digit, lemma_first_position,
    lemma_nat_decimal_digits, lemma_parse_decimal, lemma_split_once_at, parse_isize,
    lemma_split_once_parts, parse_isize_spec, push_decimal, split_once,
};
use crate::grid::{bad_reshape_message, lemma_grid_cells_in_order, Grid, Gridlike, Shape};

verus! {

/// A cell of a Yin-Yang puzzle.
#[derive(Copy, Clone, Debug, PartialEq, Eq, Structural)]
pub enum Cell {
    Empty,
    Black,
    White,
}

impl Default for Cell {
    fn default() -> (res: Cell)
        ensures
            res == Cell::Empty,
    {
        Cell::Empty
    }
}

/// The cell that a digit stands for: 0 empty, 1 white, 2 black.
pub open spec fn cell_of_digit(x: u8) -> Option<Cell> {
    if x == 0 {
        Some(Cell::Empty)
    } else if x == 1 {
        Some(Cell::White)
    } else if x == 2 {
        Some(Cell::Black)
    } else {
        None
    }
}

/// The digit that stands for a cell.
pub open spec fn digit_of_cell(c: Cell) -> u8 {
    match c {
        Cell::Empty => 0,
        Cell::White => 1,
        Cell::Black => 2,
    }
}

/// A cell's digit stands for that cell, and a digit that stands for a cell
/// is that cell's digit.
pub proof fn lemma_cell_digit(c: Cell, x: u8)
    ensures
        cell_of_digit(digit_of_cell(c)) == Some(c),
        cell_of_digit(x) matches Some(d) ==> digit_of_cell(d) == x,
{
}

/// The message for a digit that stands for no cell.
pub open spec fn bad_digit_message(x: u8) -> Seq<char> {
    "invalid digit: "@ + int_decimal(x as int)
}

impl Cell {
    /// The cell that digit `x` stands for.
    pub fn try_from_digit(x: u8) -> (res: Result<Cell, String>)
        ensures
            match res {
                Ok(c) => cell_of_digit(x) == Some(c),
                Err(e) => cell_of_digit(x) is None && e@ == bad_digit_message(x),
            },
    {
        match x {
            0 => Ok(Cell::Empty),
            1 => Ok(Cell::White),
            2 => Ok(Cell::Black),
            _ => {
                let mut e = String::from_str("invalid digit: ");
                push_decimal(&mut e, x as isize);
                Err(e)
            },
        }
    }

    /// The digit that stands for this cell.
    pub fn to_digit(&self) -> (res: u8)
        ensures
            res == digit_of_cell(*self),
    {
        match self {
            Cell::Empty => 0,
            Cell::White => 1,
            Cell::Black => 2,
        }
    }
}

/// The digits of the cells, in order.
pub open spec fn digits_of_cells(cells: Seq<Cell>) -> Seq<u8> {
    cells.map_values(|c: Cell| digit_of_cell(c))
}

/// The cells that the digits stand for, in order.
pub open spec fn cells_of_digits(ds: Seq<u8>) -> Seq<Cell> {
    ds.map_values(|d: u8| cell_of_digit(d)->0)
}

/// The text of a puzzle: `yinyang/`, the column count, `/`, the row count,
/// `/`, then the cells row by row as base-27 text.
pub open spec fn encode_spec(shape: Shape, cells: Seq<Cell>) -> Seq<char> {
    "yinyang/"@ + int_decimal(shape.1 as int) + "/"@ + int_decimal(shape.0 as int) + "/"@
        + b27_encode(digits_of_cells(cells))
}

/// Writes a board as puzzle text.
pub fn encode(board: &Grid<Cell>) -> (res: Result<String, String>)
    requires
        board.wf(),
    ensures
        res matches Ok(s) && s@ == encode_spec(board.shape_spec(), board.buffer_spec()),
{
    let ghost cells = board.buffer_spec();
    proof {
        lemma_grid_cells_in_order(board);
    }
    let mut it = board.cells();
    let mut digits: Vec<u8> = Vec::new();
    loop
        invariant
            it.wf(),
            it.items() == cells,
            0 <= it.position() <= cells.len(),
            digits@ == digits_of_cells(cells.take(it.position())),
        ensures
            it.position() == cells.len(),
            digits@ == digits_of_cells(cells.take(it.position())),
        decreases cells.len() - it.position(),
    {
        let ghost pos = it.position();
        match it.next() {
            Some(c) => {
                digits.push(c.to_digit());
                assert(cells.take(pos + 1) =~= cells.take(pos).push(cells[pos]));
                assert(digits@ =~= digits_of_cells(cells.take(pos + 1)));
            },
            None => {
                break ;
            },
        }
    }
    assert(cells.take(cells.len() as int) =~= cells);
    assert forall|i: int| 0 <= i < digits@.len() implies #[trigger] digits@[i] < 3 by {}
    let grid = match ib3_to_sb27be(digits.as_slice()) {
        Ok(g) => g,
        Err(e) => {
            return Err(String::from_str(e));
        },
    };
    let mut out = String::from_str("yinyang/");
    push_decimal(&mut out, board.shape().cols());
    out.append("/");
    push_decimal(&mut out, board.shape().rows());
    out.append("/");
    out.append(grid.as_str());
    Ok(out)
}

/// The message for a size that is not positive.
pub open spec fn bad_size_message(rows: isize, cols: isize) -> Seq<char> {
    "invalid size: "@ + int_decimal(rows as int) + ","@ + int_decimal(cols as int)
}

/// The header of puzzle text, `yinyang/<cols>/<rows>/`, read into the row
/// count, the column count and the text that follows; or the message for the
/// first fault found in it.
pub open spec fn decode_header(cs: Seq<char>) -> Result<(isize, isize, Seq<char>), Seq<char>> {
    match split_once(cs, '/') {
        None => Err("missing '/'"@),
        Some((kind, rest1)) => match split_once(rest1, '/') {
            None => Err("missing '/'"@),
            Some((cols_text, rest2)) => match split_once(rest2, '/') {
                None => Err("missing '/'"@),
                Some((rows_text, grid_text)) => if kind != "yinyang"@ {
                    Err("puzzle type is not 'yinyang'"@)
                } else {
                    match parse_isize_spec(cols_text) {
                        None => Err("invalid columns"@),
                        Some(cols) => match parse_isize_spec(rows_text) {
                            None => Err("invalid rows"@),
                            Some(rows) => if rows < 1 || cols < 1 {
                                Err(bad_size_message(rows, cols))
                            } else {
                                Ok((rows, cols, grid_text))
                            },
                        },
                    }
                },
            },
        },
    }
}

/// The digits of the first `n` cells, or of all of them where there are fewer.
pub open spec fn first_digits(ds: Seq<u8>, n: int) -> Seq<u8> {
    if ds.len() <= n {
        ds
    } else {
        ds.take(n)
    }
}

/// What puzzle text decodes to: the shape and the cells row by row, or the
/// message for the first fault found.
pub open spec fn decode_spec(cs: Seq<char>) -> Result<(Shape, Seq<Cell>), Seq<char>> {
    match decode_header(cs) {
        Err(e) => Err(e),
        Ok((rows, cols, grid_text)) => if !all_b27(grid_text) {
            Err("invalid character in input"@)
        } else {
            let digits = first_digits(b27_decode(grid_text), rows * cols);
            if digits.len() != rows * cols {
                Err(bad_reshape_message(Shape(1, digits.len() as isize), rows, cols))
            } else {
                Ok((Shape(rows, cols), cells_of_digits(digits)))
            }
        },
    }
}

/// The cell count of the text's header fits an `isize`, where the text gets
/// as far as counting its cells.
pub open spec fn decode_fits(cs: Seq<char>) -> bool {
    match decode_header(cs) {
        Ok((rows, cols, grid_text)) => all_b27(grid_text) ==> rows * cols <= isize::MAX,
        Err(_) => true,
    }
}

/// The text split around its first `/`.
fn split_slash(cs: &[char]) -> (res: Option<(&[char], &[char])>)
    ensures
        match res {
            Some((a, b)) => split_once(cs@, '/') == Some((a@, b@)),
            None => split_once(cs@, '/') is None,
        },
{
    match find_char(cs, '/') {
        Some(p) => {
            proof {
                lemma_first_position(cs@, '/');
            }
            let n = cs.len();
            assert(p < n);
            let a = &cs[0..p];
            let b = &cs[p + 1..n];
            assert(a@ =~= cs@.take(p as int));
            assert(b@ =~= cs@.skip(p + 1));
            Some((a, b))
        },
        None => None,
    }
}

/// Reads the header of puzzle text, `yinyang/<cols>/<rows>/`, into the row
/// count, the column count and the text that follows.
fn read_header(cs: &[char]) -> (res: Result<(isize, isize, &[char]), String>)
    ensures
        match res {
            Ok((rows, cols, g)) => decode_header(cs@) == Ok::<(isize, isize, Seq<char>), Seq<char>>((rows, cols, g@)),
            Err(e) => decode_header(cs@) == Err::<(isize, isize, Seq<char>), Seq<char>>(e@),
        },
{
    let (kind, rest1) = match split_slash(cs) {
        Some(p) => p,
        None => return Err(String::from_str("missing '/'")),
    };
    let (cols_text, rest2) = match split_slash(rest1) {
        Some(p) => p,
        None => return Err(String::from_str("missing '/'")),
    };
    let (rows_text, grid_text) = match split_slash(rest2) {
        Some(p) => p,
        None => return Err(String::from_str("missing '/'")),
    };
    let expected = chars_of("yinyang");
    if !chars_eq(kind, expected.as_slice()) {
        return Err(String::from_str("puzzle type is not 'yinyang'"));
    }
    let cols = match parse_isize(cols_text) {
        Some(c) => c,
        None => return Err(String::from_str("invalid columns")),
    };
    let rows = match parse_isize(rows_text) {
        Some(r) => r,
        None => return Err(String::from_str("invalid rows")),
    };
    if rows < 1 || cols < 1 {
        let mut e = String::from_str("invalid size: ");
        push_decimal(&mut e, rows);
        e.append(",");
        push_decimal(&mut e, cols);
        return Err(e);
    }
    Ok((rows, cols, grid_text))
}

/// Whether `decode` may be given `s`: the cell count of its header fits an
/// `isize`, where the text gets as far as counting its cells.
pub fn decode_fits_check(s: &str) -> (res: bool)
    ensures
        res == decode_fits(s@),
{
    let cs = chars_of(s);
    match read_header(cs.as_slice()) {
        Err(_) => true,
        Ok((rows, cols, grid_text)) => match sb27be_to_ib3(grid_text) {
            Err(_) => true,
            Ok(_) => rows.checked_mul(cols).is_some(),
        },
    }
}

/// Reads puzzle text into a board.
///
/// The column and row counts are read as signed integers (`isize`), so a
/// count such as `-5` is read, and then refused with the size message
/// (`invalid size: 4,-5`), not with the column or row message. Cell text that
/// holds fewer digits than the board has cells is refused with the message of
/// `Grid::reshape`.
pub fn decode(s: &str) -> (res: Result<Grid<Cell>, String>)
    requires
        decode_fits(s@),
    ensures
        match res {
            Ok(g) => g.wf() && decode_spec(s@) == Ok::<(Shape, Seq<Cell>), Seq<char>>((g.shape_spec(), g.buffer_spec())),
            Err(e) => decode_spec(s@) == Err::<(Shape, Seq<Cell>), Seq<char>>(e@),
        },
{
    let cs = chars_of(s);
    let (rows, cols, grid_text) = match read_header(cs.as_slice()) {
        Ok(h) => h,
        Err(e) => return Err(e),
    };
    let digits = match sb27be_to_ib3(grid_text) {
        Ok(d) => d,
        Err(e) => return Err(String::from_str(e)),
    };
    let n = (rows * cols) as usize;
    let ghost taken = first_digits(digits@, rows * cols);
    let mut cells: Vec<Cell> = Vec::new();
    let mut i: usize = 0;
    while i < digits.len() && i < n
        invariant
            i <= digits@.len(),
            i <= n,
            n == rows * cols,
            digits@ == b27_decode(grid_text@),
            cells@ == cells_of_digits(digits@.take(i as int)),
        decreases n - i,
    {
        let c = match Cell::try_from_digit(digits[i]) {
            Ok(c) => c,
            Err(e) => return Err(e),
        };
        cells.push(c);
        i = i + 1;
        assert(cells@ =~= cells_of_digits(digits@.take(i as int)));
    }
    assert(digits@.take(i as int) =~= taken);
    let grid = Grid::from_vec(cells);
    grid.reshape(rows, cols)
}

/// Decoding the text of a board with at least one row and one column gives
/// back its shape and its cells.
pub proof fn lemma_decode_encode(shape: Shape, cells: Seq<Cell>)
    requires
        shape.0 >= 1,
        shape.1 >= 1,
        shape.0 * shape.1 <= isize::MAX,
        cells.len() == shape.0 * shape.1,
    ensures
        decode_fits(encode_spec(shape, cells)),
        decode_spec(encode_spec(shape, cells)) == Ok::<(Shape, Seq<Cell>), Seq<char>>((shape, cells)),
{
    let (rows, cols) = (shape.0, shape.1);
    let digits = digits_of_cells(cells);
    let grid_text = b27_encode(digits);
    let dc = int_decimal(cols as int);
    let dr = int_decimal(rows as int);
    reveal_strlit("yinyang/");
    reveal_strlit("yinyang");
    reveal_strlit("/");
    let kind = "yinyang"@;
    let rest2 = dr + seq!['/'] + grid_text;
    let rest1 = dc + seq!['/'] + rest2;
    assert(encode_spec(shape, cells) =~= kind + seq!['/'] + rest1);
    lemma_split_once_at(kind, '/', rest1);
    lemma_nat_decimal_digits(cols as nat);
    lemma_nat_decimal_digits(rows as nat);
    assert forall|i: int| 0 <= i < dc.len() implies dc[i] != '/' by {
        assert(is_digit(dc[i]));
    }
    assert forall|i: int| 0 <= i < dr.len() implies dr[i] != '/' by {
        assert(is_digit(dr[i]));
    }
    lemma_split_once_at(dc, '/', rest2);
    lemma_split_once_at(dr, '/', grid_text);
    lemma_parse_decimal(cols);
    lemma_parse_decimal(rows);
    assert(decode_header(encode_spec(shape, cells)) == Ok::<(isize, isize, Seq<char>), Seq<char>>((rows, cols, grid_text)));
    assert forall|i: int| 0 <= i < digits.len() implies #[trigger] digits[i] < 3 by {}
    crate::common::base27::lemma_decode_encode(digits);
    let n = rows * cols;
    let decoded = b27_decode(grid_text);
    assert(decoded.len() >= n);
    assert(first_digits(decoded, n) =~= digits);
    assert(cells_of_digits(digits) =~= cells);
}

/// The text of a board is `yinyang/`, the column count, `/`, the row count,
/// `/`, then the base-27 text of one digit per cell, row by row: 0 for an
/// empty cell, 1 for a white one, 2 for a black one, whatever the size of the
/// board.
pub proof fn lemma_encode_text(shape: Shape, cells: Seq<Cell>)
    ensures
        digits_of_cells(cells).len() == cells.len(),
        forall|k: int|
            0 <= k < cells.len() ==> {
                &&& cells[k] == Cell::Empty ==> #[trigger] digits_of_cells(cells)[k] == 0
                &&& cells[k] == Cell::White ==> digits_of_cells(cells)[k] == 1
                &&& cells[k] == Cell::Black ==> digits_of_cells(cells)[k] == 2
            },
        encode_spec(shape, cells) == "yinyang/"@ + int_decimal(shape.1 as int) + "/"@ + int_decimal(
            shape.0 as int,
        ) + "/"@ + b27_encode(
            Seq::new(
                cells.len(),
                |k: int|
                    if cells[k] == Cell::Empty {
                        0u8
                    } else if cells[k] == Cell::White {
                        1u8
                    } else {
                        2u8
                    },
            ),
        ),
{
    let table = Seq::new(
        cells.len(),
        |k: int|
            if cells[k] == Cell::Empty {
                0u8
            } else if cells[k] == Cell::White {
                1u8
            } else {
                2u8
            },
    );
    assert(digits_of_cells(cells) =~= table);
}

/// Text that decodes to a board gives the shape of its header, and cell `k`
/// of the board, row by row, is the cell of digit `k` of its base-27 text: an
/// empty cell for 0, a white one for 1, a black one for 2, whatever the size
/// of the board.
pub proof fn lemma_decode_cells(cs: Seq<char>)
    ensures
        forall|ds: Seq<u8>, k: int|
            0 <= k < ds.len() ==> {
                &&& ds[k] == 0 ==> #[trigger] cells_of_digits(ds)[k] == Cell::Empty
                &&& ds[k] == 1 ==> cells_of_digits(ds)[k] == Cell::White
                &&& ds[k] == 2 ==> cells_of_digits(ds)[k] == Cell::Black
            },
        decode_spec(cs) matches Ok((shape, g)) ==> {
            &&& decode_header(cs) matches Ok((rows, cols, t))
            &&& shape == Shape(rows, cols)
            &&& g.len() == rows * cols
            &&& g.len() <= b27_decode(t).len()
            &&& forall|k: int|
                0 <= k < g.len() ==> {
                    &&& b27_decode(t)[k] == 0 ==> #[trigger] g[k] == Cell::Empty
                    &&& b27_decode(t)[k] == 1 ==> g[k] == Cell::White
                    &&& b27_decode(t)[k] == 2 ==> g[k] == Cell::Black
                    &&& b27_decode(t)[k] < 3
                }
        },
{
    if let Ok((shape, g)) = decode_spec(cs) {
        if let Ok((rows, cols, t)) = decode_header(cs) {
            let d = b27_decode(t);
            let taken = first_digits(d, rows * cols);
            assert forall|k: int| 0 <= k < g.len() implies {
                &&& b27_decode(t)[k] == 0 ==> #[trigger] g[k] == Cell::Empty
                &&& b27_decode(t)[k] == 1 ==> g[k] == Cell::White
                &&& b27_decode(t)[k] == 2 ==> g[k] == Cell::Black
                &&& b27_decode(t)[k] < 3
            } by {
                assert(taken[k] == d[k]);
                let _ = b27_char_value(t[k / 3]);
            }
        }
    }
}

proof fn lemma_yinyang_text(
    cs: Seq<char>,
    ct: Seq<char>,
    rt: Seq<char>,
    t: Seq<char>,
    rest1: Seq<char>,
    rest2: Seq<char>,
)
    requires
        cs == "yinyang"@ + seq!['/'] + rest1,
        rest1 == ct + seq!['/'] + rest2,
        rest2 == rt + seq!['/'] + t,
    ensures
        cs == "yinyang/"@ + ct + "/"@ + rt + "/"@ + t,
{
    reveal_strlit("yinyang/");
    reveal_strlit("yinyang");
    reveal_strlit("/");
    assert(cs =~= "yinyang/"@ + ct + "/"@ + rt + "/"@ + t);
}

/// Text that decodes to a board is `yinyang/`, the column count, `/`, the
/// row count, `/`, then base-27 text with a digit for every cell: the counts
/// are the board's, neither holds a `/`, and both are at least 1.
pub proof fn lemma_decode_accepts(cs: Seq<char>)
    ensures
        decode_spec(cs) matches Ok((shape, g)) ==> exists|ct: Seq<char>, rt: Seq<char>, t: Seq<char>|
            {
                &&& cs == "yinyang/"@ + ct + "/"@ + rt + "/"@ + t
                &&& forall|i: int| 0 <= i < ct.len() ==> ct[i] != '/'
                &&& forall|i: int| 0 <= i < rt.len() ==> rt[i] != '/'
                &&& #[trigger] parse_isize_spec(ct) == Some(shape.1)
                &&& #[trigger] parse_isize_spec(rt) == Some(shape.0)
                &&& shape.0 >= 1 && shape.1 >= 1
                &&& #[trigger] all_b27(t)
                &&& 3 * t.len() >= shape.0 * shape.1
                &&& g.len() == shape.0 * shape.1
            },
{
    if let Ok((shape, g)) = decode_spec(cs) {
        let (kind, rest1) = split_once(cs, '/')->0;
        let (ct, rest2) = split_once(rest1, '/')->0;
        let (rt, t) = split_once(rest2, '/')->0;
        lemma_split_once_parts(cs, '/');
        lemma_split_once_parts(rest1, '/');
        lemma_split_once_parts(rest2, '/');
        assert(kind == "yinyang"@);
        lemma_yinyang_text(cs, ct, rt, t, rest1, rest2);
        assert(parse_isize_spec(ct) == Some(shape.1) && parse_isize_spec(rt) == Some(shape.0));
    }
}

} // verus!
