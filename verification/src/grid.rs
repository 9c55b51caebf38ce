use vstd::prelude::*;
use vstd::string::StringExecFns;

use crate::common::text::{int_decimal, push_decimal};

verus! {

/// The quotient of `a` by `b`, rounded toward zero as Rust's `/` does.
pub open spec fn trunc_div(a: int, b: int) -> int {
    if a == 0 {
        0
    } else if a > 0 && b > 0 {
        a / b
    } else if a < 0 && b < 0 {
        (-a) / (-b)
    } else if a < 0 {
        -((-a) / b)
    } else {
        -(a / (-b))
    }
}

/// The remainder of `a` by `b`, with the sign of `a`, as Rust's `%` gives it.
pub open spec fn trunc_rem(a: int, b: int) -> int {
    if a == 0 {
        0
    } else if a > 0 && b > 0 {
        a % b
    } else if a < 0 && b < 0 {
        -((-a) % (-b))
    } else if a < 0 {
        -((-a) % b)
    } else {
        a % (-b)
    }
}

/// The number of rows and columns of a grid.
#[derive(Copy, Clone, Debug, PartialEq, Eq, Structural)]
pub struct Shape(pub isize, pub isize);

impl Shape {
    pub fn rows(&self) -> (res: isize)
        ensures
            res == self.0,
    {
        self.0
    }

    pub fn cols(&self) -> (res: isize)
        ensures
            res == self.1,
    {
        self.1
    }

    /// The number of cells.
    pub fn len(&self) -> (res: isize)
        requires
            isize::MIN <= self.0 * self.1 <= isize::MAX,
        ensures
            res == self.0 * self.1,
    {
        self.rows() * self.cols()
    }

    /// Row `r`, column `c` lies inside the grid.
    pub open spec fn spec_is_valid_rc(self, r: int, c: int) -> bool {
        0 <= r < self.0 && 0 <= c < self.1
    }

    pub fn is_valid_rc(&self, r: isize, c: isize) -> (res: bool)
        ensures
            res == self.spec_is_valid_rc(r as int, c as int),
    {
        0 <= r && r < self.rows() && 0 <= c && c < self.cols()
    }

    /// `idx` is the row-major index of a cell of the grid.
    pub fn is_valid_idx(&self, idx: isize) -> (res: bool)
        requires
            isize::MIN <= self.0 * self.1 <= isize::MAX,
        ensures
            res == (0 <= idx < self.0 * self.1),
    {
        0 <= idx && idx < self.len()
    }

    /// The row-major index of row `r`, column `c`.
    pub fn rc_to_idx(&self, r: isize, c: isize) -> (res: isize)
        requires
            isize::MIN <= r * self.1 <= isize::MAX,
            isize::MIN <= r * self.1 + c <= isize::MAX,
        ensures
            res == r * self.1 + c,
    {
        r * self.cols() + c
    }

    /// The row and column of row-major index `idx`.
    pub fn idx_to_rc(&self, idx: isize) -> (res: (isize, isize))
        requires
            self.1 != 0,
            !(idx == isize::MIN && self.1 == -1),
        ensures
            res.0 == trunc_div(idx as int, self.1 as int),
            res.1 == trunc_rem(idx as int, self.1 as int),
    {
        proof {
            let x = if idx >= 0 { idx as int } else { -(idx as int) };
            let d = if self.1 >= 0 { self.1 as int } else { -(self.1 as int) };
            assert(0 <= x / d <= x) by (nonlinear_arith)
                requires
                    x >= 0,
                    d >= 1,
            ;
            assert(0 <= x % d < d) by (nonlinear_arith)
                requires
                    x >= 0,
                    d >= 1,
            ;
            assert(d >= 2 ==> x / d <= x / 2) by (nonlinear_arith)
                requires
                    x >= 0,
                    d >= 1,
            ;
        }
        let q = idx.checked_div(self.cols()).unwrap();
        let r = idx.checked_rem(self.cols()).unwrap();
        (q, r)
    }
}

/// The distance in the buffer between neighbouring rows and between
/// neighbouring columns.
#[derive(Copy, Clone, Debug, PartialEq, Eq, Structural)]
pub struct Stride(pub isize, pub isize);

impl Stride {
    pub fn per_row(&self) -> (res: isize)
        ensures
            res == self.0,
    {
        self.0
    }

    pub fn per_col(&self) -> (res: isize)
        ensures
            res == self.1,
    {
        self.1
    }

    /// The buffer offset of row `r`, column `c`.
    pub open spec fn offset_of(self, r: int, c: int) -> int {
        r * self.0 + c * self.1
    }

    /// The buffer offset of row `r`, column `c`, which must not be negative.
    pub fn rc_to_offset(&self, r: isize, c: isize) -> (res: usize)
        requires
            isize::MIN <= r * self.0 <= isize::MAX,
            isize::MIN <= c * self.1 <= isize::MAX,
            0 <= self.offset_of(r as int, c as int) <= isize::MAX,
        ensures
            res == self.offset_of(r as int, c as int),
    {
        let x = r * self.per_row() + c * self.per_col();
        x as usize
    }
}

/// The buffer offset of the last cell.
pub open spec fn last_offset(shape: Shape, stride: Stride) -> int {
    stride.offset_of(shape.0 - 1, shape.1 - 1)
}

/// A shape and stride that fit a buffer of `len` items: both counts and both
/// steps are non-negative, the cell count fits an `isize`, and every cell's
/// offset lies in the buffer.
pub open spec fn layout_ok(shape: Shape, stride: Stride, len: int) -> bool {
    &&& 0 <= shape.0
    &&& 0 <= shape.1
    &&& shape.0 * shape.1 <= isize::MAX
    &&& 0 <= stride.0
    &&& 0 <= stride.1
    &&& (shape.0 >= 1 && shape.1 >= 1) ==> last_offset(shape, stride) < len
        && last_offset(shape, stride) <= isize::MAX
}

/// Rows do not overlap: each row ends before the next begins.
pub open spec fn rows_disjoint(shape: Shape, stride: Stride) -> bool {
    stride.1 >= 1 && stride.0 >= shape.1 * stride.1
}

/// The item at row `r`, column `c` of a buffer laid out with `stride`.
pub open spec fn cell_at<T>(stride: Stride, buf: Seq<T>, r: int, c: int) -> T {
    buf[stride.offset_of(r, c)]
}

/// All the cells, row by row.
pub open spec fn row_major_cells<T>(shape: Shape, stride: Stride, buf: Seq<T>) -> Seq<T> {
    Seq::new((shape.0 * shape.1) as nat, |i: int| cell_at(stride, buf, i / (shape.1 as int), i % (shape.1 as int)))
}

/// The offset of each cell of the grid lies in the buffer and fits an `isize`,
/// and so do its two terms.
pub proof fn lemma_offset_in_layout(shape: Shape, stride: Stride, len: int, r: int, c: int)
    requires
        layout_ok(shape, stride, len),
        shape.spec_is_valid_rc(r, c),
    ensures
        0 <= r * stride.0 <= (shape.0 - 1) * stride.0,
        0 <= c * stride.1 <= (shape.1 - 1) * stride.1,
        0 <= stride.offset_of(r, c) <= last_offset(shape, stride),
        stride.offset_of(r, c) < len,
        stride.offset_of(r, c) <= isize::MAX,
{
    assert(0 <= r * stride.0 <= (shape.0 - 1) * stride.0) by (nonlinear_arith)
        requires
            0 <= r < shape.0,
            0 <= stride.0,
    ;
    assert(0 <= c * stride.1 <= (shape.1 - 1) * stride.1) by (nonlinear_arith)
        requires
            0 <= c < shape.1,
            0 <= stride.1,
    ;
}

/// The cell count of a valid layout is not negative.
pub proof fn lemma_layout_count(shape: Shape, stride: Stride, len: int)
    requires
        layout_ok(shape, stride, len),
    ensures
        0 <= shape.0 * shape.1 <= isize::MAX,
{
    assert(0 <= shape.0 * shape.1) by (nonlinear_arith)
        requires
            0 <= shape.0,
            0 <= shape.1,
    ;
}

/// Read access to a grid of `T` laid out in a buffer.
pub trait Gridlike<T>: Sized {
    /// The grid's shape.
    spec fn shape_spec(&self) -> Shape;

    /// The grid's stride.
    spec fn stride_spec(&self) -> Stride;

    /// The buffer that holds the cells.
    spec fn buffer_spec(&self) -> Seq<T>;

    fn shape(&self) -> (res: Shape)
        ensures
            res == self.shape_spec(),
    ;

    fn stride(&self) -> (res: Stride)
        ensures
            res == self.stride_spec(),
    ;

    fn buffer(&self) -> (res: &[T])
        ensures
            res@ == self.buffer_spec(),
    ;

    /// The number of cells.
    fn len(&self) -> (res: usize)
        requires
            layout_ok(self.shape_spec(), self.stride_spec(), self.buffer_spec().len() as int),
        ensures
            res == self.shape_spec().0 * self.shape_spec().1,
    {
        proof {
            lemma_layout_count(self.shape_spec(), self.stride_spec(), self.buffer_spec().len() as int);
        }
        self.shape().len() as usize
    }

    /// The cell at row `r`, column `c`.
    fn rc(&self, r: isize, c: isize) -> (res: &T)
        requires
            layout_ok(self.shape_spec(), self.stride_spec(), self.buffer_spec().len() as int),
            self.shape_spec().spec_is_valid_rc(r as int, c as int),
        ensures
            *res == cell_at(self.stride_spec(), self.buffer_spec(), r as int, c as int),
    {
        let shape = self.shape();
        let stride = self.stride();
        let buf = self.buffer();
        proof {
            lemma_offset_in_layout(shape, stride, buf@.len() as int, r as int, c as int);
        }
        let offset = stride.rc_to_offset(r, c);
        &buf[offset]
    }

    /// The cell at row-major index `idx`.
    fn idx(&self, idx: isize) -> (res: &T)
        requires
            layout_ok(self.shape_spec(), self.stride_spec(), self.buffer_spec().len() as int),
            0 <= idx < self.shape_spec().0 * self.shape_spec().1,
        ensures
            *res == cell_at(
                self.stride_spec(),
                self.buffer_spec(),
                (idx as int) / (self.shape_spec().1 as int),
                (idx as int) % (self.shape_spec().1 as int),
            ),
    {
        let shape = self.shape();
        proof {
            lemma_idx_in_shape(shape, idx as int);
        }
        let (r, c) = shape.idx_to_rc(idx);
        self.rc(r, c)
    }

    /// The `rows` by `cols` part of the grid whose first cell is at row
    /// `row0`, column `col0`.
    fn view<'g>(&'g self, row0: isize, col0: isize, rows: isize, cols: isize) -> (res: GridView<'g, T>)
        requires
            layout_ok(self.shape_spec(), self.stride_spec(), self.buffer_spec().len() as int),
            rows >= 1,
            cols >= 1,
            self.shape_spec().spec_is_valid_rc(row0 as int, col0 as int),
            self.shape_spec().spec_is_valid_rc(row0 + rows - 1, col0 + cols - 1),
        ensures
            res.shape == Shape(rows, cols),
            res.stride == self.stride_spec(),
            res.buffer@ == self.buffer_spec().subrange(
                self.stride_spec().offset_of(row0 as int, col0 as int),
                self.buffer_spec().len() as int,
            ),
            layout_ok(res.shape, res.stride, res.buffer@.len() as int),
            rows_disjoint(self.shape_spec(), self.stride_spec()) ==> rows_disjoint(res.shape, res.stride),
            forall|r: int, c: int|
                #![trigger cell_at(res.stride, res.buffer@, r, c)]
                res.shape.spec_is_valid_rc(r, c) ==> cell_at(res.stride, res.buffer@, r, c) == cell_at(
                    self.stride_spec(),
                    self.buffer_spec(),
                    row0 + r,
                    col0 + c,
                ),
    {
        let shape = self.shape();
        let stride = self.stride();
        let buf = self.buffer();
        let row1 = row0 + rows - 1;
        let col1 = col0 + cols - 1;
        proof {
            lemma_offset_in_layout(shape, stride, buf@.len() as int, row0 as int, col0 as int);
            lemma_sub_layout(shape, stride, buf@.len() as int, row0 as int, col0 as int, rows as int, cols as int);
        }
        let offset = stride.rc_to_offset(row0, col0);
        let res = GridView { shape: Shape(rows, cols), stride, buffer: &buf[offset..buf.len()] };
        assert forall|r: int, c: int|
            #![trigger cell_at(res.stride, res.buffer@, r, c)]
            res.shape.spec_is_valid_rc(r, c) implies cell_at(res.stride, res.buffer@, r, c) == cell_at(
                stride,
                buf@,
                row0 + r,
                col0 + c,
            ) by {
            lemma_offset_in_layout(res.shape, stride, res.buffer@.len() as int, r, c);
            assert(stride.offset_of(row0 as int, col0 as int) + stride.offset_of(r, c) == stride.offset_of(row0 + r, col0 + c));
        }
        res
    }

    /// An iterator over the cells, row by row.
    fn cells<'g>(&'g self) -> (res: Cells<'g, T>)
        requires
            layout_ok(self.shape_spec(), self.stride_spec(), self.buffer_spec().len() as int),
        ensures
            res.wf(),
            res.position() == 0,
            res.items() == row_major_cells(self.shape_spec(), self.stride_spec(), self.buffer_spec()),
    {
        Cells { next: 0, shape: self.shape(), stride: self.stride(), buffer: self.buffer() }
    }
}

/// Row-major index `idx` of a cell names a valid row and column.
pub proof fn lemma_idx_in_shape(shape: Shape, idx: int)
    requires
        0 <= shape.0,
        0 <= idx < shape.0 * shape.1,
    ensures
        shape.1 >= 1,
        trunc_div(idx, shape.1 as int) == idx / (shape.1 as int),
        trunc_rem(idx, shape.1 as int) == idx % (shape.1 as int),
        shape.spec_is_valid_rc(idx / (shape.1 as int), idx % (shape.1 as int)),
{
    assert(shape.1 >= 1) by (nonlinear_arith)
        requires
            0 <= shape.0,
            0 <= idx < shape.0 * shape.1,
    ;
    if idx == 0 {
        assert(0int / (shape.1 as int) == 0 && 0int % (shape.1 as int) == 0) by (nonlinear_arith)
            requires
                shape.1 >= 1,
        ;
    }
    let q = idx / (shape.1 as int);
    assert(0 <= q < shape.0 && 0 <= idx % (shape.1 as int) < shape.1) by (nonlinear_arith)
        requires
            shape.1 >= 1,
            0 <= idx < shape.0 * shape.1,
            q == idx / (shape.1 as int),
    ;
}

/// A part of a grid lies within the buffer that follows its first cell, and
/// its cells are those of the grid, shifted by its first row and column.
pub proof fn lemma_sub_layout(
    shape: Shape,
    stride: Stride,
    len: int,
    row0: int,
    col0: int,
    rows: int,
    cols: int,
)
    requires
        layout_ok(shape, stride, len),
        rows >= 1,
        cols >= 1,
        shape.spec_is_valid_rc(row0, col0),
        shape.spec_is_valid_rc(row0 + rows - 1, col0 + cols - 1),
    ensures
        rows <= isize::MAX && cols <= isize::MAX,
        rows_disjoint(shape, stride) ==> rows_disjoint(Shape(rows as isize, cols as isize), stride),
        layout_ok(
            Shape(rows as isize, cols as isize),
            stride,
            len - stride.offset_of(row0, col0),
        ),
        forall|r: int, c: int|
            #![trigger stride.offset_of(r, c)]
            Shape(rows as isize, cols as isize).spec_is_valid_rc(r, c) ==> stride.offset_of(row0, col0)
                + stride.offset_of(r, c) == stride.offset_of(row0 + r, col0 + c),
{
    let sub = Shape(rows as isize, cols as isize);
    lemma_offset_in_layout(shape, stride, len, row0 + rows - 1, col0 + cols - 1);
    assert(stride.1 >= 0 ==> cols * stride.1 <= shape.1 * stride.1) by (nonlinear_arith)
        requires
            cols <= shape.1,
    ;
    assert(stride.offset_of(row0, col0) + stride.offset_of(rows - 1, cols - 1) == stride.offset_of(
        row0 + rows - 1,
        col0 + cols - 1,
    )) by (nonlinear_arith);
    assert(0 <= rows * cols <= shape.0 * shape.1) by (nonlinear_arith)
        requires
            1 <= rows <= shape.0,
            1 <= cols <= shape.1,
    ;
    assert(0 <= stride.offset_of(row0, col0)) by (nonlinear_arith)
        requires
            0 <= row0,
            0 <= col0,
            0 <= stride.0,
            0 <= stride.1,
    ;
    assert(0 <= stride.offset_of(rows - 1, cols - 1)) by (nonlinear_arith)
        requires
            1 <= rows,
            1 <= cols,
            0 <= stride.0,
            0 <= stride.1,
    ;
    assert forall|r: int, c: int|
        #![trigger stride.offset_of(r, c)]
        sub.spec_is_valid_rc(r, c) implies stride.offset_of(row0, col0) + stride.offset_of(r, c)
        == stride.offset_of(row0 + r, col0 + c) by {
        assert(stride.offset_of(row0, col0) + stride.offset_of(r, c) == stride.offset_of(row0 + r, col0 + c))
            by (nonlinear_arith);
    }
}

/// A read-only part of a grid: its shape, the stride of the grid it was
/// taken from, and the buffer from its first cell on.
#[derive(Copy, Clone)]
pub struct GridView<'g, T> {
    pub shape: Shape,
    pub stride: Stride,
    pub buffer: &'g [T],
}

impl<'g, T> Gridlike<T> for GridView<'g, T> {
    open spec fn shape_spec(&self) -> Shape {
        self.shape
    }

    open spec fn stride_spec(&self) -> Stride {
        self.stride
    }

    open spec fn buffer_spec(&self) -> Seq<T> {
        self.buffer@
    }

    fn shape(&self) -> (res: Shape) {
        self.shape
    }

    fn stride(&self) -> (res: Stride) {
        self.stride
    }

    fn buffer(&self) -> (res: &[T]) {
        self.buffer
    }
}

/// An iterator over the cells of a grid, row by row.
pub struct Cells<'g, T> {
    next: isize,
    shape: Shape,
    stride: Stride,
    buffer: &'g [T],
}

impl<'g, T> Cells<'g, T> {
    /// How many cells have been handed out.
    pub closed spec fn position(&self) -> int {
        self.next as int
    }

    /// All the cells, row by row.
    pub closed spec fn items(&self) -> Seq<T> {
        row_major_cells(self.shape, self.stride, self.buffer@)
    }

    pub closed spec fn wf(&self) -> bool {
        &&& layout_ok(self.shape, self.stride, self.buffer@.len() as int)
        &&& 0 <= self.next <= self.shape.0 * self.shape.1
    }

    /// One call of `next` took the iterator from `before` to `after` and gave
    /// `res`: the cell at the position, moving on by one, or nothing at the end.
    pub open spec fn next_step(before: Self, after: Self, res: Option<&'g T>) -> bool {
        &&& after.wf()
        &&& after.items() == before.items()
        &&& before.position() < before.items().len() ==> {
            &&& res matches Some(x)
            &&& *x == before.items()[before.position()]
            &&& after.position() == before.position() + 1
        }
        &&& before.position() >= before.items().len() ==> {
            &&& res is None
            &&& after.position() == before.position()
        }
    }

    /// The next cell, if any is left.
    pub fn next(&mut self) -> (res: Option<&'g T>)
        requires
            old(self).wf(),
        ensures
            Self::next_step(*old(self), *final(self), res),
    {
        proof {
            lemma_layout_count(self.shape, self.stride, self.buffer@.len() as int);
        }
        if self.next >= self.shape.len() {
            None
        } else {
            proof {
                lemma_idx_in_shape(self.shape, self.next as int);
            }
            let (r, c) = self.shape.idx_to_rc(self.next);
            proof {
                lemma_offset_in_layout(self.shape, self.stride, self.buffer@.len() as int, r as int, c as int);
            }
            let buffer: &'g [T] = self.buffer;
            let res = &buffer[self.stride.rc_to_offset(r, c)];
            self.next = self.next + 1;
            Some(res)
        }
    }
}

/// Write access to a grid of `T` laid out in a buffer.
pub trait GridlikeMut<T>: Gridlike<T> {
    fn buffer_mut(&mut self) -> (res: &mut [T])
        ensures
            res@ == old(self).buffer_spec(),
            final(self).buffer_spec() == final(res)@,
            final(self).shape_spec() == old(self).shape_spec(),
            final(self).stride_spec() == old(self).stride_spec(),
    ;

    /// The cell at row `r`, column `c`, to write.
    fn rc_mut(&mut self, r: isize, c: isize) -> (res: &mut T)
        requires
            layout_ok(old(self).shape_spec(), old(self).stride_spec(), old(self).buffer_spec().len() as int),
            old(self).shape_spec().spec_is_valid_rc(r as int, c as int),
        ensures
            *res == cell_at(old(self).stride_spec(), old(self).buffer_spec(), r as int, c as int),
            final(self).buffer_spec() == old(self).buffer_spec().update(
                old(self).stride_spec().offset_of(r as int, c as int),
                *final(res),
            ),
            final(self).shape_spec() == old(self).shape_spec(),
            final(self).stride_spec() == old(self).stride_spec(),
    {
        let shape = self.shape();
        let stride = self.stride();
        let buf = self.buffer_mut();
        proof {
            lemma_offset_in_layout(shape, stride, buf@.len() as int, r as int, c as int);
        }
        let offset = stride.rc_to_offset(r, c);
        &mut buf[offset]
    }

    /// The cell at row-major index `idx`, to write.
    fn idx_mut(&mut self, idx: isize) -> (res: &mut T)
        requires
            layout_ok(old(self).shape_spec(), old(self).stride_spec(), old(self).buffer_spec().len() as int),
            0 <= idx < old(self).shape_spec().0 * old(self).shape_spec().1,
        ensures
            *res == cell_at(
                old(self).stride_spec(),
                old(self).buffer_spec(),
                (idx as int) / (old(self).shape_spec().1 as int),
                (idx as int) % (old(self).shape_spec().1 as int),
            ),
            final(self).buffer_spec() == old(self).buffer_spec().update(
                old(self).stride_spec().offset_of(
                    (idx as int) / (old(self).shape_spec().1 as int),
                    (idx as int) % (old(self).shape_spec().1 as int),
                ),
                *final(res),
            ),
            final(self).shape_spec() == old(self).shape_spec(),
            final(self).stride_spec() == old(self).stride_spec(),
    {
        let shape = self.shape();
        proof {
            lemma_idx_in_shape(shape, idx as int);
        }
        let (r, c) = shape.idx_to_rc(idx);
        self.rc_mut(r, c)
    }

    /// The `rows` by `cols` part of the grid whose first cell is at row
    /// `row0`, column `col0`, to write.
    fn view_mut<'g>(&'g mut self, row0: isize, col0: isize, rows: isize, cols: isize) -> (res: GridViewMut<'g, T>)
        requires
            layout_ok(old(self).shape_spec(), old(self).stride_spec(), old(self).buffer_spec().len() as int),
            rows >= 1,
            cols >= 1,
            old(self).shape_spec().spec_is_valid_rc(row0 as int, col0 as int),
            old(self).shape_spec().spec_is_valid_rc(row0 + rows - 1, col0 + cols - 1),
        ensures
            res.shape == Shape(rows, cols),
            res.stride == old(self).stride_spec(),
            res.buffer@ == old(self).buffer_spec().subrange(
                old(self).stride_spec().offset_of(row0 as int, col0 as int),
                old(self).buffer_spec().len() as int,
            ),
            final(self).buffer_spec() == old(self).buffer_spec().subrange(
                0,
                old(self).stride_spec().offset_of(row0 as int, col0 as int),
            ) + final(res.buffer)@,
            final(self).shape_spec() == old(self).shape_spec(),
            final(self).stride_spec() == old(self).stride_spec(),
            layout_ok(res.shape, res.stride, res.buffer@.len() as int),
            rows_disjoint(old(self).shape_spec(), old(self).stride_spec()) ==> rows_disjoint(res.shape, res.stride),
            forall|r: int, c: int|
                #![trigger cell_at(res.stride, res.buffer@, r, c)]
                res.shape.spec_is_valid_rc(r, c) ==> cell_at(res.stride, res.buffer@, r, c) == cell_at(
                    old(self).stride_spec(),
                    old(self).buffer_spec(),
                    row0 + r,
                    col0 + c,
                ),
    {
        let shape = self.shape();
        let stride = self.stride();
        let buf = self.buffer_mut();
        let ghost whole = buf@;
        let row1 = row0 + rows - 1;
        let col1 = col0 + cols - 1;
        proof {
            lemma_offset_in_layout(shape, stride, buf@.len() as int, row0 as int, col0 as int);
            lemma_sub_layout(shape, stride, buf@.len() as int, row0 as int, col0 as int, rows as int, cols as int);
        }
        let offset = stride.rc_to_offset(row0, col0);
        let (_, rest) = buf.split_at_mut(offset);
        let res = GridViewMut { shape: Shape(rows, cols), stride, buffer: rest };
        assert forall|r: int, c: int|
            #![trigger cell_at(res.stride, res.buffer@, r, c)]
            res.shape.spec_is_valid_rc(r, c) implies cell_at(res.stride, res.buffer@, r, c) == cell_at(
                stride,
                whole,
                row0 + r,
                col0 + c,
            ) by {
            lemma_offset_in_layout(res.shape, stride, res.buffer@.len() as int, r, c);
            assert(stride.offset_of(row0 as int, col0 as int) + stride.offset_of(r, c) == stride.offset_of(row0 + r, col0 + c));
        }
        res
    }
}

/// A writable part of a grid: its shape, the stride of the grid it was taken
/// from, and the buffer from its first cell on.
pub struct GridViewMut<'g, T> {
    pub shape: Shape,
    pub stride: Stride,
    pub buffer: &'g mut [T],
}

impl<'g, T> Gridlike<T> for GridViewMut<'g, T> {
    open spec fn shape_spec(&self) -> Shape {
        self.shape
    }

    open spec fn stride_spec(&self) -> Stride {
        self.stride
    }

    open spec fn buffer_spec(&self) -> Seq<T> {
        self.buffer@
    }

    fn shape(&self) -> (res: Shape) {
        self.shape
    }

    fn stride(&self) -> (res: Stride) {
        self.stride
    }

    fn buffer(&self) -> (res: &[T]) {
        &*self.buffer
    }
}

impl<'g, T> GridlikeMut<T> for GridViewMut<'g, T> {
    fn buffer_mut(&mut self) -> (res: &mut [T]) {
        &mut *self.buffer
    }

    /// As for any grid; besides, the part still writes to the grid it was
    /// taken from.
    fn rc_mut(&mut self, r: isize, c: isize) -> (res: &mut T)
        ensures
            final(final(self).buffer)@ == final(old(self).buffer)@,
    {
        proof {
            lemma_offset_in_layout(self.shape, self.stride, self.buffer@.len() as int, r as int, c as int);
        }
        let offset = self.stride.rc_to_offset(r, c);
        &mut self.buffer[offset]
    }

    /// As for any grid; besides, the part still writes to the grid it was
    /// taken from.
    fn idx_mut(&mut self, idx: isize) -> (res: &mut T)
        ensures
            final(final(self).buffer)@ == final(old(self).buffer)@,
    {
        proof {
            lemma_idx_in_shape(self.shape, idx as int);
        }
        let (r, c) = self.shape.idx_to_rc(idx);
        self.rc_mut(r, c)
    }
}

/// A grid that owns its cells, stored row by row.
#[derive(Clone)]
pub struct Grid<T> {
    shape: Shape,
    buffer: Vec<T>,
}

/// The layout of a grid stored row by row with no gaps fits its buffer, and
/// its rows do not overlap.
pub proof fn lemma_dense_layout(rows: isize, cols: isize)
    requires
        0 <= rows,
        0 <= cols,
        rows * cols <= isize::MAX,
    ensures
        layout_ok(Shape(rows, cols), Stride(cols, 1), rows * cols),
        rows_disjoint(Shape(rows, cols), Stride(cols, 1)),
        0 <= rows * cols,
{
    assert(0 <= rows * cols) by (nonlinear_arith)
        requires
            0 <= rows,
            0 <= cols,
    ;
    if rows >= 1 && cols >= 1 {
        assert((rows - 1) * cols + (cols - 1) == rows * cols - 1) by (nonlinear_arith);
        assert(cols <= rows * cols) by (nonlinear_arith)
            requires
                rows >= 1,
                cols >= 0,
        ;
    }
}

/// In a grid stored row by row with no gaps, cell `i` in row-major order is
/// item `i` of the buffer.
pub proof fn lemma_dense_index(cols: isize, i: int)
    requires
        cols >= 1,
        i >= 0,
    ensures
        Stride(cols, 1).offset_of(i / (cols as int), i % (cols as int)) == i,
{
    assert((i / (cols as int)) * cols + i % (cols as int) == i) by (nonlinear_arith)
        requires
            cols >= 1,
    ;
}

impl<T> Grid<T> {
    /// The shape, stride and buffer agree: the cells fill the buffer row by row.
    pub open spec fn wf(&self) -> bool {
        &&& self.stride_spec() == Stride(self.shape_spec().1, 1)
        &&& 0 <= self.shape_spec().0
        &&& 0 <= self.shape_spec().1
        &&& self.buffer_spec().len() == self.shape_spec().0 * self.shape_spec().1
        &&& layout_ok(self.shape_spec(), self.stride_spec(), self.buffer_spec().len() as int)
    }

    /// A `rows` by `cols` grid whose cells are clones of `value`.
    pub fn new_filled(rows: isize, cols: isize, value: T) -> (res: Grid<T>) where T: Clone
        requires
            rows >= 1,
            cols >= 1,
            rows * cols <= isize::MAX,
        ensures
            res.wf(),
            res.shape_spec() == Shape(rows, cols),
            forall|i: int| 0 <= i < rows * cols ==> cloned(value, #[trigger] res.buffer_spec()[i]),
    {
        proof {
            lemma_dense_layout(rows, cols);
        }
        let n = rows * cols;
        let mut buffer: Vec<T> = Vec::new();
        let mut i: isize = 0;
        while i < n
            invariant
                0 <= i <= n,
                buffer@.len() == i,
                forall|j: int| 0 <= j < i ==> cloned(value, #[trigger] buffer@[j]),
            decreases n - i,
        {
            buffer.push(value.clone());
            i = i + 1;
        }
        Grid { shape: Shape(rows, cols), buffer }
    }

    /// A `rows` by `cols` grid whose cell at row `r`, column `c` is `f(r, c)`;
    /// `f` is called on the cells row by row.
    pub fn new_fill_with<F>(rows: isize, cols: isize, f: F) -> (res: Grid<T>) where F: Fn(isize, isize) -> T
        requires
            rows >= 1,
            cols >= 1,
            rows * cols <= isize::MAX,
            forall|r: isize, c: isize| 0 <= r < rows && 0 <= c < cols ==> #[trigger] f.requires((r, c)),
        ensures
            res.wf(),
            res.shape_spec() == Shape(rows, cols),
            forall|r: isize, c: isize|
                #![trigger cell_at(res.stride_spec(), res.buffer_spec(), r as int, c as int)]
                0 <= r < rows && 0 <= c < cols ==> f.ensures(
                    (r, c),
                    cell_at(res.stride_spec(), res.buffer_spec(), r as int, c as int),
                ),
    {
        proof {
            lemma_dense_layout(rows, cols);
        }
        let n = rows * cols;
        let mut buffer: Vec<T> = Vec::new();
        let mut i: isize = 0;
        while i < n
            invariant
                0 <= i <= n == rows * cols,
                cols >= 1,
                rows >= 1,
                buffer@.len() == i,
                forall|r: isize, c: isize| 0 <= r < rows && 0 <= c < cols ==> #[trigger] f.requires((r, c)),
                forall|j: int|
                    0 <= j < i ==> f.ensures((((j / (cols as int)) as isize), ((j % (cols as int)) as isize)), #[trigger] buffer@[j]),
            decreases n - i,
        {
            proof {
                lemma_idx_in_shape(Shape(rows, cols), i as int);
            }
            let r = i / cols;
            let c = i % cols;
            buffer.push(f(r, c));
            i = i + 1;
        }
        let res = Grid { shape: Shape(rows, cols), buffer };
        assert forall|r: isize, c: isize|
            #![trigger cell_at(res.stride_spec(), res.buffer_spec(), r as int, c as int)]
            0 <= r < rows && 0 <= c < cols implies f.ensures(
                (r, c),
                cell_at(res.stride_spec(), res.buffer_spec(), r as int, c as int),
            ) by {
            let j = r * cols + c;
            lemma_rc_idx(Shape(rows, cols), r as int, c as int);
            let _ = buffer@[j];
        }
        res
    }

    /// A grid of one row holding the items of `buffer`.
    pub fn from_vec(buffer: Vec<T>) -> (res: Grid<T>)
        requires
            buffer@.len() <= isize::MAX,
        ensures
            res.wf(),
            res.shape_spec() == Shape(1, buffer@.len() as isize),
            res.buffer_spec() == buffer@,
    {
        proof {
            lemma_dense_layout(1, buffer@.len() as isize);
        }
        let n = buffer.len() as isize;
        Grid { shape: Shape(1, n), buffer }
    }
}

impl<T> Gridlike<T> for Grid<T> {
    closed spec fn shape_spec(&self) -> Shape {
        self.shape
    }

    closed spec fn stride_spec(&self) -> Stride {
        Stride(self.shape.1, 1)
    }

    closed spec fn buffer_spec(&self) -> Seq<T> {
        self.buffer@
    }

    fn shape(&self) -> (res: Shape) {
        self.shape
    }

    fn stride(&self) -> (res: Stride) {
        Stride(self.shape.cols(), 1)
    }

    fn buffer(&self) -> (res: &[T]) {
        self.buffer.as_slice()
    }
}

impl<T> GridlikeMut<T> for Grid<T> {
    fn buffer_mut(&mut self) -> (res: &mut [T]) {
        self.buffer.as_mut_slice()
    }
}

/// Row `r`, column `c` of a grid with positive column count has row-major
/// index `r * cols + c`, and that index leads back to the row and column.
pub proof fn lemma_rc_idx(shape: Shape, r: int, c: int)
    requires
        shape.1 >= 1,
        shape.spec_is_valid_rc(r, c),
    ensures
        0 <= r * shape.1 + c < shape.0 * shape.1,
        (r * shape.1 + c) / (shape.1 as int) == r,
        (r * shape.1 + c) % (shape.1 as int) == c,
{
    let k = shape.1 as int;
    assert(0 <= r * k + c < shape.0 * k) by (nonlinear_arith)
        requires
            0 <= r < shape.0,
            0 <= c < k,
    ;
    vstd::arithmetic::div_mod::lemma_fundamental_div_mod_converse(r * k + c, k, r, c);
}

/// The message of `reshape` for a size that is not positive.
pub open spec fn bad_size_message(rows: isize, cols: isize) -> Seq<char> {
    "invalid grid size: "@ + int_decimal(rows as int) + ","@ + int_decimal(cols as int)
}

/// The message of `reshape` for a size whose cell count differs.
pub open spec fn bad_reshape_message(from: Shape, rows: isize, cols: isize) -> Seq<char> {
    "invalid reshape: "@ + int_decimal(from.0 as int) + ","@ + int_decimal(from.1 as int) + " -> "@
        + int_decimal(rows as int) + ","@ + int_decimal(cols as int)
}

impl<T> Grid<T> {
    /// The same cells, read as a `rows` by `cols` grid; an error where the size
    /// is not positive or holds another number of cells.
    pub fn reshape(self, rows: isize, cols: isize) -> (res: Result<Self, String>)
        requires
            self.wf(),
            rows >= 1 && cols >= 1 ==> rows * cols <= isize::MAX,
        ensures
            (rows < 1 || cols < 1) ==> (res matches Err(e) && e@ == bad_size_message(rows, cols)),
            (rows >= 1 && cols >= 1 && rows * cols != self.buffer_spec().len()) ==> (res matches Err(e)
                && e@ == bad_reshape_message(self.shape_spec(), rows, cols)),
            (rows >= 1 && cols >= 1 && rows * cols == self.buffer_spec().len()) ==> (res matches Ok(g)
                && g.wf() && g.shape_spec() == Shape(rows, cols) && g.buffer_spec() == self.buffer_spec()),
    {
        if rows < 1 || cols < 1 {
            let mut e = String::from_str("invalid grid size: ");
            push_decimal(&mut e, rows);
            e.append(",");
            push_decimal(&mut e, cols);
            return Err(e);
        }
        if rows * cols != self.shape().len() {
            let mut e = String::from_str("invalid reshape: ");
            push_decimal(&mut e, self.shape().rows());
            e.append(",");
            push_decimal(&mut e, self.shape().cols());
            e.append(" -> ");
            push_decimal(&mut e, rows);
            e.append(",");
            push_decimal(&mut e, cols);
            return Err(e);
        }
        proof {
            lemma_dense_layout(rows, cols);
        }
        Ok(Grid { shape: Shape(rows, cols), buffer: self.buffer })
    }
}

impl<T> core::ops::Index<usize> for Grid<T> {
    type Output = T;

    /// The cell at row-major index `index`.
    fn index(&self, index: usize) -> (res: &T)
        ensures
            *res == self.buffer_spec()[index as int],
    {
        proof {
            lemma_dense_index(self.shape_spec().1, index as int);
        }
        self.idx(index as isize)
    }
}

impl<T> vstd::std_specs::core::IndexSpecImpl<usize> for Grid<T> {
    open spec fn index_req(&self, index: &usize) -> bool {
        self.wf() && (*index as int) < self.buffer_spec().len()
    }
}

impl<T> core::ops::IndexMut<usize> for Grid<T> {
    /// The cell at row-major index `index`, to write.
    fn index_mut(&mut self, index: usize) -> (res: &mut T)
        requires
            old(self).wf(),
            (index as int) < old(self).buffer_spec().len(),
        ensures
            *res == old(self).buffer_spec()[index as int],
            final(self).buffer_spec() == old(self).buffer_spec().update(index as int, *final(res)),
            final(self).shape_spec() == old(self).shape_spec(),
            final(self).wf(),
    {
        proof {
            lemma_dense_index(old(self).shape_spec().1, index as int);
        }
        self.idx_mut(index as isize)
    }
}

impl<'g, T> core::ops::Index<usize> for GridView<'g, T> {
    type Output = T;

    /// The cell at row-major index `index`.
    fn index(&self, index: usize) -> (res: &T)
        ensures
            *res == cell_at(self.stride, self.buffer@, (index as int) / (self.shape.1 as int), (index as int) % (self.shape.1 as int)),
    {
        self.idx(index as isize)
    }
}

impl<'g, T> vstd::std_specs::core::IndexSpecImpl<usize> for GridView<'g, T> {
    open spec fn index_req(&self, index: &usize) -> bool {
        layout_ok(self.shape, self.stride, self.buffer@.len() as int) && (*index as int) < self.shape.0 * self.shape.1
    }
}

impl<'g, T> core::ops::Index<usize> for GridViewMut<'g, T> {
    type Output = T;

    /// The cell at row-major index `index`.
    fn index(&self, index: usize) -> (res: &T)
        ensures
            *res == cell_at(self.stride, self.buffer_spec(), (index as int) / (self.shape.1 as int), (index as int) % (self.shape.1 as int)),
    {
        self.idx(index as isize)
    }
}

impl<'g, T> core::ops::IndexMut<usize> for GridViewMut<'g, T> {
    /// The cell at row-major index `index`, to write; the part still writes
    /// to the grid it was taken from.
    fn index_mut(&mut self, index: usize) -> (res: &mut T)
        requires
            layout_ok(old(self).shape, old(self).stride, old(self).buffer_spec().len() as int),
            (index as int) < old(self).shape.0 * old(self).shape.1,
        ensures
            *res == cell_at(
                old(self).stride,
                old(self).buffer_spec(),
                (index as int) / (old(self).shape.1 as int),
                (index as int) % (old(self).shape.1 as int),
            ),
            final(self).buffer_spec() == old(self).buffer_spec().update(
                old(self).stride.offset_of(
                    (index as int) / (old(self).shape.1 as int),
                    (index as int) % (old(self).shape.1 as int),
                ),
                *final(res),
            ),
            final(self).shape == old(self).shape,
            final(self).stride == old(self).stride,
            final(final(self).buffer)@ == final(old(self).buffer)@,
    {
        self.idx_mut(index as isize)
    }
}

impl<'g, T> vstd::std_specs::core::IndexSpecImpl<usize> for GridViewMut<'g, T> {
    open spec fn index_req(&self, index: &usize) -> bool {
        layout_ok(self.shape, self.stride, self.buffer_spec().len() as int) && (*index as int) < self.shape.0 * self.shape.1
    }
}

/// A grid stored row by row lists its cells, row by row, in buffer order.
pub proof fn lemma_grid_cells_in_order<T>(g: &Grid<T>)
    requires
        g.wf(),
    ensures
        row_major_cells(g.shape_spec(), g.stride_spec(), g.buffer_spec()) == g.buffer_spec(),
{
    let cells = row_major_cells(g.shape_spec(), g.stride_spec(), g.buffer_spec());
    if g.shape_spec().1 >= 1 {
        assert forall|i: int| 0 <= i < cells.len() implies cells[i] == g.buffer_spec()[i] by {
            lemma_dense_index(g.shape_spec().1, i);
        }
    } else {
        let (a, b) = (g.shape_spec().0 as int, g.shape_spec().1 as int);
        assert(a * b == 0) by (nonlinear_arith)
            requires
                b == 0,
        ;
    }
    assert(cells =~= g.buffer_spec());
}

/// Where rows do not overlap, distinct cells have distinct offsets: a write to
/// one cell is read back there and leaves every other cell as it was.
pub proof fn lemma_write_then_read<T>(
    shape: Shape,
    stride: Stride,
    buf: Seq<T>,
    r: int,
    c: int,
    r2: int,
    c2: int,
    v: T,
)
    requires
        layout_ok(shape, stride, buf.len() as int),
        rows_disjoint(shape, stride),
        shape.spec_is_valid_rc(r, c),
        shape.spec_is_valid_rc(r2, c2),
    ensures
        cell_at(stride, buf.update(stride.offset_of(r, c), v), r2, c2) == if r == r2 && c == c2 {
            v
        } else {
            cell_at(stride, buf, r2, c2)
        },
{
    lemma_offset_in_layout(shape, stride, buf.len() as int, r, c);
    lemma_offset_in_layout(shape, stride, buf.len() as int, r2, c2);
    if !(r == r2 && c == c2) {
        assert(stride.offset_of(r, c) != stride.offset_of(r2, c2)) by (nonlinear_arith)
            requires
                !(r == r2 && c == c2),
                0 <= r < shape.0,
                0 <= r2 < shape.0,
                0 <= c < shape.1,
                0 <= c2 < shape.1,
                stride.1 >= 1,
                stride.0 >= shape.1 * stride.1,
        ;
    }
}

/// Row-major index `idx` of a cell leads to a row and column that lead back
/// to `idx`.
pub proof fn lemma_idx_rc(shape: Shape, idx: int)
    requires
        0 <= shape.0,
        0 <= idx < shape.0 * shape.1,
    ensures
        shape.spec_is_valid_rc(trunc_div(idx, shape.1 as int), trunc_rem(idx, shape.1 as int)),
        trunc_div(idx, shape.1 as int) * shape.1 + trunc_rem(idx, shape.1 as int) == idx,
{
    lemma_idx_in_shape(shape, idx);
    lemma_dense_index(shape.1, idx);
}

/// Writing the cell at row `r`, column `c` of the part of a grid whose first
/// cell is at row `row0`, column `col0` writes the grid's cell at row
/// `row0 + r`, column `col0 + c`, and nothing else.
pub proof fn lemma_part_write<T>(
    shape: Shape,
    stride: Stride,
    buf: Seq<T>,
    row0: int,
    col0: int,
    rows: int,
    cols: int,
    r: int,
    c: int,
    v: T,
)
    requires
        layout_ok(shape, stride, buf.len() as int),
        rows >= 1,
        cols >= 1,
        shape.spec_is_valid_rc(row0, col0),
        shape.spec_is_valid_rc(row0 + rows - 1, col0 + cols - 1),
        0 <= r < rows,
        0 <= c < cols,
    ensures
        ({
            let off0 = stride.offset_of(row0, col0);
            let part = buf.subrange(off0, buf.len() as int);
            buf.subrange(0, off0) + part.update(stride.offset_of(r, c), v) == buf.update(
                stride.offset_of(row0 + r, col0 + c),
                v,
            )
        }),
{
    let off0 = stride.offset_of(row0, col0);
    let part = buf.subrange(off0, buf.len() as int);
    lemma_offset_in_layout(shape, stride, buf.len() as int, row0, col0);
    lemma_sub_layout(shape, stride, buf.len() as int, row0, col0, rows, cols);
    let sub = Shape(rows as isize, cols as isize);
    assert(sub.spec_is_valid_rc(r, c));
    lemma_offset_in_layout(sub, stride, part.len() as int, r, c);
    assert(off0 + stride.offset_of(r, c) == stride.offset_of(row0 + r, col0 + c));
    assert(buf.subrange(0, off0) + part.update(stride.offset_of(r, c), v) =~= buf.update(
        stride.offset_of(row0 + r, col0 + c),
        v,
    ));
}

/// A part of a part of a grid is the part of the grid whose first cell is at
/// the sum of the two first rows and the sum of the two first columns: its
/// buffer is the grid's buffer from that cell on.
pub proof fn lemma_part_of_part<T>(
    shape: Shape,
    stride: Stride,
    buf: Seq<T>,
    row0: int,
    col0: int,
    rows0: int,
    cols0: int,
    row1: int,
    col1: int,
    rows1: int,
    cols1: int,
)
    requires
        layout_ok(shape, stride, buf.len() as int),
        rows0 >= 1,
        cols0 >= 1,
        shape.spec_is_valid_rc(row0, col0),
        shape.spec_is_valid_rc(row0 + rows0 - 1, col0 + cols0 - 1),
        rows1 >= 1,
        cols1 >= 1,
        Shape(rows0 as isize, cols0 as isize).spec_is_valid_rc(row1, col1),
        Shape(rows0 as isize, cols0 as isize).spec_is_valid_rc(row1 + rows1 - 1, col1 + cols1 - 1),
    ensures
        ({
            let part = buf.subrange(stride.offset_of(row0, col0), buf.len() as int);
            part.subrange(stride.offset_of(row1, col1), part.len() as int) == buf.subrange(
                stride.offset_of(row0 + row1, col0 + col1),
                buf.len() as int,
            )
        }),
        shape.spec_is_valid_rc(row0 + row1, col0 + col1),
        shape.spec_is_valid_rc(row0 + row1 + rows1 - 1, col0 + col1 + cols1 - 1),
{
    let off0 = stride.offset_of(row0, col0);
    let part = buf.subrange(off0, buf.len() as int);
    lemma_offset_in_layout(shape, stride, buf.len() as int, row0, col0);
    lemma_sub_layout(shape, stride, buf.len() as int, row0, col0, rows0, cols0);
    let sub = Shape(rows0 as isize, cols0 as isize);
    lemma_offset_in_layout(sub, stride, part.len() as int, row1, col1);
    assert(off0 + stride.offset_of(row1, col1) == stride.offset_of(row0 + row1, col0 + col1));
    assert(part.subrange(stride.offset_of(row1, col1), part.len() as int) =~= buf.subrange(
        stride.offset_of(row0 + row1, col0 + col1),
        buf.len() as int,
    ));
}

/// After `k` calls of `next` from position 0, a run of the iterator stands
/// at position `k`, or at the end once every cell has been handed out.
proof fn lemma_cells_run_position<'g, T>(runs: Seq<Cells<'g, T>>, results: Seq<Option<&'g T>>, k: int)
    requires
        runs.len() == results.len() + 1,
        runs[0].wf(),
        runs[0].position() == 0,
        forall|j: int| 0 <= j < results.len() ==> #[trigger] Cells::next_step(runs[j], runs[j + 1], results[j]),
        0 <= k < runs.len(),
    ensures
        runs[k].wf(),
        runs[k].items() == runs[0].items(),
        runs[k].position() == if k < runs[0].items().len() { k } else { runs[0].items().len() as int },
    decreases k,
{
    if k > 0 {
        let j = k - 1;
        lemma_cells_run_position(runs, results, j);
        assert(Cells::next_step(runs[j], runs[j + 1], results[j]));
    }
}

/// Calling `next` again and again on the iterator that `cells` gives hands
/// out the cells row by row, each once, and then nothing on every later call.
pub proof fn lemma_cells_run<'g, T, G: Gridlike<T>>(g: &G, runs: Seq<Cells<'g, T>>, results: Seq<Option<&'g T>>)
    requires
        layout_ok(g.shape_spec(), g.stride_spec(), g.buffer_spec().len() as int),
        runs.len() == results.len() + 1,
        runs[0].wf(),
        runs[0].position() == 0,
        runs[0].items() == row_major_cells(g.shape_spec(), g.stride_spec(), g.buffer_spec()),
        forall|j: int| 0 <= j < results.len() ==> #[trigger] Cells::next_step(runs[j], runs[j + 1], results[j]),
    ensures
        forall|k: int|
            0 <= k < results.len() ==> {
                let n = g.shape_spec().0 * g.shape_spec().1;
                let cols = g.shape_spec().1 as int;
                &&& k < n ==> (#[trigger] results[k] matches Some(x) && *x == cell_at(
                    g.stride_spec(),
                    g.buffer_spec(),
                    k / cols,
                    k % cols,
                ))
                &&& k >= n ==> results[k] is None
            },
{
    lemma_layout_count(g.shape_spec(), g.stride_spec(), g.buffer_spec().len() as int);
    assert forall|k: int| 0 <= k < results.len() implies {
        let n = g.shape_spec().0 * g.shape_spec().1;
        let cols = g.shape_spec().1 as int;
        &&& k < n ==> (#[trigger] results[k] matches Some(x) && *x == cell_at(
            g.stride_spec(),
            g.buffer_spec(),
            k / cols,
            k % cols,
        ))
        &&& k >= n ==> results[k] is None
    } by {
        lemma_cells_run_position(runs, results, k);
        assert(Cells::next_step(runs[k], runs[k + 1], results[k]));
    }
}

/// `trunc_div` and `trunc_rem` are division rounded toward zero: quotient
/// times divisor plus remainder gives back the dividend, and the remainder is
/// smaller than the divisor in size and has the sign of the dividend.
pub proof fn lemma_trunc_div_rem(a: int, b: int)
    requires
        b != 0,
    ensures
        trunc_div(a, b) * b + trunc_rem(a, b) == a,
        a >= 0 ==> 0 <= trunc_rem(a, b) < (if b > 0 { b } else { -b }),
        a <= 0 ==> 0 <= -trunc_rem(a, b) < (if b > 0 { b } else { -b }),
{
    let x = if a >= 0 { a } else { -a };
    let d = if b > 0 { b } else { -b };
    let q = x / d;
    let r = x % d;
    assert(x == q * d + r && 0 <= r < d) by (nonlinear_arith)
        requires
            x >= 0,
            d >= 1,
            q == x / d,
            r == x % d,
    ;
    if a == 0 {
    } else if a > 0 && b > 0 {
    } else if a < 0 && b < 0 {
        assert(q * b - r == a) by (nonlinear_arith)
            requires
                x == -a,
                d == -b,
                x == q * d + r,
        ;
    } else if a < 0 {
        assert((-q) * b - r == a) by (nonlinear_arith)
            requires
                x == -a,
                d == b,
                x == q * d + r,
        ;
    } else {
        assert((-q) * b + r == a) by (nonlinear_arith)
            requires
                x == a,
                d == -b,
                x == q * d + r,
        ;
    }
}

} // verus!
