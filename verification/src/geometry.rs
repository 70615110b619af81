//! Grid geometry: a fixed 2D index space with row-major projection.

use vstd::prelude::*;

verus! {

/// Largest admissible cell count.
///
/// Distances are accumulated in `u64`: every stored distance is bounded by
/// `cell_count * (u32::MAX + 3)` (one weight and one step per cell on any
/// relaxation chain), so keeping the cell count below `2^29` keeps every
/// intermediate sum and compared square inside the machine's integer range.
pub const MAX_CELLS: usize = 0x2000_0000;

/// The failures the library reports.
#[derive(Clone, Copy, PartialEq, Eq, Structural, Debug)]
pub enum FieldError {
    /// Zero or negative grid dimensions, or a grid beyond `MAX_CELLS`.
    InvalidDimensions,
    /// A supplied field's length disagrees with the geometry's cell count.
    SizeMismatch,
    /// A queried coordinate lies outside the grid.
    OutOfBounds,
    /// An in-bounds cell with no path to the destination.
    Unreachable,
    /// A non-finite input coordinate.
    InvalidCoordinate,
}

/// A fixed-size 2D grid: cell `(x, y)` lives at linear index `x + y * width`.
#[derive(Clone, Copy, PartialEq, Eq, Structural, Debug)]
pub struct Dimensions {
    pub width: usize,
    pub height: usize,
    pub max_idx: usize,
}

/// Row-major projection of a coordinate.
pub open spec fn idx_of(dim: Dimensions, x: int, y: int) -> int {
    x + y * dim.width
}

/// Whether a coordinate lies on the grid.
pub open spec fn on_grid(dim: Dimensions, x: int, y: int) -> bool {
    0 <= x < dim.width && 0 <= y < dim.height
}

impl Dimensions {
    /// Well-formedness: the cached cell count matches and the grid is
    /// machine-small.
    pub open spec fn wf(&self) -> bool {
        &&& self.max_idx == self.width * self.height
        &&& self.max_idx <= MAX_CELLS
        &&& self.width <= MAX_CELLS
        &&& self.height <= MAX_CELLS
    }

    pub fn new(width: usize, height: usize) -> (r: Dimensions)
        requires
            width * height <= MAX_CELLS,
            width <= MAX_CELLS,
            height <= MAX_CELLS,
        ensures
            r.wf(),
            r.width == width,
            r.height == height,
    {
        Dimensions { width, height, max_idx: width * height }
    }

    pub fn width(&self) -> (r: usize)
        ensures
            r == self.width,
    {
        self.width
    }

    pub fn height(&self) -> (r: usize)
        ensures
            r == self.height,
    {
        self.height
    }

    pub fn max_idx(&self) -> (r: usize)
        ensures
            r == self.max_idx,
    {
        self.max_idx
    }

    pub fn in_bounds(&self, x: isize, y: isize) -> (r: bool)
        requires
            self.wf(),
        ensures
            r == on_grid(*self, x as int, y as int),
    {
        x >= 0 && x < self.width as isize && y >= 0 && y < self.height as isize
    }

    pub fn project_to_field_idx(&self, x: isize, y: isize) -> (r: usize)
        requires
            self.wf(),
            on_grid(*self, x as int, y as int),
        ensures
            r == idx_of(*self, x as int, y as int),
            r < self.max_idx,
    {
        proof {
            lemma_idx_bounds(*self, x as int, y as int);
            assert(0 <= (y as int) * (self.width as int)) by (nonlinear_arith)
                requires
                    0 <= y as int,
                    0 <= self.width as int;
        }
        let xu = x as usize;
        let yu = y as usize;
        xu + yu * self.width
    }
}

/// An on-grid coordinate projects into `[0, max_idx)`.
pub proof fn lemma_idx_bounds(dim: Dimensions, x: int, y: int)
    requires
        dim.wf(),
        on_grid(dim, x, y),
    ensures
        0 <= idx_of(dim, x, y) < dim.max_idx,
{
    let w = dim.width as int;
    let h = dim.height as int;
    assert(0 <= x + y * w && x + y * w < w * h) by (nonlinear_arith)
        requires
            0 <= x < w,
            0 <= y < h;
    assert(dim.max_idx == w * h);
}

/// Row-major projection is injective on the grid.
pub proof fn lemma_idx_injective(dim: Dimensions, x1: int, y1: int, x2: int, y2: int)
    requires
        dim.wf(),
        on_grid(dim, x1, y1),
        on_grid(dim, x2, y2),
        idx_of(dim, x1, y1) == idx_of(dim, x2, y2),
    ensures
        x1 == x2,
        y1 == y2,
{
    let w = dim.width as int;
    assert(y1 == y2 && x1 == x2) by (nonlinear_arith)
        requires
            0 <= x1 < w,
            0 <= x2 < w,
            x1 + y1 * w == x2 + y2 * w;
}

/// Every linear index under `max_idx` decomposes into the on-grid
/// coordinate `(i % width, i / width)`.
pub proof fn lemma_idx_decompose(dim: Dimensions, i: int)
    requires
        dim.wf(),
        0 <= i < dim.max_idx,
    ensures
        dim.width > 0,
        on_grid(dim, i % (dim.width as int), i / (dim.width as int)),
        idx_of(dim, i % (dim.width as int), i / (dim.width as int)) == i,
{
    let w = dim.width as int;
    let h = dim.height as int;
    if w == 0 {
        assert(w * h == 0) by (nonlinear_arith)
            requires w == 0;
        assert(false);
    }
    let x = i % w;
    let y = i / w;
    vstd::arithmetic::div_mod::lemma_fundamental_div_mod(i, w);
    vstd::arithmetic::div_mod::lemma_mod_bound(i, w);
    assert(i == w * y + x);
    assert(0 <= y) by (nonlinear_arith)
        requires
            i == w * y + x,
            0 <= i,
            0 <= x < w;
    if y >= h {
        assert(w * y >= w * h) by (nonlinear_arith)
            requires
                y >= h,
                w > 0;
        assert(false);
    }
    assert(x + y * w == i) by (nonlinear_arith)
        requires
            i == w * y + x;
    assert(on_grid(dim, x, y) && idx_of(dim, x, y) == i);
}

/// Every linear index under `max_idx` is the projection of some on-grid
/// coordinate.
pub proof fn lemma_idx_surjective(dim: Dimensions, i: int)
    requires
        dim.wf(),
        0 <= i < dim.max_idx,
    ensures
        exists|x: int, y: int|
            on_grid(dim, x, y) && #[trigger] idx_of(dim, x, y) == i,
{
    lemma_idx_decompose(dim, i);
    let w = dim.width as int;
    assert(on_grid(dim, i % w, i / w) && idx_of(dim, i % w, i / w) == i);
}

/// Validated constructor: rejects zero or negative dimensions, and grids
/// whose cell count exceeds `MAX_CELLS`.
pub fn make_geometry(width: i64, height: i64) -> (r: Result<Dimensions, FieldError>)
    ensures
        match r {
            Ok(dim) => {
                &&& 0 < width
                &&& 0 < height
                &&& width * height <= MAX_CELLS
                &&& dim.wf()
                &&& dim.width == width
                &&& dim.height == height
            },
            Err(e) => {
                &&& e == FieldError::InvalidDimensions
                &&& !(0 < width && 0 < height && width * height <= MAX_CELLS)
            },
        },
{
    if width < 1 || height < 1 {
        return Err(FieldError::InvalidDimensions);
    }
    proof {
        assert((width as int) * (height as int) <= u128::MAX) by (nonlinear_arith)
            requires
                0 < (width as int) && (width as int) < 0x8000_0000_0000_0000,
                0 < (height as int) && (height as int) < 0x8000_0000_0000_0000;
    }
    let prod: u128 = (width as u128) * (height as u128);
    if prod > MAX_CELLS as u128 {
        return Err(FieldError::InvalidDimensions);
    }
    proof {
        assert((width as int) <= (width as int) * (height as int) && (height as int)
            <= (width as int) * (height as int)) by (nonlinear_arith)
            requires
                0 < width as int,
                0 < height as int;
    }
    Ok(Dimensions::new(width as usize, height as usize))
}

} // verus!
