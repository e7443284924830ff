use vstd::prelude::*;

verus! {

/// A cell of a grid: row `x`, column `y`.
pub struct Pos {
    pub x: usize,
    pub y: usize,
}

impl Pos {
    /// The cell at row `x`, column `y`.
    pub fn new(x: usize, y: usize) -> (p: Self)
        ensures
            p.x == x,
            p.y == y,
    {
        Pos { x, y }
    }
}

impl From<(usize, usize)> for Pos {
    fn from(value: (usize, usize)) -> (p: Self) {
        Pos::new(value.0, value.1)
    }
}

impl vstd::std_specs::convert::FromSpecImpl<(usize, usize)> for Pos {
    open spec fn obeys_from_spec() -> bool {
        true
    }

    open spec fn from_spec(v: (usize, usize)) -> Self {
        Pos { x: v.0, y: v.1 }
    }
}

/// A grid of `h` rows and `w` columns, numbered row by row.
pub struct Field2d {
    h: usize,
    w: usize,
}

/// The row-major number of cell `(x, y)` in a grid `w` wide.
pub open spec fn cell_index(x: int, y: int, w: int) -> int {
    x * w + y
}

impl Field2d {
    /// The number of rows.
    pub closed spec fn rows(&self) -> nat {
        self.h as nat
    }

    /// The number of columns.
    pub closed spec fn cols(&self) -> nat {
        self.w as nat
    }

    /// A grid of `h` rows and `w` columns.
    pub fn new(h: usize, w: usize) -> (f: Self)
        ensures
            f.rows() == h,
            f.cols() == w,
    {
        Field2d { h, w }
    }

    /// The number of cells.
    pub fn size(&self) -> (n: usize)
        requires
            self.rows() * self.cols() <= usize::MAX,
        ensures
            n == self.rows() * self.cols(),
    {
        self.h * self.w
    }

    /// The row-major number of the cell `p`.
    pub fn idx(&self, p: Pos) -> (i: usize)
        requires
            cell_index(p.x as int, p.y as int, self.cols() as int) <= usize::MAX,
        ensures
            i == cell_index(p.x as int, p.y as int, self.cols() as int),
    {
        proof {
            assert(0 <= p.x * self.w) by (nonlinear_arith);
        }
        p.x * self.w + p.y
    }

    /// The cell `x` rows and `y` columns away from `p`, if it lies in the grid.
    pub fn step(&self, p: Pos, x: i64, y: i64) -> (r: Option<Pos>)
        requires
            i64::MIN <= (p.x as i64) + x <= i64::MAX,
            i64::MIN <= (p.y as i64) + y <= i64::MAX,
        ensures
            ({
                let nx = (p.x as i64) + x;
                let ny = (p.y as i64) + y;
                if 0 <= nx < (self.rows() as i64) && 0 <= ny < (self.cols() as i64) {
                    r == Some(Pos { x: nx as usize, y: ny as usize })
                } else {
                    r is None
                }
            }),
    {
        let nx = p.x as i64 + x;
        let ny = p.y as i64 + y;
        if 0 <= nx && nx < self.h as i64 && 0 <= ny && ny < self.w as i64 {
            Some(Pos::new(nx as usize, ny as usize))
        } else {
            None
        }
    }
}

} // verus!
