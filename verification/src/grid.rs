use vstd::prelude::*;

use crate::math::Vec2;

verus! {

/// Row-major offset of cell `(x, y)` in a grid `w` cells wide.
pub open spec fn cell_offset(w: int, x: int, y: int) -> int {
    y * w + x
}

/// A cell of a `w` by `h` grid has its offset inside the grid's storage.
pub proof fn lemma_cell_offset(w: int, h: int, x: int, y: int)
    requires
        0 <= x < w,
        0 <= y < h,
    ensures
        0 <= cell_offset(w, x, y) < w * h,
        cell_offset(w, x, y) + 1 <= w * h,
{
    assert(0 <= y * w + x < w * h) by (nonlinear_arith)
        requires
            0 <= x < w,
            0 <= y < h,
    ;
}

/// Distinct cells have distinct offsets.
pub proof fn lemma_cell_offset_injective(w: int, x1: int, y1: int, x2: int, y2: int)
    requires
        0 <= x1 < w,
        0 <= x2 < w,
        0 <= y1,
        0 <= y2,
        cell_offset(w, x1, y1) == cell_offset(w, x2, y2),
    ensures
        x1 == x2 && y1 == y2,
{
    if y1 < y2 {
        assert(y1 * w + w <= y2 * w) by (nonlinear_arith)
            requires
                y1 < y2,
                w > 0,
        ;
    } else if y2 < y1 {
        assert(y2 * w + w <= y1 * w) by (nonlinear_arith)
            requires
                y2 < y1,
                w > 0,
        ;
    }
}

/// A rectangular grid of cells addressed by `(x, y)`, stored row by row.
pub struct Grid<T> {
    dims: Vec2,
    data: Vec<T>,
}

impl<T> Grid<T> {
    pub closed spec fn spec_dims(&self) -> Vec2 {
        self.dims
    }

    pub open spec fn spec_width(&self) -> int {
        self.spec_dims().x as int
    }

    pub open spec fn spec_height(&self) -> int {
        self.spec_dims().y as int
    }

    /// The cells, row by row.
    pub closed spec fn cells(&self) -> Seq<T> {
        self.data@
    }

    /// The grid's storage matches its dimensions, and every offset fits an `i32`.
    pub closed spec fn wf(&self) -> bool {
        &&& self.dims.x >= 0
        &&& self.dims.y >= 0
        &&& self.dims.x * self.dims.y <= i32::MAX
        &&& self.data@.len() == self.dims.x * self.dims.y
    }

    pub open spec fn in_bounds(&self, x: int, y: int) -> bool {
        0 <= x < self.spec_width() && 0 <= y < self.spec_height()
    }

    /// The value at `(x, y)`.
    pub open spec fn cell(&self, x: int, y: int) -> T {
        self.cells()[cell_offset(self.spec_width(), x, y)]
    }

    /// Number of cells of a well-formed grid.
    pub proof fn lemma_len(&self)
        requires
            self.wf(),
        ensures
            self.cells().len() == self.spec_width() * self.spec_height(),
            self.spec_width() >= 0,
            self.spec_height() >= 0,
            self.spec_width() * self.spec_height() <= i32::MAX,
    {
    }

    pub fn width(&self) -> (r: i32)
        ensures
            r == self.spec_width(),
    {
        self.dims.x
    }

    pub fn height(&self) -> (r: i32)
        ensures
            r == self.spec_height(),
    {
        self.dims.y
    }

    pub fn dims(&self) -> (r: Vec2)
        ensures
            r == self.spec_dims(),
    {
        self.dims
    }

    pub fn contains(&self, x: i32, y: i32) -> (r: bool)
        ensures
            r == self.in_bounds(x as int, y as int),
    {
        0 <= x && 0 <= y && x < self.dims.x && y < self.dims.y
    }

    /// Offset of an in-bounds cell.
    fn offset(&self, x: i32, y: i32) -> (r: usize)
        requires
            self.wf(),
            self.in_bounds(x as int, y as int),
        ensures
            r == cell_offset(self.spec_width(), x as int, y as int),
            r < self.cells().len(),
    {
        proof {
            lemma_cell_offset(self.dims.x as int, self.dims.y as int, x as int, y as int);
        }
        let w = self.dims.x;
        (y * w + x) as usize
    }

    /// The cell at `(x, y)`, or `None` outside the grid.
    pub fn at(&self, x: i32, y: i32) -> (r: Option<&T>)
        requires
            self.wf(),
        ensures
            self.in_bounds(x as int, y as int) ==> r == Some(&self.cell(x as int, y as int)),
            !self.in_bounds(x as int, y as int) ==> r.is_none(),
    {
        if !self.contains(x, y) {
            return None;
        }
        let i = self.offset(x, y);
        Some(&self.data[i])
    }

    /// A mutable borrow of the cell at `(x, y)`, or `None` outside the grid.
    pub fn at_mut(&mut self, x: i32, y: i32) -> (r: Option<&mut T>)
        requires
            old(self).wf(),
        ensures
            final(self).wf(),
            final(self).spec_dims() == old(self).spec_dims(),
            old(self).in_bounds(x as int, y as int) ==> (r matches Some(e) && *e == old(self).cell(
                x as int,
                y as int,
            ) && final(self).cells() == old(self).cells().update(
                cell_offset(old(self).spec_width(), x as int, y as int),
                *final(e),
            )),
            !old(self).in_bounds(x as int, y as int) ==> (r is None && final(self).cells()
                == old(self).cells()),
    {
        if !self.contains(x, y) {
            return None;
        }
        let i = self.offset(x, y);
        Some(&mut self.data[i])
    }

    /// The cell at `pos`, which must be inside the grid.
    pub fn get(&self, pos: Vec2) -> (r: &T)
        requires
            self.wf(),
            self.in_bounds(pos.x as int, pos.y as int),
        ensures
            *r == self.cell(pos.x as int, pos.y as int),
    {
        let i = self.offset(pos.x, pos.y);
        &self.data[i]
    }

    /// Replace the cell at `pos`, which must be inside the grid.
    pub fn set(&mut self, pos: Vec2, value: T)
        requires
            old(self).wf(),
            old(self).in_bounds(pos.x as int, pos.y as int),
        ensures
            final(self).wf(),
            final(self).spec_dims() == old(self).spec_dims(),
            final(self).cells() == old(self).cells().update(
                cell_offset(old(self).spec_width(), pos.x as int, pos.y as int),
                value,
            ),
            forall|x: int, y: int|
                old(self).in_bounds(x, y) ==> #[trigger] final(self).cell(x, y) == if x == pos.x
                    && y == pos.y {
                    value
                } else {
                    old(self).cell(x, y)
                },
    {
        let i = self.offset(pos.x, pos.y);
        self.data.set(i, value);
        proof {
            let w = self.dims.x as int;
            let h = self.dims.y as int;
            assert forall|x: int, y: int| old(self).in_bounds(x, y) implies #[trigger] self.cell(x, y)
                == if x == pos.x && y == pos.y {
                value
            } else {
                old(self).cell(x, y)
            } by {
                lemma_cell_offset(w, h, x, y);
                if cell_offset(w, x, y) == cell_offset(w, pos.x as int, pos.y as int) {
                    lemma_cell_offset_injective(w, x, y, pos.x as int, pos.y as int);
                }
            }
        }
    }
}

impl<T: Copy> Grid<T> {
    /// A `dims.x` by `dims.y` grid with every cell `T::default()`.
    pub fn new(dims: Vec2) -> (r: Self)
        where
            T: Default,
        requires
            dims.x >= 0,
            dims.y >= 0,
            dims.x * dims.y <= i32::MAX,
        ensures
            r.wf(),
            r.spec_dims() == dims,
            forall|i: int|
                0 <= i < r.cells().len() ==> call_ensures(T::default, (), #[trigger] r.cells()[i]),
    {
        let value = T::default();
        let n: usize = (dims.x * dims.y) as usize;
        let mut data: Vec<T> = Vec::new();
        let mut k: usize = 0;
        while k < n
            invariant
                k <= n,
                data@.len() == k,
                call_ensures(T::default, (), value),
                forall|i: int| 0 <= i < k ==> data@[i] == value,
            decreases n - k,
        {
            data.push(value);
            k = k + 1;
        }
        Grid { dims, data }
    }

    /// Set every cell to `value`.
    pub fn fill(&mut self, value: T)
        requires
            old(self).wf(),
        ensures
            final(self).wf(),
            final(self).spec_dims() == old(self).spec_dims(),
            final(self).cells().len() == old(self).cells().len(),
            forall|i: int| 0 <= i < final(self).cells().len() ==> #[trigger] final(self).cells()[i] == value,
    {
        let n = self.data.len();
        let mut k: usize = 0;
        while k < n
            invariant
                self.wf(),
                self.dims == old(self).dims,
                n == self.data@.len(),
                k <= n,
                forall|i: int| 0 <= i < k ==> #[trigger] self.data@[i] == value,
            decreases n - k,
        {
            self.data.set(k, value);
            k = k + 1;
        }
    }

    /// Copy every cell of `other`, which has the same dimensions.
    pub fn copy(&mut self, other: &Grid<T>)
        requires
            old(self).wf(),
            other.wf(),
            old(self).spec_dims() == other.spec_dims(),
        ensures
            final(self).wf(),
            final(self).spec_dims() == old(self).spec_dims(),
            final(self).cells() == other.cells(),
    {
        let n = self.data.len();
        let mut k: usize = 0;
        while k < n
            invariant
                self.wf(),
                self.dims == old(self).dims,
                self.dims == other.dims,
                other.data@.len() == n,
                n == self.data@.len(),
                k <= n,
                forall|i: int| 0 <= i < k ==> #[trigger] self.data@[i] == other.data@[i],
            decreases n - k,
        {
            let v = other.data[k];
            self.data.set(k, v);
            k = k + 1;
        }
        assert(self.data@ =~= other.data@);
    }

    /// Every cell with its position, row by row.
    pub fn iter(&self) -> (r: Vec<(Vec2, T)>)
        requires
            self.wf(),
        ensures
            r@.len() == self.cells().len(),
            forall|i: int|
                0 <= i < r@.len() ==> {
                    let (p, v) = #[trigger] r@[i];
                    &&& self.in_bounds(p.x as int, p.y as int)
                    &&& cell_offset(self.spec_width(), p.x as int, p.y as int) == i
                    &&& v == self.cells()[i]
                },
    {
        let w = self.dims.x;
        let h = self.dims.y;
        let mut r: Vec<(Vec2, T)> = Vec::new();
        let mut y: i32 = 0;
        while y < h
            invariant
                self.wf(),
                w == self.dims.x,
                h == self.dims.y,
                0 <= y <= h,
                r@.len() == y * w,
                forall|i: int|
                    0 <= i < r@.len() ==> {
                        let (p, v) = #[trigger] r@[i];
                        &&& self.in_bounds(p.x as int, p.y as int)
                        &&& cell_offset(w as int, p.x as int, p.y as int) == i
                        &&& v == self.data@[i]
                    },
            decreases h - y,
        {
            let mut x: i32 = 0;
            while x < w
                invariant
                    self.wf(),
                    w == self.dims.x,
                    h == self.dims.y,
                    0 <= y < h,
                    0 <= x <= w,
                    r@.len() == y * w + x,
                    forall|i: int|
                        0 <= i < r@.len() ==> {
                            let (p, v) = #[trigger] r@[i];
                            &&& self.in_bounds(p.x as int, p.y as int)
                            &&& cell_offset(w as int, p.x as int, p.y as int) == i
                            &&& v == self.data@[i]
                        },
                decreases w - x,
            {
                let i = self.offset(x, y);
                r.push((Vec2::new(x, y), self.data[i]));
                x = x + 1;
            }
            assert((y + 1) * w == y * w + w) by (nonlinear_arith);
            y = y + 1;
        }
        assert(h * w == w * h) by (nonlinear_arith);
        r
    }
}

impl Grid<bool> {
    /// Cell-wise `|=` with a grid of the same dimensions.
    pub fn or_eq(&mut self, other: &Grid<bool>)
        requires
            old(self).wf(),
            other.wf(),
            old(self).spec_dims() == other.spec_dims(),
        ensures
            final(self).wf(),
            final(self).spec_dims() == old(self).spec_dims(),
            final(self).cells().len() == old(self).cells().len(),
            forall|i: int|
                0 <= i < final(self).cells().len() ==> #[trigger] final(self).cells()[i] == (
                old(self).cells()[i] || other.cells()[i]),
    {
        let n = self.data.len();
        let mut k: usize = 0;
        while k < n
            invariant
                self.wf(),
                self.dims == old(self).dims,
                self.dims == other.dims,
                other.data@.len() == n,
                n == self.data@.len(),
                k <= n,
                forall|i: int|
                    0 <= i < k ==> #[trigger] self.data@[i] == (old(self).data@[i]
                        || other.data@[i]),
                forall|i: int| k <= i < n ==> #[trigger] self.data@[i] == old(self).data@[i],
            decreases n - k,
        {
            let v = self.data[k] || other.data[k];
            self.data.set(k, v);
            k = k + 1;
        }
    }
}

} // verus!
