//! A rectangular grid of cells stored row by row.

use vstd::prelude::*;

verus! {

/// What a [`Grid`] holds: its dimensions and its cells, row by row.
pub struct GridView<T> {
    pub width: nat,
    pub height: nat,
    pub cells: Seq<T>,
}

impl<T> GridView<T> {
    /// There is exactly one cell for each position, and the dimensions are
    /// such as a machine can hold.
    pub open spec fn wf(self) -> bool {
        &&& self.cells.len() == self.width * self.height
        &&& self.width <= usize::MAX
        &&& self.height <= usize::MAX
    }

    /// The place of `(x, y)` in the row-major cell sequence.
    pub open spec fn offset(self, x: int, y: int) -> int {
        y * self.width + x
    }

    /// `(x, y)` names a row and a column of the grid.
    pub open spec fn contains(self, x: int, y: int) -> bool {
        0 <= x < self.width && 0 <= y < self.height
    }

    /// The cell at `(x, y)`.
    pub open spec fn at(self, x: int, y: int) -> T
        recommends
            0 <= self.offset(x, y) < self.cells.len(),
    {
        self.cells[self.offset(x, y)]
    }

    /// The position to the left of `(x, y)`, if `x` is not the first column
    /// and `y` is a row of the grid.
    pub open spec fn left(self, x: usize, y: usize) -> Option<(usize, usize)> {
        if x > 0 && self.width > 0 && y < self.height {
            Some(((x - 1) as usize, y))
        } else {
            None
        }
    }

    /// The position to the right of `(x, y)`, if that is still a column of
    /// the grid and `y` is a row of it.
    pub open spec fn right(self, x: usize, y: usize) -> Option<(usize, usize)> {
        if x + 1 < self.width && y < self.height {
            Some(((x + 1) as usize, y))
        } else {
            None
        }
    }

    /// The position above `(x, y)`, if `y` is not the first row and `x` is a
    /// column of the grid.
    pub open spec fn up(self, x: usize, y: usize) -> Option<(usize, usize)> {
        if y > 0 && self.height > 0 && x < self.width {
            Some((x, (y - 1) as usize))
        } else {
            None
        }
    }

    /// The position below `(x, y)`, if that is still a row of the grid and
    /// `x` is a column of it.
    pub open spec fn down(self, x: usize, y: usize) -> Option<(usize, usize)> {
        if y + 1 < self.height && x < self.width {
            Some((x, (y + 1) as usize))
        } else {
            None
        }
    }

    /// The neighbours of `(x, y)` that exist, in the order left, up, right,
    /// down.
    pub open spec fn neighbors4(self, x: usize, y: usize) -> Seq<(usize, usize)> {
        option_seq(self.left(x, y)) + option_seq(self.up(x, y)) + option_seq(self.right(x, y))
            + option_seq(self.down(x, y))
    }
}

/// The sequence with the value of `o`, or the empty one.
pub open spec fn option_seq<A>(o: Option<A>) -> Seq<A> {
    match o {
        Some(a) => seq![a],
        None => Seq::empty(),
    }
}

/// Rows of at most `width` cells whose offsets stay below `width * height`
/// lie inside the grid, and the other way round.
pub proof fn lemma_offset_in_range(width: nat, height: nat, x: nat, y: nat)
    requires
        x < width,
    ensures
        y < height <==> y * width + x < width * height,
{
    if y < height {
        assert(y * width + x < width * height) by (nonlinear_arith)
            requires
                x < width,
                y + 1 <= height,
        ;
    } else {
        assert(y * width + x >= width * height) by (nonlinear_arith)
            requires
                y >= height,
        ;
    }
}

/// Each offset below `width * height` belongs to exactly one position:
/// column `offset % width` of row `offset / width`.
pub proof fn lemma_offset_unique(width: nat, height: nat, i: nat)
    requires
        i < width * height,
    ensures
        width > 0,
        i % width < width,
        i / width < height,
        (i / width) * width + i % width == i,
        forall|x: nat, y: nat| x < width && #[trigger] (y * width + x) == i ==> x == i % width && y == i / width,
{
    assert(width > 0) by (nonlinear_arith)
        requires
            i < width * height,
    ;
    let w = width as int;
    let n = i as int;
    vstd::arithmetic::div_mod::lemma_fundamental_div_mod(n, w);
    vstd::arithmetic::div_mod::lemma_mod_bound(n, w);
    assert(n / w < height) by (nonlinear_arith)
        requires
            n < w * height,
            w > 0,
            n == w * (n / w) + n % w,
            0 <= n % w,
    ;
    assert((n / w) * w == w * (n / w)) by (nonlinear_arith);
    assert forall|x: nat, y: nat| x < width && #[trigger] (y * width + x) == i implies x == i
        % width && y == i / width by {
        vstd::arithmetic::div_mod::lemma_fundamental_div_mod_converse(n, w, y as int, x as int);
    }
}

/// `Vec::as_mut_slice`: the slice holds the vector's elements, what is written
/// through it is written to the vector, a slice keeps its length, and the call
/// does not unwind.
#[verifier::external_body]
fn vec_as_mut_slice<T>(v: &mut Vec<T>) -> (s: &mut [T])
    ensures
        s@ == old(v)@,
        final(s)@ == final(v)@,
        final(s)@.len() == s@.len(),
    no_unwind
{
    v.as_mut_slice()
}

/// A `width` by `height` grid of cells, addressed by column `x` and row `y`.
#[derive(Debug, PartialEq, Eq, Hash)]
pub struct Grid<T> {
    data: Vec<T>,
    width: usize,
    height: usize,
}

impl<T> View for Grid<T> {
    type V = GridView<T>;

    closed spec fn view(&self) -> GridView<T> {
        GridView { width: self.width as nat, height: self.height as nat, cells: self.data@ }
    }
}

impl<T: Clone> Clone for Grid<T> {
    /// A grid of the same size with a clone of each cell.
    fn clone(&self) -> (g: Self)
        ensures
            g@.wf(),
            g@.width == self@.width,
            g@.height == self@.height,
            g@.cells.len() == self@.cells.len(),
            forall|i: int|
                0 <= i < g@.cells.len() ==> cloned(#[trigger] self@.cells[i], g@.cells[i]),
    {
        proof {
            use_type_invariant(self);
        }
        Grid { data: self.data.clone(), width: self.width, height: self.height }
    }
}

impl<T: Clone> Grid<T> {
    /// A grid of the given size with a clone of `def` in every cell.
    pub fn new(def: T, width: usize, height: usize) -> (g: Self)
        requires
            width * height <= usize::MAX,
        ensures
            g@.wf(),
            g@.width == width,
            g@.height == height,
            forall|i: int| 0 <= i < g@.cells.len() ==> cloned(def, #[trigger] g@.cells[i]),
    {
        let n: usize = width * height;
        Grid { data: vec![def; n], width, height }
    }
}

impl<T> Grid<T> {
    #[verifier::type_invariant]
    spec fn shaped(&self) -> bool {
        self.data.len() == self.width * self.height
    }

    /// The number of columns.
    pub fn width(&self) -> (w: usize)
        ensures
            w == self@.width,
            self@.wf(),
    {
        proof {
            use_type_invariant(self);
        }
        self.width
    }

    /// The number of rows.
    pub fn height(&self) -> (h: usize)
        ensures
            h == self@.height,
            self@.wf(),
    {
        proof {
            use_type_invariant(self);
        }
        self.height
    }

    /// The offset of `(x, y)` in the cell sequence, if there is a cell at it.
    fn offset(&self, x: usize, y: usize) -> (r: Option<usize>)
        ensures
            self@.wf(),
            match r {
                Some(i) => i == self@.offset(x as int, y as int) && i < self@.cells.len(),
                None => self@.offset(x as int, y as int) >= self@.cells.len(),
            },
    {
        proof {
            use_type_invariant(self);
        }
        let len = self.data.len();
        if y >= self.height {
            assert(y * self.width + x >= self.width * self.height) by (nonlinear_arith)
                requires
                    y >= self.height,
            ;
            return None;
        }
        assert(y * self.width <= self.width * self.height) by (nonlinear_arith)
            requires
                y < self.height,
        ;
        let row: usize = y * self.width;
        if x >= len - row {
            return None;
        }
        Some(row + x)
    }

    /// The cell at offset `y * width + x`, if there is one.
    ///
    /// A column beyond the last one runs on into the rows below.
    pub fn get(&self, x: usize, y: usize) -> (r: Option<&T>)
        ensures
            self@.wf(),
            match r {
                Some(c) => self@.offset(x as int, y as int) < self@.cells.len() && *c == self@.at(
                    x as int,
                    y as int,
                ),
                None => self@.offset(x as int, y as int) >= self@.cells.len(),
            },
    {
        match self.offset(x, y) {
            Some(i) => Some(&self.data[i]),
            None => None,
        }
    }

    /// The cell at offset `y * width + x`, if there is one, for writing.
    pub fn get_mut(&mut self, x: usize, y: usize) -> (r: Option<&mut T>)
        ensures
            old(self)@.wf(),
            final(self)@.wf(),
            final(self)@.width == old(self)@.width,
            final(self)@.height == old(self)@.height,
            match r {
                Some(c) => {
                    &&& old(self)@.offset(x as int, y as int) < old(self)@.cells.len()
                    &&& *c == old(self)@.at(x as int, y as int)
                    &&& final(self)@.cells == old(self)@.cells.update(
                        old(self)@.offset(x as int, y as int),
                        *final(c),
                    )
                },
                None => {
                    &&& old(self)@.offset(x as int, y as int) >= old(self)@.cells.len()
                    &&& final(self)@.cells == old(self)@.cells
                },
            },
    {
        match self.offset(x, y) {
            Some(i) => Some(&mut self.data[i]),
            None => None,
        }
    }

    /// Puts `t` into the cell at offset `y * width + x`.
    pub fn set(&mut self, x: usize, y: usize, t: T)
        requires
            old(self)@.offset(x as int, y as int) < old(self)@.cells.len(),
        ensures
            final(self)@.wf(),
            final(self)@.width == old(self)@.width,
            final(self)@.height == old(self)@.height,
            final(self)@.cells == old(self)@.cells.update(old(self)@.offset(x as int, y as int), t),
    {
        proof {
            use_type_invariant(&*self);
        }
        let i: usize = y * self.width + x;
        self.data[i] = t;
    }

    /// The cell at offset `y * width + x`.
    pub fn index(&self, ix: (usize, usize)) -> (c: &T)
        requires
            self@.offset(ix.0 as int, ix.1 as int) < self@.cells.len(),
        ensures
            self@.wf(),
            *c == self@.at(ix.0 as int, ix.1 as int),
    {
        proof {
            use_type_invariant(self);
        }
        let i: usize = ix.1 * self.width + ix.0;
        &self.data[i]
    }

    /// All the cells, row by row.
    pub fn cells(&self) -> (r: &[T])
        ensures
            self@.wf(),
            r@ == self@.cells,
    {
        proof {
            use_type_invariant(self);
        }
        self.data.as_slice()
    }

    /// The cell at offset `y * width + x`, for writing.
    pub fn index_mut(&mut self, ix: (usize, usize)) -> (c: &mut T)
        requires
            old(self)@.offset(ix.0 as int, ix.1 as int) < old(self)@.cells.len(),
        ensures
            final(self)@.wf(),
            final(self)@.width == old(self)@.width,
            final(self)@.height == old(self)@.height,
            *c == old(self)@.at(ix.0 as int, ix.1 as int),
            final(self)@.cells == old(self)@.cells.update(
                old(self)@.offset(ix.0 as int, ix.1 as int),
                *final(c),
            ),
    {
        proof {
            use_type_invariant(&*self);
        }
        let i: usize = ix.1 * self.width + ix.0;
        &mut self.data[i]
    }

    /// All the cells, row by row, for writing.
    pub fn cells_mut(&mut self) -> (r: &mut [T])
        ensures
            old(self)@.wf(),
            final(self)@.wf(),
            final(self)@.width == old(self)@.width,
            final(self)@.height == old(self)@.height,
            r@ == old(self)@.cells,
            final(self)@.cells == final(r)@,
    {
        proof {
            use_type_invariant(&*self);
        }
        vec_as_mut_slice(&mut self.data)
    }

    /// Each cell with its column and its row, row by row.
    pub fn enum_cells(&self) -> (r: Vec<(usize, usize, &T)>)
        ensures
            self@.wf(),
            r@.len() == self@.cells.len(),
            forall|i: int|
                0 <= i < r@.len() ==> {
                    &&& (#[trigger] r@[i]).0 == i % (self@.width as int)
                    &&& r@[i].1 == i / (self@.width as int)
                    &&& *r@[i].2 == self@.cells[i]
                },
    {
        proof {
            use_type_invariant(self);
        }
        let mut r: Vec<(usize, usize, &T)> = Vec::new();
        let mut i: usize = 0;
        while i < self.data.len()
            invariant
                i <= self.data.len(),
                self.data.len() == self.width * self.height,
                r@.len() == i,
                forall|j: int|
                    0 <= j < i ==> {
                        &&& (#[trigger] r@[j]).0 == j % (self.width as int)
                        &&& r@[j].1 == j / (self.width as int)
                        &&& *r@[j].2 == self.data@[j]
                    },
            decreases self.data.len() - i,
        {
            assert(self.width > 0) by (nonlinear_arith)
                requires
                    i < self.width * self.height,
            ;
            r.push((i % self.width, i / self.width, &self.data[i]));
            i += 1;
        }
        r
    }

    /// Every position of the grid, row by row.
    pub fn indices(&self) -> (r: Vec<(usize, usize)>)
        ensures
            self@.wf(),
            r@.len() == self@.cells.len(),
            forall|i: int|
                0 <= i < r@.len() ==> #[trigger] r@[i] == (
                    (i % (self@.width as int)) as usize,
                    (i / (self@.width as int)) as usize,
                ),
            forall|x: int, y: int|
                self@.contains(x, y) ==> #[trigger] r@[self@.offset(x, y)] == (
                    x as usize,
                    y as usize,
                ),
    {
        proof {
            use_type_invariant(self);
        }
        let mut r: Vec<(usize, usize)> = Vec::new();
        let mut i: usize = 0;
        while i < self.data.len()
            invariant
                i <= self.data.len(),
                self.data.len() == self.width * self.height,
                r@.len() == i,
                forall|j: int|
                    0 <= j < i ==> #[trigger] r@[j] == (
                        (j % (self.width as int)) as usize,
                        (j / (self.width as int)) as usize,
                    ),
            decreases self.data.len() - i,
        {
            assert(self.width > 0) by (nonlinear_arith)
                requires
                    i < self.width * self.height,
            ;
            r.push((i % self.width, i / self.width));
            i += 1;
        }
        proof {
            assert forall|x: int, y: int| self@.contains(x, y) implies #[trigger] r@[self@.offset(
                x,
                y,
            )] == (x as usize, y as usize) by {
                lemma_offset_in_range(self@.width, self@.height, x as nat, y as nat);
                lemma_offset_unique(self@.width, self@.height, (y * self@.width + x) as nat);
            }
        }
        r
    }

    /// The position to the left of `(x, y)`; see [`GridView::left`].
    pub fn left(&self, x: usize, y: usize) -> (r: Option<(usize, usize)>)
        ensures
            r == self@.left(x, y),
    {
        if x > 0 && self.width > 0 && y < self.height {
            Some((x - 1, y))
        } else {
            None
        }
    }

    /// The position to the right of `(x, y)`; see [`GridView::right`].
    pub fn right(&self, x: usize, y: usize) -> (r: Option<(usize, usize)>)
        ensures
            r == self@.right(x, y),
    {
        if x < self.width && x + 1 < self.width && y < self.height {
            Some((x + 1, y))
        } else {
            None
        }
    }

    /// The position above `(x, y)`; see [`GridView::up`].
    pub fn up(&self, x: usize, y: usize) -> (r: Option<(usize, usize)>)
        ensures
            r == self@.up(x, y),
    {
        if y > 0 && self.height > 0 && x < self.width {
            Some((x, y - 1))
        } else {
            None
        }
    }

    /// The position below `(x, y)`; see [`GridView::down`].
    pub fn down(&self, x: usize, y: usize) -> (r: Option<(usize, usize)>)
        ensures
            r == self@.down(x, y),
    {
        if y < self.height && y + 1 < self.height && x < self.width {
            Some((x, y + 1))
        } else {
            None
        }
    }

    /// The neighbours of `(x, y)` that exist, in the order left, up, right,
    /// down.
    pub fn neighbors4(&self, x: usize, y: usize) -> (r: Vec<(usize, usize)>)
        ensures
            r@ == self@.neighbors4(x, y),
    {
        let mut r: Vec<(usize, usize)> = Vec::new();
        if let Some(p) = self.left(x, y) {
            r.push(p);
        }
        if let Some(p) = self.up(x, y) {
            r.push(p);
        }
        if let Some(p) = self.right(x, y) {
            r.push(p);
        }
        if let Some(p) = self.down(x, y) {
            r.push(p);
        }
        r
    }
}

} // verus!
