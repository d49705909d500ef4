//! A backtracking tile solver in the manner of Wave Function Collapse.
//!
//! A grid is filled with tiles so that the borders of neighbouring tiles are
//! equal. The cell to fill next is the unresolved one of least entropy, the
//! tile for it is drawn at random by weight among those that fit, and a choice
//! that leads nowhere is undone.

use crate::grid::{Grid, GridView};
use crate::random::{random_below, random_weighted};
use rand_xoshiro::Xoshiro256StarStar;
use vstd::prelude::*;

verus! {

/// The border of a tile. Two borders fit together if they are equal.
pub type Border = u8;

/// The entropy of a cell that holds a tile.
pub const ENTROPY_INFINITE: u64 = 0xffff_ffff_ffff_ffff;

/// The entropy of an unresolved cell none of whose neighbours holds a tile.
pub const ENTROPY_MAX: u64 = 0xffff_ffff_ffff_fffe;

/// A tile: four borders, which say what may stand next to it, and a weight.
/// The higher the weight, the likelier the tile is to be chosen.
#[derive(Debug, Clone, Copy)]
pub struct Tile {
    pub left: Border,
    pub top: Border,
    pub right: Border,
    pub bottom: Border,
    pub weight: u32,
}

impl Tile {
    /// A tile with the given borders and weight 1.
    pub fn new(left: Border, top: Border, right: Border, bottom: Border) -> (t: Self)
        ensures
            t == (Tile { left, top, right, bottom, weight: 1 }),
    {
        Tile { left, top, right, bottom, weight: 1 }
    }

    /// The same tile with weight `w`.
    pub fn with_weight(self, w: u32) -> (t: Self)
        ensures
            t == (Tile { weight: w, ..self }),
    {
        let mut t = self;
        t.weight = w;
        t
    }
}

/// Every tile has a positive weight.
pub open spec fn positive_weights(tiles: Seq<Tile>) -> bool {
    forall|i: int| 0 <= i < tiles.len() ==> (#[trigger] tiles[i]).weight > 0
}

/// The cells `(x, y)` and `(x + 1, y)`, where both hold a tile, agree on the
/// border between them.
pub open spec fn joined_right(tiles: Seq<Tile>, g: GridView<usize>, x: int, y: int) -> bool {
    (g.contains(x, y) && g.contains(x + 1, y) && g.at(x, y) < tiles.len() && g.at(x + 1, y)
        < tiles.len()) ==> tiles[g.at(x, y) as int].right == tiles[g.at(x + 1, y) as int].left
}

/// The cells `(x, y)` and `(x, y + 1)`, where both hold a tile, agree on the
/// border between them.
pub open spec fn joined_down(tiles: Seq<Tile>, g: GridView<usize>, x: int, y: int) -> bool {
    (g.contains(x, y) && g.contains(x, y + 1) && g.at(x, y) < tiles.len() && g.at(x, y + 1)
        < tiles.len()) ==> tiles[g.at(x, y) as int].bottom == tiles[g.at(x, y + 1) as int].top
}

/// No two neighbouring tiles of `g` disagree on the border between them.
pub open spec fn consistent(tiles: Seq<Tile>, g: GridView<usize>) -> bool {
    &&& forall|x: int, y: int| #[trigger] joined_right(tiles, g, x, y)
    &&& forall|x: int, y: int| #[trigger] joined_down(tiles, g, x, y)
}

/// Every cell of `g` holds the index of a tile.
pub open spec fn complete(tiles: Seq<Tile>, g: GridView<usize>) -> bool {
    forall|i: int| 0 <= i < g.cells.len() ==> #[trigger] g.cells[i] < tiles.len()
}

/// `g` is a solution: every cell holds a tile, and neighbours agree.
pub open spec fn is_tiling(tiles: Seq<Tile>, g: GridView<usize>) -> bool {
    g.wf() && complete(tiles, g) && consistent(tiles, g)
}

/// `full` is a solution of the size of `partial` that keeps every tile that
/// `partial` has placed.
pub open spec fn completes(tiles: Seq<Tile>, partial: GridView<usize>, full: GridView<usize>) -> bool {
    &&& full.width == partial.width
    &&& full.height == partial.height
    &&& is_tiling(tiles, full)
    &&& forall|i: int|
        0 <= i < partial.cells.len() && #[trigger] partial.cells[i] < tiles.len() ==> full.cells[i]
            == partial.cells[i]
}

/// Some solution keeps every tile that `partial` has placed.
pub open spec fn completable(tiles: Seq<Tile>, partial: GridView<usize>) -> bool {
    exists|full: GridView<usize>| #[trigger] completes(tiles, partial, full)
}

/// Some grid of the given size is a solution.
pub open spec fn tileable(tiles: Seq<Tile>, width: nat, height: nat) -> bool {
    exists|g: GridView<usize>|
        #[trigger] is_tiling(tiles, g) && g.width == width && g.height == height
}

/// The weight of the tile at `p`, or 0 where `p` is no position or its cell
/// holds no tile.
pub open spec fn weight_at(tiles: Seq<Tile>, g: GridView<usize>, p: Option<(usize, usize)>) -> nat {
    match p {
        Some((x, y)) => if g.contains(x as int, y as int) && g.at(x as int, y as int)
            < tiles.len() {
            tiles[g.at(x as int, y as int) as int].weight as nat
        } else {
            0
        },
        None => 0,
    }
}

/// The entropy of the cell at `(x, y)`: infinite where it holds a tile, and
/// else the less the heavier the tiles around it are.
pub open spec fn entropy_of(tiles: Seq<Tile>, g: GridView<usize>, x: usize, y: usize) -> u64 {
    if g.at(x as int, y as int) < tiles.len() {
        ENTROPY_INFINITE
    } else {
        (ENTROPY_MAX - weight_at(tiles, g, g.left(x, y)) - weight_at(tiles, g, g.up(x, y))
            - weight_at(tiles, g, g.right(x, y)) - weight_at(tiles, g, g.down(x, y))) as u64
    }
}

/// The entropy of the cell at offset `i`.
pub open spec fn entropy_at(tiles: Seq<Tile>, g: GridView<usize>, i: int) -> u64 {
    entropy_of(tiles, g, (i % (g.width as int)) as usize, (i / (g.width as int)) as usize)
}

/// The cell at offset `i` is a neighbour of `(x, y)`.
pub open spec fn is_neighbor(g: GridView<usize>, x: usize, y: usize, i: int) -> bool {
    exists|j: int|
        0 <= j < g.neighbors4(x, y).len() && g.offset(
            (#[trigger] g.neighbors4(x, y)[j]).0 as int,
            g.neighbors4(x, y)[j].1 as int,
        ) == i
}

/// The entropy of a cell is infinite if and only if the cell holds a tile.
pub proof fn lemma_entropy_at(tiles: Seq<Tile>, g: GridView<usize>, i: int)
    requires
        g.wf(),
        0 <= i < g.cells.len(),
    ensures
        entropy_at(tiles, g, i) == ENTROPY_INFINITE <==> g.cells[i] < tiles.len(),
{
    crate::grid::lemma_offset_unique(g.width, g.height, i as nat);
}

/// `cand` agrees with each tile that stands next to `(x, y)`.
pub open spec fn fits(tiles: Seq<Tile>, g: GridView<usize>, cand: Tile, x: int, y: int) -> bool {
    &&& (g.contains(x - 1, y) && g.at(x - 1, y) < tiles.len()) ==> tiles[g.at(x - 1, y) as int].right
        == cand.left
    &&& (g.contains(x + 1, y) && g.at(x + 1, y) < tiles.len()) ==> tiles[g.at(x + 1, y) as int].left
        == cand.right
    &&& (g.contains(x, y - 1) && g.at(x, y - 1) < tiles.len()) ==> tiles[g.at(x, y - 1) as int].bottom
        == cand.top
    &&& (g.contains(x, y + 1) && g.at(x, y + 1) < tiles.len()) ==> tiles[g.at(x, y + 1) as int].top
        == cand.bottom
}

/// How many of `cells` hold no tile out of `n`.
pub open spec fn unresolved(cells: Seq<usize>, n: nat) -> nat
    decreases cells.len(),
{
    if cells.len() == 0 {
        0
    } else {
        unresolved(cells.drop_last(), n) + if cells.last() >= n {
            1nat
        } else {
            0nat
        }
    }
}

/// `g` with `v` in the cell at `(x, y)`.
pub open spec fn with_cell(g: GridView<usize>, x: int, y: int, v: usize) -> GridView<usize> {
    GridView { cells: g.cells.update(g.offset(x, y), v), ..g }
}

/// Two positions of a grid with the same offset are the same position.
pub proof fn lemma_same_offset(g: GridView<usize>, x: int, y: int, a: int, b: int)
    requires
        g.wf(),
        g.contains(x, y),
        g.contains(a, b),
        g.offset(x, y) == g.offset(a, b),
    ensures
        x == a,
        y == b,
{
    crate::grid::lemma_offset_in_range(g.width, g.height, x as nat, y as nat);
    crate::grid::lemma_offset_unique(g.width, g.height, g.offset(x, y) as nat);
    assert((y as nat) * g.width + (x as nat) == g.offset(x, y));
    assert((b as nat) * g.width + (a as nat) == g.offset(x, y));
}

/// What `with_cell` changes and what it leaves.
pub proof fn lemma_with_cell(g: GridView<usize>, x: int, y: int, v: usize, a: int, b: int)
    requires
        g.wf(),
        g.contains(x, y),
        g.contains(a, b),
    ensures
        with_cell(g, x, y, v).at(a, b) == if a == x && b == y {
            v
        } else {
            g.at(a, b)
        },
        0 <= g.offset(a, b) < g.cells.len(),
{
    crate::grid::lemma_offset_in_range(g.width, g.height, x as nat, y as nat);
    crate::grid::lemma_offset_in_range(g.width, g.height, a as nat, b as nat);
    if g.offset(x, y) == g.offset(a, b) {
        lemma_same_offset(g, x, y, a, b);
    }
}

/// A tile that fits at `(x, y)` may be placed there: neighbours still agree.
pub proof fn lemma_place_keeps_consistent(
    tiles: Seq<Tile>,
    g: GridView<usize>,
    x: int,
    y: int,
    t: usize,
)
    requires
        g.wf(),
        g.contains(x, y),
        consistent(tiles, g),
        t < tiles.len(),
        fits(tiles, g, tiles[t as int], x, y),
    ensures
        consistent(tiles, with_cell(g, x, y, t)),
{
    let h = with_cell(g, x, y, t);
    assert forall|a: int, b: int| #[trigger] joined_right(tiles, h, a, b) by {
        if h.contains(a, b) && h.contains(a + 1, b) {
            lemma_with_cell(g, x, y, t, a, b);
            lemma_with_cell(g, x, y, t, a + 1, b);
            assert(joined_right(tiles, g, a, b));
        }
    }
    assert forall|a: int, b: int| #[trigger] joined_down(tiles, h, a, b) by {
        if h.contains(a, b) && h.contains(a, b + 1) {
            lemma_with_cell(g, x, y, t, a, b);
            lemma_with_cell(g, x, y, t, a, b + 1);
            assert(joined_down(tiles, g, a, b));
        }
    }
}

/// A solution that keeps what `partial` has placed holds, at a cell that
/// `partial` has left open, a tile that fits there, and keeps that tile too.
pub proof fn lemma_completion_fits(
    tiles: Seq<Tile>,
    partial: GridView<usize>,
    full: GridView<usize>,
    x: int,
    y: int,
)
    requires
        partial.wf(),
        partial.contains(x, y),
        completes(tiles, partial, full),
    ensures
        full.at(x, y) < tiles.len(),
        fits(tiles, partial, tiles[full.at(x, y) as int], x, y),
        completes(tiles, with_cell(partial, x, y, full.at(x, y)), full),
{
    let t = full.at(x, y);
    crate::grid::lemma_offset_in_range(partial.width, partial.height, x as nat, y as nat);
    assert(full.cells[full.offset(x, y)] < tiles.len());
    if partial.contains(x - 1, y) {
        crate::grid::lemma_offset_in_range(partial.width, partial.height, (x - 1) as nat, y as nat);
        assert(joined_right(tiles, full, x - 1, y));
        assert(full.cells[full.offset(x - 1, y)] < tiles.len());
    }
    if partial.contains(x + 1, y) {
        crate::grid::lemma_offset_in_range(partial.width, partial.height, (x + 1) as nat, y as nat);
        assert(joined_right(tiles, full, x, y));
        assert(full.cells[full.offset(x + 1, y)] < tiles.len());
    }
    if partial.contains(x, y - 1) {
        crate::grid::lemma_offset_in_range(partial.width, partial.height, x as nat, (y - 1) as nat);
        assert(joined_down(tiles, full, x, y - 1));
        assert(full.cells[full.offset(x, y - 1)] < tiles.len());
    }
    if partial.contains(x, y + 1) {
        crate::grid::lemma_offset_in_range(partial.width, partial.height, x as nat, (y + 1) as nat);
        assert(joined_down(tiles, full, x, y));
        assert(full.cells[full.offset(x, y + 1)] < tiles.len());
    }
    let next = with_cell(partial, x, y, t);
    assert forall|i: int| 0 <= i < next.cells.len() && #[trigger] next.cells[i] < tiles.len() implies full.cells[i]
        == next.cells[i] by {
        if i != partial.offset(x, y) {
            assert(partial.cells[i] == next.cells[i]);
        }
    }
}

/// Writing a cell changes the number of unresolved cells by what the cell
/// was and what it becomes.
pub proof fn lemma_unresolved_update(cells: Seq<usize>, n: nat, i: int, v: usize)
    requires
        0 <= i < cells.len(),
    ensures
        unresolved(cells.update(i, v), n) + (if cells[i] >= n {
            1nat
        } else {
            0nat
        }) == unresolved(cells, n) + (if v >= n {
            1nat
        } else {
            0nat
        }),
    decreases cells.len(),
{
    let next = cells.update(i, v);
    if i == cells.len() - 1 {
        assert(next.drop_last() == cells.drop_last());
    } else {
        assert(next.drop_last() == cells.drop_last().update(i, v));
        lemma_unresolved_update(cells.drop_last(), n, i, v);
    }
}

/// Where every cell holds a tile, no cell is unresolved.
pub proof fn lemma_unresolved_positive(cells: Seq<usize>, n: nat, i: int)
    requires
        0 <= i < cells.len(),
        cells[i] >= n,
    ensures
        unresolved(cells, n) > 0,
    decreases cells.len(),
{
    if i < cells.len() - 1 {
        lemma_unresolved_positive(cells.drop_last(), n, i);
    }
}

/// The neighbours of `(x, y)` are the cells beside it, above it and below
/// it, as far as the grid goes.
pub proof fn lemma_is_neighbor(g: GridView<usize>, x: usize, y: usize, i: int)
    requires
        g.wf(),
        g.contains(x as int, y as int),
    ensures
        is_neighbor(g, x, y, i) <==> {
            ||| g.contains(x - 1, y as int) && i == g.offset(x - 1, y as int)
            ||| g.contains(x as int, y - 1) && i == g.offset(x as int, y - 1)
            ||| g.contains(x + 1, y as int) && i == g.offset(x + 1, y as int)
            ||| g.contains(x as int, y + 1) && i == g.offset(x as int, y + 1)
        },
{
    let ns = g.neighbors4(x, y);
    let l = crate::grid::option_seq(g.left(x, y));
    let u = crate::grid::option_seq(g.up(x, y));
    let r = crate::grid::option_seq(g.right(x, y));
    let d = crate::grid::option_seq(g.down(x, y));
    assert(ns == l + u + r + d);
    if is_neighbor(g, x, y, i) {
        let j = choose|j: int|
            0 <= j < ns.len() && g.offset((#[trigger] ns[j]).0 as int, ns[j].1 as int) == i;
        if j < l.len() {
            assert(ns[j] == l[j]);
        } else if j < l.len() + u.len() {
            assert(ns[j] == u[j - l.len()]);
        } else if j < l.len() + u.len() + r.len() {
            assert(ns[j] == r[j - l.len() - u.len()]);
        } else {
            assert(ns[j] == d[j - l.len() - u.len() - r.len()]);
        }
    }
    if g.contains(x - 1, y as int) && i == g.offset(x - 1, y as int) {
        assert(ns[0] == l[0]);
    }
    if g.contains(x as int, y - 1) && i == g.offset(x as int, y - 1) {
        assert(ns[l.len() as int] == u[0]);
    }
    if g.contains(x + 1, y as int) && i == g.offset(x + 1, y as int) {
        assert(ns[(l.len() + u.len()) as int] == r[0]);
    }
    if g.contains(x as int, y + 1) && i == g.offset(x as int, y + 1) {
        assert(ns[(l.len() + u.len() + r.len()) as int] == d[0]);
    }
}

/// A tile that is placed or taken away changes the entropy of its cell and
/// of the neighbours of that cell, and of no other cell.
pub proof fn lemma_entropy_local(
    tiles: Seq<Tile>,
    g: GridView<usize>,
    x: usize,
    y: usize,
    v: usize,
    i: int,
)
    requires
        g.wf(),
        g.contains(x as int, y as int),
        0 <= i < g.cells.len(),
        i != g.offset(x as int, y as int),
        !is_neighbor(g, x, y, i),
    ensures
        entropy_at(tiles, with_cell(g, x as int, y as int, v), i) == entropy_at(tiles, g, i),
{
    let h = with_cell(g, x as int, y as int, v);
    crate::grid::lemma_offset_unique(g.width, g.height, i as nat);
    let a = i % (g.width as int);
    let b = i / (g.width as int);
    lemma_is_neighbor(g, x, y, i);
    lemma_with_cell(g, x as int, y as int, v, a, b);
    if g.contains(a - 1, b) {
        lemma_with_cell(g, x as int, y as int, v, a - 1, b);
    }
    if g.contains(a + 1, b) {
        lemma_with_cell(g, x as int, y as int, v, a + 1, b);
    }
    if g.contains(a, b - 1) {
        lemma_with_cell(g, x as int, y as int, v, a, b - 1);
    }
    if g.contains(a, b + 1) {
        lemma_with_cell(g, x as int, y as int, v, a, b + 1);
    }
}

/// Which cells are neighbours depends on the size of the grid alone.
pub proof fn lemma_is_neighbor_of_size(
    g: GridView<usize>,
    h: GridView<usize>,
    x: usize,
    y: usize,
    i: int,
)
    requires
        g.wf(),
        h.wf(),
        g.width == h.width,
        g.height == h.height,
        g.contains(x as int, y as int),
    ensures
        is_neighbor(g, x, y, i) == is_neighbor(h, x, y, i),
        !is_neighbor(g, x, y, g.offset(x as int, y as int)),
{
    lemma_is_neighbor(g, x, y, i);
    lemma_is_neighbor(h, x, y, i);
    let o = g.offset(x as int, y as int);
    lemma_is_neighbor(g, x, y, o);
    if g.contains(x - 1, y as int) && o == g.offset(x - 1, y as int) {
        lemma_same_offset(g, x as int, y as int, x - 1, y as int);
    }
    if g.contains(x + 1, y as int) && o == g.offset(x + 1, y as int) {
        lemma_same_offset(g, x as int, y as int, x + 1, y as int);
    }
    if g.contains(x as int, y - 1) && o == g.offset(x as int, y - 1) {
        lemma_same_offset(g, x as int, y as int, x as int, y - 1);
    }
    if g.contains(x as int, y + 1) && o == g.offset(x as int, y + 1) {
        lemma_same_offset(g, x as int, y as int, x as int, y + 1);
    }
}

/// The entropy `e` of the cell at offset `i` is in order: it is what the
/// tiles on the cell and around it make it, or it is 0, which puts a cell
/// without a tile before all others.
pub open spec fn entropy_ok(tiles: Seq<Tile>, g: GridView<usize>, e: u64, i: int) -> bool {
    e == entropy_at(tiles, g, i) || (e == 0 && g.cells[i] >= tiles.len())
}

/// An entropy that is in order is infinite if and only if the cell holds a
/// tile.
pub proof fn lemma_entropy_ok(tiles: Seq<Tile>, g: GridView<usize>, e: u64, i: int)
    requires
        g.wf(),
        0 <= i < g.cells.len(),
        entropy_ok(tiles, g, e, i),
    ensures
        e == ENTROPY_INFINITE <==> g.cells[i] < tiles.len(),
{
    lemma_entropy_at(tiles, g, i);
}

/// An entropy that is in order stays in order when a tile is placed or taken
/// away at another cell that is no neighbour.
pub proof fn lemma_entropy_ok_local(
    tiles: Seq<Tile>,
    g: GridView<usize>,
    x: usize,
    y: usize,
    v: usize,
    w: usize,
    e: u64,
    i: int,
)
    requires
        g.wf(),
        g.contains(x as int, y as int),
        0 <= i < g.cells.len(),
        i != g.offset(x as int, y as int),
        !is_neighbor(g, x, y, i),
    ensures
        entropy_at(tiles, with_cell(g, x as int, y as int, v), i) == entropy_at(
            tiles,
            with_cell(g, x as int, y as int, w),
            i,
        ),
        entropy_ok(tiles, with_cell(g, x as int, y as int, v), e, i) == entropy_ok(
            tiles,
            with_cell(g, x as int, y as int, w),
            e,
            i,
        ),
{
    lemma_entropy_local(tiles, g, x, y, v, i);
    lemma_entropy_local(tiles, g, x, y, w, i);
    crate::grid::lemma_offset_in_range(g.width, g.height, x as nat, y as nat);
}

/// The entropy `after` of the cell at offset `i` is the one from `before`,
/// or the one that follows from the tiles.
pub open spec fn entropy_kept(
    tiles: Seq<Tile>,
    g: GridView<usize>,
    before: Seq<u64>,
    after: Seq<u64>,
    i: int,
) -> bool {
    after[i] == before[i] || after[i] == entropy_at(tiles, g, i)
}

/// Where no cell holds a tile, every entropy is [`ENTROPY_MAX`].
pub proof fn lemma_entropy_of_empty(tiles: Seq<Tile>, g: GridView<usize>, i: int)
    requires
        g.wf(),
        0 <= i < g.cells.len(),
        forall|j: int| 0 <= j < g.cells.len() ==> #[trigger] g.cells[j] >= tiles.len(),
    ensures
        entropy_at(tiles, g, i) == ENTROPY_MAX,
{
    crate::grid::lemma_offset_unique(g.width, g.height, i as nat);
    let a = i % (g.width as int);
    let b = i / (g.width as int);
    if g.contains(a - 1, b) {
        crate::grid::lemma_offset_in_range(g.width, g.height, (a - 1) as nat, b as nat);
    }
    if g.contains(a + 1, b) {
        crate::grid::lemma_offset_in_range(g.width, g.height, (a + 1) as nat, b as nat);
    }
    if g.contains(a, b - 1) {
        crate::grid::lemma_offset_in_range(g.width, g.height, a as nat, (b - 1) as nat);
    }
    if g.contains(a, b + 1) {
        crate::grid::lemma_offset_in_range(g.width, g.height, a as nat, (b + 1) as nat);
    }
}

/// The state of a search: the tiles, the tile chosen for each cell so far
/// (`tiles.len()` where none is), and the entropy of each cell.
struct State<'t> {
    tiles: &'t [Tile],
    wave: Grid<usize>,
    entropy: Grid<u64>,
}

impl<'t> State<'t> {
    /// The two grids have one and the same size, which is not empty, and
    /// there is a tile.
    spec fn shaped(&self) -> bool {
        &&& self.wave@.wf()
        &&& self.entropy@.wf()
        &&& self.wave@.width == self.entropy@.width
        &&& self.wave@.height == self.entropy@.height
        &&& self.wave@.width > 0
        &&& self.wave@.height > 0
        &&& self.tiles@.len() > 0
    }

    /// The entropy of every cell is in order; see [`entropy_ok`].
    spec fn entropy_follows_wave(&self) -> bool {
        forall|i: int|
            0 <= i < self.wave@.cells.len() ==> #[trigger] entropy_ok(
                self.tiles@,
                self.wave@,
                self.entropy@.cells[i],
                i,
            )
    }

    /// What holds between two steps of the search.
    spec fn wf(&self) -> bool {
        &&& self.shaped()
        &&& positive_weights(self.tiles@)
        &&& forall|i: int|
            0 <= i < self.wave@.cells.len() ==> #[trigger] self.wave@.cells[i] <= self.tiles@.len()
        &&& consistent(self.tiles@, self.wave@)
        &&& self.entropy_follows_wave()
    }

    /// The state before the first step: no cell holds a tile, and every
    /// entropy is [`ENTROPY_MAX`].
    fn new(tiles: &'t [Tile], width: usize, height: usize) -> (s: Self)
        requires
            width * height <= usize::MAX,
            width > 0,
            height > 0,
            tiles@.len() > 0,
            positive_weights(tiles@),
        ensures
            s.wf(),
            s.tiles == tiles,
            s.wave@.width == width,
            s.wave@.height == height,
            forall|i: int| 0 <= i < s.wave@.cells.len() ==> #[trigger] s.wave@.cells[i] == tiles@.len(),
    {
        let s = State {
            tiles,
            wave: Grid::new(tiles.len(), width, height),
            entropy: Grid::new(ENTROPY_MAX, width, height),
        };
        assert forall|x: int, y: int| #[trigger] joined_right(s.tiles@, s.wave@, x, y) by {
            if s.wave@.contains(x, y) {
                crate::grid::lemma_offset_in_range(width as nat, height as nat, x as nat, y as nat);
            }
        }
        assert forall|x: int, y: int| #[trigger] joined_down(s.tiles@, s.wave@, x, y) by {
            if s.wave@.contains(x, y) {
                crate::grid::lemma_offset_in_range(width as nat, height as nat, x as nat, y as nat);
            }
        }
        assert forall|i: int| 0 <= i < s.wave@.cells.len() implies #[trigger] entropy_ok(
            s.tiles@,
            s.wave@,
            s.entropy@.cells[i],
            i,
        ) by {
            lemma_entropy_of_empty(s.tiles@, s.wave@, i);
        }
        s
    }

    /// A position of the grid, drawn at random.
    fn rand_pt(&self, rng: &mut Xoshiro256StarStar) -> (p: (usize, usize))
        requires
            self.shaped(),
        ensures
            self.wave@.contains(p.0 as int, p.1 as int),
    {
        let x = random_below(rng, self.wave.width());
        let y = random_below(rng, self.wave.height());
        (x, y)
    }

    /// The tile at `c`, where `c` is a position whose cell holds one.
    fn placed(&self, c: Option<(usize, usize)>) -> (r: Option<&Tile>)
        requires
            self.shaped(),
            c matches Some(p) ==> self.wave@.contains(p.0 as int, p.1 as int),
        ensures
            match c {
                Some(p) => if self.wave@.at(p.0 as int, p.1 as int) < self.tiles@.len() {
                    r matches Some(t) && *t == self.tiles@[self.wave@.at(p.0 as int, p.1 as int) as int]
                } else {
                    r is None
                },
                None => r is None,
            },
    {
        match c {
            Some(p) => {
                proof {
                    crate::grid::lemma_offset_in_range(
                        self.wave@.width,
                        self.wave@.height,
                        p.0 as nat,
                        p.1 as nat,
                    );
                }
                let v = *self.wave.index(p);
                if v < self.tiles.len() {
                    Some(&self.tiles[v])
                } else {
                    None
                }
            },
            None => None,
        }
    }

    /// The weight that the cell at `c` adds to the entropy of a neighbour.
    fn placed_weight(&self, c: Option<(usize, usize)>) -> (r: u32)
        requires
            self.shaped(),
            c matches Some(p) ==> self.wave@.contains(p.0 as int, p.1 as int),
        ensures
            r == weight_at(self.tiles@, self.wave@, c),
    {
        match self.placed(c) {
            Some(t) => t.weight,
            None => 0,
        }
    }

    /// Whether `cand` agrees with each tile that stands next to `(x, y)`.
    fn fits(&self, cand: &Tile, x: usize, y: usize) -> (r: bool)
        requires
            self.shaped(),
            self.wave@.contains(x as int, y as int),
        ensures
            r == fits(self.tiles@, self.wave@, *cand, x as int, y as int),
    {
        if let Some(t) = self.placed(self.wave.left(x, y)) {
            if t.right != cand.left {
                return false;
            }
        }
        if let Some(t) = self.placed(self.wave.right(x, y)) {
            if t.left != cand.right {
                return false;
            }
        }
        if let Some(t) = self.placed(self.wave.up(x, y)) {
            if t.bottom != cand.top {
                return false;
            }
        }
        if let Some(t) = self.placed(self.wave.down(x, y)) {
            if t.top != cand.bottom {
                return false;
            }
        }
        true
    }

    /// Sets the entropy of the cell at `(x, y)` to what the tiles on it and
    /// around it make it.
    fn update_entropy(&mut self, x: usize, y: usize)
        requires
            old(self).shaped(),
            old(self).wave@.contains(x as int, y as int),
        ensures
            final(self).tiles == old(self).tiles,
            final(self).wave@ == old(self).wave@,
            final(self).shaped(),
            final(self).entropy@.cells == old(self).entropy@.cells.update(
                old(self).wave@.offset(x as int, y as int),
                entropy_of(old(self).tiles@, old(self).wave@, x, y),
            ),
    {
        proof {
            crate::grid::lemma_offset_in_range(
                self.wave@.width,
                self.wave@.height,
                x as nat,
                y as nat,
            );
        }
        if *self.wave.index((x, y)) < self.tiles.len() {
            self.entropy.set(x, y, ENTROPY_INFINITE);
            return ;
        }
        let l: u64 = self.placed_weight(self.wave.left(x, y)) as u64;
        let u: u64 = self.placed_weight(self.wave.up(x, y)) as u64;
        let r: u64 = self.placed_weight(self.wave.right(x, y)) as u64;
        let d: u64 = self.placed_weight(self.wave.down(x, y)) as u64;
        self.entropy.set(x, y, ENTROPY_MAX - l - u - r - d);
    }

    /// The first of the cells of least entropy, and that entropy.
    fn min_entropy(&self) -> (r: (usize, usize, u64))
        requires
            self.shaped(),
        ensures
            self.wave@.contains(r.0 as int, r.1 as int),
            r.2 == self.entropy@.at(r.0 as int, r.1 as int),
            forall|i: int| 0 <= i < self.entropy@.cells.len() ==> r.2 <= #[trigger] self.entropy@.cells[i],
            forall|i: int|
                0 <= i < self.entropy@.offset(r.0 as int, r.1 as int) ==> r.2
                    < #[trigger] self.entropy@.cells[i],
    {
        let cells = self.entropy.cells();
        let w = self.entropy.width();
        proof {
            assert(cells@.len() > 0) by (nonlinear_arith)
                requires
                    cells@.len() == self.entropy@.width * self.entropy@.height,
                    self.entropy@.width > 0,
                    self.entropy@.height > 0,
            ;
        }
        let mut best: usize = 0;
        let mut i: usize = 1;
        while i < cells.len()
            invariant
                1 <= i <= cells@.len(),
                best < i,
                forall|j: int| 0 <= j < i ==> cells@[best as int] <= #[trigger] cells@[j],
                forall|j: int| 0 <= j < best ==> cells@[best as int] < #[trigger] cells@[j],
            decreases cells@.len() - i,
        {
            if cells[i] < cells[best] {
                best = i;
            }
            i += 1;
        }
        proof {
            crate::grid::lemma_offset_unique(self.entropy@.width, self.entropy@.height, best as nat);
        }
        (best % w, best / w, cells[best])
    }

    /// Sets the entropy of each neighbour of `(x, y)` anew; every other
    /// entropy stays.
    fn update_neighbors(&mut self, x: usize, y: usize)
        requires
            old(self).shaped(),
            old(self).wave@.contains(x as int, y as int),
        ensures
            final(self).tiles == old(self).tiles,
            final(self).wave@ == old(self).wave@,
            final(self).shaped(),
            forall|i: int|
                0 <= i < old(self).entropy@.cells.len() ==> #[trigger] final(self).entropy@.cells[i]
                    == if is_neighbor(old(self).wave@, x, y, i) {
                    entropy_at(old(self).tiles@, old(self).wave@, i)
                } else {
                    old(self).entropy@.cells[i]
                },
    {
        let ns = self.wave.neighbors4(x, y);
        let ghost g = self.wave@;
        let ghost before = self.entropy@.cells;
        let mut k: usize = 0;
        while k < ns.len()
            invariant
                0 <= k <= ns@.len(),
                ns@ == g.neighbors4(x, y),
                g.contains(x as int, y as int),
                self.tiles == old(self).tiles,
                self.wave@ == g,
                self.shaped(),
                self.entropy@.cells.len() == before.len(),
                forall|i: int|
                    0 <= i < before.len() ==> #[trigger] self.entropy@.cells[i] == if exists|j: int|
                        0 <= j < k && g.offset(ns@[j].0 as int, ns@[j].1 as int) == i {
                        entropy_at(self.tiles@, g, i)
                    } else {
                        before[i]
                    },
            decreases ns@.len() - k,
        {
            let (nx, ny) = ns[k];
            proof {
                crate::grid::lemma_offset_in_range(g.width, g.height, nx as nat, ny as nat);
                crate::grid::lemma_offset_unique(
                    g.width,
                    g.height,
                    g.offset(nx as int, ny as int) as nat,
                );
            }
            let ghost mid = self.entropy@.cells;
            self.update_entropy(nx, ny);
            proof {
                let o = g.offset(nx as int, ny as int);
                assert forall|i: int| 0 <= i < before.len() implies #[trigger] self.entropy@.cells[i]
                    == if exists|j: int|
                    0 <= j < k + 1 && g.offset(ns@[j].0 as int, ns@[j].1 as int) == i {
                    entropy_at(self.tiles@, g, i)
                } else {
                    before[i]
                } by {
                    if i == o {
                        assert(0 <= k < k + 1 && g.offset(ns@[k as int].0 as int, ns@[k as int].1 as int) == i);
                    } else {
                        assert(self.entropy@.cells[i] == mid[i]);
                        if exists|j: int|
                            0 <= j < k + 1 && g.offset(ns@[j].0 as int, ns@[j].1 as int) == i {
                            let j = choose|j: int|
                                0 <= j < k + 1 && g.offset(ns@[j].0 as int, ns@[j].1 as int) == i;
                            assert(0 <= j < k && g.offset(ns@[j].0 as int, ns@[j].1 as int) == i);
                        }
                    }
                }
            }
            k += 1;
        }
    }

    /// The tiles that fit at `(x, y)`, in their order, and their weights.
    fn candidates(&self, x: usize, y: usize) -> (r: (Vec<usize>, Vec<u32>))
        requires
            self.shaped(),
            self.wave@.contains(x as int, y as int),
        ensures
            r.0@.len() == r.1@.len(),
            forall|k: int|
                0 <= k < r.0@.len() ==> {
                    &&& (#[trigger] r.0@[k]) < self.tiles@.len()
                    &&& fits(self.tiles@, self.wave@, self.tiles@[r.0@[k] as int], x as int, y as int)
                    &&& r.1@[k] == self.tiles@[r.0@[k] as int].weight
                },
            forall|j: int, k: int| 0 <= j < k < r.0@.len() ==> r.0@[j] < r.0@[k],
            forall|t: int|
                0 <= t < self.tiles@.len() && fits(
                    self.tiles@,
                    self.wave@,
                    #[trigger] self.tiles@[t],
                    x as int,
                    y as int,
                ) ==> r.0@.contains(t as usize),
    {
        let mut tile_ixs: Vec<usize> = Vec::new();
        let mut weights: Vec<u32> = Vec::new();
        let mut i: usize = 0;
        while i < self.tiles.len()
            invariant
                0 <= i <= self.tiles@.len(),
                self.shaped(),
                self.wave@.contains(x as int, y as int),
                tile_ixs@.len() == weights@.len(),
                forall|k: int|
                    0 <= k < tile_ixs@.len() ==> {
                        &&& (#[trigger] tile_ixs@[k]) < i
                        &&& fits(
                            self.tiles@,
                            self.wave@,
                            self.tiles@[tile_ixs@[k] as int],
                            x as int,
                            y as int,
                        )
                        &&& weights@[k] == self.tiles@[tile_ixs@[k] as int].weight
                    },
                forall|j: int, k: int| 0 <= j < k < tile_ixs@.len() ==> tile_ixs@[j] < tile_ixs@[k],
                forall|t: int|
                    0 <= t < i && fits(
                        self.tiles@,
                        self.wave@,
                        #[trigger] self.tiles@[t],
                        x as int,
                        y as int,
                    ) ==> tile_ixs@.contains(t as usize),
            decreases self.tiles@.len() - i,
        {
            if self.fits(&self.tiles[i], x, y) {
                let ghost before = tile_ixs@;
                weights.push(self.tiles[i].weight);
                tile_ixs.push(i);
                proof {
                    assert(tile_ixs@[before.len() as int] == i);
                    assert forall|t: int|
                        0 <= t < i + 1 && fits(
                            self.tiles@,
                            self.wave@,
                            #[trigger] self.tiles@[t],
                            x as int,
                            y as int,
                        ) implies tile_ixs@.contains(t as usize) by {
                        if t < i {
                            let k = choose|k: int| 0 <= k < before.len() && before[k] == t as usize;
                            assert(tile_ixs@[k] == t as usize);
                        }
                    }
                }
            }
            i += 1;
        }
        (tile_ixs, weights)
    }

    /// Fills the cells that hold no tile yet, one after the other, and takes a
    /// choice back when nothing fits further on.
    ///
    /// Returns the solution found. Returns `None`, with the wave as it was
    /// and the entropies as they were or as they follow from the tiles, where
    /// no solution keeps the tiles that are placed.
    fn solve(&mut self, rng: &mut Xoshiro256StarStar) -> (r: Option<Grid<usize>>)
        requires
            old(self).wf(),
        ensures
            final(self).tiles == old(self).tiles,
            match r {
                Some(g) => completes(old(self).tiles@, old(self).wave@, g@),
                None => {
                    &&& final(self).wf()
                    &&& final(self).wave@ == old(self).wave@
                    &&& forall|i: int|
                        0 <= i < old(self).wave@.cells.len() ==> #[trigger] entropy_kept(
                            old(self).tiles@,
                            old(self).wave@,
                            old(self).entropy@.cells,
                            final(self).entropy@.cells,
                            i,
                        )
                    &&& !completable(old(self).tiles@, old(self).wave@)
                },
            },
        decreases unresolved(old(self).wave@.cells, old(self).tiles@.len()),
    {
        let ghost tiles = self.tiles@;
        let ghost wave0 = self.wave@;
        let (x, y, e) = self.min_entropy();
        if e == ENTROPY_INFINITE {
            proof {
                assert forall|i: int| 0 <= i < wave0.cells.len() implies #[trigger] wave0.cells[i]
                    < tiles.len() by {
                    assert(self.entropy@.cells[i] == ENTROPY_INFINITE);
                    assert(entropy_ok(tiles, wave0, self.entropy@.cells[i], i));
                    lemma_entropy_ok(tiles, wave0, self.entropy@.cells[i], i);
                }
                assert(completes(tiles, wave0, wave0));
            }
            let mut done: Grid<usize> = Grid::new(0, 0, 0);
            std::mem::swap(&mut done, &mut self.wave);
            return Some(done);
        }
        let ghost off = wave0.offset(x as int, y as int);
        proof {
            crate::grid::lemma_offset_in_range(wave0.width, wave0.height, x as nat, y as nat);
            assert(self.entropy@.cells[off] == e);
            assert(entropy_ok(tiles, wave0, self.entropy@.cells[off], off));
            lemma_entropy_ok(tiles, wave0, e, off);
            assert(wave0.cells[off] == tiles.len());
            lemma_unresolved_positive(wave0.cells, tiles.len(), off);
            lemma_is_neighbor_of_size(wave0, wave0, x, y, off);
        }
        let (mut tile_ixs, mut weights) = self.candidates(x, y);
        let ghost entropy0 = self.entropy@.cells;
        self.entropy.set(x, y, ENTROPY_INFINITE);
        proof {
            assert forall|i: int| 0 <= i < wave0.cells.len() && i != off implies #[trigger] entropy_ok(
                tiles,
                self.wave@,
                self.entropy@.cells[i],
                i,
            ) by {
                assert(entropy_ok(tiles, wave0, entropy0[i], i));
            }
        }
        while !tile_ixs.is_empty()
            invariant
                self.tiles == old(self).tiles,
                tiles == old(self).tiles@,
                wave0 == old(self).wave@,
                old(self).wf(),
                off == wave0.offset(x as int, y as int),
                0 <= off < wave0.cells.len(),
                wave0.contains(x as int, y as int),
                wave0.cells[off] == tiles.len(),
                unresolved(wave0.cells, tiles.len()) > 0,
                self.shaped(),
                self.wave@.width == wave0.width,
                self.wave@.height == wave0.height,
                self.wave@.cells.len() == wave0.cells.len(),
                forall|i: int|
                    0 <= i < wave0.cells.len() && i != off ==> #[trigger] self.wave@.cells[i]
                        == wave0.cells[i],
                self.wave@.cells[off] <= tiles.len(),
                self.entropy@.cells.len() == wave0.cells.len(),
                self.entropy@.cells[off] == ENTROPY_INFINITE,
                entropy0 == old(self).entropy@.cells,
                !is_neighbor(wave0, x, y, off),
                forall|i: int|
                    0 <= i < wave0.cells.len() && i != off ==> #[trigger] entropy_ok(
                        tiles,
                        self.wave@,
                        self.entropy@.cells[i],
                        i,
                    ),
                forall|i: int|
                    0 <= i < wave0.cells.len() && i != off && !is_neighbor(wave0, x, y, i)
                        ==> #[trigger] entropy_kept(tiles, wave0, entropy0, self.entropy@.cells, i),
                tile_ixs@.len() == weights@.len(),
                forall|k: int|
                    0 <= k < tile_ixs@.len() ==> {
                        &&& (#[trigger] tile_ixs@[k]) < tiles.len()
                        &&& fits(tiles, wave0, tiles[tile_ixs@[k] as int], x as int, y as int)
                        &&& weights@[k] == tiles[tile_ixs@[k] as int].weight
                    },
                forall|t: int|
                    0 <= t < tiles.len() && fits(tiles, wave0, #[trigger] tiles[t], x as int, y as int)
                        ==> tile_ixs@.contains(t as usize) || !completable(
                        tiles,
                        with_cell(wave0, x as int, y as int, t as usize),
                    ),
            decreases tile_ixs@.len(),
        {
            proof {
                assert(weights@[0] == tiles[tile_ixs@[0] as int].weight);
                assert(weights@[0] > 0);
            }
            let candi = random_weighted(rng, &weights);
            let t = tile_ixs[candi];
            let ghost last = self.wave@;
            self.wave.set(x, y, t);
            let ghost next = with_cell(wave0, x as int, y as int, t);
            proof {
                assert(self.wave@.cells =~= next.cells);
                assert(self.wave@ == next);
                assert(last.cells =~= with_cell(wave0, x as int, y as int, last.cells[off]).cells);
                assert(last == with_cell(wave0, x as int, y as int, last.cells[off]));
                lemma_place_keeps_consistent(tiles, wave0, x as int, y as int, t);
                lemma_unresolved_update(wave0.cells, tiles.len(), off, t);
            }
            let ghost before = self.entropy@.cells;
            self.update_neighbors(x, y);
            proof {
                assert forall|i: int| 0 <= i < next.cells.len() implies #[trigger] entropy_ok(
                    tiles,
                    next,
                    self.entropy@.cells[i],
                    i,
                ) by {
                    lemma_is_neighbor_of_size(wave0, next, x, y, i);
                    if i == off {
                        lemma_entropy_at(tiles, next, i);
                    } else if !is_neighbor(wave0, x, y, i) {
                        assert(entropy_ok(tiles, last, before[i], i));
                        lemma_entropy_ok_local(tiles, wave0, x, y, last.cells[off], t, before[i], i);
                    }
                }
            }
            let ghost offered = self.entropy@.cells;
            match self.solve(rng) {
                Some(sol) => {
                    proof {
                        assert forall|i: int|
                            0 <= i < wave0.cells.len() && #[trigger] wave0.cells[i]
                                < tiles.len() implies sol@.cells[i] == wave0.cells[i] by {
                            assert(with_cell(wave0, x as int, y as int, t).cells[i] == wave0.cells[i]);
                        }
                    }
                    return Some(sol);
                },
                None => {},
            }
            proof {
                assert(entropy_ok(tiles, next, self.entropy@.cells[off], off));
                lemma_entropy_ok(tiles, next, self.entropy@.cells[off], off);
                assert forall|i: int|
                    0 <= i < wave0.cells.len() && i != off && !is_neighbor(
                        wave0,
                        x,
                        y,
                        i,
                    ) implies #[trigger] entropy_kept(tiles, wave0, entropy0, self.entropy@.cells, i) by {
                    assert(entropy_kept(tiles, wave0, entropy0, before, i));
                    assert(entropy_kept(tiles, next, offered, self.entropy@.cells, i));
                    lemma_is_neighbor_of_size(wave0, next, x, y, i);
                    lemma_entropy_local(tiles, wave0, x, y, t, i);
                }
            }
            let ghost pool = tile_ixs@;
            tile_ixs.swap_remove(candi);
            weights.swap_remove(candi);
            proof {
                assert forall|u: int|
                    0 <= u < tiles.len() && fits(
                        tiles,
                        wave0,
                        #[trigger] tiles[u],
                        x as int,
                        y as int,
                    ) implies tile_ixs@.contains(u as usize) || !completable(
                    tiles,
                    with_cell(wave0, x as int, y as int, u as usize),
                ) by {
                    if u != t && pool.contains(u as usize) {
                        let k = choose|k: int| 0 <= k < pool.len() && pool[k] == u as usize;
                        if k == pool.len() - 1 {
                            assert(tile_ixs@[candi as int] == u as usize);
                        } else {
                            assert(tile_ixs@[k] == u as usize);
                        }
                    }
                }
            }
        }
        let ghost last = self.wave@;
        let ghost before = self.entropy@.cells;
        self.wave.set(x, y, self.tiles.len());
        proof {
            assert(self.wave@.cells =~= wave0.cells);
            assert(self.wave@ == wave0);
            assert(last.cells =~= with_cell(wave0, x as int, y as int, last.cells[off]).cells);
            assert(last == with_cell(wave0, x as int, y as int, last.cells[off]));
            assert(wave0.cells =~= with_cell(wave0, x as int, y as int, wave0.cells[off]).cells);
            assert(wave0 == with_cell(wave0, x as int, y as int, wave0.cells[off]));
        }
        self.update_entropy(x, y);
        self.update_neighbors(x, y);
        proof {
            crate::grid::lemma_offset_unique(wave0.width, wave0.height, off as nat);
            assert forall|i: int| 0 <= i < wave0.cells.len() implies #[trigger] entropy_kept(
                tiles,
                wave0,
                entropy0,
                self.entropy@.cells,
                i,
            ) by {
                if i != off && !is_neighbor(wave0, x, y, i) {
                    assert(entropy_kept(tiles, wave0, entropy0, before, i));
                }
            }
            assert forall|i: int| 0 <= i < wave0.cells.len() implies #[trigger] entropy_ok(
                tiles,
                wave0,
                self.entropy@.cells[i],
                i,
            ) by {
                if i != off && !is_neighbor(wave0, x, y, i) {
                    assert(entropy_ok(tiles, last, before[i], i));
                    lemma_entropy_ok_local(
                        tiles,
                        wave0,
                        x,
                        y,
                        last.cells[off],
                        wave0.cells[off],
                        before[i],
                        i,
                    );
                }
            }
            if completable(tiles, wave0) {
                let full = choose|full: GridView<usize>| #[trigger] completes(tiles, wave0, full);
                lemma_completion_fits(tiles, wave0, full, x as int, y as int);
                let u = full.at(x as int, y as int);
                assert(fits(tiles, wave0, tiles[u as int], x as int, y as int));
                assert(!tile_ixs@.contains(u));
                assert(completes(tiles, with_cell(wave0, x as int, y as int, u), full));
                assert(completable(tiles, with_cell(wave0, x as int, y as int, u)));
            }
        }
        None
    }
}

/// Fills a grid of the given size with tiles whose borders agree.
///
/// Returns, for each cell, the index in `tiles` of its tile. Returns `None`
/// where the size is empty or there is no tile, and where `tiles` admit no
/// solution of that size; it finds a solution whenever there is one, whatever
/// the generator draws.
pub fn solve(rng: &mut Xoshiro256StarStar, tiles: &[Tile], width: usize, height: usize) -> (r:
    Option<Grid<usize>>)
    requires
        tiles@.len() > 0 ==> width * height <= usize::MAX,
        positive_weights(tiles@),
    ensures
        (width == 0 || height == 0 || tiles@.len() == 0) ==> r is None,
        match r {
            Some(g) => g@.width == width && g@.height == height && is_tiling(tiles@, g@),
            None => width == 0 || height == 0 || tiles@.len() == 0 || !tileable(
                tiles@,
                width as nat,
                height as nat,
            ),
        },
{
    if width == 0 || height == 0 || tiles.len() == 0 {
        return None;
    }
    let mut state = State::new(tiles, width, height);
    let pt = state.rand_pt(rng);
    proof {
        crate::grid::lemma_offset_in_range(width as nat, height as nat, pt.0 as nat, pt.1 as nat);
    }
    state.entropy.set(pt.0, pt.1, 0);
    let ghost empty = state.wave@;
    let r = state.solve(rng);
    proof {
        if r is None && tileable(tiles@, width as nat, height as nat) {
            let g = choose|g: GridView<usize>|
                #[trigger] is_tiling(tiles@, g) && g.width == width && g.height == height;
            assert(completes(tiles@, empty, g));
        }
    }
    r
}

/// Where every tile fits beside every tile and below every tile, each grid
/// that is not empty has a solution, and so [`solve`] returns one.
pub proof fn lemma_matching_tiles_tile_every_grid(tiles: Seq<Tile>, width: usize, height: usize)
    requires
        tiles.len() > 0,
        width > 0,
        height > 0,
        forall|i: int, j: int|
            0 <= i < tiles.len() && 0 <= j < tiles.len() ==> (#[trigger] tiles[i]).right == (
            #[trigger] tiles[j]).left,
        forall|i: int, j: int|
            0 <= i < tiles.len() && 0 <= j < tiles.len() ==> (#[trigger] tiles[i]).bottom == (
            #[trigger] tiles[j]).top,
    ensures
        tileable(tiles, width as nat, height as nat),
{
    let g = GridView {
        width: width as nat,
        height: height as nat,
        cells: Seq::new((width * height) as nat, |i: int| 0usize),
    };
    assert(width * height >= 0) by (nonlinear_arith)
        requires
            width > 0,
            height > 0,
    ;
    assert forall|x: int, y: int| #[trigger] joined_right(tiles, g, x, y) by {
        if g.contains(x, y) && g.contains(x + 1, y) {
            crate::grid::lemma_offset_in_range(g.width, g.height, x as nat, y as nat);
            crate::grid::lemma_offset_in_range(g.width, g.height, (x + 1) as nat, y as nat);
            assert(tiles[0].right == tiles[0].left);
        }
    }
    assert forall|x: int, y: int| #[trigger] joined_down(tiles, g, x, y) by {
        if g.contains(x, y) && g.contains(x, y + 1) {
            crate::grid::lemma_offset_in_range(g.width, g.height, x as nat, y as nat);
            crate::grid::lemma_offset_in_range(g.width, g.height, x as nat, (y + 1) as nat);
            assert(tiles[0].bottom == tiles[0].top);
        }
    }
    assert(is_tiling(tiles, g) && g.width == width && g.height == height);
}

/// Where no tile fits beside any tile nor below any tile, a grid of two cells
/// or more has no solution, and so [`solve`] returns `None`.
pub proof fn lemma_unmatched_tiles_tile_no_grid(tiles: Seq<Tile>, width: usize, height: usize)
    requires
        width > 0,
        height > 0,
        width >= 2 || height >= 2,
        forall|i: int, j: int|
            0 <= i < tiles.len() && 0 <= j < tiles.len() ==> (#[trigger] tiles[i]).right != (
            #[trigger] tiles[j]).left,
        forall|i: int, j: int|
            0 <= i < tiles.len() && 0 <= j < tiles.len() ==> (#[trigger] tiles[i]).bottom != (
            #[trigger] tiles[j]).top,
    ensures
        !tileable(tiles, width as nat, height as nat),
{
    if tileable(tiles, width as nat, height as nat) {
        let g = choose|g: GridView<usize>|
            #[trigger] is_tiling(tiles, g) && g.width == width && g.height == height;
        crate::grid::lemma_offset_in_range(g.width, g.height, 0, 0);
        assert(g.cells[g.offset(0, 0)] < tiles.len());
        if width >= 2 {
            crate::grid::lemma_offset_in_range(g.width, g.height, 1, 0);
            assert(g.cells[g.offset(1, 0)] < tiles.len());
            assert(joined_right(tiles, g, 0, 0));
            assert(tiles[g.at(0, 0) as int].right == tiles[g.at(1, 0) as int].left);
        } else {
            crate::grid::lemma_offset_in_range(g.width, g.height, 0, 1);
            assert(g.cells[g.offset(0, 1)] < tiles.len());
            assert(joined_down(tiles, g, 0, 0));
            assert(tiles[g.at(0, 0) as int].bottom == tiles[g.at(0, 1) as int].top);
        }
    }
}

} // verus!
