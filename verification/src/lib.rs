//! Conway's Game of Life on a fixed-size toroidal grid.
//!
//! A [`Universe`] owns a dense row-major buffer of [`Cell`]s together with its
//! dimensions. Each call to [`Universe::tick`] advances the whole grid one
//! generation: every cell's next state is computed from the current buffer
//! (never from partially-updated cells) and the buffer is then replaced
//! atomically. Neighbor lookups wrap around both edges, so the grid behaves
//! like a torus.

use vstd::prelude::*;

verus! {

use vstd::arithmetic::div_mod::{
    lemma_fundamental_div_mod,
    lemma_fundamental_div_mod_converse,
    lemma_mod_multiples_vanish,
    lemma_small_mod,
};
use vstd::arithmetic::mul::lemma_mul_inequality;
use vstd::string::StringExecFns;

/// The state of one cell. `Alive` contributes 1 and `Dead` contributes 0 to
/// a neighbor count (see [`cell_weight`]).
#[derive(Clone, Copy, Debug, PartialEq, Eq, Structural)]
pub enum Cell {
    Dead,
    Alive,
}

/// The contribution of one cell to a neighbor count: 1 if alive, 0 if dead.
pub open spec fn cell_weight(c: Cell) -> int {
    if c == Cell::Alive {
        1
    } else {
        0
    }
}

/// The deterministic default pattern: the cell at linear index `i` starts
/// alive exactly when `i` is divisible by 2 or by 7.
pub open spec fn seed_cell(i: int) -> Cell {
    if i % 2 == 0 || i % 7 == 0 {
        Cell::Alive
    } else {
        Cell::Dead
    }
}

/// The number of live cells among the 8 toroidal (Moore) neighbors of
/// `(row, col)` in a row-major buffer of `h` rows of `w` cells. The previous
/// row and column are reached through the unsigned-safe offsets `h - 1` and
/// `w - 1`, so every lookup position is taken modulo the dimension and never
/// leaves the grid.
pub open spec fn live_neighbors(cells: Seq<Cell>, w: int, h: int, row: int, col: int) -> int {
    let rm = (row + (h - 1)) % h;
    let rp = (row + 1) % h;
    let cm = (col + (w - 1)) % w;
    let cp = (col + 1) % w;
    cell_weight(cells[rm * w + cm]) + cell_weight(cells[rm * w + col]) + cell_weight(
        cells[rm * w + cp],
    ) + cell_weight(cells[row * w + cm]) + cell_weight(cells[row * w + cp]) + cell_weight(
        cells[rp * w + cm],
    ) + cell_weight(cells[rp * w + col]) + cell_weight(cells[rp * w + cp])
}

/// A row-major index formed from an in-bounds row and column stays within
/// a `w`-by-`h` buffer.
proof fn lemma_index_in_bounds(w: int, h: int, row: int, col: int)
    requires
        0 <= row < h,
        0 <= col < w,
    ensures
        0 <= row * w + col,
        row * w + col < w * h,
{
    lemma_mul_inequality(row, h - 1, w);
    assert(0 <= row * w) by (nonlinear_arith)
        requires
            0 <= row,
            0 <= w,
    ;
    assert((h - 1) * w + w == w * h) by (nonlinear_arith);
}

/// The classic transition rule, evaluated per cell from its current state
/// and its live-neighbor count: a live cell with fewer than 2 live neighbors
/// dies (underpopulation), with 2 or 3 it survives, with more than 3 it dies
/// (overpopulation); a dead cell with exactly 3 live neighbors becomes alive
/// (reproduction); every other cell keeps its state.
pub open spec fn next_cell(c: Cell, live: int) -> Cell {
    match c {
        Cell::Alive => if live < 2 {
            Cell::Dead
        } else if live <= 3 {
            Cell::Alive
        } else {
            Cell::Dead
        },
        Cell::Dead => if live == 3 {
            Cell::Alive
        } else {
            Cell::Dead
        },
    }
}

/// The next generation of a `w`-by-`h` grid: every cell's next state is
/// computed from the same current buffer, independently of every other
/// cell's update.
pub open spec fn next_gen(cells: Seq<Cell>, w: int, h: int) -> Seq<Cell> {
    Seq::new(
        (w * h) as nat,
        |i: int| next_cell(cells[i], live_neighbors(cells, w, h, i / w, i % w)),
    )
}

/// The linear index addressed by a `(row, col)` coordinate pair in a grid of
/// width `w`.
pub open spec fn coord_index(w: int, p: (u32, u32)) -> int {
    p.0 * w + p.1
}

/// Whether any pair in `coords` addresses linear index `i` in a grid of
/// width `w`.
pub open spec fn addressed(coords: Seq<(u32, u32)>, w: int, i: int) -> bool {
    exists|k: int| 0 <= k < coords.len() && coord_index(w, coords[k]) == i
}

/// The glyph drawn for one cell: a filled square for `Alive`, a hollow one
/// for `Dead`.
pub open spec fn glyph(c: Cell) -> char {
    if c == Cell::Alive {
        '◼'
    } else {
        '◻'
    }
}

/// The `w` glyphs of row `row`, left to right.
pub open spec fn rendered_line(cells: Seq<Cell>, w: int, row: int) -> Seq<char> {
    Seq::new(w as nat, |c: int| glyph(cells[row * w + c]))
}

/// The first `rows` rendered rows, top to bottom, each of `w` glyphs
/// followed by a line break.
pub open spec fn rendered_rows(cells: Seq<Cell>, w: int, rows: int) -> Seq<char>
    decreases rows,
{
    if rows <= 0 {
        Seq::empty()
    } else {
        rendered_rows(cells, w, rows - 1) + rendered_line(cells, w, rows - 1) + seq!['\n']
    }
}

/// Within one dimension of size `n`, the unsigned wraparound offsets behave
/// as signed -1 and +1: adding `n - 1` modulo `n` steps back with wrap to
/// `n - 1`, and adding 1 modulo `n` steps forward with wrap to 0.
proof fn lemma_wrapped_offsets(n: int, i: int)
    requires
        n >= 1,
        0 <= i < n,
    ensures
        (i + (n - 1)) % n == if i == 0 {
            n - 1
        } else {
            i - 1
        },
        (i + 1) % n == if i + 1 == n {
            0
        } else {
            i + 1
        },
{
    if i == 0 {
        lemma_small_mod((n - 1) as nat, n as nat);
    } else {
        lemma_mod_multiples_vanish(1, i - 1, n);
        lemma_small_mod((i - 1) as nat, n as nat);
    }
    if i + 1 == n {
        lemma_mod_multiples_vanish(1, 0, n);
        lemma_small_mod(0, n as nat);
    } else {
        lemma_small_mod((i + 1) as nat, n as nat);
    }
}

/// Board state: `width * height` cells in row-major order
/// (index = `row * width + col`).
pub struct Universe {
    width: u32,
    height: u32,
    cells: Vec<Cell>,
}

impl Universe {
    /// The grid width, for use in specifications.
    pub closed spec fn spec_width(&self) -> u32 {
        self.width
    }

    /// The grid height, for use in specifications.
    pub closed spec fn spec_height(&self) -> u32 {
        self.height
    }

    /// The cell buffer, for use in specifications.
    pub closed spec fn spec_cells(&self) -> Seq<Cell> {
        self.cells@
    }

    /// The structural invariant: both dimensions are positive, the cell count
    /// fits in a `u32`, and the buffer holds exactly `width * height` cells.
    pub open spec fn well_formed(&self) -> bool {
        &&& self.spec_width() >= 1
        &&& self.spec_height() >= 1
        &&& self.spec_width() * self.spec_height() <= u32::MAX
        &&& self.spec_cells().len() == self.spec_width() * self.spec_height()
    }

    /// Create a 64-by-64 universe holding the default seed pattern.
    pub fn new() -> (u: Universe)
        ensures
            u.well_formed(),
            u.spec_width() == 64,
            u.spec_height() == 64,
            u.spec_cells().len() == 4096,
            forall|i: int| 0 <= i < 4096 ==> #[trigger] u.spec_cells()[i] == seed_cell(i),
    {
        let width: u32 = 64;
        let height: u32 = 64;
        let mut cells: Vec<Cell> = Vec::new();
        let mut i: u32 = 0;
        while i < 4096
            invariant
                i <= 4096,
                cells@.len() == i,
                forall|j: int| 0 <= j < i ==> cells@[j] == seed_cell(j),
            decreases 4096 - i,
        {
            if i % 2 == 0 || i % 7 == 0 {
                cells.push(Cell::Alive);
            } else {
                cells.push(Cell::Dead);
            }
            i = i + 1;
        }
        Universe { width, height, cells }
    }

    /// The grid width.
    pub fn width(&self) -> (w: u32)
        ensures
            w == self.spec_width(),
    {
        self.width
    }

    /// The grid height.
    pub fn height(&self) -> (h: u32)
        ensures
            h == self.spec_height(),
    {
        self.height
    }

    /// Set the width and reallocate the buffer at the new size with every
    /// cell reset to `Dead`; prior content is discarded.
    pub fn set_width(&mut self, width: u32)
        requires
            old(self).well_formed(),
            width >= 1,
            width * old(self).spec_height() <= u32::MAX,
        ensures
            final(self).well_formed(),
            final(self).spec_width() == width,
            final(self).spec_height() == old(self).spec_height(),
            final(self).spec_cells().len() == width * old(self).spec_height(),
            forall|i: int|
                0 <= i < final(self).spec_cells().len() ==> #[trigger] final(self).spec_cells()[i] == Cell::Dead,
    {
        self.width = width;
        let n = width * self.height;
        self.cells = dead_buffer(n);
    }

    /// Set the height and reallocate the buffer at the new size with every
    /// cell reset to `Dead`; prior content is discarded.
    pub fn set_height(&mut self, height: u32)
        requires
            old(self).well_formed(),
            height >= 1,
            old(self).spec_width() * height <= u32::MAX,
        ensures
            final(self).well_formed(),
            final(self).spec_width() == old(self).spec_width(),
            final(self).spec_height() == height,
            final(self).spec_cells().len() == old(self).spec_width() * height,
            forall|i: int|
                0 <= i < final(self).spec_cells().len() ==> #[trigger] final(self).spec_cells()[i] == Cell::Dead,
    {
        self.height = height;
        let n = self.width * height;
        self.cells = dead_buffer(n);
    }

    /// The linear index of the cell at `(row, col)`: `row * width + col`.
    /// No wraparound is applied here; the caller supplies in-bounds
    /// coordinates.
    fn get_index(&self, row: u32, col: u32) -> (idx: usize)
        requires
            self.well_formed(),
            row < self.spec_height(),
            col < self.spec_width(),
        ensures
            idx == row * self.spec_width() + col,
            idx < self.spec_cells().len(),
    {
        proof {
            lemma_index_in_bounds(
                self.spec_width() as int,
                self.spec_height() as int,
                row as int,
                col as int,
            );
        }
        (row * self.width + col) as usize
    }

    /// The neighbor-count contribution of the cell at `(row, col)`.
    fn cell_weight_at(&self, row: u32, col: u32) -> (wt: u8)
        requires
            self.well_formed(),
            row < self.spec_height(),
            col < self.spec_width(),
        ensures
            wt == cell_weight(self.spec_cells()[row * self.spec_width() + col]),
            wt <= 1,
    {
        let idx = self.get_index(row, col);
        match self.cells[idx] {
            Cell::Alive => 1,
            Cell::Dead => 0,
        }
    }

    /// Count the live cells among the 8 toroidal neighbors of `(row, col)`.
    /// Both "previous" neighbors wrap to the opposite edge, as do both
    /// "next" neighbors, so the count at an edge cell reaches across the
    /// grid.
    pub fn live_neighbor_count(&self, row: u32, col: u32) -> (count: u8)
        requires
            self.well_formed(),
            row < self.spec_height(),
            col < self.spec_width(),
        ensures
            count == live_neighbors(
                self.spec_cells(),
                self.spec_width() as int,
                self.spec_height() as int,
                row as int,
                col as int,
            ),
            count <= 8,
    {
        let w = self.width;
        let h = self.height;
        let rm = if row == 0 {
            h - 1
        } else {
            row - 1
        };
        let rp = if row + 1 == h {
            0
        } else {
            row + 1
        };
        let cm = if col == 0 {
            w - 1
        } else {
            col - 1
        };
        let cp = if col + 1 == w {
            0
        } else {
            col + 1
        };
        proof {
            lemma_wrapped_offsets(h as int, row as int);
            lemma_wrapped_offsets(w as int, col as int);
        }
        self.cell_weight_at(rm, cm) + self.cell_weight_at(rm, col) + self.cell_weight_at(rm, cp)
            + self.cell_weight_at(row, cm) + self.cell_weight_at(row, cp) + self.cell_weight_at(
            rp,
            cm,
        ) + self.cell_weight_at(rp, col) + self.cell_weight_at(rp, cp)
    }

    /// Advance the grid one generation. The whole next generation is
    /// computed into a fresh buffer from the current one, and only then does
    /// the new buffer replace the old, so no cell's computation observes
    /// another cell's already-updated state.
    pub fn tick(&mut self)
        requires
            old(self).well_formed(),
        ensures
            final(self).well_formed(),
            final(self).spec_width() == old(self).spec_width(),
            final(self).spec_height() == old(self).spec_height(),
            final(self).spec_cells() == next_gen(
                old(self).spec_cells(),
                old(self).spec_width() as int,
                old(self).spec_height() as int,
            ),
    {
        let w = self.width;
        let h = self.height;
        let ghost orig = *self;
        let ghost target = next_gen(orig.spec_cells(), w as int, h as int);
        let mut next: Vec<Cell> = Vec::new();
        let mut row: u32 = 0;
        while row < h
            invariant
                *self == orig,
                self.well_formed(),
                w == self.spec_width(),
                h == self.spec_height(),
                target == next_gen(self.spec_cells(), w as int, h as int),
                row <= h,
                next@.len() == row * w,
                forall|i: int| 0 <= i < next@.len() ==> next@[i] == target[i],
            decreases h - row,
        {
            let mut col: u32 = 0;
            while col < w
                invariant
                    *self == orig,
                    self.well_formed(),
                    w == self.spec_width(),
                    h == self.spec_height(),
                    target == next_gen(self.spec_cells(), w as int, h as int),
                    row < h,
                    col <= w,
                    next@.len() == row * w + col,
                    forall|i: int| 0 <= i < next@.len() ==> next@[i] == target[i],
                decreases w - col,
            {
                let idx = self.get_index(row, col);
                let live = self.live_neighbor_count(row, col);
                let cell = match self.cells[idx] {
                    Cell::Alive => if live < 2 {
                        Cell::Dead
                    } else if live <= 3 {
                        Cell::Alive
                    } else {
                        Cell::Dead
                    },
                    Cell::Dead => if live == 3 {
                        Cell::Alive
                    } else {
                        Cell::Dead
                    },
                };
                proof {
                    lemma_index_in_bounds(w as int, h as int, row as int, col as int);
                    lemma_fundamental_div_mod_converse(
                        idx as int,
                        w as int,
                        row as int,
                        col as int,
                    );
                    assert(target[idx as int] == cell);
                }
                next.push(cell);
                col = col + 1;
            }
            proof {
                assert((row + 1) * w == row * w + w) by (nonlinear_arith);
            }
            row = row + 1;
        }
        proof {
            assert(h * w == w * h) by (nonlinear_arith);
            assert(next@ =~= target);
        }
        self.cells = next;
    }

    /// Set each cell addressed by a `(row, col)` pair in `coords` to
    /// `Alive`, leaving every other cell untouched. Every pair must be in
    /// bounds.
    pub fn set_cells(&mut self, coords: &[(u32, u32)])
        requires
            old(self).well_formed(),
            forall|k: int|
                0 <= k < coords@.len() ==> coords@[k].0 < old(self).spec_height() && coords@[k].1
                    < old(self).spec_width(),
        ensures
            final(self).well_formed(),
            final(self).spec_width() == old(self).spec_width(),
            final(self).spec_height() == old(self).spec_height(),
            final(self).spec_cells().len() == old(self).spec_cells().len(),
            forall|i: int|
                0 <= i < final(self).spec_cells().len() ==> #[trigger] final(self).spec_cells()[i] == (
                if addressed(coords@, old(self).spec_width() as int, i) {
                    Cell::Alive
                } else {
                    old(self).spec_cells()[i]
                }),
    {
        let ghost orig = *self;
        let ghost w = self.spec_width() as int;
        let mut k: usize = 0;
        while k < coords.len()
            invariant
                self.well_formed(),
                self.spec_width() == orig.spec_width(),
                self.spec_height() == orig.spec_height(),
                self.spec_cells().len() == orig.spec_cells().len(),
                w == orig.spec_width() as int,
                k <= coords@.len(),
                forall|j: int|
                    0 <= j < coords@.len() ==> coords@[j].0 < orig.spec_height() && coords@[j].1
                        < orig.spec_width(),
                forall|i: int|
                    0 <= i < self.spec_cells().len() ==> self.spec_cells()[i] == (
                    if addressed(coords@.subrange(0, k as int), w, i) {
                        Cell::Alive
                    } else {
                        orig.spec_cells()[i]
                    }),
            decreases coords@.len() - k,
        {
            let (row, col) = coords[k];
            let idx = self.get_index(row, col);
            let ghost pre = self.spec_cells();
            self.cells[idx] = Cell::Alive;
            proof {
                let sub0 = coords@.subrange(0, k as int);
                let sub1 = coords@.subrange(0, k as int + 1);
                assert(sub1[k as int] == coords@[k as int]);
                assert(addressed(sub1, w, idx as int));
                assert forall|i: int|
                    0 <= i < self.spec_cells().len() && i != idx implies (addressed(sub1, w, i)
                    <==> addressed(sub0, w, i)) by {
                    if addressed(sub1, w, i) {
                        let j = choose|j: int| 0 <= j < sub1.len() && coord_index(w, sub1[j]) == i;
                        assert(j < k as int ==> sub0[j] == sub1[j]);
                        assert(addressed(sub0, w, i));
                    }
                    if addressed(sub0, w, i) {
                        let j = choose|j: int| 0 <= j < sub0.len() && coord_index(w, sub0[j]) == i;
                        assert(sub1[j] == sub0[j]);
                        assert(addressed(sub1, w, i));
                    }
                }
            }
            k = k + 1;
        }
        proof {
            assert(coords@.subrange(0, coords@.len() as int) =~= coords@);
        }
    }

    /// Borrow the cell buffer as a slice, in row-major order.
    pub fn get_cells(&self) -> (cells: &[Cell])
        ensures
            cells@ == self.spec_cells(),
    {
        self.cells.as_slice()
    }

    /// Draw the grid as text: `height` lines, top to bottom, each holding
    /// the `width` glyphs of one row followed by a line break. A pure
    /// projection of the current state; the grid is not changed.
    pub fn render(&self) -> (text: String)
        requires
            self.well_formed(),
        ensures
            text@ == rendered_rows(
                self.spec_cells(),
                self.spec_width() as int,
                self.spec_height() as int,
            ),
    {
        let w = self.width;
        let h = self.height;
        let ghost cells0 = self.spec_cells();
        let mut text = String::new();
        let mut row: u32 = 0;
        while row < h
            invariant
                self.well_formed(),
                w == self.spec_width(),
                h == self.spec_height(),
                cells0 == self.spec_cells(),
                row <= h,
                text@ == rendered_rows(cells0, w as int, row as int),
            decreases h - row,
        {
            let mut col: u32 = 0;
            while col < w
                invariant
                    self.well_formed(),
                    w == self.spec_width(),
                    h == self.spec_height(),
                    cells0 == self.spec_cells(),
                    row < h,
                    col <= w,
                    text@ == rendered_rows(cells0, w as int, row as int) + rendered_line(
                        cells0,
                        w as int,
                        row as int,
                    ).subrange(0, col as int),
                decreases w - col,
            {
                let idx = self.get_index(row, col);
                let ghost line = rendered_line(cells0, w as int, row as int);
                match self.cells[idx] {
                    Cell::Alive => text.append("◼"),
                    Cell::Dead => text.append("◻"),
                }
                proof {
                    reveal_strlit("◼");
                    reveal_strlit("◻");
                    assert(line.subrange(0, col as int + 1) =~= line.subrange(0, col as int)
                        + seq![glyph(cells0[idx as int])]);
                }
                col = col + 1;
            }
            proof {
                let line = rendered_line(cells0, w as int, row as int);
                reveal_strlit("\n");
                assert(line.subrange(0, w as int) =~= line);
            }
            text.append("\n");
            row = row + 1;
        }
        text
    }

    /// Borrow the cell buffer itself, for zero-copy rendering by a host.
    /// The borrow must not be held across `tick`, `set_width` or
    /// `set_height`, which replace the buffer.
    pub fn cells(&self) -> (cells: &Vec<Cell>)
        ensures
            cells@ == self.spec_cells(),
    {
        &self.cells
    }
}

/// Whether every cell of a buffer is `Dead`.
pub open spec fn all_dead(cells: Seq<Cell>) -> bool {
    forall|i: int| 0 <= i < cells.len() ==> cells[i] == Cell::Dead
}

/// The grid contents after `n` generations.
pub open spec fn next_gen_n(cells: Seq<Cell>, w: int, h: int, n: nat) -> Seq<Cell>
    decreases n,
{
    if n == 0 {
        cells
    } else {
        next_gen(next_gen_n(cells, w, h, (n - 1) as nat), w, h)
    }
}

/// A linear index into a `w`-by-`h` buffer decomposes into an in-bounds row
/// `i / w` and column `i % w`.
proof fn lemma_row_col_of_index(w: int, h: int, i: int)
    requires
        w >= 1,
        h >= 1,
        0 <= i < w * h,
    ensures
        0 <= i / w < h,
        0 <= i % w < w,
        (i / w) * w + (i % w) == i,
{
    lemma_fundamental_div_mod(i, w);
    if i / w >= h {
        lemma_mul_inequality(h, i / w, w);
        assert(h * w == w * h) by (nonlinear_arith);
    }
    if i / w < 0 {
        assert(w * (i / w) <= -w) by (nonlinear_arith)
            requires
                w >= 1,
                i / w <= -1,
        ;
    }
    assert((i / w) * w == w * (i / w)) by (nonlinear_arith);
}

/// Distinct in-bounds coordinate pairs address distinct linear indices.
proof fn lemma_distinct_index(w: int, r1: int, c1: int, r2: int, c2: int)
    requires
        w >= 1,
        0 <= r1,
        0 <= c1 < w,
        0 <= r2,
        0 <= c2 < w,
        !(r1 == r2 && c1 == c2),
    ensures
        r1 * w + c1 != r2 * w + c2,
{
    if r1 * w + c1 == r2 * w + c2 {
        lemma_fundamental_div_mod_converse(r1 * w + c1, w, r1, c1);
        lemma_fundamental_div_mod_converse(r2 * w + c2, w, r2, c2);
    }
}

/// In a grid with every cell dead, every cell counts zero live neighbors.
proof fn lemma_all_dead_no_neighbors(cells: Seq<Cell>, w: int, h: int, row: int, col: int)
    requires
        w >= 1,
        h >= 1,
        cells.len() == w * h,
        all_dead(cells),
        0 <= row < h,
        0 <= col < w,
    ensures
        live_neighbors(cells, w, h, row, col) == 0,
{
    let rm = (row + (h - 1)) % h;
    let rp = (row + 1) % h;
    let cm = (col + (w - 1)) % w;
    let cp = (col + 1) % w;
    lemma_index_in_bounds(w, h, rm, cm);
    lemma_index_in_bounds(w, h, rm, col);
    lemma_index_in_bounds(w, h, rm, cp);
    lemma_index_in_bounds(w, h, row, cm);
    lemma_index_in_bounds(w, h, row, cp);
    lemma_index_in_bounds(w, h, rp, cm);
    lemma_index_in_bounds(w, h, rp, col);
    lemma_index_in_bounds(w, h, rp, cp);
    assert(h * w == w * h) by (nonlinear_arith);
}

/// Neighbor counting is toroidal: the cell at `(h - 1, w - 1)` is the
/// up-left diagonal neighbor of the cell at `(0, 0)`, and its state — and
/// nothing else about it — enters that cell's neighbor count. Two grids that
/// differ only in that far corner have `(0, 0)` neighbor counts that differ
/// exactly by the corner's weight difference. (On grids narrower or shorter
/// than 3 the wrapped neighborhood of `(0, 0)` reaches the corner more than
/// once, so the single-count statement is made for dimensions of at least
/// 3.)
pub proof fn lemma_toroidal_corner_counted(cells1: Seq<Cell>, cells2: Seq<Cell>, w: int, h: int)
    requires
        w >= 3,
        h >= 3,
        cells1.len() == w * h,
        cells2.len() == w * h,
        forall|i: int|
            0 <= i < w * h && i != (h - 1) * w + (w - 1) ==> cells1[i] == cells2[i],
    ensures
        live_neighbors(cells1, w, h, 0, 0) - cell_weight(cells1[(h - 1) * w + (w - 1)])
            == live_neighbors(cells2, w, h, 0, 0) - cell_weight(cells2[(h - 1) * w + (w - 1)]),
{
    lemma_wrapped_offsets(h, 0);
    lemma_wrapped_offsets(w, 0);
    let corner = (h - 1) * w + (w - 1);
    lemma_index_in_bounds(w, h, h - 1, 0);
    lemma_index_in_bounds(w, h, h - 1, 1);
    lemma_index_in_bounds(w, h, 0, w - 1);
    lemma_index_in_bounds(w, h, 0, 1);
    lemma_index_in_bounds(w, h, 1, w - 1);
    lemma_index_in_bounds(w, h, 1, 0);
    lemma_index_in_bounds(w, h, 1, 1);
    lemma_distinct_index(w, h - 1, 0, h - 1, w - 1);
    lemma_distinct_index(w, h - 1, 1, h - 1, w - 1);
    lemma_distinct_index(w, 0, w - 1, h - 1, w - 1);
    lemma_distinct_index(w, 0, 1, h - 1, w - 1);
    lemma_distinct_index(w, 1, w - 1, h - 1, w - 1);
    lemma_distinct_index(w, 1, 0, h - 1, w - 1);
    lemma_distinct_index(w, 1, 1, h - 1, w - 1);
}

/// Advancing a generation is deterministic: it is a pure function of the
/// grid contents and dimensions, so equal grids advance to equal grids.
pub proof fn lemma_tick_deterministic(cells1: Seq<Cell>, cells2: Seq<Cell>, w: int, h: int)
    requires
        cells1 == cells2,
    ensures
        next_gen(cells1, w, h) == next_gen(cells2, w, h),
{
}

/// Stasis: a grid with every cell dead stays all dead after any number of
/// generations.
pub proof fn lemma_dead_grid_stays_dead(cells: Seq<Cell>, w: int, h: int, n: nat)
    requires
        w >= 1,
        h >= 1,
        cells.len() == w * h,
        all_dead(cells),
    ensures
        next_gen_n(cells, w, h, n).len() == w * h,
        all_dead(next_gen_n(cells, w, h, n)),
    decreases n,
{
    if n > 0 {
        lemma_dead_grid_stays_dead(cells, w, h, (n - 1) as nat);
        let prev = next_gen_n(cells, w, h, (n - 1) as nat);
        assert forall|i: int| 0 <= i < w * h implies next_gen(prev, w, h)[i] == Cell::Dead by {
            lemma_row_col_of_index(w, h, i);
            lemma_all_dead_no_neighbors(prev, w, h, i / w, i % w);
        }
    }
}

/// The shape of rendered text: `rows` lines of `w` glyphs, each line closed
/// by a line break, so the text holds exactly `rows * (w + 1)` characters,
/// line `r` occupies positions `r * (w + 1)` up to but not including
/// `r * (w + 1) + w`, and a line break stands at position `r * (w + 1) + w`.
pub proof fn lemma_render_shape(cells: Seq<Cell>, w: int, rows: int)
    requires
        w >= 0,
        rows >= 0,
    ensures
        rendered_rows(cells, w, rows).len() == rows * (w + 1),
        forall|r: int|
            0 <= r < rows ==> rendered_rows(cells, w, rows).subrange(r * (w + 1), r * (w + 1) + w)
                == #[trigger] rendered_line(cells, w, r),
        forall|r: int|
            0 <= r < rows ==> rendered_rows(cells, w, rows).subrange(
                r * (w + 1),
                r * (w + 1) + w + 1,
            ) == #[trigger] rendered_line(cells, w, r) + seq!['\n'],
    decreases rows,
{
    let full = rendered_rows(cells, w, rows);
    if rows == 0 {
        assert(rows * (w + 1) == 0) by (nonlinear_arith)
            requires
                rows == 0,
        ;
    } else {
        lemma_render_shape(cells, w, rows - 1);
        let prev = rendered_rows(cells, w, rows - 1);
        let line = rendered_line(cells, w, rows - 1);
        assert(rows * (w + 1) == (rows - 1) * (w + 1) + (w + 1)) by (nonlinear_arith);
        assert forall|r: int| 0 <= r < rows implies full.subrange(r * (w + 1), r * (w + 1) + w)
            == rendered_line(cells, w, r) && full.subrange(r * (w + 1), r * (w + 1) + w + 1)
            == rendered_line(cells, w, r) + seq!['\n'] by {
            if r < rows - 1 {
                lemma_mul_inequality(r, rows - 2, w + 1);
                assert((rows - 1) * (w + 1) == (rows - 2) * (w + 1) + (w + 1)) by (nonlinear_arith);
                assert(full.subrange(r * (w + 1), r * (w + 1) + w) =~= prev.subrange(
                    r * (w + 1),
                    r * (w + 1) + w,
                ));
                assert(full.subrange(r * (w + 1), r * (w + 1) + w + 1) =~= prev.subrange(
                    r * (w + 1),
                    r * (w + 1) + w + 1,
                ));
            } else {
                assert(full.subrange(r * (w + 1), r * (w + 1) + w) =~= line);
                assert(full.subrange(r * (w + 1), r * (w + 1) + w + 1) =~= line + seq!['\n']);
            }
        }
    }
}

/// A buffer of `n` dead cells.
fn dead_buffer(n: u32) -> (cells: Vec<Cell>)
    ensures
        cells@.len() == n,
        forall|i: int| 0 <= i < n ==> cells@[i] == Cell::Dead,
{
    let mut cells: Vec<Cell> = Vec::new();
    let mut i: u32 = 0;
    while i < n
        invariant
            i <= n,
            cells@.len() == i,
            forall|j: int| 0 <= j < i ==> cells@[j] == Cell::Dead,
        decreases n - i,
    {
        cells.push(Cell::Dead);
        i = i + 1;
    }
    cells
}

} // verus!

