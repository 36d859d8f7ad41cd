//! The mine field: a grid of cells with mine placement, neighbor counts,
//! flood-fill revelation and flag bookkeeping.
//!
//! The grid is stored row-major in a single vector. A field starts blank and
//! is populated with mines exactly once, either eagerly or lazily on the
//! first reveal, which is then guaranteed mine-free.

use vstd::prelude::*;
use vstd::seq_lib::lemma_seq_contains_after_push;

use crate::rng::{MineSampler, SystemSampler};

verus! {

/// One grid position.
#[derive(Clone, Copy, Debug, PartialEq, Eq, Structural)]
pub struct Cell {
    pub has_mine: bool,
    pub revealed: bool,
    pub flagged: bool,
    /// How many of the up-to-8 adjacent cells hold a mine.
    pub neighboring_mines: u8,
}

impl Cell {
    /// A fresh cell: no mine, hidden, unflagged, zero neighbor count.
    pub open spec fn blank() -> Cell {
        Cell { has_mine: false, revealed: false, flagged: false, neighboring_mines: 0 }
    }
}

impl Default for Cell {
    fn default() -> (c: Cell)
        ensures
            c == Cell::blank(),
    {
        Cell { has_mine: false, revealed: false, flagged: false, neighboring_mines: 0 }
    }
}

/// What `reveal` did: nothing (the cell was already revealed, or flagged),
/// a detonation, or the set of coordinates it newly revealed.
#[derive(Debug)]
pub enum RevealResult {
    Nothing,
    Success(Vec<(u8, u8)>),
    Mine,
}

/// What `toggle_flag` did: nothing (the cell was revealed), or which way the
/// flag flipped.
#[derive(Clone, Copy, Debug, PartialEq, Eq, Structural)]
pub enum ToggleFlagResult {
    Nothing,
    Flagged,
    Unflagged,
}

// Counters over the cell vector, each summing a suffix `s[i..]`.

/// How many cells of `s[i..]` hold a mine.
pub open spec fn count_mines_from(s: Seq<Cell>, i: int) -> int
    decreases s.len() - i,
{
    if i < 0 || i >= s.len() {
        0
    } else {
        (if s[i].has_mine { 1int } else { 0int }) + count_mines_from(s, i + 1)
    }
}

/// How many cells of `s[i..]` are flagged.
pub open spec fn count_flagged_from(s: Seq<Cell>, i: int) -> int
    decreases s.len() - i,
{
    if i < 0 || i >= s.len() {
        0
    } else {
        (if s[i].flagged { 1int } else { 0int }) + count_flagged_from(s, i + 1)
    }
}

/// How many cells of `s[i..]` are revealed.
pub open spec fn count_revealed_from(s: Seq<Cell>, i: int) -> int
    decreases s.len() - i,
{
    if i < 0 || i >= s.len() {
        0
    } else {
        (if s[i].revealed { 1int } else { 0int }) + count_revealed_from(s, i + 1)
    }
}

/// How many cells of `s[i..]` are free for a mine: unmined and not at the
/// protected index `safe`.
pub open spec fn count_free_from(s: Seq<Cell>, safe: int, i: int) -> int
    decreases s.len() - i,
{
    if i < 0 || i >= s.len() {
        0
    } else {
        (if !s[i].has_mine && i != safe { 1int } else { 0int }) + count_free_from(s, safe, i + 1)
    }
}

proof fn lemma_count_flagged_update(s: Seq<Cell>, j: int, c: Cell, i: int)
    requires
        0 <= j < s.len(),
        0 <= i,
    ensures
        count_flagged_from(s.update(j, c), i) == count_flagged_from(s, i) + if i <= j {
            (if c.flagged { 1int } else { 0int }) - (if s[j].flagged { 1int } else { 0int })
        } else {
            0int
        },
    decreases s.len() - i,
{
    if i < s.len() {
        lemma_count_flagged_update(s, j, c, i + 1);
    }
}

proof fn lemma_count_revealed_update(s: Seq<Cell>, j: int, c: Cell, i: int)
    requires
        0 <= j < s.len(),
        0 <= i,
    ensures
        count_revealed_from(s.update(j, c), i) == count_revealed_from(s, i) + if i <= j {
            (if c.revealed { 1int } else { 0int }) - (if s[j].revealed { 1int } else { 0int })
        } else {
            0int
        },
    decreases s.len() - i,
{
    if i < s.len() {
        lemma_count_revealed_update(s, j, c, i + 1);
    }
}

/// A suffix counter never exceeds the number of cells it ranges over.
proof fn lemma_count_flagged_bounds(s: Seq<Cell>, i: int)
    requires
        0 <= i,
    ensures
        0 <= count_flagged_from(s, i),
        i <= s.len() ==> count_flagged_from(s, i) <= s.len() - i,
    decreases s.len() - i,
{
    if i < s.len() {
        lemma_count_flagged_bounds(s, i + 1);
    }
}

proof fn lemma_count_revealed_bounds(s: Seq<Cell>, i: int)
    requires
        0 <= i,
    ensures
        0 <= count_revealed_from(s, i),
        i <= s.len() ==> count_revealed_from(s, i) <= s.len() - i,
    decreases s.len() - i,
{
    if i < s.len() {
        lemma_count_revealed_bounds(s, i + 1);
    }
}

/// A flagged cell within the counted suffix forces a positive count.
proof fn lemma_count_flagged_at_least_one(s: Seq<Cell>, j: int, i: int)
    requires
        0 <= i <= j < s.len(),
        s[j].flagged,
    ensures
        count_flagged_from(s, i) >= 1,
    decreases s.len() - i,
{
    lemma_count_flagged_bounds(s, i + 1);
    if i < j {
        lemma_count_flagged_at_least_one(s, j, i + 1);
    }
}

proof fn lemma_count_flagged_all_clear(s: Seq<Cell>, i: int)
    requires
        0 <= i,
        forall|k: int| 0 <= k < s.len() ==> !(#[trigger] s[k]).flagged,
    ensures
        count_flagged_from(s, i) == 0,
    decreases s.len() - i,
{
    if i < s.len() {
        lemma_count_flagged_all_clear(s, i + 1);
    }
}

proof fn lemma_count_mines_all_clear(s: Seq<Cell>, i: int)
    requires
        0 <= i,
        forall|k: int| 0 <= k < s.len() ==> !(#[trigger] s[k]).has_mine,
    ensures
        count_mines_from(s, i) == 0,
    decreases s.len() - i,
{
    if i < s.len() {
        lemma_count_mines_all_clear(s, i + 1);
    }
}

/// The free cells of a suffix are all of it except the mined ones and, where
/// it lies in the suffix and is unmined, the protected cell.
proof fn lemma_count_free_exact(s: Seq<Cell>, safe: int, i: int)
    requires
        0 <= i <= s.len(),
    ensures
        count_free_from(s, safe, i) == (s.len() - i) - count_mines_from(s, i) - if i <= safe
            < s.len() && !s[safe].has_mine {
            1int
        } else {
            0int
        },
    decreases s.len() - i,
{
    if i < s.len() {
        lemma_count_free_exact(s, safe, i + 1);
    }
}

/// Two sequences with the same mine layout except at `j`, where a mine was
/// added, differ by exactly one in any suffix count that covers `j`.
proof fn lemma_count_mines_one_set(s: Seq<Cell>, t: Seq<Cell>, j: int, i: int)
    requires
        s.len() == t.len(),
        0 <= j < s.len(),
        !s[j].has_mine,
        t[j].has_mine,
        forall|k: int| 0 <= k < s.len() && k != j ==> (#[trigger] t[k]).has_mine == s[k].has_mine,
        0 <= i,
    ensures
        count_mines_from(t, i) == count_mines_from(s, i) + if i <= j {
            1int
        } else {
            0int
        },
    decreases s.len() - i,
{
    if i < s.len() {
        lemma_count_mines_one_set(s, t, j, i + 1);
    }
}

/// Suffix mine counts agree wherever the per-cell mine bits agree.
proof fn lemma_count_mines_same(s: Seq<Cell>, t: Seq<Cell>, i: int)
    requires
        s.len() == t.len(),
        forall|k: int| 0 <= k < s.len() ==> (#[trigger] t[k]).has_mine == s[k].has_mine,
        0 <= i,
    ensures
        count_mines_from(t, i) == count_mines_from(s, i),
    decreases s.len() - i,
{
    if i < s.len() {
        lemma_count_mines_same(s, t, i + 1);
    }
}

/// Suffix flag counts agree wherever the per-cell flags agree.
proof fn lemma_count_flagged_same(s: Seq<Cell>, t: Seq<Cell>, i: int)
    requires
        s.len() == t.len(),
        forall|k: int| 0 <= k < s.len() ==> (#[trigger] t[k]).flagged == s[k].flagged,
        0 <= i,
    ensures
        count_flagged_from(t, i) == count_flagged_from(s, i),
    decreases s.len() - i,
{
    if i < s.len() {
        lemma_count_flagged_same(s, t, i + 1);
    }
}

/// A mine-layout change below the suffix start leaves its free count alone.
proof fn lemma_count_free_suffix_same(s: Seq<Cell>, t: Seq<Cell>, safe: int, j: int, i: int)
    requires
        s.len() == t.len(),
        forall|k: int| 0 <= k < s.len() && k != j ==> (#[trigger] t[k]).has_mine == s[k].has_mine,
        j < i,
        0 <= i,
    ensures
        count_free_from(t, safe, i) == count_free_from(s, safe, i),
    decreases s.len() - i,
{
    if i < s.len() {
        lemma_count_free_suffix_same(s, t, safe, j, i + 1);
    }
}

// Row-major index arithmetic.

proof fn lemma_grid_index_bounds(w: int, h: int, x: int, y: int)
    by (nonlinear_arith)
    requires
        1 <= w,
        1 <= h,
        0 <= x < w,
        0 <= y < h,
    ensures
        0 <= x + y * w,
        x + y * w < w * h,
{
}

proof fn lemma_grid_index_injective(w: int, x1: int, y1: int, x2: int, y2: int)
    by (nonlinear_arith)
    requires
        1 <= w,
        0 <= x1 < w,
        0 <= x2 < w,
        x1 + y1 * w == x2 + y2 * w,
    ensures
        x1 == x2 && y1 == y2,
{
}

proof fn lemma_grid_size_bound(w: int, h: int)
    by (nonlinear_arith)
    requires
        0 <= w <= 255,
        0 <= h <= 255,
    ensures
        w * h <= 65025,
{
}

proof fn lemma_divmod(w: int, h: int, idx: int)
    by (nonlinear_arith)
    requires
        1 <= w,
        1 <= h,
        0 <= idx < w * h,
    ensures
        0 <= idx % w < w,
        0 <= idx / w < h,
        (idx % w) + (idx / w) * w == idx,
{
}

/// Whether `(x1, y1)` and `(x2, y2)` are distinct cells of one 3-by-3
/// neighborhood.
pub open spec fn adjacent_coords(x1: int, y1: int, x2: int, y2: int) -> bool {
    &&& !(x1 == x2 && y1 == y2)
    &&& -1 <= x1 - x2 <= 1
    &&& -1 <= y1 - y2 <= 1
}

/// The mine field.
#[derive(Debug)]
pub struct Field {
    cells: Vec<Cell>,
    width: u8,
    height: u8,
    mine_count: u16,
    flagged_cells: u16,
    populated: bool,
}

impl View for Field {
    type V = Seq<Cell>;

    closed spec fn view(&self) -> Seq<Cell> {
        self.cells@
    }
}

impl Field {
    /// Grid width, as a mathematical integer.
    pub closed spec fn grid_width(self) -> int {
        self.width as int
    }

    /// Grid height, as a mathematical integer.
    pub closed spec fn grid_height(self) -> int {
        self.height as int
    }

    /// How many mines the field holds once populated.
    pub closed spec fn mines(self) -> int {
        self.mine_count as int
    }

    /// The running count of flagged cells.
    pub closed spec fn flag_count(self) -> int {
        self.flagged_cells as int
    }

    /// Whether mines have been placed yet.
    pub closed spec fn is_populated(self) -> bool {
        self.populated
    }

    /// The row-major index of `(x, y)`.
    pub open spec fn sidx(self, x: int, y: int) -> int {
        x + y * self.grid_width()
    }

    /// Whether `(x, y)` lies on the grid.
    pub open spec fn in_bounds(self, x: int, y: int) -> bool {
        0 <= x < self.grid_width() && 0 <= y < self.grid_height()
    }

    /// The cell at `(x, y)`.
    pub open spec fn cell_at(self, x: int, y: int) -> Cell {
        self@[self.sidx(x, y)]
    }

    /// 1 where `(x, y)` is an in-bounds mine, else 0; clips at the edges.
    pub open spec fn mine_at(self, x: int, y: int) -> int {
        if self.in_bounds(x, y) && self.cell_at(x, y).has_mine {
            1int
        } else {
            0int
        }
    }

    /// The exact number of mines among the up-to-8 neighbors of `(x, y)`.
    pub open spec fn adjacent_mines(self, x: int, y: int) -> int {
        self.mine_at(x - 1, y - 1) + self.mine_at(x, y - 1) + self.mine_at(x + 1, y - 1)
            + self.mine_at(x - 1, y) + self.mine_at(x + 1, y) + self.mine_at(x - 1, y + 1)
            + self.mine_at(x, y + 1) + self.mine_at(x + 1, y + 1)
    }

    /// Every in-bounds cell carries its exact neighbor-mine count.
    pub open spec fn counts_ok(self) -> bool {
        forall|x: int, y: int|
            self.in_bounds(x, y) ==> self.cell_at(x, y).neighboring_mines == #[trigger] self.adjacent_mines(x, y)
    }

    /// An unpopulated field has no mines, nothing revealed, and zero counts.
    pub open spec fn blank_cells(self) -> bool {
        forall|i: int|
            0 <= i < self@.len() ==> !(#[trigger] self@[i]).has_mine && !self@[i].revealed
                && self@[i].neighboring_mines == 0
    }

    /// The cell vector matches the grid dimensions.
    pub open spec fn dims_ok(self) -> bool {
        &&& self@.len() == self.grid_width() * self.grid_height()
        &&& 1 <= self.grid_width()
        &&& 1 <= self.grid_height()
    }

    /// The field's invariant: the vector matches the dimensions, a cell is
    /// always left for the first click, the flag counter is live, and the
    /// mine counters are exact once populated.
    pub closed spec fn wf(self) -> bool {
        &&& self.dims_ok()
        &&& self.mines() <= self.grid_width() * self.grid_height() - 1
        &&& self.flag_count() == count_flagged_from(self@, 0)
        &&& (self.is_populated() ==> count_mines_from(self@, 0) == self.mines())
        &&& (self.is_populated() ==> self.counts_ok())
        &&& (!self.is_populated() ==> self.blank_cells())
    }

    /// Allocates a `width` by `height` grid of blank cells; mines are placed
    /// later. `mine_count` must leave at least one cell free.
    pub fn new(width: u8, height: u8, mine_count: u16) -> (f: Field)
        requires
            width >= 1,
            height >= 1,
            mine_count as int <= width as int * height as int - 1,
        ensures
            f.wf(),
            !f.is_populated(),
            f.grid_width() == width as int,
            f.grid_height() == height as int,
            f.mines() == mine_count as int,
            f.flag_count() == 0,
            forall|i: int| 0 <= i < f@.len() ==> #[trigger] f@[i] == Cell::blank(),
    {
        proof {
            lemma_grid_size_bound(width as int, height as int);
        }
        let n: usize = width as usize * height as usize;
        let mut cells: Vec<Cell> = Vec::new();
        let mut i: usize = 0;
        while i < n
            invariant
                i <= n,
                cells@.len() == i as int,
                forall|k: int| 0 <= k < i as int ==> #[trigger] cells@[k] == Cell::blank(),
            decreases n - i,
        {
            cells.push(Cell::default());
            i = i + 1;
        }
        let f = Field { cells, width, height, mine_count, flagged_cells: 0, populated: false };
        proof {
            lemma_count_flagged_all_clear(f@, 0);
        }
        f
    }

    pub fn mine_count(&self) -> (r: u16)
        ensures
            r as int == self.mines(),
    {
        self.mine_count
    }

    pub fn flagged_cells(&self) -> (r: u16)
        ensures
            r as int == self.flag_count(),
    {
        self.flagged_cells
    }

    pub fn width(&self) -> (r: u8)
        ensures
            r as int == self.grid_width(),
    {
        self.width
    }

    pub fn height(&self) -> (r: u8)
        ensures
            r as int == self.grid_height(),
    {
        self.height
    }

    /// The row-major index of `(x, y)` in the cell vector.
    fn cell_index(&self, x: u8, y: u8) -> (r: usize)
        requires
            self.dims_ok(),
            (x as int) < self.grid_width(),
            (y as int) < self.grid_height(),
        ensures
            r as int == self.sidx(x as int, y as int),
            r < self@.len(),
    {
        proof {
            lemma_grid_index_bounds(self.grid_width(), self.grid_height(), x as int, y as int);
            lemma_grid_size_bound(self.grid_width(), self.grid_height());
        }
        x as usize + y as usize * self.width as usize
    }

    /// A read-only view of one cell.
    pub fn get_cell(&self, x: u8, y: u8) -> (c: &Cell)
        requires
            self.wf(),
            (x as int) < self.grid_width(),
            (y as int) < self.grid_height(),
        ensures
            *c == self.cell_at(x as int, y as int),
    {
        let idx = self.cell_index(x, y);
        &self.cells[idx]
    }
}

/// Updating one cell changes `cell_at` exactly at that coordinate.
proof fn lemma_cell_at_update(f0: Field, f1: Field, mx: int, my: int, c: Cell)
    requires
        f0.dims_ok(),
        f1.grid_width() == f0.grid_width(),
        f1.grid_height() == f0.grid_height(),
        f0.in_bounds(mx, my),
        f1@ == f0@.update(f0.sidx(mx, my), c),
    ensures
        f1@.len() == f0@.len(),
        f1.cell_at(mx, my) == c,
        forall|x: int, y: int|
            f0.in_bounds(x, y) && !(x == mx && y == my) ==> #[trigger] f1.cell_at(x, y)
                == f0.cell_at(x, y),
        forall|i: int|
            0 <= i < f0@.len() && i != f0.sidx(mx, my) ==> #[trigger] f1@[i] == f0@[i],
{
    lemma_grid_index_bounds(f0.grid_width(), f0.grid_height(), mx, my);
    assert forall|x: int, y: int|
        f0.in_bounds(x, y) && !(x == mx && y == my) implies #[trigger] f1.cell_at(x, y)
        == f0.cell_at(x, y) by {
        lemma_grid_index_bounds(f0.grid_width(), f0.grid_height(), x, y);
        if f0.sidx(x, y) == f0.sidx(mx, my) {
            lemma_grid_index_injective(f0.grid_width(), x, y, mx, my);
        }
    }
}

/// `mine_at` after setting the mine bit at `(mx, my)`: one where the
/// coordinate is hit, otherwise whatever it was.
proof fn lemma_mine_at_one_set(f0: Field, f1: Field, mx: int, my: int, x: int, y: int)
    requires
        f0.dims_ok(),
        f1.grid_width() == f0.grid_width(),
        f1.grid_height() == f0.grid_height(),
        f1@.len() == f0@.len(),
        f0.in_bounds(mx, my),
        !f0.cell_at(mx, my).has_mine,
        f1.cell_at(mx, my).has_mine,
        forall|i: int|
            0 <= i < f0@.len() && i != f0.sidx(mx, my) ==> (#[trigger] f1@[i]).has_mine
                == f0@[i].has_mine,
    ensures
        f1.mine_at(x, y) == f0.mine_at(x, y) + if x == mx && y == my {
            1int
        } else {
            0int
        },
{
    lemma_grid_index_bounds(f0.grid_width(), f0.grid_height(), mx, my);
    if f0.in_bounds(x, y) {
        lemma_grid_index_bounds(f0.grid_width(), f0.grid_height(), x, y);
        if !(x == mx && y == my) && f0.sidx(x, y) == f0.sidx(mx, my) {
            lemma_grid_index_injective(f0.grid_width(), x, y, mx, my);
        }
    }
}

/// Setting the mine bit at `(mx, my)` raises `adjacent_mines` by one exactly
/// at the in-bounds neighbors of `(mx, my)`.
proof fn lemma_adjacent_one_set(f0: Field, f1: Field, mx: int, my: int, x: int, y: int)
    requires
        f0.dims_ok(),
        f1.grid_width() == f0.grid_width(),
        f1.grid_height() == f0.grid_height(),
        f1@.len() == f0@.len(),
        f0.in_bounds(mx, my),
        !f0.cell_at(mx, my).has_mine,
        f1.cell_at(mx, my).has_mine,
        forall|i: int|
            0 <= i < f0@.len() && i != f0.sidx(mx, my) ==> (#[trigger] f1@[i]).has_mine
                == f0@[i].has_mine,
    ensures
        f1.adjacent_mines(x, y) == f0.adjacent_mines(x, y) + if adjacent_coords(mx, my, x, y) {
            1int
        } else {
            0int
        },
{
    lemma_mine_at_one_set(f0, f1, mx, my, x - 1, y - 1);
    lemma_mine_at_one_set(f0, f1, mx, my, x, y - 1);
    lemma_mine_at_one_set(f0, f1, mx, my, x + 1, y - 1);
    lemma_mine_at_one_set(f0, f1, mx, my, x - 1, y);
    lemma_mine_at_one_set(f0, f1, mx, my, x + 1, y);
    lemma_mine_at_one_set(f0, f1, mx, my, x - 1, y + 1);
    lemma_mine_at_one_set(f0, f1, mx, my, x, y + 1);
    lemma_mine_at_one_set(f0, f1, mx, my, x + 1, y + 1);
    lemma_grid_index_bounds(f0.grid_width(), f0.grid_height(), mx, my);
}

/// `adjacent_mines` depends only on the mine layout, not on flags, reveals
/// or stored counts.
proof fn lemma_adjacent_same_mines(a: Field, b: Field, x: int, y: int)
    requires
        a.dims_ok(),
        b.grid_width() == a.grid_width(),
        b.grid_height() == a.grid_height(),
        b@.len() == a@.len(),
        forall|i: int| 0 <= i < a@.len() ==> (#[trigger] b@[i]).has_mine == a@[i].has_mine,
    ensures
        b.adjacent_mines(x, y) == a.adjacent_mines(x, y),
{
    lemma_mine_at_same(a, b, x - 1, y - 1);
    lemma_mine_at_same(a, b, x, y - 1);
    lemma_mine_at_same(a, b, x + 1, y - 1);
    lemma_mine_at_same(a, b, x - 1, y);
    lemma_mine_at_same(a, b, x + 1, y);
    lemma_mine_at_same(a, b, x - 1, y + 1);
    lemma_mine_at_same(a, b, x, y + 1);
    lemma_mine_at_same(a, b, x + 1, y + 1);
}

proof fn lemma_mine_at_same(a: Field, b: Field, x: int, y: int)
    requires
        a.dims_ok(),
        b.grid_width() == a.grid_width(),
        b.grid_height() == a.grid_height(),
        b@.len() == a@.len(),
        forall|i: int| 0 <= i < a@.len() ==> (#[trigger] b@[i]).has_mine == a@[i].has_mine,
    ensures
        b.mine_at(x, y) == a.mine_at(x, y),
{
    if a.in_bounds(x, y) {
        lemma_grid_index_bounds(a.grid_width(), a.grid_height(), x, y);
        assert(b@[a.sidx(x, y)].has_mine == a@[a.sidx(x, y)].has_mine);
    }
}

/// A blank field's stored neighbor counts are already exact: no mines, no
/// counts.
proof fn lemma_mine_at_zero(f: Field, x: int, y: int)
    requires
        f.dims_ok(),
        f.blank_cells(),
    ensures
        f.mine_at(x, y) == 0,
{
    if f.in_bounds(x, y) {
        lemma_grid_index_bounds(f.grid_width(), f.grid_height(), x, y);
    }
}

proof fn lemma_blank_counts_ok(f: Field)
    requires
        f.dims_ok(),
        f.blank_cells(),
    ensures
        f.counts_ok(),
        count_mines_from(f@, 0) == 0,
{
    lemma_count_mines_all_clear(f@, 0);
    assert forall|x: int, y: int| f.in_bounds(x, y) implies (#[trigger] f.cell_at(
        x,
        y,
    )).neighboring_mines == f.adjacent_mines(x, y) by {
        lemma_grid_index_bounds(f.grid_width(), f.grid_height(), x, y);
        lemma_mine_at_zero(f, x - 1, y - 1);
        lemma_mine_at_zero(f, x, y - 1);
        lemma_mine_at_zero(f, x + 1, y - 1);
        lemma_mine_at_zero(f, x - 1, y);
        lemma_mine_at_zero(f, x + 1, y);
        lemma_mine_at_zero(f, x - 1, y + 1);
        lemma_mine_at_zero(f, x, y + 1);
        lemma_mine_at_zero(f, x + 1, y + 1);
    }
}

/// The state kept through mine placement: a still-unpopulated field whose
/// placed mines carry exact neighbor counts, with flags untouched, nothing
/// revealed, and the protected cell still free.
spec fn populating_inv(pre: Field, cur: Field, safe_cell: Option<(u8, u8)>) -> bool {
    &&& cur.grid_width() == pre.grid_width()
    &&& cur.grid_height() == pre.grid_height()
    &&& cur.mines() == pre.mines()
    &&& cur.flag_count() == pre.flag_count()
    &&& !cur.is_populated()
    &&& cur@.len() == pre@.len()
    &&& cur.dims_ok()
    &&& cur.counts_ok()
    &&& forall|i: int|
        0 <= i < pre@.len() ==> (#[trigger] cur@[i]).flagged == pre@[i].flagged
            && !cur@[i].revealed
    &&& (safe_cell matches Some(p) ==> !cur.cell_at(p.0 as int, p.1 as int).has_mine)
}

/// What population leaves behind: the same grid with the same flags, nothing
/// revealed, mines placed, and the protected cell mine-free.
pub open spec fn population_of(pre: Field, post: Field, safe_cell: Option<(u8, u8)>) -> bool {
    &&& post.grid_width() == pre.grid_width()
    &&& post.grid_height() == pre.grid_height()
    &&& post.mines() == pre.mines()
    &&& post.flag_count() == pre.flag_count()
    &&& post.is_populated()
    &&& post@.len() == pre@.len()
    &&& forall|i: int|
        0 <= i < pre@.len() ==> (#[trigger] post@[i]).flagged == pre@[i].flagged
            && !post@[i].revealed
    &&& (safe_cell matches Some(p) ==> !post.cell_at(p.0 as int, p.1 as int).has_mine)
}

impl Field {
    /// Raises the stored neighbor count of one cell by one.
    fn bump_count(&mut self, x: u8, y: u8)
        requires
            old(self).dims_ok(),
            old(self).in_bounds(x as int, y as int),
            old(self).cell_at(x as int, y as int).neighboring_mines < 255,
        ensures
            final(self).grid_width() == old(self).grid_width(),
            final(self).grid_height() == old(self).grid_height(),
            final(self).mines() == old(self).mines(),
            final(self).flag_count() == old(self).flag_count(),
            final(self).is_populated() == old(self).is_populated(),
            final(self)@.len() == old(self)@.len(),
            forall|i: int|
                0 <= i < old(self)@.len() && i != old(self).sidx(x as int, y as int) ==> (
                #[trigger] final(self)@[i]) == old(self)@[i],
            forall|a: int, b: int|
                old(self).in_bounds(a, b) && !(a == x as int && b == y as int) ==> (
                #[trigger] final(self).cell_at(a, b)) == old(self).cell_at(a, b),
            final(self).cell_at(x as int, y as int) == (Cell {
                neighboring_mines: (old(self).cell_at(x as int, y as int).neighboring_mines
                    + 1) as u8,
                ..old(self).cell_at(x as int, y as int)
            }),
    {
        let idx = self.cell_index(x, y);
        let mut c = self.cells[idx];
        c.neighboring_mines = c.neighboring_mines + 1;
        self.cells.set(idx, c);
        proof {
            lemma_cell_at_update(*old(self), *self, x as int, y as int, c);
        }
    }

    /// Sets the mine bit at `(mx, my)` and bumps the stored neighbor count of
    /// every surrounding in-bounds cell, clipping at the grid's edges.
    #[verifier::rlimit(50)]
    fn add_mine(&mut self, mx: u8, my: u8)
        requires
            old(self).dims_ok(),
            old(self).in_bounds(mx as int, my as int),
            !old(self).cell_at(mx as int, my as int).has_mine,
            old(self).counts_ok(),
        ensures
            final(self).grid_width() == old(self).grid_width(),
            final(self).grid_height() == old(self).grid_height(),
            final(self).mines() == old(self).mines(),
            final(self).flag_count() == old(self).flag_count(),
            final(self).is_populated() == old(self).is_populated(),
            final(self)@.len() == old(self)@.len(),
            forall|i: int|
                0 <= i < old(self)@.len() ==> (#[trigger] final(self)@[i]).revealed
                    == old(self)@[i].revealed && final(self)@[i].flagged == old(self)@[i].flagged,
            forall|i: int|
                0 <= i < old(self)@.len() && i != old(self).sidx(mx as int, my as int) ==> (
                #[trigger] final(self)@[i]).has_mine == old(self)@[i].has_mine,
            final(self).cell_at(mx as int, my as int).has_mine,
            final(self).counts_ok(),
            count_mines_from(final(self)@, 0) == count_mines_from(old(self)@, 0) + 1,
    {
        let midx = self.cell_index(mx, my);
        let mut c = self.cells[midx];
        c.has_mine = true;
        self.cells.set(midx, c);
        proof {
            lemma_cell_at_update(*old(self), *self, mx as int, my as int, c);
            lemma_count_mines_one_set(old(self)@, self@, midx as int, 0);
            // The stored counts still match the old layout, and each is the
            // exact neighbor count there, so none can reach 255.
            assert forall|a: int, b: int| old(self).in_bounds(a, b) implies (#[trigger] old(
                self,
            ).cell_at(a, b)).neighboring_mines <= 8 by {
                assert(old(self).cell_at(a, b).neighboring_mines == old(self).adjacent_mines(a, b));
            }
        }
        let ghost s1 = *self;
        proof {
            assert forall|a: int, b: int| s1.in_bounds(a, b) implies (#[trigger] s1.cell_at(
                a,
                b,
            )).neighboring_mines <= 8 by {
                assert(old(self).cell_at(a, b).neighboring_mines == old(self).adjacent_mines(a, b));
            }
        }

        // The 3-by-3 box around the mine, clipped to the grid.
        let xs = if mx > 0 { mx - 1 } else { 0 };
        let xe = if mx + 1 <= self.width - 1 { mx + 1 } else { self.width - 1 };
        let ys = if my > 0 { my - 1 } else { 0 };
        let ye = if my + 1 <= self.height - 1 { my + 1 } else { self.height - 1 };

        let mut xx = xs;
        while xx <= xe
            invariant
                xs <= xx,
                xx as int <= xe as int + 1,
                xs as int == if mx as int >= 1 { mx as int - 1 } else { 0int },
                xe as int == if mx as int + 1 <= s1.grid_width() - 1 { mx as int + 1 } else { s1.grid_width() - 1 },
                ys as int == if my as int >= 1 { my as int - 1 } else { 0int },
                ye as int == if my as int + 1 <= s1.grid_height() - 1 { my as int + 1 } else { s1.grid_height() - 1 },
                s1.in_bounds(mx as int, my as int),
                s1.dims_ok(),
                self.grid_width() == s1.grid_width(),
                self.grid_height() == s1.grid_height(),
                self.mines() == s1.mines(),
                self.flag_count() == s1.flag_count(),
                self.is_populated() == s1.is_populated(),
                self@.len() == s1@.len(),
                forall|a: int, b: int|
                    s1.in_bounds(a, b) ==> (#[trigger] s1.cell_at(a, b)).neighboring_mines <= 8,
                forall|i: int|
                    0 <= i < s1@.len() ==> (#[trigger] self@[i]).has_mine == s1@[i].has_mine
                        && self@[i].revealed == s1@[i].revealed && self@[i].flagged
                        == s1@[i].flagged,
                forall|a: int, b: int|
                    self.in_bounds(a, b) ==> (#[trigger] self.cell_at(a, b)).neighboring_mines
                        == s1.cell_at(a, b).neighboring_mines + if xs as int <= a < xx as int
                        && ys as int <= b <= ye as int && !(a == mx as int && b == my as int) {
                        1int
                    } else {
                        0int
                    },
            decreases xe as int + 1 - xx as int,
        {
            let mut yy = ys;
            while yy <= ye
                invariant
                    xs <= xx <= xe,
                    ys <= yy,
                    yy as int <= ye as int + 1,
                    xs as int == if mx as int >= 1 { mx as int - 1 } else { 0int },
                    xe as int == if mx as int + 1 <= s1.grid_width() - 1 { mx as int + 1 } else { s1.grid_width() - 1 },
                    ys as int == if my as int >= 1 { my as int - 1 } else { 0int },
                    ye as int == if my as int + 1 <= s1.grid_height() - 1 { my as int + 1 } else { s1.grid_height() - 1 },
                    s1.in_bounds(mx as int, my as int),
                    s1.dims_ok(),
                    self.grid_width() == s1.grid_width(),
                    self.grid_height() == s1.grid_height(),
                    self.mines() == s1.mines(),
                    self.flag_count() == s1.flag_count(),
                    self.is_populated() == s1.is_populated(),
                    self@.len() == s1@.len(),
                    forall|a: int, b: int|
                        s1.in_bounds(a, b) ==> (#[trigger] s1.cell_at(a, b)).neighboring_mines
                            <= 8,
                    forall|i: int|
                        0 <= i < s1@.len() ==> (#[trigger] self@[i]).has_mine == s1@[i].has_mine
                            && self@[i].revealed == s1@[i].revealed && self@[i].flagged
                            == s1@[i].flagged,
                    forall|a: int, b: int|
                        self.in_bounds(a, b) ==> (#[trigger] self.cell_at(a, b)).neighboring_mines
                            == s1.cell_at(a, b).neighboring_mines + if (xs as int <= a < xx as int
                            && ys as int <= b <= ye as int && !(a == mx as int && b == my as int))
                            || (a == xx as int && ys as int <= b < yy as int && !(a == mx as int
                            && b == my as int)) {
                            1int
                        } else {
                            0int
                        },
                decreases ye as int + 1 - yy as int,
            {
                if !(xx == mx && yy == my) {
                    self.bump_count(xx, yy);
                }
                yy = yy + 1;
            }
            xx = xx + 1;
        }

        proof {
            // Every in-bounds neighbor of the mine was bumped exactly once,
            // which is exactly the shift in the neighbor-mine sums.
            assert forall|a: int, b: int| self.in_bounds(a, b) implies (#[trigger] self.cell_at(
                a,
                b,
            )).neighboring_mines == self.adjacent_mines(a, b) by {
                lemma_adjacent_one_set(*old(self), s1, mx as int, my as int, a, b);
                lemma_adjacent_same_mines(s1, *self, a, b);
            }
            lemma_count_mines_same(s1@, self@, 0);
        }
    }

    /// Places the field's mines: repeated independent uniform draws over each
    /// axis, rejecting the protected cell and any cell already mined, until
    /// the full mine count is placed. The draws come from `sampler`, so a
    /// deterministic source gives a reproducible layout. A draw budget makes
    /// termination provable; in the never-observed case that the budget runs
    /// out, the remaining mines are placed by a deterministic scan.
    pub fn populate_with<S: MineSampler>(&mut self, safe_cell: Option<(u8, u8)>, sampler: &mut S)
        requires
            old(self).wf(),
            !old(self).is_populated(),
            safe_cell matches Some(p) ==> old(self).in_bounds(p.0 as int, p.1 as int),
        ensures
            final(self).wf(),
            population_of(*old(self), *final(self), safe_cell),
    {
        proof {
            lemma_blank_counts_ok(*self);
            match safe_cell {
                Some(p) => {
                    lemma_grid_index_bounds(
                        self.grid_width(),
                        self.grid_height(),
                        p.0 as int,
                        p.1 as int,
                    );
                },
                None => {},
            }
        }
        let remaining = self.scatter_mines(safe_cell, sampler);
        let ghost mid = *self;
        if remaining > 0 {
            self.fill_remaining(safe_cell, remaining);
        }
        proof {
            assert forall|i: int| 0 <= i < old(self)@.len() implies (#[trigger] self@[i]).flagged
                == old(self)@[i].flagged && !self@[i].revealed by {
                assert(mid@[i].flagged == old(self)@[i].flagged);
            }
        }
        let ghost placed = *self;
        self.populated = true;
        proof {
            lemma_count_flagged_same(old(self)@, self@, 0);
            assert forall|x: int, y: int| self.in_bounds(x, y) implies self.cell_at(
                x,
                y,
            ).neighboring_mines == #[trigger] self.adjacent_mines(x, y) by {
                lemma_adjacent_same_mines(placed, *self, x, y);
                assert(placed.cell_at(x, y).neighboring_mines == placed.adjacent_mines(x, y));
            }
        }
    }

    /// The sampling pass: independent uniform draws over each axis until the
    /// mines, or the draw budget, run out.
    fn scatter_mines<S: MineSampler>(
        &mut self,
        safe_cell: Option<(u8, u8)>,
        sampler: &mut S,
    ) -> (remaining: u16)
        requires
            populating_inv(*old(self), *old(self), safe_cell),
            count_mines_from(old(self)@, 0) == 0,
            safe_cell matches Some(p) ==> old(self).in_bounds(p.0 as int, p.1 as int),
        ensures
            populating_inv(*old(self), *final(self), safe_cell),
            remaining as int <= final(self).mines(),
            count_mines_from(final(self)@, 0) == final(self).mines() - remaining as int,
    {
        let w = self.width;
        let h = self.height;
        let mut remaining: u16 = self.mine_count;
        let mut budget: u64 = 1_000_000_000;
        while remaining > 0 && budget > 0
            invariant
                safe_cell matches Some(p) ==> old(self).in_bounds(p.0 as int, p.1 as int),
                populating_inv(*old(self), *self, safe_cell),
                w as int == self.grid_width(),
                h as int == self.grid_height(),
                remaining as int <= self.mines(),
                count_mines_from(self@, 0) == self.mines() - remaining as int,
            decreases budget,
        {
            budget = budget - 1;
            let x = sampler.next_below(w);
            let y = sampler.next_below(h);
            let mut skip = false;
            if let Some((sx, sy)) = safe_cell {
                if x == sx && y == sy {
                    skip = true;
                }
            }
            if !skip {
                let idx = self.cell_index(x, y);
                if !self.cells[idx].has_mine {
                    let ghost prev = *self;
                    self.add_mine(x, y);
                    remaining = remaining - 1;
                    proof {
                        lemma_placement_keeps_safe(prev, *self, safe_cell, x as int, y as int);
                    }
                }
            }
        }
        remaining
    }

    /// The fallback pass: scans the grid for free cells and mines the first
    /// `remaining` of them; the capacity bound guarantees they exist.
    fn fill_remaining(&mut self, safe_cell: Option<(u8, u8)>, remaining: u16)
        requires
            populating_inv(*old(self), *old(self), safe_cell),
            safe_cell matches Some(p) ==> old(self).in_bounds(p.0 as int, p.1 as int),
            remaining as int <= old(self).mines(),
            count_mines_from(old(self)@, 0) == old(self).mines() - remaining as int,
            old(self).mines() <= old(self).grid_width() * old(self).grid_height() - 1,
        ensures
            populating_inv(*old(self), *final(self), safe_cell),
            count_mines_from(final(self)@, 0) == final(self).mines(),
    {
        let mut remaining = remaining;
        let total = self.cells.len();
        let ghost safe_idx: int = match safe_cell {
            Some(p) => self.sidx(p.0 as int, p.1 as int),
            None => -1int,
        };
        proof {
            match safe_cell {
                Some(p) => {
                    lemma_grid_index_bounds(
                        self.grid_width(),
                        self.grid_height(),
                        p.0 as int,
                        p.1 as int,
                    );
                },
                None => {},
            }
            lemma_count_free_exact(self@, safe_idx, 0);
        }
        let mut idx: usize = 0;
        while idx < total && remaining > 0
            invariant
                safe_cell matches Some(p) ==> old(self).in_bounds(p.0 as int, p.1 as int),
                populating_inv(*old(self), *self, safe_cell),
                remaining as int <= self.mines(),
                count_mines_from(self@, 0) == self.mines() - remaining as int,
                idx <= total,
                total == self@.len(),
                safe_idx == (match safe_cell {
                    Some(p) => self.sidx(p.0 as int, p.1 as int),
                    None => -1int,
                }),
                count_free_from(self@, safe_idx, idx as int) >= remaining as int,
            decreases total - idx,
        {
            proof {
                lemma_divmod(self.grid_width(), self.grid_height(), idx as int);
            }
            let x = (idx % self.width as usize) as u8;
            let y = (idx / self.width as usize) as u8;
            let is_safe = match safe_cell {
                Some((sx, sy)) => x == sx && y == sy,
                None => false,
            };
            if !is_safe {
                let cidx = self.cell_index(x, y);
                if !self.cells[cidx].has_mine {
                    let ghost prev = *self;
                    self.add_mine(x, y);
                    remaining = remaining - 1;
                    proof {
                        lemma_placement_keeps_safe(prev, *self, safe_cell, x as int, y as int);
                        lemma_count_free_suffix_same(
                            prev@,
                            self@,
                            safe_idx,
                            idx as int,
                            idx as int + 1,
                        );
                    }
                }
            }
            idx = idx + 1;
        }
        proof {
            // The scan cannot run out of cells before the mines do.
            assert(count_free_from(self@, safe_idx, total as int) == 0);
        }
    }

    /// Builds a field and places its mines at once, with no protected cell.
    pub fn new_populated(width: u8, height: u8, mine_count: u16) -> (f: Field)
        requires
            width >= 1,
            height >= 1,
            mine_count as int <= width as int * height as int - 1,
        ensures
            f.wf(),
            f.is_populated(),
            f.grid_width() == width as int,
            f.grid_height() == height as int,
            f.mines() == mine_count as int,
            f.flag_count() == 0,
            forall|i: int| 0 <= i < f@.len() ==> !(#[trigger] f@[i]).flagged && !f@[i].revealed,
    {
        let mut field = Field::new(width, height, mine_count);
        let mut sampler = SystemSampler;
        field.populate_with(None, &mut sampler);
        field
    }
}

/// A mine placed away from the protected cell leaves it free.
proof fn lemma_placement_keeps_safe(
    prev: Field,
    cur: Field,
    safe_cell: Option<(u8, u8)>,
    mx: int,
    my: int,
)
    requires
        prev.dims_ok(),
        prev.in_bounds(mx, my),
        cur.grid_width() == prev.grid_width(),
        cur.grid_height() == prev.grid_height(),
        cur@.len() == prev@.len(),
        forall|i: int|
            0 <= i < prev@.len() && i != prev.sidx(mx, my) ==> (#[trigger] cur@[i]).has_mine
                == prev@[i].has_mine,
        safe_cell matches Some(p) ==> prev.in_bounds(p.0 as int, p.1 as int)
            && !prev.cell_at(p.0 as int, p.1 as int).has_mine && !(p.0 as int == mx && p.1 as int
            == my),
    ensures
        safe_cell matches Some(p) ==> !cur.cell_at(p.0 as int, p.1 as int).has_mine,
{
    match safe_cell {
        Some(p) => {
            lemma_grid_index_bounds(prev.grid_width(), prev.grid_height(), p.0 as int, p.1 as int);
            if prev.sidx(p.0 as int, p.1 as int) == prev.sidx(mx, my) {
                lemma_grid_index_injective(prev.grid_width(), p.0 as int, p.1 as int, mx, my);
            }
        },
        None => {},
    }
}

// The cascade: what a reveal uncovers.

/// A cell the cascade reveals when it reaches it: in bounds, still hidden,
/// and not flagged.
pub open spec fn accepts(f: Field, p: (u8, u8)) -> bool {
    &&& f.in_bounds(p.0 as int, p.1 as int)
    &&& !f.cell_at(p.0 as int, p.1 as int).revealed
    &&& !f.cell_at(p.0 as int, p.1 as int).flagged
}

/// A cell the cascade spreads out of: accepted, mine-free, and with no mine
/// among its neighbors.
pub open spec fn expands(f: Field, p: (u8, u8)) -> bool {
    &&& accepts(f, p)
    &&& !f.cell_at(p.0 as int, p.1 as int).has_mine
    &&& f.cell_at(p.0 as int, p.1 as int).neighboring_mines == 0
}

/// A chain of adjacent cells out of `from`: every link but the last spreads
/// the cascade, and every cell after the first is revealable.
pub open spec fn cascade_path(f: Field, path: Seq<(u8, u8)>, from: (u8, u8)) -> bool {
    &&& path.len() >= 1
    &&& path[0] == from
    &&& forall|k: int|
        0 <= k < path.len() - 1 ==> expands(f, #[trigger] path[k]) && adjacent_coords(
            path[k].0 as int,
            path[k].1 as int,
            path[k + 1].0 as int,
            path[k + 1].1 as int,
        )
    &&& forall|k: int| 1 <= k < path.len() ==> accepts(f, #[trigger] path[k])
}

/// Whether revealing `from` in field `f` uncovers `to`: either the origin
/// itself, or the end of a chain of zero-neighbor cells out of it.
pub open spec fn in_cascade(f: Field, from: (u8, u8), to: (u8, u8)) -> bool {
    exists|path: Seq<(u8, u8)>| #[trigger] cascade_path(f, path, from) && path.last() == to
}

/// The origin is always part of its own cascade.
proof fn lemma_cascade_origin(f: Field, from: (u8, u8))
    ensures
        in_cascade(f, from, from),
{
    let path: Seq<(u8, u8)> = seq![from];
    assert(cascade_path(f, path, from));
    assert(path.last() == from);
}

/// A cascade that reaches a spreading cell also reaches every revealable
/// neighbor of it.
proof fn lemma_cascade_step(f: Field, from: (u8, u8), p: (u8, u8), q: (u8, u8))
    requires
        in_cascade(f, from, p),
        expands(f, p),
        accepts(f, q),
        adjacent_coords(p.0 as int, p.1 as int, q.0 as int, q.1 as int),
    ensures
        in_cascade(f, from, q),
{
    let path = choose|path: Seq<(u8, u8)>| #[trigger] cascade_path(f, path, from) && path.last()
        == p;
    let path2 = path.push(q);
    assert forall|k: int|
        0 <= k < path2.len() - 1 implies expands(f, #[trigger] path2[k]) && adjacent_coords(
        path2[k].0 as int,
        path2[k].1 as int,
        path2[k + 1].0 as int,
        path2[k + 1].1 as int,
    ) by {
        assert(path2[k] == path[k]);
        if k < path.len() - 1 {
            assert(path2[k + 1] == path[k + 1]);
        } else {
            assert(path[k] == path.last());
            assert(path2[k + 1] == q);
        }
    }
    assert forall|k: int| 1 <= k < path2.len() implies accepts(f, #[trigger] path2[k]) by {
        if k < path.len() {
            assert(path2[k] == path[k]);
        } else {
            assert(path2[k] == q);
        }
    }
    assert(cascade_path(f, path2, from));
    assert(path2.last() == q);
}

/// Every revealable neighbor of `p` is already in `s`.
spec fn neighbors_done(f: Field, s: Seq<(u8, u8)>, p: (u8, u8)) -> bool {
    forall|q: (u8, u8)|
        accepts(f, q) && adjacent_coords(p.0 as int, p.1 as int, q.0 as int, q.1 as int)
            ==> #[trigger] s.contains(q)
}

/// A set of cells that holds the origin and is closed under spreading
/// contains the whole cascade.
proof fn lemma_cascade_complete(f: Field, from: (u8, u8), s: Seq<(u8, u8)>, path: Seq<(u8, u8)>)
    requires
        s.contains(from),
        forall|k: int|
            0 <= k < s.len() && expands(f, #[trigger] s[k]) ==> neighbors_done(f, s, s[k]),
        cascade_path(f, path, from),
    ensures
        s.contains(path.last()),
    decreases path.len(),
{
    if path.len() == 1 {
        assert(path.last() == from);
    } else {
        let prefix = path.drop_last();
        assert forall|k: int|
            0 <= k < prefix.len() - 1 implies expands(f, #[trigger] prefix[k]) && adjacent_coords(
            prefix[k].0 as int,
            prefix[k].1 as int,
            prefix[k + 1].0 as int,
            prefix[k + 1].1 as int,
        ) by {
            assert(prefix[k] == path[k]);
            assert(prefix[k + 1] == path[k + 1]);
        }
        assert forall|k: int| 1 <= k < prefix.len() implies accepts(f, #[trigger] prefix[k]) by {
            assert(prefix[k] == path[k]);
        }
        assert(cascade_path(f, prefix, from));
        lemma_cascade_complete(f, from, s, prefix);
        let last = path.last();
        let before = prefix.last();
        assert(before == path[path.len() - 2]);
        assert(expands(f, before));
        assert(accepts(f, last));
        assert(adjacent_coords(
            before.0 as int,
            before.1 as int,
            last.0 as int,
            last.1 as int,
        ));
        let j = choose|j: int| 0 <= j < s.len() && s[j] == before;
        assert(expands(f, s[j]));
        assert(neighbors_done(f, s, s[j]));
        assert(s.contains(last));
    }
}

/// The exact effect of `reveal` on an already-populated field: a revealed or
/// flagged target is refused; a mine detonates, revealing only itself; any
/// other cell uncovers its whole cascade.
pub open spec fn reveal_exact(pre: Field, post: Field, x: u8, y: u8, r: RevealResult) -> bool {
    match r {
        RevealResult::Nothing => {
            &&& (pre.cell_at(x as int, y as int).revealed || pre.cell_at(
                x as int,
                y as int,
            ).flagged)
            &&& post == pre
        },
        RevealResult::Mine => {
            &&& !pre.cell_at(x as int, y as int).revealed
            &&& !pre.cell_at(x as int, y as int).flagged
            &&& pre.cell_at(x as int, y as int).has_mine
            &&& post@ == pre@.update(
                pre.sidx(x as int, y as int),
                (Cell { revealed: true, ..pre.cell_at(x as int, y as int) }),
            )
            &&& post.grid_width() == pre.grid_width()
            &&& post.grid_height() == pre.grid_height()
            &&& post.mines() == pre.mines()
            &&& post.flag_count() == pre.flag_count()
            &&& post.is_populated() == pre.is_populated()
        },
        RevealResult::Success(v) => {
            &&& !pre.cell_at(x as int, y as int).revealed
            &&& !pre.cell_at(x as int, y as int).flagged
            &&& !pre.cell_at(x as int, y as int).has_mine
            &&& post.grid_width() == pre.grid_width()
            &&& post.grid_height() == pre.grid_height()
            &&& post.mines() == pre.mines()
            &&& post.flag_count() == pre.flag_count()
            &&& post.is_populated() == pre.is_populated()
            &&& post@.len() == pre@.len()
            &&& v@.contains((x, y))
            &&& (forall|p: (u8, u8)| #[trigger] v@.contains(p) <==> in_cascade(pre, (x, y), p))
            &&& (forall|k1: int, k2: int| 0 <= k1 < k2 < v@.len() ==> v@[k1] != v@[k2])
            &&& (forall|k: int|
                0 <= k < v@.len() ==> accepts(pre, #[trigger] v@[k]) && !pre.cell_at(
                    v@[k].0 as int,
                    v@[k].1 as int,
                ).has_mine)
            &&& (forall|i: int|
                0 <= i < pre@.len() ==> (#[trigger] post@[i]).has_mine == pre@[i].has_mine
                    && post@[i].flagged == pre@[i].flagged && post@[i].neighboring_mines
                    == pre@[i].neighboring_mines)
            &&& (forall|a: u8, b: u8|
                pre.in_bounds(a as int, b as int) ==> ((#[trigger] post.cell_at(
                    a as int,
                    b as int,
                )).revealed <==> pre.cell_at(a as int, b as int).revealed || v@.contains((a, b))))
        },
    }
}

/// The worklist state while a cascade runs: `found` lists the cells revealed
/// so far, distinct and each reached by the cascade; the current field equals
/// the starting one except that exactly those cells are newly revealed; and
/// `stack` holds spreading cells whose neighborhoods may still be unswept.
spec fn sweep_inv(
    f0: Field,
    cur: Field,
    found: Seq<(u8, u8)>,
    stack: Seq<(u8, u8)>,
    origin: (u8, u8),
) -> bool {
    &&& f0.wf()
    &&& f0.is_populated()
    &&& accepts(f0, origin)
    &&& !f0.cell_at(origin.0 as int, origin.1 as int).has_mine
    &&& cur.grid_width() == f0.grid_width()
    &&& cur.grid_height() == f0.grid_height()
    &&& cur.mines() == f0.mines()
    &&& cur.flag_count() == f0.flag_count()
    &&& cur.is_populated()
    &&& cur@.len() == f0@.len()
    &&& cur.wf()
    &&& forall|i: int|
        0 <= i < f0@.len() ==> (#[trigger] cur@[i]).has_mine == f0@[i].has_mine && cur@[i].flagged
            == f0@[i].flagged && cur@[i].neighboring_mines == f0@[i].neighboring_mines
    &&& forall|a: u8, b: u8|
        f0.in_bounds(a as int, b as int) ==> ((#[trigger] cur.cell_at(a as int, b as int)).revealed
            <==> f0.cell_at(a as int, b as int).revealed || found.contains((a, b)))
    &&& forall|k: int|
        0 <= k < found.len() ==> accepts(f0, #[trigger] found[k]) && in_cascade(
            f0,
            origin,
            found[k],
        ) && !f0.cell_at(found[k].0 as int, found[k].1 as int).has_mine
    &&& forall|k1: int, k2: int| 0 <= k1 < k2 < found.len() ==> found[k1] != found[k2]
    &&& found.contains(origin)
    &&& forall|k: int|
        0 <= k < stack.len() ==> expands(f0, #[trigger] stack[k]) && found.contains(stack[k])
}

/// Every spreading cell already found has had its whole neighborhood swept,
/// or still waits on the stack.
spec fn closure_inv(f: Field, found: Seq<(u8, u8)>, stack: Seq<(u8, u8)>) -> bool {
    forall|k: int|
        0 <= k < found.len() && expands(f, #[trigger] found[k]) ==> stack.contains(found[k])
            || neighbors_done(f, found, found[k])
}

/// As `closure_inv`, except for the one cell whose neighborhood is being
/// swept right now.
spec fn closure_except(
    f: Field,
    found: Seq<(u8, u8)>,
    stack: Seq<(u8, u8)>,
    pending: (u8, u8),
) -> bool {
    forall|k: int|
        0 <= k < found.len() && expands(f, #[trigger] found[k]) && found[k] != pending
            ==> stack.contains(found[k]) || neighbors_done(f, found, found[k])
}

/// A swept neighborhood stays swept as the found set grows.
proof fn lemma_neighbors_done_monotone(f: Field, s: Seq<(u8, u8)>, v: (u8, u8), p: (u8, u8))
    requires
        neighbors_done(f, s, p),
    ensures
        neighbors_done(f, s.push(v), p),
{
    assert forall|q: (u8, u8)|
        accepts(f, q) && adjacent_coords(
            p.0 as int,
            p.1 as int,
            q.0 as int,
            q.1 as int,
        ) implies #[trigger] s.push(v).contains(q) by {
        assert(s.contains(q));
        lemma_seq_contains_after_push(s, v, q);
    }
}

/// The exact effect of `toggle_flag`: a revealed cell refuses the toggle;
/// otherwise the one flag flips and the live counter follows it.
pub open spec fn toggle_transition(pre: Field, post: Field, x: u8, y: u8, r: ToggleFlagResult) -> bool {
    if pre.cell_at(x as int, y as int).revealed {
        &&& r is Nothing
        &&& post == pre
    } else {
        &&& post.grid_width() == pre.grid_width()
        &&& post.grid_height() == pre.grid_height()
        &&& post.mines() == pre.mines()
        &&& post.is_populated() == pre.is_populated()
        &&& post@.len() == pre@.len()
        &&& forall|i: int|
            0 <= i < pre@.len() && i != pre.sidx(x as int, y as int) ==> #[trigger] post@[i]
                == pre@[i]
        &&& post.cell_at(x as int, y as int) == (Cell {
            flagged: !pre.cell_at(x as int, y as int).flagged,
            ..pre.cell_at(x as int, y as int)
        })
        &&& (pre.cell_at(x as int, y as int).flagged ==> r is Unflagged && post.flag_count()
            == pre.flag_count() - 1)
        &&& (!pre.cell_at(x as int, y as int).flagged ==> r is Flagged && post.flag_count()
            == pre.flag_count() + 1)
    }
}

impl Field {
    /// Flips the flag on a still-hidden cell and keeps the live flag counter
    /// in step; a revealed cell refuses the toggle.
    pub fn toggle_flag(&mut self, x: u8, y: u8) -> (r: ToggleFlagResult)
        requires
            old(self).wf(),
            (x as int) < old(self).grid_width(),
            (y as int) < old(self).grid_height(),
        ensures
            final(self).wf(),
            toggle_transition(*old(self), *final(self), x, y, r),
    {
        let idx = self.cell_index(x, y);
        let c = self.cells[idx];
        if c.revealed {
            return ToggleFlagResult::Nothing;
        }
        let mut c2 = c;
        c2.flagged = !c.flagged;
        self.cells.set(idx, c2);
        proof {
            lemma_count_flagged_update(old(self)@, idx as int, c2, 0);
            if c.flagged {
                lemma_count_flagged_at_least_one(old(self)@, idx as int, 0);
            } else {
                lemma_count_flagged_bounds(old(self)@, 0);
                lemma_grid_size_bound(self.grid_width(), self.grid_height());
            }
        }
        let r = if c2.flagged {
            self.flagged_cells = self.flagged_cells + 1;
            ToggleFlagResult::Flagged
        } else {
            self.flagged_cells = self.flagged_cells - 1;
            ToggleFlagResult::Unflagged
        };
        proof {
            lemma_cell_at_update(*old(self), *self, x as int, y as int, c2);
            lemma_count_mines_same(old(self)@, self@, 0);
            if self.populated {
                assert forall|a: int, b: int| self.in_bounds(a, b) implies self.cell_at(
                    a,
                    b,
                ).neighboring_mines == #[trigger] self.adjacent_mines(a, b) by {
                    lemma_adjacent_same_mines(*old(self), *self, a, b);
                    assert(old(self).cell_at(a, b).neighboring_mines == old(self).adjacent_mines(
                        a,
                        b,
                    ));
                }
            } else {
                assert forall|i: int| 0 <= i < self@.len() implies !(#[trigger] self@[i]).has_mine
                    && !self@[i].revealed && self@[i].neighboring_mines == 0 by {
                    assert(!(old(self)@[i]).has_mine && !old(self)@[i].revealed && old(
                        self,
                    )@[i].neighboring_mines == 0);
                }
            }
        }
        r
    }
}

impl Field {
    /// One neighbor step of the cascade: reveals `(nx, ny)` if it is still
    /// hidden and unflagged — beside a spreading cell it can hold no mine —
    /// and queues it when it spreads further.
    #[verifier::rlimit(50)]
    fn visit_cell(
        &mut self,
        found: &mut Vec<(u8, u8)>,
        stack: &mut Vec<(u8, u8)>,
        nx: u8,
        ny: u8,
        Ghost(f0): Ghost<Field>,
        Ghost(origin): Ghost<(u8, u8)>,
        Ghost(from): Ghost<(u8, u8)>,
    )
        requires
            sweep_inv(f0, *old(self), old(found)@, old(stack)@, origin),
            closure_except(f0, old(found)@, old(stack)@, from),
            old(self).in_bounds(nx as int, ny as int),
            expands(f0, from),
            in_cascade(f0, origin, from),
            adjacent_coords(from.0 as int, from.1 as int, nx as int, ny as int),
        ensures
            sweep_inv(f0, *final(self), final(found)@, final(stack)@, origin),
            closure_except(f0, final(found)@, final(stack)@, from),
            accepts(f0, (nx, ny)) ==> final(self).cell_at(nx as int, ny as int).revealed,
            forall|a: u8, b: u8|
                f0.in_bounds(a as int, b as int) && old(self).cell_at(a as int, b as int).revealed
                    ==> (#[trigger] final(self).cell_at(a as int, b as int)).revealed,
            final(found)@.len() >= old(found)@.len(),
            forall|k: int| 0 <= k < old(found)@.len() ==> #[trigger] final(found)@[k] == old(
                found,
            )@[k],
            final(stack)@.len() >= old(stack)@.len(),
            count_revealed_from(final(self)@, 0) >= count_revealed_from(old(self)@, 0) + (
            final(stack)@.len() - old(stack)@.len()),
            count_revealed_from(final(self)@, 0) >= count_revealed_from(old(self)@, 0),
            count_revealed_from(final(self)@, 0) <= final(self)@.len(),
    {
        proof {
            lemma_count_revealed_bounds(self@, 0);
        }
        let idx = self.cell_index(nx, ny);
        let c = self.cells[idx];
        proof {
            assert(self.cell_at(nx as int, ny as int) == c);
        }
        if c.revealed || c.flagged {
            proof {
                if accepts(f0, (nx, ny)) {
                    // An accepted cell is unflagged, so this one was already
                    // revealed.
                    assert(c.flagged == f0.cell_at(nx as int, ny as int).flagged);
                }
            }
            return ;
        }
        proof {
            // The cell is hidden and unflagged now, so it was in the start
            // state too: the cascade may take it.
            assert(accepts(f0, (nx, ny)));
            // A neighbor of a spreading cell holds no mine: the spreading
            // cell's exact neighbor-mine count is zero.
            assert(f0.cell_at(from.0 as int, from.1 as int).neighboring_mines == 0);
            assert(f0.adjacent_mines(from.0 as int, from.1 as int) == 0);
            assert(f0.mine_at(nx as int, ny as int) == 0);
            assert(!c.has_mine);
        }
        let mut c1 = c;
        c1.revealed = true;
        let ghost prev = *self;
        let ghost found0 = found@;
        let ghost stack0 = stack@;
        self.cells.set(idx, c1);
        found.push((nx, ny));
        let spreads = c.neighboring_mines == 0;
        if spreads {
            stack.push((nx, ny));
        }
        proof {
            lemma_cell_at_update(prev, *self, nx as int, ny as int, c1);
            lemma_count_flagged_same(prev@, self@, 0);
            lemma_count_mines_same(prev@, self@, 0);
            lemma_count_revealed_update(prev@, idx as int, c1, 0);
            lemma_count_revealed_bounds(self@, 0);
            lemma_cascade_step(f0, origin, from, (nx, ny));
            assert forall|a: int, b: int| self.in_bounds(a, b) implies self.cell_at(
                a,
                b,
            ).neighboring_mines == #[trigger] self.adjacent_mines(a, b) by {
                lemma_adjacent_same_mines(prev, *self, a, b);
                assert(prev.cell_at(a, b).neighboring_mines == prev.adjacent_mines(a, b));
            }
            assert forall|q: (u8, u8)| #[trigger]
                found@.contains(q) == (found0.contains(q) || q == (nx, ny)) by {
                lemma_seq_contains_after_push(found0, (nx, ny), q);
            }
            if spreads {
                assert forall|q: (u8, u8)| #[trigger]
                    stack@.contains(q) == (stack0.contains(q) || q == (nx, ny)) by {
                    lemma_seq_contains_after_push(stack0, (nx, ny), q);
                }
            }
            // The newly found cell was not found before: it was still hidden.
            assert(!found0.contains((nx, ny)));
            // The per-cell reveal relation, now including the new cell.
            assert forall|a: u8, b: u8| f0.in_bounds(a as int, b as int) implies ((
            #[trigger] self.cell_at(a as int, b as int)).revealed <==> f0.cell_at(
                a as int,
                b as int,
            ).revealed || found@.contains((a, b))) by {
                if !(a == nx && b == ny) {
                    assert(self.cell_at(a as int, b as int) == prev.cell_at(a as int, b as int));
                    assert((prev.cell_at(a as int, b as int)).revealed <==> f0.cell_at(
                        a as int,
                        b as int,
                    ).revealed || found0.contains((a, b)));
                }
            }
            // Distinctness: the new element differs from every older one.
            assert forall|k1: int, k2: int| 0 <= k1 < k2 < found@.len() implies found@[k1]
                != found@[k2] by {
                if k2 == found@.len() - 1 {
                    if found@[k1] == (nx, ny) {
                        assert(found0[k1] == (nx, ny));
                        assert(found0.contains((nx, ny)));
                    }
                }
            }
            // The stack still holds only found, spreading cells.
            assert forall|k: int| 0 <= k < stack@.len() implies expands(f0, #[trigger] stack@[k])
                && found@.contains(stack@[k]) by {
                if k < stack0.len() {
                    assert(stack@[k] == stack0[k]);
                    assert(found0.contains(stack0[k]));
                    lemma_seq_contains_after_push(found0, (nx, ny), stack0[k]);
                }
            }
            assert(found@.contains(origin)) by {
                lemma_seq_contains_after_push(found0, (nx, ny), origin);
            }
            // The closure debt is unchanged: old cells keep their swept
            // neighborhoods or stack slots, and the new cell, if it spreads,
            // now waits on the stack.
            assert forall|k: int|
                0 <= k < found@.len() && expands(f0, #[trigger] found@[k]) && found@[k]
                    != from implies stack@.contains(found@[k]) || neighbors_done(
                f0,
                found@,
                found@[k],
            ) by {
                if k < found0.len() {
                    assert(found@[k] == found0[k]);
                    if stack0.contains(found0[k]) {
                        let j = choose|j: int| 0 <= j < stack0.len() && stack0[j] == found0[k];
                        assert(stack@[j] == found0[k]);
                        assert(stack@.contains(found@[k]));
                    } else {
                        assert(neighbors_done(f0, found0, found0[k]));
                        lemma_neighbors_done_monotone(f0, found0, (nx, ny), found0[k]);
                    }
                } else {
                    assert(found@[k] == (nx, ny));
                    assert(spreads);
                    assert(stack@[stack@.len() - 1] == (nx, ny));
                    assert(stack@.contains(found@[k]));
                }
            }
        }
    }
}

impl Field {
    /// Reveals one cell of an already-populated field and, when it has no
    /// neighboring mines, floods outward through the whole connected
    /// zero-neighbor region and its border. The worklist sweep visits each
    /// cell at most once; a revealed cell is never taken twice.
    #[verifier::rlimit(50)]
    fn uncover(&mut self, x: u8, y: u8) -> (r: RevealResult)
        requires
            old(self).wf(),
            old(self).is_populated(),
            (x as int) < old(self).grid_width(),
            (y as int) < old(self).grid_height(),
        ensures
            final(self).wf(),
            final(self).is_populated(),
            reveal_exact(*old(self), *final(self), x, y, r),
    {
        let ghost f0 = *old(self);
        let ghost origin: (u8, u8) = (x, y);
        let idx = self.cell_index(x, y);
        let c = self.cells[idx];
        proof {
            assert(self.cell_at(x as int, y as int) == c);
        }
        if c.revealed || c.flagged {
            return RevealResult::Nothing;
        }
        let mut c1 = c;
        c1.revealed = true;
        self.cells.set(idx, c1);
        proof {
            lemma_cell_at_update(f0, *self, x as int, y as int, c1);
            lemma_count_flagged_same(f0@, self@, 0);
            lemma_count_mines_same(f0@, self@, 0);
            lemma_count_revealed_update(f0@, idx as int, c1, 0);
            lemma_count_revealed_bounds(self@, 0);
            assert forall|a: int, b: int| self.in_bounds(a, b) implies self.cell_at(
                a,
                b,
            ).neighboring_mines == #[trigger] self.adjacent_mines(a, b) by {
                lemma_adjacent_same_mines(f0, *self, a, b);
                assert(f0.cell_at(a, b).neighboring_mines == f0.adjacent_mines(a, b));
            }
        }
        if c.has_mine {
            return RevealResult::Mine;
        }
        let mut found: Vec<(u8, u8)> = Vec::new();
        found.push((x, y));
        let mut stack: Vec<(u8, u8)> = Vec::new();
        if c.neighboring_mines == 0 {
            stack.push((x, y));
        }
        proof {
            lemma_cascade_origin(f0, origin);
            assert(found@[0] == origin);
            assert(found@.contains(origin));
            assert forall|a: u8, b: u8| f0.in_bounds(a as int, b as int) implies ((
            #[trigger] self.cell_at(a as int, b as int)).revealed <==> f0.cell_at(
                a as int,
                b as int,
            ).revealed || found@.contains((a, b))) by {
                if (a, b) == origin {
                    assert(self.cell_at(a as int, b as int).revealed);
                } else {
                    assert(self.cell_at(a as int, b as int) == f0.cell_at(a as int, b as int));
                    if found@.contains((a, b)) {
                        let k = choose|k: int| 0 <= k < found@.len() && found@[k] == (a, b);
                        assert(found@[k] == origin);
                        assert(false);
                    }
                }
            }
            if c.neighboring_mines == 0 {
                assert(stack@[0] == origin);
                assert(stack@.contains(origin));
            }
            assert(sweep_inv(f0, *self, found@, stack@, origin));
            assert forall|k: int|
                0 <= k < found@.len() && expands(f0, #[trigger] found@[k]) implies stack@.contains(
                found@[k],
            ) || neighbors_done(f0, found@, found@[k]) by {
                assert(found@[k] == origin);
            }
        }
        while stack.len() > 0
            invariant
                sweep_inv(f0, *self, found@, stack@, origin),
                closure_inv(f0, found@, stack@),
                origin == (x, y),
                count_revealed_from(self@, 0) <= self@.len(),
            decreases self@.len() - count_revealed_from(self@, 0), stack@.len(),
        {
            let ghost stack_before = stack@;
            let popped = stack.pop().unwrap();
            let (cx, cy) = popped;
            proof {
                assert(stack_before[stack_before.len() - 1] == popped);
                assert(expands(f0, popped));
                assert(found@.contains(popped));
                // Every other spreading cell keeps its stack slot or its
                // swept neighborhood.
                assert forall|k: int|
                    0 <= k < found@.len() && expands(f0, #[trigger] found@[k]) && found@[k]
                        != popped implies stack@.contains(found@[k]) || neighbors_done(
                    f0,
                    found@,
                    found@[k],
                ) by {
                    if stack_before.contains(found@[k]) {
                        let j = choose|j: int|
                            0 <= j < stack_before.len() && stack_before[j] == found@[k];
                        assert(j < stack_before.len() - 1);
                        assert(stack@[j] == found@[k]);
                        assert(stack@.contains(found@[k]));
                    }
                }
                // The popped cell sits in the found list, so it is part of
                // the cascade.
                let k = choose|k: int| 0 <= k < found@.len() && found@[k] == popped;
                assert(in_cascade(f0, origin, found@[k]));
            }
            let ghost b_self = *self;
            let ghost b_stack = stack@;

            // The 3-by-3 box around the popped cell, clipped to the grid.
            let xs = if cx > 0 { cx - 1 } else { 0 };
            let xe = if cx + 1 <= self.width - 1 { cx + 1 } else { self.width - 1 };
            let ys = if cy > 0 { cy - 1 } else { 0 };
            let ye = if cy + 1 <= self.height - 1 { cy + 1 } else { self.height - 1 };

            let mut xx = xs;
            while xx <= xe
                invariant
                    xs <= xx,
                    xx as int <= xe as int + 1,
                    xs as int == if cx as int >= 1 { cx as int - 1 } else { 0int },
                    xe as int == if cx as int + 1 <= f0.grid_width() - 1 { cx as int + 1 } else { f0.grid_width() - 1 },
                    ys as int == if cy as int >= 1 { cy as int - 1 } else { 0int },
                    ye as int == if cy as int + 1 <= f0.grid_height() - 1 { cy as int + 1 } else { f0.grid_height() - 1 },
                    sweep_inv(f0, *self, found@, stack@, origin),
                    closure_except(f0, found@, stack@, (cx, cy)),
                    expands(f0, (cx, cy)),
                    in_cascade(f0, origin, (cx, cy)),
                    found@.contains((cx, cy)),
                    forall|a: u8, b: u8|
                        xs as int <= a as int && (a as int) < xx as int && ys as int <= b as int <= ye as int
                            && !(a == cx && b == cy) && accepts(f0, (a, b)) ==> (
                        #[trigger] self.cell_at(a as int, b as int)).revealed,
                    stack@.len() >= b_stack.len(),
                    count_revealed_from(self@, 0) >= count_revealed_from(b_self@, 0) + (
                    stack@.len() - b_stack.len()),
                    count_revealed_from(self@, 0) >= count_revealed_from(b_self@, 0),
                    count_revealed_from(self@, 0) <= self@.len(),
                decreases xe as int + 1 - xx as int,
            {
                let mut yy = ys;
                while yy <= ye
                    invariant
                        xs <= xx <= xe,
                        ys <= yy,
                        yy as int <= ye as int + 1,
                        xs as int == if cx as int >= 1 { cx as int - 1 } else { 0int },
                        xe as int == if cx as int + 1 <= f0.grid_width() - 1 { cx as int + 1 } else { f0.grid_width() - 1 },
                        ys as int == if cy as int >= 1 { cy as int - 1 } else { 0int },
                        ye as int == if cy as int + 1 <= f0.grid_height() - 1 { cy as int + 1 } else { f0.grid_height() - 1 },
                        sweep_inv(f0, *self, found@, stack@, origin),
                        closure_except(f0, found@, stack@, (cx, cy)),
                        expands(f0, (cx, cy)),
                        in_cascade(f0, origin, (cx, cy)),
                        found@.contains((cx, cy)),
                        forall|a: u8, b: u8|
                            ((xs as int <= a as int && (a as int) < xx as int && ys as int <= b as int
                                <= ye as int) || (a == xx && ys as int <= b as int && (b as int) < yy as int))
                                && !(a == cx && b == cy) && accepts(f0, (a, b)) ==> (
                            #[trigger] self.cell_at(a as int, b as int)).revealed,
                        stack@.len() >= b_stack.len(),
                        count_revealed_from(self@, 0) >= count_revealed_from(b_self@, 0) + (
                        stack@.len() - b_stack.len()),
                        count_revealed_from(self@, 0) >= count_revealed_from(b_self@, 0),
                        count_revealed_from(self@, 0) <= self@.len(),
                    decreases ye as int + 1 - yy as int,
                {
                    if !(xx == cx && yy == cy) {
                        let ghost fb = found@;
                        self.visit_cell(
                            &mut found,
                            &mut stack,
                            xx,
                            yy,
                            Ghost(f0),
                            Ghost(origin),
                            Ghost((cx, cy)),
                        );
                        proof {
                            let j = choose|j: int| 0 <= j < fb.len() && fb[j] == (cx, cy);
                            assert(found@[j] == (cx, cy));
                            assert(found@.contains((cx, cy)));
                        }
                    }
                    yy = yy + 1;
                }
                xx = xx + 1;
            }

            proof {
                // The whole neighborhood of the popped cell is now swept.
                assert forall|q: (u8, u8)|
                    accepts(f0, q) && adjacent_coords(
                        cx as int,
                        cy as int,
                        q.0 as int,
                        q.1 as int,
                    ) implies #[trigger] found@.contains(q) by {
                    let (qa, qb) = q;
                    assert(self.cell_at(qa as int, qb as int).revealed);
                    assert(!f0.cell_at(qa as int, qb as int).revealed);
                }
                assert(neighbors_done(f0, found@, (cx, cy)));
                assert forall|k: int|
                    0 <= k < found@.len() && expands(
                        f0,
                        #[trigger] found@[k],
                    ) implies stack@.contains(found@[k]) || neighbors_done(
                    f0,
                    found@,
                    found@[k],
                ) by {
                    if found@[k] == (cx, cy) {
                        assert(neighbors_done(f0, found@, found@[k]));
                    }
                }
            }
        }
        proof {
            // The stack is spent: the found list is closed under spreading,
            // so it holds the entire cascade, and nothing else.
            assert forall|p: (u8, u8)| #[trigger] found@.contains(p) implies in_cascade(
                f0,
                origin,
                p,
            ) by {
                let k = choose|k: int| 0 <= k < found@.len() && found@[k] == p;
                assert(in_cascade(f0, origin, found@[k]));
            }
            assert forall|p: (u8, u8)| in_cascade(f0, origin, p) implies #[trigger] found@.contains(
                p,
            ) by {
                let path = choose|path: Seq<(u8, u8)>| #[trigger] cascade_path(f0, path, origin)
                    && path.last() == p;
                assert forall|k: int|
                    0 <= k < found@.len() && expands(f0, #[trigger] found@[k]) implies
                    neighbors_done(f0, found@, found@[k]) by {
                    if stack@.contains(found@[k]) {
                        let j = choose|j: int| 0 <= j < stack@.len() && stack@[j] == found@[k];
                        assert(false);
                    }
                }
                lemma_cascade_complete(f0, origin, found@, path);
            }
        }
        RevealResult::Success(found)
    }

    /// Reveals `(x, y)` with draws from `sampler` where the field is not yet
    /// populated: the first reveal places the mines and is itself guaranteed
    /// mine-free.
    pub fn reveal_with<S: MineSampler>(&mut self, x: u8, y: u8, sampler: &mut S) -> (r:
        RevealResult)
        requires
            old(self).wf(),
            (x as int) < old(self).grid_width(),
            (y as int) < old(self).grid_height(),
        ensures
            final(self).wf(),
            final(self).is_populated(),
            old(self).is_populated() ==> reveal_exact(*old(self), *final(self), x, y, r),
            !old(self).is_populated() ==> exists|mid: Field|
                {
                    &&& #[trigger] population_of(*old(self), mid, Some((x, y)))
                    &&& mid.wf()
                    &&& reveal_exact(mid, *final(self), x, y, r)
                },
            !old(self).is_populated() ==> !(r is Mine) && !final(self).cell_at(
                x as int,
                y as int,
            ).has_mine,
    {
        if !self.populated {
            self.populate_with(Some((x, y)), sampler);
        }
        let ghost mid = *self;
        let r = self.uncover(x, y);
        proof {
            if !old(self).is_populated() {
                assert(population_of(*old(self), mid, Some((x, y))));
                assert(!mid.cell_at(x as int, y as int).has_mine);
                lemma_grid_index_bounds(mid.grid_width(), mid.grid_height(), x as int, y as int);
                match r {
                    RevealResult::Nothing => {},
                    RevealResult::Mine => {
                        assert(false);
                    },
                    RevealResult::Success(_) => {
                        assert(self@[mid.sidx(x as int, y as int)].has_mine == mid@[mid.sidx(
                            x as int,
                            y as int,
                        )].has_mine);
                    },
                }
            }
        }
        r
    }

    /// Reveals `(x, y)`, placing the mines first — away from `(x, y)` — if
    /// this is the field's first reveal.
    pub fn reveal_cell(&mut self, x: u8, y: u8) -> (r: RevealResult)
        requires
            old(self).wf(),
            (x as int) < old(self).grid_width(),
            (y as int) < old(self).grid_height(),
        ensures
            final(self).wf(),
            final(self).is_populated(),
            old(self).is_populated() ==> reveal_exact(*old(self), *final(self), x, y, r),
            !old(self).is_populated() ==> exists|mid: Field|
                {
                    &&& #[trigger] population_of(*old(self), mid, Some((x, y)))
                    &&& mid.wf()
                    &&& reveal_exact(mid, *final(self), x, y, r)
                },
            !old(self).is_populated() ==> !(r is Mine) && !final(self).cell_at(
                x as int,
                y as int,
            ).has_mine,
    {
        let mut sampler = SystemSampler;
        self.reveal_with(x, y, &mut sampler)
    }
}

// The invariant's public face.

/// Once a field is populated, the mines placed over all its cells sum to
/// exactly its mine count.
pub proof fn lemma_mine_total(f: Field)
    requires
        f.wf(),
        f.is_populated(),
    ensures
        count_mines_from(f@, 0) == f.mines(),
{
}

/// Once a field is populated, every cell's stored neighbor count equals the
/// exact number of adjacent mines, edges and corners clipped.
pub proof fn lemma_neighbor_counts(f: Field)
    requires
        f.wf(),
        f.is_populated(),
    ensures
        f.counts_ok(),
{
}

/// The running flag counter always equals the number of flagged cells.
pub proof fn lemma_flag_counter_live(f: Field)
    requires
        f.wf(),
    ensures
        f.flag_count() == count_flagged_from(f@, 0),
{
}

/// Revealing a cell a second time: once a reveal has uncovered it and it
/// holds no mine, another reveal reports nothing and changes no cell.
pub proof fn lemma_reveal_idempotent(
    pre: Field,
    mid: Field,
    post: Field,
    x: u8,
    y: u8,
    r1: RevealResult,
    r2: RevealResult,
)
    requires
        pre.in_bounds(x as int, y as int),
        r1 is Success,
        reveal_exact(pre, mid, x, y, r1),
        reveal_exact(mid, post, x, y, r2),
    ensures
        r2 is Nothing,
        post == mid,
{
    match r1 {
        RevealResult::Success(v) => {
            assert(v@.contains((x, y)));
            assert(mid.cell_at(x as int, y as int).revealed);
        },
        _ => {
            assert(false);
        },
    }
    match r2 {
        RevealResult::Nothing => {},
        RevealResult::Mine => {
            assert(false);
        },
        RevealResult::Success(_) => {
            assert(false);
        },
    }
}

/// A toggle on a revealed cell is refused outright: no transition, no
/// change, and the flag counter stands.
pub proof fn lemma_toggle_on_revealed(pre: Field, post: Field, x: u8, y: u8, r: ToggleFlagResult)
    requires
        pre.cell_at(x as int, y as int).revealed,
        toggle_transition(pre, post, x, y, r),
    ensures
        r is Nothing,
        post == pre,
        post.flag_count() == pre.flag_count(),
{
}

/// A reveal on a flagged cell is refused outright: no result and no change.
pub proof fn lemma_reveal_on_flagged(pre: Field, post: Field, x: u8, y: u8, r: RevealResult)
    requires
        pre.cell_at(x as int, y as int).flagged,
        reveal_exact(pre, post, x, y, r),
    ensures
        r is Nothing,
        post == pre,
{
    match r {
        RevealResult::Nothing => {},
        RevealResult::Mine => {
            assert(false);
        },
        RevealResult::Success(_) => {
            assert(false);
        },
    }
}

} // verus!
