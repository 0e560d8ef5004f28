use vstd::prelude::*;

use rand::rngs::StdRng;
use rand::{Rng, SeedableRng};
use vstd::arithmetic::div_mod::{lemma_fundamental_div_mod, lemma_fundamental_div_mod_converse};

use crate::algorithm::{Algorithm, AlgorithmResult, AlgorithmType, Coord};
use crate::grid::{cell, in_bounds, painted, rectangular, Node, NodeType};

verus! {

#[verifier::external_type_specification]
#[verifier::external_body]
pub struct ExStdRng(StdRng);

/// Relies on rand's `Rng::random_range` on the inclusive range `0..=100`:
/// the value drawn lies in that range.
#[verifier::external_body]
fn draw_percent(rng: &mut StdRng) -> (r: i32)
    ensures
        0 <= r <= 100,
{
    rng.random_range(0..=100)
}

/// Relies on rand's `SeedableRng::seed_from_u64` for a generator fixed by `seed`.
#[verifier::external_body]
fn seeded_rng(seed: u64) -> StdRng {
    StdRng::seed_from_u64(seed)
}

/// The cursor position after `(x, y)` in row-major order on rows of width `w`.
pub open spec fn next_cursor(c: (int, int), w: int) -> (int, int) {
    if c.0 == w - 1 {
        (0, c.1 + 1)
    } else {
        (c.0 + 1, c.1)
    }
}

/// `c` is the bottom-right cell of a `w` by `h` grid.
pub open spec fn is_last(c: (int, int), w: int, h: int) -> bool {
    c.0 == w - 1 && c.1 == h - 1
}

/// The cursor after `k` advances from the top-left corner.
pub open spec fn cursor_after(k: nat, w: int) -> (int, int)
    decreases k,
{
    if k == 0 {
        (0, 0)
    } else {
        next_cursor(cursor_after((k - 1) as nat, w), w)
    }
}

/// The cell kind a draw of `roll` gives under `fill` percent.
pub open spec fn fill_kind(roll: int, fill: int) -> NodeType {
    if roll <= fill {
        NodeType::Wall
    } else {
        NodeType::Empty
    }
}

/// One generator step from cursor `c` with the draw `roll`: the cell under
/// the cursor gets its kind; the step finishes on the bottom-right cell and
/// otherwise moves the cursor on. A cursor outside the grid (after a resize)
/// finishes at once and writes nothing.
pub open spec fn fill_step(
    c: (int, int),
    fill: int,
    roll: int,
    cells_before: Seq<Vec<Node>>,
    cells_after: Seq<Vec<Node>>,
    c_after: (int, int),
    r: AlgorithmResult,
) -> bool {
    let h = cells_before.len() as int;
    let w = if h == 0 {
        0
    } else {
        cells_before[0]@.len() as int
    };
    if !in_bounds(cells_before, c.0, c.1) {
        &&& r is Done
        &&& r->Done_0 is None
        &&& cells_after == cells_before
        &&& c_after == c
    } else {
        &&& painted(cells_before, cells_after, c.0, c.1, fill_kind(roll, fill))
        &&& is_last(c, w, h) ==> r is Done && r->Done_0 is None && c_after == c
        &&& !is_last(c, w, h) ==> r is ModifiedGrid && c_after == next_cursor(c, w)
    }
}

/// Fills the grid cell by cell in row-major order, each cell a wall with a
/// probability of `fill_percentage` percent.
pub struct NoiseMap {
    next: (usize, usize),
    fill_percentage: i32,
    rng: StdRng,
}

impl NoiseMap {
    pub closed spec fn cursor(&self) -> (int, int) {
        (self.next.0 as int, self.next.1 as int)
    }

    pub closed spec fn fill(&self) -> int {
        self.fill_percentage as int
    }

    /// A generator at the top-left corner whose draws are fixed by `seed`.
    pub fn new(f: i32, seed: u64) -> (r: Self)
        ensures
            r.cursor() == (0int, 0int),
            r.fill() == f,
    {
        Self { next: (0, 0), fill_percentage: f, rng: seeded_rng(seed) }
    }

    /// Performs one step with the draw `roll` already made.
    pub fn apply_roll(&mut self, grid: &mut Vec<Vec<Node>>, roll: i32) -> (r: AlgorithmResult)
        requires
            rectangular(old(grid)@),
        ensures
            fill_step(old(self).cursor(), old(self).fill(), roll as int, old(grid)@, final(grid)@, final(self).cursor(), r),
            final(self).fill() == old(self).fill(),
    {
        let (x, y) = self.next;
        if y >= grid.len() || x >= grid[y].len() {
            return AlgorithmResult::Done(None);
        }
        let height = grid.len();
        let width = grid[0].len();
        let t = if roll <= self.fill_percentage { NodeType::Wall } else { NodeType::Empty };
        grid[y][x] = Node { node_type: t };
        proof {
            assert(grid@[y as int]@.len() == width);
        }
        if x == width - 1 && y == height - 1 {
            AlgorithmResult::Done(None)
        } else {
            if x == width - 1 {
                self.next = (0, y + 1);
            } else {
                self.next = (x + 1, y);
            }
            AlgorithmResult::ModifiedGrid
        }
    }

    /// Draws a number in `0..=100` and performs one step with it.
    pub fn step(&mut self, grid: &mut Vec<Vec<Node>>) -> (r: AlgorithmResult)
        requires
            rectangular(old(grid)@),
        ensures
            exists|roll: int|
                0 <= roll <= 100 && #[trigger] fill_step(old(self).cursor(), old(self).fill(), roll, old(grid)@, final(grid)@, final(self).cursor(), r),
            final(self).fill() == old(self).fill(),
    {
        let ghost c0 = self.cursor();
        let ghost f0 = self.fill();
        let roll = draw_percent(&mut self.rng);
        assert(self.cursor() == c0 && self.fill() == f0);
        let ghost cells0 = grid@;
        let r = self.apply_roll(grid, roll);
        proof {
            assert(fill_step(c0, f0, roll as int, cells0, grid@, self.cursor(), r));
        }
        r
    }
}

impl Algorithm for NoiseMap {
    open spec fn well_formed(&self) -> bool {
        true
    }

    open spec fn kind(&self) -> AlgorithmType {
        AlgorithmType::MazeGeneration
    }

    open spec fn fits(&self, cells: Seq<Vec<Node>>) -> bool {
        true
    }

    open spec fn seeded_from(&self, before: Self, start: Coord, end: Coord) -> bool {
        *self == before
    }

    open spec fn stepped(&self, cells: Seq<Vec<Node>>, next: Self, after: Seq<Vec<Node>>, r: AlgorithmResult) -> bool {
        &&& exists|roll: int| 0 <= roll <= 100 && #[trigger] fill_step(self.cursor(), self.fill(), roll, cells, after, next.cursor(), r)
        &&& next.fill() == self.fill()
    }

    /// The generator needs no endpoints: it is left as it is.
    fn init(&mut self, start: Coord, end: Coord) {
    }

    proof fn lemma_fits_without_walls(&self, cells: Seq<Vec<Node>>) {
    }

    fn step(&mut self, grid: &mut Vec<Vec<Node>>) -> (r: AlgorithmResult) {
        let ghost cells0 = grid@;
        let r = NoiseMap::step(self, grid);
        proof {
            assert forall|y: int| 0 <= y < grid@.len() implies #[trigger] grid@[y]@.len() == grid@[0]@.len() by {
                assert(cells0[y]@.len() == cells0[0]@.len());
            }
        }
        r
    }

    fn algorithm_type(&self) -> (r: AlgorithmType) {
        AlgorithmType::MazeGeneration
    }
}

/// On a `w` by `h` grid, the generator started at the top-left corner writes
/// at its `k`-th step the cell `(k mod w, k div w)`: every cell once, in
/// row-major order, and it finishes exactly at step `w * h - 1`, the
/// `w * h`-th step.
pub proof fn lemma_fill_order(w: int, h: int)
    requires
        w > 0,
        h > 0,
    ensures
        forall|k: nat| #[trigger] cursor_after(k, w) == ((k as int) % w, (k as int) / w),
        forall|k: nat| k < w * h ==> in_grid(#[trigger] cursor_after(k, w), w, h),
        forall|k: nat| k < w * h ==> (is_last(#[trigger] cursor_after(k, w), w, h) <==> k == w * h - 1),
        forall|j: nat, k: nat| j < k ==> #[trigger] cursor_after(j, w) != #[trigger] cursor_after(k, w),
{
    assert forall|k: nat| #[trigger] cursor_after(k, w) == ((k as int) % w, (k as int) / w) by {
        lemma_cursor_after(k, w);
    }
    assert forall|k: nat| k < w * h implies in_grid(#[trigger] cursor_after(k, w), w, h) by {
        lemma_fundamental_div_mod(k as int, w);
        assert((k as int) / w < h) by (nonlinear_arith)
            requires k < w * h, k == w * ((k as int) / w) + (k as int) % w, 0 <= (k as int) % w < w, w > 0;
        assert(0 <= (k as int) / w) by (nonlinear_arith)
            requires k >= 0, w > 0;
    }
    assert forall|k: nat| k < w * h implies (is_last(#[trigger] cursor_after(k, w), w, h) <==> k == w * h - 1) by {
        lemma_fundamental_div_mod(k as int, w);
        lemma_cursor_after(k, w);
        let q = (k as int) / w;
        let m = (k as int) % w;
        if m == w - 1 && q == h - 1 {
            assert(k == w * h - 1) by (nonlinear_arith)
                requires k == w * q + m, m == w - 1, q == h - 1;
        }
        if k == w * h - 1 {
            assert(w * h - 1 == (h - 1) * w + (w - 1)) by (nonlinear_arith);
            lemma_fundamental_div_mod_converse(k as int, w, h - 1, w - 1);
        }
    }
    assert forall|j: nat, k: nat| j < k implies #[trigger] cursor_after(j, w) != #[trigger] cursor_after(k, w) by {
        lemma_fundamental_div_mod(j as int, w);
        lemma_fundamental_div_mod(k as int, w);
    }
}

/// The `k`-th step of a generator started at the top-left corner of a
/// rectangular `w` by `h` grid (what `k` earlier steps leave the cursor at)
/// writes cell `(k mod w, k div w)` with the kind its draw gives, changes no
/// other cell, and reports `Done(None)` exactly when `k = w * h - 1`;
/// otherwise it moves the cursor to where step `k + 1` writes.
pub proof fn lemma_fill_run_step(
    k: nat,
    fill: int,
    roll: int,
    cells: Seq<Vec<Node>>,
    after: Seq<Vec<Node>>,
    c_after: (int, int),
    r: AlgorithmResult,
)
    requires
        rectangular(cells),
        cells.len() > 0,
        cells[0]@.len() > 0,
        k < cells.len() * cells[0]@.len(),
        fill_step(cursor_after(k, cells[0]@.len() as int), fill, roll, cells, after, c_after, r),
    ensures
        ({
            let w = cells[0]@.len() as int;
            let h = cells.len() as int;
            &&& painted(cells, after, (k as int) % w, (k as int) / w, fill_kind(roll, fill))
            &&& (k == w * h - 1 <==> r is Done)
            &&& r is Done ==> r->Done_0 is None
            &&& k < w * h - 1 ==> r is ModifiedGrid && c_after == cursor_after(k + 1, w)
        }),
{
    let w = cells[0]@.len() as int;
    let h = cells.len() as int;
    lemma_fill_order(w, h);
    let c = cursor_after(k, w);
    assert(in_grid(c, w, h));
    assert(cells[c.1]@.len() == w);
    assert(is_last(c, w, h) <==> k == w * h - 1);
}

/// A generator step is fixed by its cursor, its fill percentage, the draw and
/// the cells: two steps that agree on those write the same kinds into the
/// same cells, move the cursor alike and report alike. With the draws fixed
/// by a seed, whole runs therefore agree.
pub proof fn lemma_fill_step_deterministic(
    c: (int, int),
    fill: int,
    roll: int,
    cells: Seq<Vec<Node>>,
    after1: Seq<Vec<Node>>,
    after2: Seq<Vec<Node>>,
    c1: (int, int),
    c2: (int, int),
    r1: AlgorithmResult,
    r2: AlgorithmResult,
)
    requires
        fill_step(c, fill, roll, cells, after1, c1, r1),
        fill_step(c, fill, roll, cells, after2, c2, r2),
    ensures
        after1.len() == after2.len(),
        forall|y: int| 0 <= y < after1.len() ==> #[trigger] after1[y]@.len() == after2[y]@.len(),
        forall|x: int, y: int| in_bounds(after1, x, y) ==> #[trigger] cell(after1, x, y) == cell(after2, x, y),
        c1 == c2,
        r1 is Done <==> r2 is Done,
        r1 is ModifiedGrid <==> r2 is ModifiedGrid,
{
    assert forall|x: int, y: int| in_bounds(after1, x, y) implies #[trigger] cell(after1, x, y) == cell(after2, x, y) by {
        if in_bounds(cells, c.0, c.1) {
            assert(in_bounds(cells, x, y));
        }
    }
}

/// `c` lies in a `w` by `h` grid.
pub open spec fn in_grid(c: (int, int), w: int, h: int) -> bool {
    0 <= c.0 < w && 0 <= c.1 < h
}

proof fn lemma_cursor_after(k: nat, w: int)
    requires
        w > 0,
    ensures
        cursor_after(k, w) == ((k as int) % w, (k as int) / w),
    decreases k,
{
    if k > 0 {
        let p = (k - 1) as nat;
        lemma_cursor_after(p, w);
        lemma_fundamental_div_mod(p as int, w);
        let q = (p as int) / w;
        let r = (p as int) % w;
        if r == w - 1 {
            assert(k == (q + 1) * w + 0) by (nonlinear_arith)
                requires p == w * q + r, r == w - 1, k == p + 1;
            lemma_fundamental_div_mod_converse(k as int, w, q + 1, 0);
        } else {
            assert(k == q * w + (r + 1)) by (nonlinear_arith)
                requires p == w * q + r, k == p + 1;
            lemma_fundamental_div_mod_converse(k as int, w, q, r + 1);
        }
    } else {
        assert(0int % w == 0 && 0int / w == 0) by (nonlinear_arith)
            requires w > 0;
    }
}

} // verus!
