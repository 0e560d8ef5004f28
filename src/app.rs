use vstd::prelude::*;

use crate::algorithm::{Algorithm, AlgorithmResult, AlgorithmType, AnyAlgorithm, Coord};
use crate::grid::{cell, in_bounds, paint, Grid, GridState, Node, NodeType};
use crate::sidebar::{next_index, prev_index, Sidebar};
use crate::utils::abs_to_grid;

verus! {

/// Redraw once every this many steps of a maze generator.
pub const MAZE_REDRAW_EVERY: u64 = 50;

/// Redraw once every this many steps of a pathfinder.
pub const PATH_REDRAW_EVERY: u64 = 15;

/// The redraw cadence of an algorithm family.
pub open spec fn pacing(kind: AlgorithmType) -> u64 {
    match kind {
        AlgorithmType::MazeGeneration => MAZE_REDRAW_EVERY,
        AlgorithmType::Pathfinding => PATH_REDRAW_EVERY,
    }
}

/// `(x, y)` is one of the coordinates of `path`.
pub open spec fn on_path(path: Seq<Coord>, x: int, y: int) -> bool {
    exists|k: int| 0 <= k < path.len() && (#[trigger] path[k]).0 == x && path[k].1 == y
}

/// `after` is `before` with every cell of `path` that lies in the grid set to `Path`.
pub open spec fn path_painted(before: Seq<Vec<Node>>, after: Seq<Vec<Node>>, path: Seq<Coord>) -> bool {
    &&& after.len() == before.len()
    &&& forall|j: int| 0 <= j < before.len() ==> #[trigger] after[j]@.len() == before[j]@.len()
    &&& forall|i: int, j: int|
        in_bounds(before, i, j) ==> #[trigger] cell(after, i, j) == if on_path(path, i, j) {
            NodeType::Path
        } else {
            cell(before, i, j)
        }
}

/// `grid` is what the driver makes of a step that left the algorithm as
/// `next`, the cells as `after` and reported `r`: on `ModifiedGrid` the
/// algorithm keeps running; on a terminal outcome the grid goes idle with the
/// path, if any, painted.
pub open spec fn outcome_applied(next: AnyAlgorithm, after: Seq<Vec<Node>>, r: AlgorithmResult, grid: Grid) -> bool {
    if r is ModifiedGrid {
        grid.state == GridState::Generating(next) && grid.content@ == after
    } else {
        &&& grid.state is Idle
        &&& if r is Done && r->Done_0 is Some {
            path_painted(after, grid.content@, r->Done_0->Some_0@)
        } else {
            grid.content@ == after
        }
    }
}

/// A key the driver reacts to.
#[derive(Clone, Copy, PartialEq, Eq, Debug, Structural)]
pub enum Key {
    Char(char),
    Up,
    Down,
    Enter,
    Other,
}

/// Paints every coordinate of `path` that lies in the grid as `Path`.
pub fn paint_path(cells: &mut Vec<Vec<Node>>, path: &Vec<Coord>)
    ensures
        path_painted(old(cells)@, final(cells)@, path@),
{
    let ghost cells0 = cells@;
    let mut k: usize = 0;
    while k < path.len()
        invariant
            k <= path@.len(),
            path_painted(cells0, cells@, path@.subrange(0, k as int)),
        decreases path@.len() - k,
    {
        let ghost before = cells@;
        let c = path[k];
        paint(cells, c.0, c.1, NodeType::Path);
        proof {
            let done = path@.subrange(0, k as int);
            let now = path@.subrange(0, k + 1);
            assert forall|i: int, j: int| in_bounds(cells0, i, j) implies #[trigger] cell(cells@, i, j) == if on_path(now, i, j) {
                NodeType::Path
            } else {
                cell(cells0, i, j)
            } by {
                assert(in_bounds(before, i, j));
                if on_path(done, i, j) {
                    let t = choose|t: int| 0 <= t < done.len() && (#[trigger] done[t]).0 == i && done[t].1 == j;
                    assert(now[t] == done[t]);
                }
                if i == c.0 && j == c.1 {
                    assert(now[k as int] == c);
                }
                if on_path(now, i, j) && !(i == c.0 && j == c.1) {
                    let t = choose|t: int| 0 <= t < now.len() && (#[trigger] now[t]).0 == i && now[t].1 == j;
                    assert(done[t] == now[t]);
                }
            }
        }
        k = k + 1;
    }
    proof {
        assert(path@.subrange(0, path@.len() as int) =~= path@);
    }
}

/// Applies the outcome of a step to `grid`. A terminal outcome returns the
/// grid to `Idle`, paints the path it carries and clears the markers; the
/// result says whether the outcome was terminal.
pub fn integrate_outcome(grid: &mut Grid, r: AlgorithmResult) -> (finished: bool)
    requires
        old(grid).well_formed(),
    ensures
        final(grid).well_formed(),
        finished == !(r is ModifiedGrid),
        !finished ==> *final(grid) == *old(grid),
        finished ==> {
            &&& final(grid).state is Idle
            &&& final(grid).markers.start is None
            &&& final(grid).markers.end is None
            &&& final(grid).grid_start == old(grid).grid_start
            &&& final(grid).grid_end == old(grid).grid_end
            &&& final(grid).clear == old(grid).clear
            &&& final(grid).iter_count == old(grid).iter_count
            &&& if r is Done && r->Done_0 is Some {
                path_painted(old(grid).content@, final(grid).content@, r->Done_0->Some_0@)
            } else {
                final(grid).content == old(grid).content
            }
        },
{
    match r {
        AlgorithmResult::ModifiedGrid => false,
        AlgorithmResult::Done(found) => {
            grid.state = GridState::Idle;
            if let Some(path) = found {
                let ghost cells0 = grid.content@;
                paint_path(&mut grid.content, &path);
                proof {
                    assert forall|y: int| 0 <= y < grid.content@.len() implies #[trigger] grid.content@[y]@.len() == grid.content@[0]@.len() by {
                        assert(cells0[y]@.len() == cells0[0]@.len());
                    }
                }
            }
            grid.markers.start = None;
            grid.markers.end = None;
            true
        },
        AlgorithmResult::Impossible => {
            grid.state = GridState::Idle;
            grid.markers.start = None;
            grid.markers.end = None;
            true
        },
    }
}

/// The whole viewer: menu, grid and the tick counter that paces redraws.
pub struct App {
    pub exit: bool,
    pub sidebar: Sidebar,
    pub grid: Grid,
    pub tick: u64,
}

impl App {
    /// The menu and the grid are well formed; the grid origin and a
    /// placed start marker lie in the non-negative quadrant of the screen.
    pub open spec fn well_formed(&self) -> bool {
        &&& self.sidebar.well_formed()
        &&& self.grid.well_formed()
        &&& (self.grid.grid_start matches Some(g) ==> g.0 >= 0 && g.1 >= 0)
        &&& (self.grid.markers.start matches Some(s) ==> s.0 >= 0 && s.1 >= 0)
    }

    pub fn new() -> (r: Self)
        ensures
            r.well_formed(),
            !r.exit,
            r.sidebar.selected == Some(0usize),
            r.grid.state is Idle,
            r.grid.content@.len() == 0,
            r.tick == 0,
    {
        Self { exit: false, sidebar: Sidebar::new(), grid: Grid::new(), tick: 0 }
    }

    /// Replaces the cells by an empty grid of the new size, placed on screen
    /// between `grid_start` and `grid_end`.
    pub fn resize(&mut self, width: usize, height: usize, grid_start: Coord, grid_end: Coord)
        requires
            old(self).well_formed(),
            grid_start.0 >= 0,
            grid_start.1 >= 0,
        ensures
            final(self).well_formed(),
            final(self).grid.content@.len() == height,
            forall|y: int| 0 <= y < height ==> #[trigger] final(self).grid.content@[y]@.len() == width,
            forall|x: int, y: int| in_bounds(final(self).grid.content@, x, y) ==> #[trigger] cell(final(self).grid.content@, x, y) == NodeType::Empty,
            final(self).grid.grid_start == Some(grid_start),
            final(self).grid.grid_end == Some(grid_end),
            final(self).grid.state == old(self).grid.state,
            final(self).grid.markers == old(self).grid.markers,
            final(self).sidebar == old(self).sidebar,
            final(self).exit == old(self).exit,
    {
        self.grid.resize(width, height, grid_start, grid_end);
    }

    /// One scheduling tick. While an algorithm runs it takes one step, its
    /// outcome is applied, and the result says whether to redraw: every
    /// `pacing` ticks, and always on finishing. In any other state nothing
    /// changes and nothing is redrawn.
    pub fn tick(&mut self) -> (redraw: bool)
        requires
            old(self).well_formed(),
        ensures
            final(self).well_formed(),
            final(self).exit == old(self).exit,
            final(self).sidebar == old(self).sidebar,
            !(old(self).grid.state is Generating) ==> *final(self) == *old(self) && !redraw,
            old(self).grid.state is Generating ==> {
                let kind = old(self).grid.state->Generating_0.kind();
                &&& final(self).grid.content@.len() == old(self).grid.content@.len()
                &&& forall|y: int| 0 <= y < old(self).grid.content@.len() ==> #[trigger] final(self).grid.content@[y]@.len() == old(self).grid.content@[y]@.len()
                &&& final(self).grid.grid_start == old(self).grid.grid_start
                &&& final(self).grid.grid_end == old(self).grid.grid_end
                &&& final(self).grid.state is Idle ==> redraw && final(self).tick == 1
                    && final(self).grid.markers.start is None && final(self).grid.markers.end is None
                &&& final(self).grid.state is Generating ==> final(self).grid.state->Generating_0.kind() == kind
                    && final(self).grid.markers == old(self).grid.markers
                    && redraw == (old(self).tick % pacing(kind) == 0)
                    && final(self).tick == (old(self).tick + 1) % 0x1_0000_0000_0000_0000
                &&& final(self).grid.state is Idle || final(self).grid.state is Generating
                &&& exists|next: AnyAlgorithm, after: Seq<Vec<Node>>, r: AlgorithmResult|
                    #[trigger] old(self).grid.state->Generating_0.stepped(old(self).grid.content@, next, after, r)
                        && outcome_applied(next, after, r, final(self).grid)
            },
    {
        let ghost cells0 = self.grid.content@;
        let ghost alg0 = self.grid.state->Generating_0;
        let (kind, r) = match &mut self.grid.state {
            GridState::Generating(algorithm) => {
                let kind = algorithm.algorithm_type();
                let r = algorithm.step(&mut self.grid.content);
                (kind, r)
            },
            _ => {
                return false;
            },
        };
        let ghost cells1 = self.grid.content@;
        let ghost next = self.grid.state->Generating_0;
        let ghost rg = r;
        let finished = integrate_outcome(&mut self.grid, r);
        proof {
            assert(alg0.stepped(cells0, next, cells1, rg));
            assert(outcome_applied(next, cells1, rg, self.grid));
            assert forall|y: int| 0 <= y < cells0.len() implies #[trigger] self.grid.content@[y]@.len() == cells0[y]@.len() by {
                assert(cells1[y]@.len() == cells0[y]@.len());
            }
        }
        let pace: u64 = match kind {
            AlgorithmType::MazeGeneration => MAZE_REDRAW_EVERY,
            AlgorithmType::Pathfinding => PATH_REDRAW_EVERY,
        };
        if finished {
            self.tick = 0;
        }
        let redraw = self.tick % pace == 0;
        self.tick = self.tick.wrapping_add(1);
        redraw
    }

    /// A pointer press at screen position `position` while markers are being
    /// placed. Presses outside the grid are ignored; the first press inside
    /// places the start marker, the second the end marker, and then the
    /// algorithm is initialised with both, in grid coordinates, and starts.
    pub fn place_marker(&mut self, position: Coord)
        requires
            old(self).well_formed(),
            old(self).grid.grid_start is Some,
            old(self).grid.grid_end is Some,
        ensures
            final(self).well_formed(),
            final(self).exit == old(self).exit,
            final(self).sidebar == old(self).sidebar,
            final(self).grid.content == old(self).grid.content,
            final(self).grid.grid_start == old(self).grid.grid_start,
            final(self).grid.grid_end == old(self).grid.grid_end,
            ({
                let gs = old(self).grid.grid_start->Some_0;
                let ge = old(self).grid.grid_end->Some_0;
                let inside = gs.0 <= position.0 <= ge.0 && gs.1 <= position.1 <= ge.1;
                if !(old(self).grid.state is PlacingMarkers) || !inside {
                    *final(self) == *old(self)
                } else if old(self).grid.markers.start is None {
                    &&& final(self).grid.markers.start == Some(position)
                    &&& final(self).grid.markers.end == old(self).grid.markers.end
                    &&& final(self).grid.state == old(self).grid.state
                } else {
                    let s = old(self).grid.markers.start->Some_0;
                    let a = old(self).grid.state->PlacingMarkers_0;
                    &&& final(self).grid.markers.start == old(self).grid.markers.start
                    &&& final(self).grid.markers.end == Some(position)
                    &&& final(self).grid.state is Generating
                    &&& final(self).grid.state->Generating_0.kind() == a.kind()
                    &&& initialised(
                        final(self).grid.state->Generating_0,
                        (s.0 - gs.0, s.1 - gs.1),
                        (position.0 - gs.0, position.1 - gs.1),
                    )
                }
            }),
    {
        let grid_start = match self.grid.grid_start {
            Some(g) => g,
            None => {
                return;
            },
        };
        let grid_end = match self.grid.grid_end {
            Some(g) => g,
            None => {
                return;
            },
        };
        match self.grid.state {
            GridState::PlacingMarkers(_) => {},
            _ => {
                return;
            },
        }
        if position.0 < grid_start.0 || position.0 > grid_end.0 || position.1 < grid_start.1 || position.1 > grid_end.1 {
            return;
        }
        match self.grid.markers.start {
            None => {
                self.grid.markers.start = Some(position);
            },
            Some(start) => {
                self.grid.markers.end = Some(position);
                let from = abs_to_grid(start, grid_start);
                let to = abs_to_grid(position, grid_start);
                let mut state = GridState::Idle;
                std::mem::swap(&mut state, &mut self.grid.state);
                match state {
                    GridState::PlacingMarkers(mut algorithm) => {
                        match &mut algorithm {
                            AnyAlgorithm::AStar(a) => a.init(from, to),
                            AnyAlgorithm::NoiseMap(m) => m.init(from, to),
                        }
                        self.grid.state = GridState::Generating(algorithm);
                    },
                    other => {
                        self.grid.state = other;
                    },
                }
            },
        }
    }
}

/// `algorithm` was initialised with `start` and `end`: a pathfinder then
/// searches from `start` towards `end`.
pub open spec fn initialised(algorithm: AnyAlgorithm, start: (int, int), end: (int, int)) -> bool {
    match algorithm {
        AnyAlgorithm::AStar(a) => a.start().0 == start.0 && a.start().1 == start.1 && a.goal().0 == end.0
            && a.goal().1 == end.1 && a.frontier().len() == 1,
        AnyAlgorithm::NoiseMap(_) => true,
    }
}

/// Reacts to a key pressed while idle: `q` asks to exit, Up and Down move the
/// menu highlight, Enter activates the highlighted entry (a generator it
/// starts draws from `seed`). No key changes a cell, a marker or the grid's
/// screen bounds.
pub fn handle_key_press(app: &mut App, key: Key, seed: u64)
    requires
        old(app).well_formed(),
    ensures
        final(app).well_formed(),
        final(app).grid.content == old(app).grid.content,
        final(app).grid.markers == old(app).grid.markers,
        final(app).grid.grid_start == old(app).grid.grid_start,
        final(app).grid.grid_end == old(app).grid.grid_end,
        final(app).grid.clear == old(app).grid.clear,
        final(app).grid.iter_count == old(app).grid.iter_count,
        final(app).tick == old(app).tick,
        key == Key::Char('q') ==> final(app).exit && final(app).sidebar == old(app).sidebar && final(app).grid.state
            == old(app).grid.state,
        key == Key::Up ==> final(app).exit == old(app).exit && final(app).sidebar.page == old(app).sidebar.page
            && final(app).sidebar.selected == Some(prev_index(old(app).sidebar.selected, crate::sidebar::page_len(old(app).sidebar.page)) as usize)
            && final(app).grid.state == old(app).grid.state,
        key == Key::Down ==> final(app).exit == old(app).exit && final(app).sidebar.page == old(app).sidebar.page
            && final(app).sidebar.selected == Some(next_index(old(app).sidebar.selected, crate::sidebar::page_len(old(app).sidebar.page)) as usize)
            && final(app).grid.state == old(app).grid.state,
        key == Key::Enter ==> final(app).exit == old(app).exit && final(app).sidebar.selected == Some(0usize)
            && crate::sidebar::selected_outcome(old(app).sidebar, final(app).sidebar, old(app).grid.state, final(app).grid.state),
        !(key == Key::Char('q') || key == Key::Up || key == Key::Down || key == Key::Enter) ==> *final(app) == *old(app),
{
    match key {
        Key::Char('q') => {
            app.exit = true;
        },
        Key::Up => {
            app.sidebar.prev();
        },
        Key::Down => {
            app.sidebar.next();
        },
        Key::Enter => {
            app.sidebar.select(&mut app.grid, seed);
        },
        _ => {},
    }
}

} // verus!
