use vstd::prelude::*;

use crate::algorithm::{Algorithm, AnyAlgorithm, Coord};

verus! {

/// What a cell holds. Only `Wall` blocks traversal; `Visited` and `Path`
/// are overlays for display.
#[derive(Clone, Copy, PartialEq, Eq, Debug, Structural)]
pub enum NodeType {
    Empty,
    Wall,
    Visited,
    Path,
}

#[derive(Clone, Copy, PartialEq, Eq, Debug, Structural)]
pub struct Node {
    pub node_type: NodeType,
}

/// Every row has the length of the first.
pub open spec fn rectangular(cells: Seq<Vec<Node>>) -> bool {
    forall|y: int| 0 <= y < cells.len() ==> #[trigger] cells[y]@.len() == cells[0]@.len()
}

/// `(x, y)` addresses a cell of `cells`.
pub open spec fn in_bounds(cells: Seq<Vec<Node>>, x: int, y: int) -> bool {
    0 <= y < cells.len() && 0 <= x < cells[y]@.len()
}

/// The kind of the cell at `(x, y)`.
pub open spec fn cell(cells: Seq<Vec<Node>>, x: int, y: int) -> NodeType {
    cells[y]@[x].node_type
}

/// `c` addresses a wall cell of `cells`.
pub open spec fn on_wall(cells: Seq<Vec<Node>>, c: (i32, i32)) -> bool {
    in_bounds(cells, c.0 as int, c.1 as int) && cell(cells, c.0 as int, c.1 as int) == NodeType::Wall
}

/// `cells` holds no wall.
pub open spec fn no_walls(cells: Seq<Vec<Node>>) -> bool {
    forall|x: int, y: int| in_bounds(cells, x, y) ==> #[trigger] cell(cells, x, y) != NodeType::Wall
}

/// `after` is `before` with the cell at `(x, y)` set to `t`, when that cell exists.
pub open spec fn painted(before: Seq<Vec<Node>>, after: Seq<Vec<Node>>, x: int, y: int, t: NodeType) -> bool {
    &&& after.len() == before.len()
    &&& forall|j: int| 0 <= j < before.len() ==> #[trigger] after[j]@.len() == before[j]@.len()
    &&& forall|i: int, j: int|
        in_bounds(before, i, j) ==> #[trigger] cell(after, i, j) == if i == x && j == y {
            t
        } else {
            cell(before, i, j)
        }
}

/// Sets the cell at `(x, y)` to `t` when it exists; otherwise leaves the cells alone.
pub fn paint(cells: &mut Vec<Vec<Node>>, x: i32, y: i32, t: NodeType)
    ensures
        painted(old(cells)@, final(cells)@, x as int, y as int, t),
{
    if y >= 0 && (y as usize) < cells.len() && x >= 0 && (x as usize) < cells[y as usize].len() {
        cells[y as usize][x as usize] = Node { node_type: t };
    }
}

/// Start and end markers placed by the viewer, in screen coordinates.
pub struct Markers {
    pub start: Option<Coord>,
    pub end: Option<Coord>,
}

impl Markers {
    pub fn new() -> (r: Self)
        ensures
            r.start is None,
            r.end is None,
    {
        Self { start: None, end: None }
    }
}

/// The driver's interaction state.
pub enum GridState {
    Idle,
    Generating(AnyAlgorithm),
    PlacingMarkers(AnyAlgorithm),
}

impl GridState {
    /// The algorithm held by this state, if any, is well formed.
    pub open spec fn well_formed(&self) -> bool {
        match self {
            GridState::Idle => true,
            GridState::Generating(a) => a.well_formed(),
            GridState::PlacingMarkers(a) => a.well_formed(),
        }
    }

    /// The algorithm held by this state, if any, agrees with `cells`.
    pub open spec fn fits(&self, cells: Seq<Vec<Node>>) -> bool {
        match self {
            GridState::Idle => true,
            GridState::Generating(a) => a.fits(cells),
            GridState::PlacingMarkers(a) => a.fits(cells),
        }
    }
}

/// The shared cell buffer, the interaction state, the markers and the
/// screen bounds of the grid.
pub struct Grid {
    pub state: GridState,
    pub content: Vec<Vec<Node>>,
    pub markers: Markers,
    pub grid_start: Option<Coord>,
    pub grid_end: Option<Coord>,
    pub clear: bool,
    pub iter_count: i32,
}

impl Grid {
    pub open spec fn well_formed(&self) -> bool {
        &&& rectangular(self.content@)
        &&& self.state.well_formed()
        &&& self.state.fits(self.content@)
    }

    pub fn new() -> (r: Self)
        ensures
            r.well_formed(),
            r.state is Idle,
            r.content@.len() == 0,
            r.markers.start is None,
            r.markers.end is None,
            r.grid_start is None,
            r.grid_end is None,
            !r.clear,
            r.iter_count == 0,
    {
        Self {
            state: GridState::Idle,
            content: Vec::new(),
            markers: Markers::new(),
            grid_start: None,
            grid_end: None,
            clear: false,
            iter_count: 0,
        }
    }

    pub fn height(&self) -> (r: usize)
        ensures
            r == self.content@.len(),
    {
        self.content.len()
    }

    pub fn width(&self) -> (r: usize)
        ensures
            r == if self.content@.len() == 0 {
                0
            } else {
                self.content@[0]@.len()
            },
    {
        if self.height() == 0 {
            return 0;
        }
        self.content[0].len()
    }

    /// Replaces the cells by an empty `width` by `height` grid whose top-left
    /// and bottom-right cells stand at `grid_start` and `grid_end` on screen.
    pub fn resize(&mut self, width: usize, height: usize, grid_start: Coord, grid_end: Coord)
        requires
            old(self).well_formed(),
        ensures
            final(self).well_formed(),
            final(self).content@.len() == height,
            forall|y: int| 0 <= y < height ==> #[trigger] final(self).content@[y]@.len() == width,
            forall|x: int, y: int| in_bounds(final(self).content@, x, y) ==> #[trigger] cell(final(self).content@, x, y) == NodeType::Empty,
            final(self).grid_start == Some(grid_start),
            final(self).grid_end == Some(grid_end),
            final(self).state == old(self).state,
            final(self).markers == old(self).markers,
            final(self).clear == old(self).clear,
            final(self).iter_count == old(self).iter_count,
    {
        let mut content: Vec<Vec<Node>> = Vec::new();
        let mut y: usize = 0;
        while y < height
            invariant
                y <= height,
                content@.len() == y,
                forall|j: int| 0 <= j < y ==> #[trigger] content@[j]@.len() == width,
                forall|x: int, j: int| in_bounds(content@, x, j) ==> #[trigger] cell(content@, x, j) == NodeType::Empty,
            decreases height - y,
        {
            let mut row: Vec<Node> = Vec::new();
            let mut x: usize = 0;
            while x < width
                invariant
                    x <= width,
                    row@.len() == x,
                    forall|i: int| 0 <= i < x ==> (#[trigger] row@[i]).node_type == NodeType::Empty,
                decreases width - x,
            {
                row.push(Node { node_type: NodeType::Empty });
                x = x + 1;
            }
            let ghost before = content@;
            let ghost new_row = row@;
            content.push(row);
            proof {
                assert forall|x: int, j: int| in_bounds(content@, x, j) implies #[trigger] cell(content@, x, j) == NodeType::Empty by {
                    if j < y {
                        assert(content@[j] == before[j]);
                        assert(in_bounds(before, x, j));
                        assert(cell(before, x, j) == NodeType::Empty);
                    } else {
                        assert(content@[j]@ == new_row);
                        assert(new_row[x].node_type == NodeType::Empty);
                    }
                }
            }
            y = y + 1;
        }
        self.content = content;
        proof {
            assert(no_walls(self.content@));
            match &self.state {
                GridState::Idle => {},
                GridState::Generating(a) => a.lemma_fits_without_walls(self.content@),
                GridState::PlacingMarkers(a) => a.lemma_fits_without_walls(self.content@),
            }
        }
        self.grid_start = Some(grid_start);
        self.grid_end = Some(grid_end);
    }
}

} // verus!
