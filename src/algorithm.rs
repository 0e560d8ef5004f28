use vstd::prelude::*;

use crate::a_star::AStar;
use crate::grid::{no_walls, rectangular, Node};
use crate::noise_map::NoiseMap;

verus! {

/// A cell address `(x, y)`: x grows to the right, y grows downwards.
pub type Coord = (i32, i32);

/// What one step of an algorithm reports to its driver.
pub enum AlgorithmResult {
    ModifiedGrid,
    /// Finished; a pathfinder hands back the path it found.
    Done(Option<Vec<Coord>>),
    /// No path exists.
    Impossible,
}

/// Which family an algorithm belongs to; it only selects the redraw pacing.
#[derive(Clone, Copy, PartialEq, Eq, Debug, Structural)]
pub enum AlgorithmType {
    MazeGeneration,
    Pathfinding,
}

/// The stepping contract shared by every maze generator and pathfinder.
pub trait Algorithm: Sized {
    /// The internal invariant of the algorithm's state.
    spec fn well_formed(&self) -> bool;

    /// The family this algorithm reports.
    spec fn kind(&self) -> AlgorithmType;

    /// The algorithm's state agrees with the cells it works on.
    spec fn fits(&self, cells: Seq<Vec<Node>>) -> bool;

    /// Any state agrees with cells that hold no wall.
    proof fn lemma_fits_without_walls(&self, cells: Seq<Vec<Node>>)
        requires
            no_walls(cells),
        ensures
            self.fits(cells),
    ;

    /// `self` is what `init(start, end)` makes of `before`.
    spec fn seeded_from(&self, before: Self, start: Coord, end: Coord) -> bool;

    /// One step from `self` on `cells` may leave the algorithm as `next`,
    /// the cells as `after`, and report `r`.
    spec fn stepped(&self, cells: Seq<Vec<Node>>, next: Self, after: Seq<Vec<Node>>, r: AlgorithmResult) -> bool;

    /// Prepares an algorithm that needs endpoints; one that needs none is left as it is.
    fn init(&mut self, start: Coord, end: Coord)
        requires
            old(self).well_formed(),
        ensures
            final(self).well_formed(),
            final(self).kind() == old(self).kind(),
            final(self).seeded_from(*old(self), start, end),
    ;

    /// Performs one unit of work, possibly writing cells of `grid`.
    fn step(&mut self, grid: &mut Vec<Vec<Node>>) -> (r: AlgorithmResult)
        requires
            old(self).well_formed(),
            old(self).fits(old(grid)@),
            rectangular(old(grid)@),
        ensures
            final(self).well_formed(),
            final(self).fits(final(grid)@),
            final(self).kind() == old(self).kind(),
            old(self).stepped(old(grid)@, *final(self), final(grid)@, r),
            rectangular(final(grid)@),
            final(grid)@.len() == old(grid)@.len(),
            forall|y: int| 0 <= y < old(grid)@.len() ==> final(grid)@[y]@.len() == old(grid)@[y]@.len(),
    ;

    fn algorithm_type(&self) -> (r: AlgorithmType)
        ensures
            r == self.kind(),
    ;
}

/// The algorithm the driver is running: one handle over every strategy.
pub enum AnyAlgorithm {
    NoiseMap(NoiseMap),
    AStar(AStar),
}

impl Algorithm for AnyAlgorithm {
    open spec fn well_formed(&self) -> bool {
        match self {
            AnyAlgorithm::NoiseMap(a) => a.well_formed(),
            AnyAlgorithm::AStar(a) => a.well_formed(),
        }
    }

    open spec fn kind(&self) -> AlgorithmType {
        match self {
            AnyAlgorithm::NoiseMap(a) => a.kind(),
            AnyAlgorithm::AStar(a) => a.kind(),
        }
    }

    open spec fn fits(&self, cells: Seq<Vec<Node>>) -> bool {
        match self {
            AnyAlgorithm::NoiseMap(a) => a.fits(cells),
            AnyAlgorithm::AStar(a) => a.fits(cells),
        }
    }

    open spec fn seeded_from(&self, before: Self, start: Coord, end: Coord) -> bool {
        match (before, *self) {
            (AnyAlgorithm::NoiseMap(a), AnyAlgorithm::NoiseMap(b)) => b.seeded_from(a, start, end),
            (AnyAlgorithm::AStar(a), AnyAlgorithm::AStar(b)) => b.seeded_from(a, start, end),
            _ => false,
        }
    }

    open spec fn stepped(&self, cells: Seq<Vec<Node>>, next: Self, after: Seq<Vec<Node>>, r: AlgorithmResult) -> bool {
        match (*self, next) {
            (AnyAlgorithm::NoiseMap(a), AnyAlgorithm::NoiseMap(b)) => a.stepped(cells, b, after, r),
            (AnyAlgorithm::AStar(a), AnyAlgorithm::AStar(b)) => a.stepped(cells, b, after, r),
            _ => false,
        }
    }

    proof fn lemma_fits_without_walls(&self, cells: Seq<Vec<Node>>) {
        match self {
            AnyAlgorithm::NoiseMap(a) => a.lemma_fits_without_walls(cells),
            AnyAlgorithm::AStar(a) => a.lemma_fits_without_walls(cells),
        }
    }

    fn init(&mut self, start: Coord, end: Coord) {
        match self {
            AnyAlgorithm::NoiseMap(a) => a.init(start, end),
            AnyAlgorithm::AStar(a) => a.init(start, end),
        }
    }

    fn step(&mut self, grid: &mut Vec<Vec<Node>>) -> (r: AlgorithmResult) {
        match self {
            AnyAlgorithm::NoiseMap(a) => a.step(grid),
            AnyAlgorithm::AStar(a) => a.step(grid),
        }
    }

    fn algorithm_type(&self) -> (r: AlgorithmType) {
        match self {
            AnyAlgorithm::NoiseMap(a) => a.algorithm_type(),
            AnyAlgorithm::AStar(a) => a.algorithm_type(),
        }
    }
}

} // verus!
