//! Requests for a new level, and the maze of two to six dimensions that
//! answers one.

use crate::generation::is_spanning_tree;
use crate::grid::{cell_count, checked_cell_count};
use crate::maze::Maze;
use crate::random::seeded_rng;
use vstd::prelude::*;

verus! {

/// Where the priorities of a level come from.
#[derive(Clone, Debug)]
pub enum RngSource {
    Seeded(u64),
}

/// The side lengths of a level, for each number of dimensions on offer.
#[derive(Clone, Debug)]
pub enum DimensionLength {
    Two([u8; 2]),
    Three([u8; 3]),
    Four([u8; 4]),
    Five([u8; 5]),
    Six([u8; 6]),
}

/// A request for a new level.
#[derive(Clone, Debug)]
pub struct LoadLevel {
    pub rng_source: RngSource,
    pub dimensions: DimensionLength,
}

/// A level as loaded: its maze, in as many dimensions as were asked for.
pub enum MazeLevel {
    Two(Maze<2>),
    Three(Maze<3>),
    Four(Maze<4>),
    Five(Maze<5>),
    Six(Maze<6>),
}

impl DimensionLength {
    /// The side lengths, whatever their number.
    pub open spec fn side_lengths(self) -> Seq<u8> {
        match self {
            DimensionLength::Two(lengths) => lengths@,
            DimensionLength::Three(lengths) => lengths@,
            DimensionLength::Four(lengths) => lengths@,
            DimensionLength::Five(lengths) => lengths@,
            DimensionLength::Six(lengths) => lengths@,
        }
    }

    /// Whether the steps of the grid can be numbered: the number of cells
    /// times the number of dimensions fits the index type.
    pub open spec fn fits(self) -> bool {
        cell_count(self.side_lengths()) * self.side_lengths().len() <= usize::MAX
    }

    /// Tests whether the steps of the grid can be numbered.
    pub fn can_load(&self) -> (fits: bool)
        ensures
            fits == self.fits(),
    {
        match self {
            DimensionLength::Two(lengths) => steps_fit(lengths),
            DimensionLength::Three(lengths) => steps_fit(lengths),
            DimensionLength::Four(lengths) => steps_fit(lengths),
            DimensionLength::Five(lengths) => steps_fit(lengths),
            DimensionLength::Six(lengths) => steps_fit(lengths),
        }
    }
}

/// Tests whether the number of cells times the number of dimensions fits
/// the index type.
pub fn steps_fit<const DIMS: usize>(lengths: &[u8; DIMS]) -> (fits: bool)
    ensures
        fits == (cell_count(lengths@) * DIMS <= usize::MAX),
{
    match checked_cell_count(lengths) {
        Some(count) => count.checked_mul(DIMS).is_some(),
        None => {
            proof {
                assert(DIMS >= 1) by {
                    if DIMS == 0 {
                        assert(crate::grid::stride(lengths@, 0) == 1);
                    }
                }
                assert(cell_count(lengths@) * DIMS >= cell_count(lengths@)) by (nonlinear_arith)
                    requires
                        DIMS >= 1,
                ;
            }
            false
        },
    }
}

impl Default for LoadLevel {
    /// A level of two by two cells, from a fixed seed.
    fn default() -> (level: Self)
        ensures
            level.rng_source == RngSource::Seeded(123456789),
            level.dimensions matches DimensionLength::Two(lengths) && lengths@ == seq![2u8, 2u8],
    {
        let lengths: [u8; 2] = [2, 2];
        assert(lengths@ =~= seq![2u8, 2u8]);
        Self { rng_source: RngSource::Seeded(123456789), dimensions: DimensionLength::Two(lengths) }
    }
}

impl LoadLevel {
    /// Generates the maze of the level: seeds a generator as the request
    /// says and builds a maze in the dimensions that it names.
    pub fn load(&self) -> (level: MazeLevel)
        requires
            self.dimensions.fits(),
        ensures
            level.wf(),
            level.side_lengths() == self.dimensions.side_lengths(),
            is_spanning_tree(level.side_lengths(), level.walks()),
    {
        let mut rng = match self.rng_source {
            RngSource::Seeded(seed) => seeded_rng(seed),
        };
        match &self.dimensions {
            DimensionLength::Two(lengths) => MazeLevel::Two(Maze::new(lengths, &mut rng)),
            DimensionLength::Three(lengths) => MazeLevel::Three(Maze::new(lengths, &mut rng)),
            DimensionLength::Four(lengths) => MazeLevel::Four(Maze::new(lengths, &mut rng)),
            DimensionLength::Five(lengths) => MazeLevel::Five(Maze::new(lengths, &mut rng)),
            DimensionLength::Six(lengths) => MazeLevel::Six(Maze::new(lengths, &mut rng)),
        }
    }
}

impl MazeLevel {
    /// The side lengths of the maze.
    pub open spec fn side_lengths(self) -> Seq<u8> {
        match self {
            MazeLevel::Two(maze) => maze.side_lengths(),
            MazeLevel::Three(maze) => maze.side_lengths(),
            MazeLevel::Four(maze) => maze.side_lengths(),
            MazeLevel::Five(maze) => maze.side_lengths(),
            MazeLevel::Six(maze) => maze.side_lengths(),
        }
    }

    /// The open walks of the maze.
    pub open spec fn walks(self) -> Set<(Seq<u8>, Seq<u8>)> {
        match self {
            MazeLevel::Two(maze) => maze@,
            MazeLevel::Three(maze) => maze@,
            MazeLevel::Four(maze) => maze@,
            MazeLevel::Five(maze) => maze@,
            MazeLevel::Six(maze) => maze@,
        }
    }

    /// Whether the maze is well formed.
    pub open spec fn wf(self) -> bool {
        match self {
            MazeLevel::Two(maze) => maze.wf(),
            MazeLevel::Three(maze) => maze.wf(),
            MazeLevel::Four(maze) => maze.wf(),
            MazeLevel::Five(maze) => maze.wf(),
            MazeLevel::Six(maze) => maze.wf(),
        }
    }

    /// The side lengths of the maze.
    pub fn lengths(&self) -> (lengths: &[u8])
        ensures
            lengths@ == self.side_lengths(),
    {
        match self {
            MazeLevel::Two(maze) => maze.lengths().as_slice(),
            MazeLevel::Three(maze) => maze.lengths().as_slice(),
            MazeLevel::Four(maze) => maze.lengths().as_slice(),
            MazeLevel::Five(maze) => maze.lengths().as_slice(),
            MazeLevel::Six(maze) => maze.lengths().as_slice(),
        }
    }

    /// The position at which a level starts: the cell whose coordinates are
    /// all zero.
    pub fn pos(&self) -> (position: Vec<u8>)
        ensures
            position@.len() == self.side_lengths().len(),
            forall|d: int| 0 <= d < position@.len() ==> position@[d] == 0,
    {
        let dims = self.lengths().len();
        let mut position: Vec<u8> = Vec::with_capacity(dims);
        while position.len() < dims
            invariant
                position@.len() <= dims,
                forall|d: int| 0 <= d < position@.len() ==> position@[d] == 0,
            decreases dims - position@.len(),
        {
            position.push(0);
        }
        position
    }

    /// The axis along which a level starts: the first.
    pub fn axis(&self) -> (axis: usize)
        ensures
            axis == 0,
    {
        0
    }

    /// Whether a move from `point` one step along `dimension` is possible.
    /// A point with another number of coordinates than the maze lies outside
    /// its grid, so the query has no answer.
    pub fn can_move(&self, point: &[u8], dimension: usize) -> (result: Option<bool>)
        requires
            self.wf(),
        ensures
            result == self.passage(point@, dimension as int),
    {
        match self {
            MazeLevel::Two(maze) => move_in(maze, point, dimension),
            MazeLevel::Three(maze) => move_in(maze, point, dimension),
            MazeLevel::Four(maze) => move_in(maze, point, dimension),
            MazeLevel::Five(maze) => move_in(maze, point, dimension),
            MazeLevel::Six(maze) => move_in(maze, point, dimension),
        }
    }

    /// What the maze answers to a query.
    pub open spec fn passage(self, point: Seq<u8>, dimension: int) -> Option<bool> {
        match self {
            MazeLevel::Two(maze) => maze.passage(point, dimension),
            MazeLevel::Three(maze) => maze.passage(point, dimension),
            MazeLevel::Four(maze) => maze.passage(point, dimension),
            MazeLevel::Five(maze) => maze.passage(point, dimension),
            MazeLevel::Six(maze) => maze.passage(point, dimension),
        }
    }
}

/// Queries a maze with a point given as a slice.
fn move_in<const DIMS: usize>(maze: &Maze<DIMS>, point: &[u8], dimension: usize) -> (result:
    Option<bool>)
    requires
        maze.wf(),
    ensures
        result == maze.passage(point@, dimension as int),
{
    proof {
        maze.lemma_side_count();
    }
    if point.len() != DIMS {
        return None;
    }
    let mut cell = [0u8;DIMS];
    let mut d: usize = 0;
    while d < DIMS
        invariant
            d <= DIMS,
            point@.len() == DIMS,
            forall|j: int| 0 <= j < d ==> cell@[j] == point@[j],
        decreases DIMS - d,
    {
        cell[d] = point[d];
        d += 1;
    }
    assert(cell@ =~= point@);
    maze.can_move(&cell, dimension)
}

} // verus!
