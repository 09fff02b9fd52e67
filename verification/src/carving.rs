//! Carving strategies, and the randomized depth-first one.

use vstd::prelude::*;
use crate::grid::{Grid, jump, pos};
use crate::maze::Maze;
use crate::random::shuffle;
use crate::spanning::{lemma_finished_run_is_perfect, lemma_run_advances};
use crate::traversal::{
    DfsState, dfs_run, dfs_start, dfs_step, first_unvisited_from, jumps_from, lemma_jumps_from,
    orders_fit,
};

verus! {

/// An algorithm that opens the walls of a freshly filled maze.
pub trait CarvingStrategy {
    /// The positions inside the maze that lie one jump from `(x, y)`, each
    /// once, in no particular order: four at most. The maze is only read.
    fn get_neighbors(&self, x: usize, y: usize, maze: &mut Maze) -> (neighbors: Vec<
        (usize, usize),
    >)
        requires
            old(maze).wf(),
        ensures
            *final(maze) == *old(maze),
            neighbors@.len() <= 4,
            neighbors@.no_duplicates(),
            forall|q: (usize, usize)|
                neighbors@.contains(q) <==> old(maze)@.in_bounds(pos(q)) && jump(
                    (x as int, y as int),
                    pos(q),
                ),
    ;

    /// Carves a maze in its starting pattern into a perfect maze.
    fn carve(&mut self, maze: &mut Maze)
        requires
            old(maze).wf(),
            old(maze)@.width >= 1,
            old(maze)@.height >= 1,
            old(maze)@ == Grid::lattice(old(maze)@.width, old(maze)@.height),
        ensures
            final(maze).wf(),
            final(maze)@.width == old(maze)@.width,
            final(maze)@.height == old(maze)@.height,
            final(maze)@.perfect(),
    ;
}

/// Randomized depth-first carving, with an explicit stack.
pub struct DFSCarvingAlgorithm;

impl DFSCarvingAlgorithm {
    /// One transition of the traversal, with the neighbours of the current
    /// room to be tried in the given order.
    pub fn transition(maze: &mut Maze, stack: &mut Vec<(usize, usize)>, order: &Vec<(usize, usize)>)
        requires
            old(maze).wf(),
            old(stack)@.len() > 0,
            old(maze)@.in_bounds(pos(old(stack)@.last())),
            forall|i: int| 0 <= i < order@.len() ==> old(maze)@.in_bounds(pos(#[trigger] order@[i])),
        ensures
            final(maze).wf(),
            (DfsState { grid: final(maze)@, stack: final(stack)@ }) == dfs_step(
                DfsState { grid: old(maze)@, stack: old(stack)@ },
                order@,
            ),
    {
        let (x, y) = stack[stack.len() - 1];
        let mut i: usize = 0;
        while i < order.len()
            invariant
                i <= order.len(),
                maze@ == old(maze)@,
                stack@ == old(stack)@,
                maze.wf(),
                stack@.len() > 0,
                stack@.last() == (x, y),
                maze@.in_bounds(pos((x, y))),
                forall|j: int| 0 <= j < order@.len() ==> maze@.in_bounds(pos(#[trigger] order@[j])),
                first_unvisited_from(maze@, order@, 0) == first_unvisited_from(
                    maze@,
                    order@,
                    i as int,
                ),
            decreases order.len() - i,
        {
            let (nx, ny) = order[i];
            proof {
                maze.lemma_view_wf();
            }
            if !maze.get_cell_ref(nx, ny).is_visited() {
                // remove wall between new and old cell
                maze.remove_wall_between_cells((x, y), (nx, ny));
                // mark neighbor as visited
                maze.get_cell_ref(nx, ny).mark_visited();
                stack.push((nx, ny));
                return;
            }
            i += 1;
        }
        stack.pop();
    }
}

impl CarvingStrategy for DFSCarvingAlgorithm {
    /// The neighbours are listed up, down, right, left.
    fn get_neighbors(&self, x: usize, y: usize, maze: &mut Maze) -> (neighbors: Vec<
        (usize, usize),
    >)
        ensures
            neighbors@ == jumps_from(old(maze)@, x, y),
    {
        let (w, h) = maze.get_dim();
        let mut neighbors: Vec<(usize, usize)> = Vec::new();
        if x < w && y >= 2 && y - 2 < h {
            neighbors.push((x, y - 2));
        }
        if x < w && y < h && h - y > 2 {
            neighbors.push((x, y + 2));
        }
        if y < h && x < w && w - x > 2 {
            neighbors.push((x + 2, y));
        }
        if y < h && x >= 2 && x - 2 < w {
            neighbors.push((x - 2, y));
        }
        proof {
            assert(neighbors@ =~= jumps_from(maze@, x, y));
            maze.lemma_view_wf();
            lemma_jumps_from(maze@, x, y);
        }
        neighbors
    }

    /// Starts in the room at `(0, 0)` and runs transitions, each on a fresh
    /// random order of the neighbours of the current room, until the stack
    /// is empty. The carved maze is the outcome of the run on those orders.
    fn carve(&mut self, maze: &mut Maze)
        ensures
            exists|orders: Seq<Seq<(usize, usize)>>|
                {
                    &&& orders_fit(dfs_start(old(maze)@), orders)
                    &&& #[trigger] dfs_run(dfs_start(old(maze)@), orders) == (DfsState {
                        grid: final(maze)@,
                        stack: Seq::empty(),
                    })
                },
    {
        let ghost start = dfs_start(maze@);
        let ghost mut orders: Seq<Seq<(usize, usize)>> = Seq::empty();
        let mut stack: Vec<(usize, usize)> = Vec::new();
        maze.get_cell_ref(0, 0).mark_visited();
        stack.push((0, 0));
        assert(stack@ =~= start.stack);

        while stack.len() > 0
            invariant
                maze.wf(),
                maze@.width == old(maze)@.width,
                maze@.height == old(maze)@.height,
                start == dfs_start(old(maze)@),
                old(maze)@.width >= 1,
                old(maze)@.height >= 1,
                old(maze)@ == Grid::lattice(old(maze)@.width, old(maze)@.height),
                orders_fit(start, orders),
                dfs_run(start, orders) == (DfsState { grid: maze@, stack: stack@ }),
            decreases
                    maze@.rooms().len() - maze@.visited_rooms().len(),
                    stack@.len(),
        {
            let (x, y) = stack[stack.len() - 1];
            let mut neighbors = self.get_neighbors(x, y, maze);
            shuffle(&mut neighbors);
            proof {
                maze.lemma_view_wf();
                lemma_run_advances(old(maze)@.width, old(maze)@.height, orders, neighbors@);
                assert(orders.push(neighbors@).drop_last() =~= orders);
            }
            Self::transition(maze, &mut stack, &neighbors);
            proof {
                orders = orders.push(neighbors@);
            }
        }
        proof {
            assert(stack@ =~= Seq::empty());
            maze.lemma_view_wf();
            lemma_finished_run_is_perfect(old(maze)@.width, old(maze)@.height, orders);
        }
    }
}

} // verus!
