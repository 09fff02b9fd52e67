//! The maze as it is held in memory, and the operations that build it and
//! open its walls.

use vstd::prelude::*;
use vstd::string::StringExecFns;
use crate::carving::CarvingStrategy;
use crate::cell::{Cell, CellType};
use crate::grid::{Grid, between, closed_wall, lattice_cell, pos};
use crate::random::random_between;
use crate::render::{digit, digit_str, header_text};

verus! {

/// A rectangular maze: `height` rows of `width` cells each.
pub struct Maze {
    height: usize,
    width: usize,
    cells: Vec<Vec<Cell>>,
}

impl View for Maze {
    type V = Grid;

    closed spec fn view(&self) -> Grid {
        Grid {
            width: self.width as nat,
            height: self.height as nat,
            cells: Map::new(
                |p: (int, int)| 0 <= p.0 < self.width && 0 <= p.1 < self.height,
                |p: (int, int)| self.cells[p.1][p.0],
            ),
        }
    }
}

/// The mean of two coordinates, rounded down.
fn mean(a: usize, b: usize) -> (m: usize)
    ensures
        m == (a + b) / 2,
{
    a / 2 + b / 2 + (a % 2 + b % 2) / 2
}

impl Maze {
    /// The storage has the shape that the dimensions announce.
    pub closed spec fn wf(&self) -> bool {
        &&& self.cells.len() == self.height
        &&& forall|i: int| 0 <= i < self.height ==> (#[trigger] self.cells[i]).len() == self.width
    }

    /// The view of a maze always covers exactly the positions inside its
    /// bounds, and its dimensions are machine integers.
    pub proof fn lemma_view_wf(&self)
        ensures
            self@.wf(),
            self@.width <= usize::MAX,
            self@.height <= usize::MAX,
    {
    }

    /// The starting grid: a tile on every room, a wall everywhere else,
    /// nothing visited.
    pub fn grid_fill(width: usize, height: usize) -> (maze: Maze)
        ensures
            maze.wf(),
            maze@ == Grid::lattice(width as nat, height as nat),
    {
        let mut cells = vec![vec![Cell::new(CellType::Wall); width]; height];
        assert forall|r: int, c: int| 0 <= r < height && 0 <= c < width implies (#[trigger] cells[r][c])
            == closed_wall() && cells[r].len() == width by {
            let row = cells[r];
            assert(cells@[r] == row);
        }
        for i in 0..height
            invariant
                cells.len() == height,
                forall|r: int| 0 <= r < height ==> (#[trigger] cells[r]).len() == width,
                forall|r: int, c: int|
                    0 <= r < height && 0 <= c < width ==> (#[trigger] cells[r][c]) == (if r < i {
                        lattice_cell((c, r))
                    } else {
                        closed_wall()
                    }),
        {
            for j in 0..width
                invariant
                    i < height,
                    cells.len() == height,
                    forall|r: int| 0 <= r < height ==> (#[trigger] cells[r]).len() == width,
                    forall|r: int, c: int|
                        0 <= r < height && 0 <= c < width ==> (#[trigger] cells[r][c]) == (if r < i
                            || (r == i && c < j) {
                            lattice_cell((c, r))
                        } else {
                            closed_wall()
                        }),
            {
                if (i % 2 != 1) && (j % 2 != 1) {
                    cells[i][j].convert_to(CellType::Tile)
                }
            }
        }
        let maze = Maze { height, width, cells };
        assert(maze@.cells =~= Grid::lattice(width as nat, height as nat).cells);
        maze
    }

    /// A maze of the given size, carved by the given strategy.
    pub fn new(width: usize, height: usize, mut cs: Box<dyn CarvingStrategy>) -> (maze: Maze)
        requires
            width >= 1,
            height >= 1,
        ensures
            maze.wf(),
            maze@.width == width,
            maze@.height == height,
            maze@.perfect(),
    {
        let mut m = Self::grid_fill(width, height);
        cs.carve(&mut m);
        m
    }

    /// The cell at column `x`, row `y`, for reading or changing.
    pub fn get_cell_ref(&mut self, x: usize, y: usize) -> (cell: &mut Cell)
        requires
            old(self).wf(),
            old(self)@.in_bounds((x as int, y as int)),
        ensures
            *cell == old(self)@.at((x as int, y as int)),
            final(self)@ == old(self)@.put((x as int, y as int), *final(cell)),
            final(self).wf(),
    {
        &mut self.cells[y][x]
    }

    /// `(width, height)`.
    pub fn get_dim(&self) -> (dim: (usize, usize))
        ensures
            dim.0 == self@.width,
            dim.1 == self@.height,
    {
        (self.width, self.height)
    }

    /// Opens the passage between two rooms that lie one jump apart: the cell
    /// halfway between them is visited, which turns a wall into a tile.
    pub fn remove_wall_between_cells(&mut self, cell: (usize, usize), ncell: (usize, usize))
        requires
            old(self).wf(),
            old(self)@.in_bounds(pos(cell)),
            old(self)@.in_bounds(pos(ncell)),
        ensures
            final(self).wf(),
            final(self)@ == old(self)@.mark(between(pos(cell), pos(ncell))),
    {
        let (cx, cy) = cell;
        let (nx, ny) = ncell;

        // The wall is located between the current cell and the neighbor cell
        let wall_x = mean(cx, nx);
        let wall_y = mean(cy, ny);
        self.get_cell_ref(wall_x, wall_y).mark_visited();
    }

    /// Turns a wall into a tile. Only a wall can be removed.
    pub fn remove_wall(&mut self, current_cell: &mut Cell)
        requires
            old(current_cell).cell_type == CellType::Wall,
        ensures
            *final(current_cell) == old(current_cell).converted(CellType::Tile),
            *final(self) == *old(self),
    {
        match current_cell.get_celltype() {
            CellType::Wall => {
                current_cell.convert_to(CellType::Tile);
            },
            _ => {},
        }
    }

    /// Has the given strategy carve this maze, which must still be in its
    /// starting pattern.
    pub fn carve_maze(&mut self, mut alg: Box<dyn CarvingStrategy>)
        requires
            old(self).wf(),
            old(self)@.width >= 1,
            old(self)@.height >= 1,
            old(self)@ == Grid::lattice(old(self)@.width, old(self)@.height),
        ensures
            final(self).wf(),
            final(self)@.width == old(self)@.width,
            final(self)@.height == old(self)@.height,
            final(self)@.perfect(),
    {
        let maze = self;
        alg.carve(maze);
    }

    /// Door placement is not enabled: the maze is left as it is.
    pub fn add_doors(&mut self)
        requires
            old(self)@.width >= 1,
            old(self)@.height >= 1,
        ensures
            *final(self) == *old(self),
    {
        let (_w, _h) = (self.width - 1, self.height - 1);
    }

    /// Draws a column and a row for two doors. Door placement is not
    /// enabled: the maze is left as it is.
    pub fn add_random_doors(&mut self)
        requires
            old(self)@.width >= 3,
            old(self)@.height >= 3,
        ensures
            *final(self) == *old(self),
    {
        let (w, h) = (self.width - 1, self.height - 1);
        let _rr = random_between(1, w);
        let _rc = random_between(1, h);
    }

    /// The maze as text: a header that numbers the columns, then the rows,
    /// each cell shown by its symbol.
    pub fn to_string(&self) -> (text: String)
        requires
            self.wf(),
        ensures
            text@ == self@.rendered(),
    {
        proof {
            reveal_strlit("  ");
            reveal_strlit("\n");
        }
        let mut text = String::new();
        // Print column numbers
        text.append("  ");
        for j in 0..self.width
            invariant
                text@ == header_text(j as nat),
        {
            proof {
                reveal_strlit("r");
                reveal_strlit(" ");
            }
            text.append("r");
            text.append(digit_str(j % 10));
            text.append(" ");
            assert(text@ =~= header_text(j as nat) + seq!['r', digit(j as int % 10), ' ']);
        }
        text.append("\n");

        for r in 0..self.height
            invariant
                self.wf(),
                text@ == self@.rows_text(r as nat),
        {
            let ghost before = text@;
            proof {
                reveal_strlit("c");
                reveal_strlit(" ");
                reveal_strlit("\n");
            }
            text.append("c");
            text.append(digit_str(r % 10));
            text.append(" ");
            assert(text@ =~= before + self@.row_text(r as int, 0));
            for x in 0..self.width
                invariant
                    self.wf(),
                    r < self.height,
                    before == self@.rows_text(r as nat),
                    text@ == before + self@.row_text(r as int, x as nat),
            {
                proof {
                    reveal_strlit(" ");
                }
                let symbol = self.cells[r][x].to_string();
                text.append(" ");
                text.append(symbol);
                text.append(" ");
                assert(text@ =~= before + (self@.row_text(r as int, x as nat) + seq![' ']
                    + self@.at((x as int, r as int)).glyph() + seq![' ']));
            }
            text.append("\n");
            assert(text@ =~= before + self@.row_text(r as int, self.width as nat) + seq!['\n']);
        }
        text
    }
}

} // verus!
