//! A single grid position: what kind of cell it is, and whether the carving
//! traversal has been there.

use vstd::prelude::*;

verus! {

/// What occupies a grid position.
#[derive(Clone, Copy, PartialEq, Eq, Debug, Structural)]
pub enum CellType {
    Wall,
    Tile,
    Door,
}

/// One grid position.
#[derive(PartialEq, Eq, Debug, Structural)]
pub struct Cell {
    pub cell_type: CellType,
    pub visited: bool,
}

impl Clone for Cell {
    fn clone(&self) -> (cell: Cell)
        ensures
            cell == *self,
    {
        Cell { cell_type: self.cell_type, visited: self.visited }
    }
}

impl Cell {
    /// The cell after a visit: a wall that is visited has been opened, so it
    /// becomes a tile; a tile or a door keeps its type.
    pub open spec fn marked(self) -> Cell {
        Cell {
            cell_type: if self.cell_type == CellType::Wall {
                CellType::Tile
            } else {
                self.cell_type
            },
            visited: true,
        }
    }

    /// The cell with its type overwritten by `ct`.
    pub open spec fn converted(self, ct: CellType) -> Cell {
        Cell { cell_type: ct, visited: self.visited }
    }

    /// The symbol that stands for the cell in a rendered grid.
    pub open spec fn glyph(self) -> Seq<char> {
        match (self.cell_type, self.visited) {
            (CellType::Wall, _) => seq!['\u{2588}'],
            (CellType::Tile, false) => seq!['_'],
            (CellType::Tile, true) => seq!['x'],
            (CellType::Door, _) => seq!['^'],
        }
    }

    /// A fresh, unvisited cell of the given type.
    pub fn new(cell_type: CellType) -> (cell: Cell)
        ensures
            cell == (Cell { cell_type, visited: false }),
    {
        Cell { cell_type, visited: false }
    }

    pub fn get_celltype(&self) -> (ct: &CellType)
        ensures
            *ct == self.cell_type,
    {
        &self.cell_type
    }

    pub fn is_visited(&self) -> (v: bool)
        ensures
            v == self.visited,
    {
        self.visited
    }

    /// Records a visit. Visiting a wall opens it.
    pub fn mark_visited(&mut self)
        ensures
            *final(self) == old(self).marked(),
    {
        match self.cell_type {
            CellType::Wall => {
                self.convert_to(CellType::Tile);
                self.visited = true
            },
            _ => self.visited = true,
        }
    }

    /// Overwrites the type, whatever it was; the visited flag stays.
    pub fn convert_to(&mut self, ct: CellType)
        ensures
            *final(self) == old(self).converted(ct),
            final(self).cell_type == ct,
    {
        self.cell_type = ct;
    }

    /// The display symbol of the cell.
    pub fn to_string(&self) -> (s: &'static str)
        ensures
            s@ == self.glyph(),
    {
        proof {
            reveal_strlit("\u{2588}");
            reveal_strlit("_");
            reveal_strlit("x");
            reveal_strlit("^");
        }
        match (self.cell_type, self.visited) {
            (CellType::Wall, _) => "\u{2588}",
            (CellType::Tile, false) => "_",
            (CellType::Tile, true) => "x",
            (CellType::Door, _) => "^",
        }
    }
}

/// Visiting is idempotent: a second visit changes nothing.
pub proof fn lemma_mark_visited_idempotent(c: Cell)
    ensures
        c.marked().marked() == c.marked(),
{
}

/// A cell that was already visited and is not a wall is left as it is by a
/// further visit.
pub proof fn lemma_mark_visited_keeps_visited_passage(c: Cell)
    requires
        c.visited,
        c.cell_type != CellType::Wall,
    ensures
        c.marked() == c,
{
}

/// A visit never builds a wall, and it changes the type of no cell but a
/// wall: a tile stays a tile and a door stays a door.
pub proof fn lemma_mark_visited_only_opens(c: Cell)
    ensures
        c.marked().visited,
        c.marked().cell_type != CellType::Wall,
        c.cell_type != CellType::Wall ==> c.marked().cell_type == c.cell_type,
{
}

/// After a conversion the cell has exactly the type it was converted to,
/// whatever type it had before.
pub proof fn lemma_convert_then_type(c: Cell, ct: CellType)
    ensures
        c.converted(ct).cell_type == ct,
        c.converted(ct).visited == c.visited,
{
}

} // verus!
