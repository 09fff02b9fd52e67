//! The mathematical content of a maze: a finite map from positions to cells,
//! the room lattice laid over it, and what it means for the opened walls to
//! form a perfect maze.

use vstd::prelude::*;
use vstd::set_lib::{lemma_len_subset, lemma_set_disjoint_lens};
use crate::cell::{Cell, CellType};

verus! {

/// A room sits where column and row are both even.
pub open spec fn is_room(p: (int, int)) -> bool {
    p.0 % 2 == 0 && p.1 % 2 == 0
}

/// A wall site sits between two lattice points: exactly one of its
/// coordinates is odd.
pub open spec fn is_wall_site(p: (int, int)) -> bool {
    (p.0 % 2 == 0) != (p.1 % 2 == 0)
}

/// A pillar sits where column and row are both odd; no room borders it along
/// an axis.
pub open spec fn is_pillar(p: (int, int)) -> bool {
    p.0 % 2 != 0 && p.1 % 2 != 0
}

/// `b` lies one jump from `a`: two cells away along one axis.
pub open spec fn jump(a: (int, int), b: (int, int)) -> bool {
    ||| a.0 == b.0 && (b.1 == a.1 - 2 || b.1 == a.1 + 2)
    ||| a.1 == b.1 && (b.0 == a.0 - 2 || b.0 == a.0 + 2)
}

/// The position halfway between two positions: the arithmetic mean of the
/// coordinates.
pub open spec fn between(a: (int, int), b: (int, int)) -> (int, int) {
    ((a.0 + b.0) / 2, (a.1 + b.1) / 2)
}

/// The two lattice points that a wall site separates, the lower coordinate
/// first.
pub open spec fn wall_ends(w: (int, int)) -> ((int, int), (int, int)) {
    if w.0 % 2 != 0 {
        ((w.0 - 1, w.1), (w.0 + 1, w.1))
    } else {
        ((w.0, w.1 - 1), (w.0, w.1 + 1))
    }
}

/// A position given by machine integers, as a mathematical position.
pub open spec fn pos(p: (usize, usize)) -> (int, int) {
    (p.0 as int, p.1 as int)
}

/// A cell that blocks passage and has not been visited.
pub open spec fn closed_wall() -> Cell {
    Cell { cell_type: CellType::Wall, visited: false }
}

/// The cell that the starting pattern puts at `p`: an unvisited tile on a
/// room, an unvisited wall elsewhere.
pub open spec fn lattice_cell(p: (int, int)) -> Cell {
    Cell {
        cell_type: if is_room(p) {
            CellType::Tile
        } else {
            CellType::Wall
        },
        visited: false,
    }
}

/// A wall cell after the traversal went through it.
pub open spec fn opened_wall() -> Cell {
    Cell { cell_type: CellType::Tile, visited: true }
}

/// How many rooms a grid of the given size has.
pub open spec fn room_count(width: nat, height: nat) -> nat {
    ((width + 1) / 2) * ((height + 1) / 2)
}

/// A grid of cells: `cells` maps each position `(column, row)` inside the
/// bounds to the cell there.
#[verifier::ext_equal]
pub struct Grid {
    pub width: nat,
    pub height: nat,
    pub cells: Map<(int, int), Cell>,
}

impl Grid {
    pub open spec fn in_bounds(self, p: (int, int)) -> bool {
        0 <= p.0 < self.width && 0 <= p.1 < self.height
    }

    /// The cells cover exactly the positions inside the bounds.
    pub open spec fn wf(self) -> bool {
        forall|p: (int, int)|
            #![trigger self.cells.dom().contains(p)]
            #![trigger self.in_bounds(p)]
            self.cells.dom().contains(p) <==> self.in_bounds(p)
    }

    pub open spec fn at(self, p: (int, int)) -> Cell {
        self.cells[p]
    }

    /// The grid with the cell at `p` replaced by `c`.
    pub open spec fn put(self, p: (int, int), c: Cell) -> Grid {
        Grid { width: self.width, height: self.height, cells: self.cells.insert(p, c) }
    }

    /// The grid after a visit to `p`.
    pub open spec fn mark(self, p: (int, int)) -> Grid {
        self.put(p, self.at(p).marked())
    }

    /// The grid with the wall at `w` put back.
    pub open spec fn walled(self, w: (int, int)) -> Grid {
        self.put(w, closed_wall())
    }

    /// The starting pattern: unvisited tiles on the rooms, unvisited walls
    /// everywhere else.
    pub open spec fn lattice(width: nat, height: nat) -> Grid {
        Grid {
            width,
            height,
            cells: Map::new(
                |p: (int, int)| 0 <= p.0 < width && 0 <= p.1 < height,
                |p: (int, int)| lattice_cell(p),
            ),
        }
    }

    pub open spec fn has_room(self, p: (int, int)) -> bool {
        self.in_bounds(p) && is_room(p)
    }

    /// The cell at `p` does not block passage.
    pub open spec fn is_open(self, p: (int, int)) -> bool {
        self.at(p).cell_type != CellType::Wall
    }

    /// One can walk from room `a` to room `b` in one jump: the wall between
    /// them is open.
    pub open spec fn passage(self, a: (int, int), b: (int, int)) -> bool {
        &&& self.has_room(a)
        &&& self.has_room(b)
        &&& jump(a, b)
        &&& self.is_open(between(a, b))
    }

    /// Step `i` of `route` goes through a passage.
    pub open spec fn hop(self, route: Seq<(int, int)>, i: int) -> bool {
        self.passage(route[i], route[i + 1])
    }

    /// A walk through the rooms along open passages.
    pub open spec fn is_route(self, route: Seq<(int, int)>) -> bool {
        &&& route.len() >= 1
        &&& self.has_room(route[0])
        &&& forall|i: int| 0 <= i < route.len() - 1 ==> #[trigger] self.hop(route, i)
    }

    /// A route that passes through no room twice.
    pub open spec fn is_simple_route(self, route: Seq<(int, int)>) -> bool {
        self.is_route(route) && route.no_duplicates()
    }

    /// Some route leads from `a` to `b`.
    pub open spec fn linked(self, a: (int, int), b: (int, int)) -> bool {
        exists|route: Seq<(int, int)>|
            #[trigger] self.is_route(route) && route.first() == a && route.last() == b
    }

    pub open spec fn rooms(self) -> Set<(int, int)> {
        Set::new(|p: (int, int)| self.has_room(p))
    }

    pub open spec fn visited_rooms(self) -> Set<(int, int)> {
        Set::new(|p: (int, int)| self.has_room(p) && self.at(p).visited)
    }

    /// The wall sites that do not block passage.
    pub open spec fn open_walls(self) -> Set<(int, int)> {
        Set::new(|p: (int, int)| self.in_bounds(p) && is_wall_site(p) && self.is_open(p))
    }

    /// With the wall at `w` put back, the rooms fall into exactly two
    /// groups: the two ends of `w` are rooms that are no longer linked, and
    /// every room is still linked to one of them.
    pub open spec fn cut_by(self, w: (int, int)) -> bool {
        let g = self.walled(w);
        let (a, b) = wall_ends(w);
        &&& g.has_room(a)
        &&& g.has_room(b)
        &&& !g.linked(a, b)
        &&& forall|c: (int, int)|
            #![trigger g.linked(c, a)]
            #![trigger g.linked(c, b)]
            g.has_room(c) ==> g.linked(c, a) || g.linked(c, b)
    }

    /// Every cell is what a finished carving leaves: rooms are visited tiles,
    /// pillars are untouched walls, and a wall site is either an untouched
    /// wall or an opened one.
    pub open spec fn settled(self) -> bool {
        &&& forall|p: (int, int)| self.has_room(p) ==> #[trigger] self.at(p) == opened_wall()
        &&& forall|p: (int, int)|
            self.in_bounds(p) && is_pillar(p) ==> #[trigger] self.at(p) == closed_wall()
        &&& forall|p: (int, int)|
            self.in_bounds(p) && is_wall_site(p) ==> #[trigger] self.at(p) == closed_wall()
                || self.at(p) == opened_wall()
    }

    /// The opened walls form a spanning tree over the rooms: all rooms are
    /// visited and linked to the start, there is one opened wall fewer than
    /// there are rooms, and putting any opened wall back cuts the rooms in
    /// two.
    pub open spec fn perfect(self) -> bool {
        &&& self.wf()
        &&& self.width >= 1
        &&& self.height >= 1
        &&& self.settled()
        &&& forall|p: (int, int)| self.has_room(p) ==> #[trigger] self.linked((0, 0), p)
        &&& self.rooms().finite()
        &&& self.open_walls().finite()
        &&& self.open_walls().len() + 1 == self.rooms().len()
        &&& forall|w: (int, int)|
            #![trigger self.cut_by(w)]
            #![trigger self.open_walls().contains(w)]
            self.open_walls().contains(w) ==> self.cut_by(w)
    }
}

/// Replacing a cell inside the bounds leaves the grid well formed.
pub proof fn lemma_put_wf(g: Grid, p: (int, int), c: Cell)
    requires
        g.wf(),
        g.in_bounds(p),
    ensures
        g.put(p, c).wf(),
{
    let h = g.put(p, c);
    assert forall|q: (int, int)| h.cells.dom().contains(q) <==> h.in_bounds(q) by {
        if q != p {
            assert(h.cells.dom().contains(q) == g.cells.dom().contains(q));
        }
    }
}

/// The lattice points of row `y`, up to a width.
spec fn row_rooms(width: nat, y: int) -> Set<(int, int)> {
    Set::new(|p: (int, int)| 0 <= p.0 < width && p.1 == y && p.0 % 2 == 0)
}

/// The rooms of a grid of the given size.
spec fn box_rooms(width: nat, height: nat) -> Set<(int, int)> {
    Set::new(|p: (int, int)| 0 <= p.0 < width && 0 <= p.1 < height && is_room(p))
}

proof fn lemma_row_rooms(width: nat, y: int)
    ensures
        row_rooms(width, y).finite(),
        row_rooms(width, y).len() == (width + 1) / 2,
    decreases width,
{
    if width == 0 {
        assert(row_rooms(width, y) =~= Set::empty());
    } else {
        let before = (width - 1) as nat;
        lemma_row_rooms(before, y);
        if before % 2 == 0 {
            assert(row_rooms(width, y) =~= row_rooms(before, y).insert((before as int, y)));
        } else {
            assert(row_rooms(width, y) =~= row_rooms(before, y));
        }
    }
}

proof fn lemma_box_rooms(width: nat, height: nat)
    ensures
        box_rooms(width, height).finite(),
        box_rooms(width, height).len() == room_count(width, height),
    decreases height,
{
    let per_row = (width + 1) / 2;
    if height == 0 {
        assert(box_rooms(width, height) =~= Set::empty());
        assert(per_row * 0 == 0) by (nonlinear_arith);
    } else {
        let before = (height - 1) as nat;
        let rows = (before + 1) / 2;
        lemma_box_rooms(width, before);
        assert(room_count(width, before) == per_row * rows);
        if before % 2 == 0 {
            lemma_row_rooms(width, before as int);
            assert(box_rooms(width, height) =~= box_rooms(width, before) + row_rooms(
                width,
                before as int,
            ));
            lemma_set_disjoint_lens(box_rooms(width, before), row_rooms(width, before as int));
            assert((height + 1) / 2 == rows + 1);
            assert(per_row * (rows + 1) == per_row * rows + per_row) by (nonlinear_arith);
            assert(room_count(width, height) == per_row * (rows + 1));
        } else {
            assert(box_rooms(width, height) =~= box_rooms(width, before));
            assert((height + 1) / 2 == rows);
            assert(room_count(width, height) == per_row * rows);
        }
    }
}

/// A grid has a room on every second column of every second row.
pub proof fn lemma_room_count(g: Grid)
    ensures
        g.rooms().finite(),
        g.rooms().len() == room_count(g.width, g.height),
{
    lemma_box_rooms(g.width, g.height);
    assert(g.rooms() =~= box_rooms(g.width, g.height));
}

/// A grid has finitely many rooms, and the visited ones are among them.
pub proof fn lemma_rooms_finite(g: Grid)
    ensures
        g.rooms().finite(),
        g.visited_rooms().finite(),
        g.visited_rooms().subset_of(g.rooms()),
        g.visited_rooms().len() <= g.rooms().len(),
{
    lemma_room_count(g);
    lemma_len_subset(g.visited_rooms(), g.rooms());
}

/// A perfect maze has one opened wall fewer than it has rooms.
pub proof fn lemma_perfect_wall_count(g: Grid)
    requires
        g.perfect(),
    ensures
        g.open_walls().len() == room_count(g.width, g.height) - 1,
{
    lemma_room_count(g);
}

} // verus!
