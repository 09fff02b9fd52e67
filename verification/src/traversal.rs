//! The depth-first traversal as a transition system over grids: what one
//! transition does, given the order in which the neighbours are tried, and
//! what a whole run does, given all the orders.

use vstd::prelude::*;
use crate::cell::CellType;
use crate::grid::{Grid, between, closed_wall, jump, lattice_cell, pos};

verus! {

/// The state of a traversal: the grid as carved so far, and the rooms on the
/// way from the start to the current room, the current room last.
#[verifier::ext_equal]
pub struct DfsState {
    pub grid: Grid,
    pub stack: Seq<(usize, usize)>,
}

/// The positions one jump from `(x, y)` that lie inside the grid, listed
/// up, down, right, left.
pub open spec fn jumps_from(g: Grid, x: usize, y: usize) -> Seq<(usize, usize)> {
    let up: Seq<(usize, usize)> = if g.in_bounds((x as int, y - 2)) {
        seq![(x, (y - 2) as usize)]
    } else {
        seq![]
    };
    let down: Seq<(usize, usize)> = if g.in_bounds((x as int, y + 2)) {
        seq![(x, (y + 2) as usize)]
    } else {
        seq![]
    };
    let right: Seq<(usize, usize)> = if g.in_bounds((x + 2, y as int)) {
        seq![((x + 2) as usize, y)]
    } else {
        seq![]
    };
    let left: Seq<(usize, usize)> = if g.in_bounds((x - 2, y as int)) {
        seq![((x - 2) as usize, y)]
    } else {
        seq![]
    };
    up + down + right + left
}

/// The first position of `order`, from index `i` on, whose cell is not yet
/// visited.
pub open spec fn first_unvisited_from(g: Grid, order: Seq<(usize, usize)>, i: int) -> Option<
    (usize, usize),
>
    decreases order.len() - i,
{
    if i < 0 || i >= order.len() {
        None
    } else if !g.at(pos(order[i])).visited {
        Some(order[i])
    } else {
        first_unvisited_from(g, order, i + 1)
    }
}

/// The first position of `order` whose cell is not yet visited.
pub open spec fn first_unvisited(g: Grid, order: Seq<(usize, usize)>) -> Option<(usize, usize)> {
    first_unvisited_from(g, order, 0)
}

/// The state in which a traversal begins: the start room visited and alone
/// on the stack.
pub open spec fn dfs_start(g: Grid) -> DfsState {
    DfsState { grid: g.mark((0, 0)), stack: seq![(0usize, 0usize)] }
}

/// One transition. The neighbours of the current room are tried in the
/// given order. The first unvisited one is entered: the wall on the way is
/// opened, the room is visited and becomes the current room. If all are
/// visited, the traversal steps back.
pub open spec fn dfs_step(s: DfsState, order: Seq<(usize, usize)>) -> DfsState {
    match first_unvisited(s.grid, order) {
        Some(next) => DfsState {
            grid: s.grid.mark(between(pos(s.stack.last()), pos(next))).mark(pos(next)),
            stack: s.stack.push(next),
        },
        None => DfsState { grid: s.grid, stack: s.stack.drop_last() },
    }
}

/// Where the transition on `order` enters a room, that room is an unvisited
/// tile one jump from the current room, and the wall on the way is still
/// closed: no wall is opened twice.
pub open spec fn enters_fresh(s: DfsState, order: Seq<(usize, usize)>) -> bool {
    match first_unvisited(s.grid, order) {
        Some(next) => {
            &&& s.grid.has_room(pos(next))
            &&& jump(pos(s.stack.last()), pos(next))
            &&& s.grid.at(pos(next)) == lattice_cell(pos(next))
            &&& s.grid.at(between(pos(s.stack.last()), pos(next))) == closed_wall()
        },
        None => true,
    }
}

/// The state after one transition for each of `orders`, in turn.
pub open spec fn dfs_run(start: DfsState, orders: Seq<Seq<(usize, usize)>>) -> DfsState
    decreases orders.len(),
{
    if orders.len() == 0 {
        start
    } else {
        dfs_step(dfs_run(start, orders.drop_last()), orders.last())
    }
}

/// `order` lists the neighbours of the current room of `s`, each once, in
/// some order.
pub open spec fn is_neighbor_order(s: DfsState, order: Seq<(usize, usize)>) -> bool {
    &&& s.stack.len() > 0
    &&& order.to_multiset() == jumps_from(s.grid, s.stack.last().0, s.stack.last().1).to_multiset()
}

/// Each of `orders` is a neighbour order for the state in which it is used.
pub open spec fn orders_fit(start: DfsState, orders: Seq<Seq<(usize, usize)>>) -> bool
    decreases orders.len(),
{
    orders.len() == 0 || (orders_fit(start, orders.drop_last()) && is_neighbor_order(
        dfs_run(start, orders.drop_last()),
        orders.last(),
    ))
}

/// A position is listed among the jumps from `(x, y)` exactly if it lies
/// inside the grid, one jump away; none is listed twice, so there are four
/// at most.
pub proof fn lemma_jumps_from(g: Grid, x: usize, y: usize)
    requires
        g.width <= usize::MAX,
        g.height <= usize::MAX,
    ensures
        jumps_from(g, x, y).len() <= 4,
        jumps_from(g, x, y).no_duplicates(),
        forall|q: (usize, usize)|
            jumps_from(g, x, y).contains(q) <==> g.in_bounds(pos(q)) && jump(
                (x as int, y as int),
                pos(q),
            ),
{
    let a = (x as int, y as int);
    let s = jumps_from(g, x, y);
    let has_up = g.in_bounds((a.0, a.1 - 2));
    let has_down = g.in_bounds((a.0, a.1 + 2));
    let has_right = g.in_bounds((a.0 + 2, a.1));
    let has_left = g.in_bounds((a.0 - 2, a.1));
    let n_up: int = if has_up { 1 } else { 0 };
    let n_down: int = if has_down { 1 } else { 0 };
    let n_right: int = if has_right { 1 } else { 0 };
    let n_left: int = if has_left { 1 } else { 0 };
    assert(s.len() == n_up + n_down + n_right + n_left);
    assert(has_up ==> pos(s[0]) == (a.0, a.1 - 2));
    assert(has_down ==> pos(s[n_up]) == (a.0, a.1 + 2));
    assert(has_right ==> pos(s[n_up + n_down]) == (a.0 + 2, a.1));
    assert(has_left ==> pos(s[n_up + n_down + n_right]) == (a.0 - 2, a.1));
    assert forall|i: int| 0 <= i < s.len() implies g.in_bounds(pos(#[trigger] s[i])) && jump(
        a,
        pos(s[i]),
    ) && (pos(s[i]) == (a.0, a.1 - 2) ==> i == 0) && (pos(s[i]) == (a.0, a.1 + 2) ==> i == n_up)
        && (pos(s[i]) == (a.0 + 2, a.1) ==> i == n_up + n_down) && (pos(s[i]) == (a.0 - 2, a.1)
        ==> i == n_up + n_down + n_right) by {
        assert(i == 0 || i == n_up || i == n_up + n_down || i == n_up + n_down + n_right);
    }
    assert forall|q: (usize, usize)| g.in_bounds(pos(q)) && jump(a, pos(q)) implies s.contains(
        q,
    ) by {
        if pos(q) == (a.0, a.1 - 2) {
            assert(s[0] == q);
        } else if pos(q) == (a.0, a.1 + 2) {
            assert(s[n_up] == q);
        } else if pos(q) == (a.0 + 2, a.1) {
            assert(s[n_up + n_down] == q);
        } else {
            assert(s[n_up + n_down + n_right] == q);
        }
    }
}

/// A transition only opens and visits: a cell that is no wall keeps its
/// type, and a visited cell stays visited.
pub proof fn lemma_step_only_opens(s: DfsState, order: Seq<(usize, usize)>, p: (int, int))
    ensures
        s.grid.at(p).cell_type != CellType::Wall ==> dfs_step(s, order).grid.at(p).cell_type
            == s.grid.at(p).cell_type,
        s.grid.at(p).visited ==> dfs_step(s, order).grid.at(p).visited,
        dfs_step(s, order).grid.width == s.grid.width,
        dfs_step(s, order).grid.height == s.grid.height,
{
}

/// Over a whole run no tile or door turns back into a wall, and no visit is
/// forgotten.
pub proof fn lemma_run_only_opens(
    start: DfsState,
    orders: Seq<Seq<(usize, usize)>>,
    p: (int, int),
)
    ensures
        start.grid.at(p).cell_type != CellType::Wall ==> dfs_run(start, orders).grid.at(
            p,
        ).cell_type == start.grid.at(p).cell_type,
        start.grid.at(p).visited ==> dfs_run(start, orders).grid.at(p).visited,
        dfs_run(start, orders).grid.width == start.grid.width,
        dfs_run(start, orders).grid.height == start.grid.height,
    decreases orders.len(),
{
    if orders.len() > 0 {
        lemma_run_only_opens(start, orders.drop_last(), p);
        lemma_step_only_opens(dfs_run(start, orders.drop_last()), orders.last(), p);
    }
}

/// The same orders give the same run: the carved grid depends on nothing
/// but the grid it started from and the orders in which the neighbours were
/// tried.
pub proof fn lemma_same_orders_same_maze(
    start: DfsState,
    first: Seq<Seq<(usize, usize)>>,
    second: Seq<Seq<(usize, usize)>>,
)
    requires
        first.len() == second.len(),
        forall|i: int| 0 <= i < first.len() ==> first[i] == second[i],
    ensures
        dfs_run(start, first) == dfs_run(start, second),
{
    assert(first =~= second);
}

} // verus!
