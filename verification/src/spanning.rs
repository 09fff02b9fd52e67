//! Why the traversal ends with a perfect maze: the opened walls always form
//! a tree over the visited rooms, and when the traversal ends every room is
//! visited.

use vstd::prelude::*;
use crate::grid::{
    Grid, between, closed_wall, is_pillar, is_wall_site, jump, lattice_cell, lemma_put_wf,
    lemma_rooms_finite, opened_wall, pos, wall_ends,
};
use crate::routes::{
    lemma_linked_self, lemma_linked_step, lemma_linked_sym, lemma_linked_trans,
    lemma_wall_between, lemma_wall_ends,
};
use crate::traversal::{
    DfsState, dfs_run, dfs_start, dfs_step, enters_fresh, first_unvisited,
    first_unvisited_from, is_neighbor_order, jumps_from, lemma_jumps_from, orders_fit,
};

verus! {

/// A rooted tree over the visited rooms: each visited room but the start
/// has a parent, one level nearer to the start.
struct Tree {
    parent: spec_fn((int, int)) -> (int, int),
    depth: spec_fn((int, int)) -> nat,
}

impl Tree {
    spec fn up(self, q: (int, int)) -> (int, int) {
        (self.parent)(q)
    }

    spec fn level(self, q: (int, int)) -> nat {
        (self.depth)(q)
    }

    /// The room `k` levels above `q`.
    spec fn anc(self, q: (int, int), k: nat) -> (int, int)
        decreases k,
    {
        if k == 0 {
            q
        } else {
            self.anc(self.up(q), (k - 1) as nat)
        }
    }

    /// `q` lies in the part of the tree that hangs from `c`.
    spec fn under(self, c: (int, int), q: (int, int)) -> bool {
        self.level(q) >= self.level(c) && self.anc(q, (self.level(q) - self.level(c)) as nat)
            == c
    }

    /// The tree with `q` hung below `p`.
    spec fn grown(self, q: (int, int), p: (int, int)) -> Tree {
        Tree {
            parent: |x: (int, int)|
                if x == q {
                    p
                } else {
                    self.up(x)
                },
            depth: |x: (int, int)|
                if x == q {
                    self.level(p) + 1
                } else {
                    self.level(x)
                },
        }
    }

    /// `c` is a room of the tree with parent `p`.
    spec fn is_child(self, c: (int, int), p: (int, int)) -> bool {
        c != (0int, 0int) && self.up(c) == p
    }

    /// The parent of `q` is a visited room one jump away, one level up, and
    /// the wall on the way is open.
    spec fn child_ok(self, g: Grid, q: (int, int)) -> bool {
        let p = self.up(q);
        &&& visited_room(g, p)
        &&& jump(q, p)
        &&& g.is_open(between(q, p))
        &&& self.level(q) == self.level(p) + 1
    }

    /// The open wall at `w` joins a visited room to its parent.
    spec fn wall_ok(self, g: Grid, w: (int, int)) -> bool {
        let (a, b) = wall_ends(w);
        &&& visited_room(g, a)
        &&& visited_room(g, b)
        &&& (self.is_child(b, a) || self.is_child(a, b))
    }

    /// The opened walls of `g` are exactly the edges of the tree, and the
    /// tree holds exactly the visited rooms.
    spec fn spans(self, g: Grid) -> bool {
        &&& g.wf()
        &&& 1 <= g.width <= usize::MAX
        &&& 1 <= g.height <= usize::MAX
        &&& growing(g)
        &&& g.at((0, 0)).visited
        &&& self.level((0, 0)) == 0
        &&& forall|q: (int, int)|
            visited_room(g, q) && q != (0int, 0int) ==> #[trigger] self.child_ok(g, q)
        &&& forall|w: (int, int)|
            g.in_bounds(w) && is_wall_site(w) && g.is_open(w) ==> #[trigger] self.wall_ok(g, w)
        &&& g.visited_rooms().finite()
        &&& g.open_walls().finite()
        &&& g.open_walls().len() + 1 == g.visited_rooms().len()
    }

    /// In `h`, every visited room of `g` but the start and `c` still has the
    /// passage to its parent.
    spec fn keeps_links(self, g: Grid, h: Grid, c: (int, int)) -> bool {
        &&& h.width == g.width
        &&& h.height == g.height
        &&& forall|q: (int, int)|
            visited_room(g, q) && q != (0int, 0int) && q != c ==> h.passage(
                q,
                #[trigger] self.up(q),
            )
    }
}

spec fn visited_room(g: Grid, q: (int, int)) -> bool {
    g.has_room(q) && g.at(q).visited
}

/// The cells of a grid while it is carved: a room is a tile, a pillar an
/// untouched wall, a wall site an untouched or an opened wall.
spec fn growing(g: Grid) -> bool {
    &&& forall|p: (int, int)|
        g.has_room(p) ==> #[trigger] g.at(p) == lattice_cell(p) || g.at(p) == opened_wall()
    &&& forall|p: (int, int)|
        g.in_bounds(p) && is_pillar(p) ==> #[trigger] g.at(p) == closed_wall()
    &&& forall|p: (int, int)|
        g.in_bounds(p) && is_wall_site(p) ==> #[trigger] g.at(p) == closed_wall() || g.at(p)
            == opened_wall()
}

/// Every room one jump from `q` is visited.
spec fn closed_room(g: Grid, q: (int, int)) -> bool {
    forall|n: (int, int)| g.has_room(n) && #[trigger] jump(q, n) ==> g.at(n).visited
}

spec fn on_stack(stack: Seq<(usize, usize)>, q: (int, int)) -> bool {
    exists|i: int| 0 <= i < stack.len() && pos(#[trigger] stack[i]) == q
}

/// A passage leads from entry `i` of the stack to the next entry.
spec fn stack_hop(g: Grid, stack: Seq<(usize, usize)>, i: int) -> bool {
    g.passage(pos(stack[i]), pos(stack[i + 1]))
}

/// What holds of every state of a run: the tree spans the visited rooms,
/// the stack is a route of visited rooms from the start, and a visited room
/// that has left the stack has no unvisited room next to it.
spec fn dfs_inv(s: DfsState, t: Tree) -> bool {
    &&& t.spans(s.grid)
    &&& forall|i: int|
        0 <= i < s.stack.len() ==> visited_room(s.grid, pos(#[trigger] s.stack[i]))
    &&& s.stack.len() > 0 ==> s.stack[0] == (0usize, 0usize)
    &&& forall|i: int| 0 <= i < s.stack.len() - 1 ==> #[trigger] stack_hop(s.grid, s.stack, i)
    &&& forall|q: (int, int)|
        visited_room(s.grid, q) ==> on_stack(s.stack, q) || #[trigger] closed_room(s.grid, q)
}

/// The state in which a run begins satisfies the invariant, with a tree
/// that holds the start alone.
proof fn lemma_start_inv(width: nat, height: nat) -> (t: Tree)
    requires
        1 <= width <= usize::MAX,
        1 <= height <= usize::MAX,
    ensures
        dfs_inv(dfs_start(Grid::lattice(width, height)), t),
{
    let t = Tree { parent: |x: (int, int)| (0int, 0int), depth: |x: (int, int)| 0nat };
    let s = dfs_start(Grid::lattice(width, height));
    let g = s.grid;
    assert(g.visited_rooms() =~= Set::<(int, int)>::empty().insert((0, 0)));
    assert(g.open_walls() =~= Set::<(int, int)>::empty());
    assert(growing(g));
    assert(t.spans(g));
    assert forall|q: (int, int)| visited_room(g, q) implies on_stack(s.stack, q)
        || #[trigger] closed_room(g, q) by {
        assert(pos(s.stack[0]) == q);
    }
    t
}

/// What the scan for the first unvisited position finds.
proof fn lemma_first_unvisited(g: Grid, order: Seq<(usize, usize)>, i: int)
    requires
        0 <= i <= order.len(),
    ensures
        match first_unvisited_from(g, order, i) {
            Some(next) => order.contains(next) && !g.at(pos(next)).visited,
            None => forall|j: int| i <= j < order.len() ==> g.at(pos(#[trigger] order[j])).visited,
        },
    decreases order.len() - i,
{
    if i < order.len() && g.at(pos(order[i])).visited {
        lemma_first_unvisited(g, order, i + 1);
    }
}

/// Entering an unvisited neighbour keeps the invariant and visits one room
/// more.
proof fn lemma_push(s: DfsState, t: Tree, next: (usize, usize)) -> (t2: Tree)
    requires
        dfs_inv(s, t),
        s.stack.len() > 0,
        s.grid.in_bounds(pos(next)),
        jump(pos(s.stack.last()), pos(next)),
        !s.grid.at(pos(next)).visited,
    ensures
        dfs_inv(
            DfsState {
                grid: s.grid.mark(between(pos(s.stack.last()), pos(next))).mark(pos(next)),
                stack: s.stack.push(next),
            },
            t2,
        ),
        !s.grid.visited_rooms().contains(pos(next)),
        s.grid.mark(between(pos(s.stack.last()), pos(next))).mark(pos(next)).visited_rooms()
            == s.grid.visited_rooms().insert(pos(next)),
        s.grid.has_room(pos(next)),
        s.grid.at(pos(next)) == lattice_cell(pos(next)),
        s.grid.at(between(pos(s.stack.last()), pos(next))) == closed_wall(),
{
    let g = s.grid;
    let top = pos(s.stack.last());
    let n = pos(next);
    let m = between(top, n);
    let g2 = g.mark(m).mark(n);
    let stack2 = s.stack.push(next);
    let t2 = t.grown(n, top);

    assert(visited_room(g, top));
    lemma_wall_between(top, n);
    assert(g.in_bounds(m));
    assert(g.has_room(n));
    // the wall on the way is still closed: an open wall has visited ends
    if g.is_open(m) {
        assert(t.wall_ok(g, m));
        assert(false);
    }
    assert(g.at(m) == closed_wall());
    assert(g.at(n) == lattice_cell(n));
    assert(g2.at(m) == opened_wall());
    assert(g2.at(n) == opened_wall());
    assert forall|p: (int, int)| p != m && p != n implies g2.at(p) == g.at(p) by {}
    lemma_put_wf(g, m, g.at(m).marked());
    lemma_put_wf(g.mark(m), n, g.mark(m).at(n).marked());
    assert(growing(g2));
    assert(n != (0int, 0int));

    assert forall|q: (int, int)| visited_room(g2, q) && q != (0int, 0int) implies #[trigger] t2.child_ok(
        g2,
        q,
    ) by {
        if q != n {
            assert(t.child_ok(g, q));
            let p = t.up(q);
            lemma_wall_between(q, p);
            assert(between(q, p) != n);
        }
    }
    assert forall|w: (int, int)|
        g2.in_bounds(w) && is_wall_site(w) && g2.is_open(w) implies #[trigger] t2.wall_ok(
        g2,
        w,
    ) by {
        if w != m {
            assert(t.wall_ok(g, w));
        }
    }
    assert(g2.visited_rooms() =~= g.visited_rooms().insert(n));
    assert(g2.open_walls() =~= g.open_walls().insert(m));
    assert(t2.spans(g2));

    assert forall|i: int| 0 <= i < stack2.len() implies visited_room(
        g2,
        pos(#[trigger] stack2[i]),
    ) by {
        if i < s.stack.len() {
            assert(visited_room(g, pos(s.stack[i])));
        }
    }
    assert forall|i: int| 0 <= i < stack2.len() - 1 implies #[trigger] stack_hop(
        g2,
        stack2,
        i,
    ) by {
        if i < s.stack.len() - 1 {
            assert(stack_hop(g, s.stack, i));
            lemma_wall_between(pos(s.stack[i]), pos(s.stack[i + 1]));
        }
    }
    assert forall|q: (int, int)| visited_room(g2, q) implies on_stack(stack2, q)
        || #[trigger] closed_room(g2, q) by {
        if q == n {
            assert(pos(stack2[stack2.len() - 1]) == q);
        } else {
            assert(visited_room(g, q));
            if on_stack(s.stack, q) {
                let i = choose|i: int| 0 <= i < s.stack.len() && pos(#[trigger] s.stack[i]) == q;
                assert(pos(stack2[i]) == q);
            } else {
                assert(closed_room(g, q));
                assert forall|x: (int, int)| g2.has_room(x) && #[trigger] jump(q, x) implies g2.at(
                    x,
                ).visited by {
                    assert(g.has_room(x));
                }
            }
        }
    }
    t2
}

/// Stepping back from a room whose neighbours are all visited keeps the
/// invariant.
proof fn lemma_pop(s: DfsState, t: Tree)
    requires
        dfs_inv(s, t),
        s.stack.len() > 0,
        closed_room(s.grid, pos(s.stack.last())),
    ensures
        dfs_inv(DfsState { grid: s.grid, stack: s.stack.drop_last() }, t),
{
    let g = s.grid;
    let stack2 = s.stack.drop_last();
    assert forall|i: int| 0 <= i < stack2.len() - 1 implies #[trigger] stack_hop(g, stack2, i) by {
        assert(stack_hop(g, s.stack, i));
    }
    assert forall|q: (int, int)| visited_room(g, q) implies on_stack(stack2, q)
        || #[trigger] closed_room(g, q) by {
        if on_stack(s.stack, q) && q != pos(s.stack.last()) {
            let i = choose|i: int| 0 <= i < s.stack.len() && pos(#[trigger] s.stack[i]) == q;
            assert(pos(stack2[i]) == q);
        }
    }
}

/// A transition on a neighbour order keeps the invariant, and either visits
/// one room more or shortens the stack.
proof fn lemma_step_inv(s: DfsState, t: Tree, order: Seq<(usize, usize)>) -> (t2: Tree)
    requires
        dfs_inv(s, t),
        is_neighbor_order(s, order),
    ensures
        dfs_inv(dfs_step(s, order), t2),
        s.grid.in_bounds(pos(s.stack.last())),
        forall|i: int| 0 <= i < order.len() ==> s.grid.in_bounds(pos(#[trigger] order[i])),
        dfs_step(s, order).grid.rooms() == s.grid.rooms(),
        dfs_step(s, order).grid.visited_rooms().len() <= s.grid.rooms().len(),
        dfs_step(s, order).grid.visited_rooms().len() > s.grid.visited_rooms().len() || (
        dfs_step(s, order).grid.visited_rooms().len() == s.grid.visited_rooms().len() && dfs_step(
            s,
            order,
        ).stack.len() < s.stack.len()),
        enters_fresh(s, order),
{
    let g = s.grid;
    let top = s.stack.last();
    let jumps = jumps_from(g, top.0, top.1);
    assert(visited_room(g, pos(top)));
    lemma_jumps_from(g, top.0, top.1);
    order.to_multiset_ensures();
    jumps.to_multiset_ensures();
    assert forall|q: (usize, usize)| order.contains(q) implies g.in_bounds(pos(q)) && jump(
        pos(top),
        pos(q),
    ) by {
        assert(order.to_multiset().count(q) > 0);
        assert(jumps.to_multiset().count(q) > 0);
    }
    assert forall|i: int| 0 <= i < order.len() implies g.in_bounds(pos(#[trigger] order[i])) by {
        assert(order.contains(order[i]));
    }
    lemma_first_unvisited(g, order, 0);
    let s2 = dfs_step(s, order);
    lemma_rooms_finite(s2.grid);
    assert(s2.grid.rooms() =~= g.rooms());
    match first_unvisited(g, order) {
        Some(next) => {
            let t2 = lemma_push(s, t, next);
            t2
        },
        None => {
            assert forall|n: (int, int)| g.has_room(n) && #[trigger] jump(pos(top), n) implies g.at(
                n,
            ).visited by {
                let q = (n.0 as usize, n.1 as usize);
                assert(pos(q) == n);
                assert(jumps.contains(q));
                assert(jumps.to_multiset().count(q) > 0);
                assert(order.to_multiset().count(q) > 0);
                assert(order.contains(q));
                let j = choose|j: int| 0 <= j < order.len() && order[j] == q;
                assert(g.at(pos(order[j])).visited);
            }
            assert(closed_room(g, pos(top)));
            lemma_pop(s, t);
            t
        },
    }
}

/// Every state of a run from the starting pattern satisfies the invariant.
proof fn lemma_run_inv(width: nat, height: nat, orders: Seq<Seq<(usize, usize)>>) -> (t: Tree)
    requires
        1 <= width <= usize::MAX,
        1 <= height <= usize::MAX,
        orders_fit(dfs_start(Grid::lattice(width, height)), orders),
    ensures
        dfs_inv(dfs_run(dfs_start(Grid::lattice(width, height)), orders), t),
    decreases orders.len(),
{
    if orders.len() == 0 {
        lemma_start_inv(width, height)
    } else {
        let t0 = lemma_run_inv(width, height, orders.drop_last());
        lemma_step_inv(
            dfs_run(dfs_start(Grid::lattice(width, height)), orders.drop_last()),
            t0,
            orders.last(),
        )
    }
}

/// When no visited room has an unvisited room next to it, every room is
/// visited: each can be reached from the start by jumps.
proof fn lemma_all_visited(g: Grid, p: (int, int))
    requires
        g.has_room((0, 0)),
        forall|q: (int, int)| visited_room(g, q) ==> #[trigger] closed_room(g, q),
        visited_room(g, (0, 0)),
        g.has_room(p),
    ensures
        g.at(p).visited,
    decreases p.0 + p.1,
{
    if p.0 >= 2 {
        let q = (p.0 - 2, p.1);
        lemma_all_visited(g, q);
        assert(closed_room(g, q));
        assert(jump(q, p));
    } else if p.1 >= 2 {
        let q = (p.0, p.1 - 2);
        lemma_all_visited(g, q);
        assert(closed_room(g, q));
        assert(jump(q, p));
    }
}

/// Going one level up does not leave or enter the part that hangs from `c`,
/// unless one starts at `c` itself.
proof fn lemma_side_step(t: Tree, g: Grid, c: (int, int), q: (int, int))
    requires
        t.spans(g),
        visited_room(g, q),
        q != (0int, 0int),
        q != c,
    ensures
        t.under(c, q) == t.under(c, t.up(q)),
{
    assert(t.child_ok(g, q));
    let k = t.level(q) - t.level(c);
    if k >= 1 {
        assert(t.anc(q, k as nat) == t.anc(t.up(q), (k - 1) as nat));
    }
}

/// A visited room outside the part that hangs from `c` is linked to the
/// start without the passage from `c` to its parent.
proof fn lemma_to_root(t: Tree, g: Grid, h: Grid, c: (int, int), q: (int, int))
    requires
        t.spans(g),
        t.keeps_links(g, h, c),
        visited_room(g, q),
        c == (0int, 0int) || !t.under(c, q),
    ensures
        h.linked(q, (0, 0)),
    decreases t.level(q),
{
    if q == (0int, 0int) {
        lemma_linked_self(h, q);
    } else {
        assert(t.child_ok(g, q));
        let p = t.up(q);
        assert(h.passage(q, p));
        if c != (0int, 0int) {
            lemma_side_step(t, g, c, q);
        }
        lemma_to_root(t, g, h, c, p);
        lemma_linked_step(h, q, p, (0, 0));
    }
}

/// A visited room in the part that hangs from `c` is linked to `c` without
/// the passage from `c` to its parent.
proof fn lemma_to_apex(t: Tree, g: Grid, h: Grid, c: (int, int), q: (int, int))
    requires
        t.spans(g),
        t.keeps_links(g, h, c),
        visited_room(g, q),
        t.under(c, q),
    ensures
        h.linked(q, c),
    decreases t.level(q),
{
    if q == c {
        lemma_linked_self(h, q);
    } else {
        assert(q != (0int, 0int));
        assert(t.child_ok(g, q));
        let p = t.up(q);
        assert(h.passage(q, p));
        lemma_side_step(t, g, c, q);
        lemma_to_apex(t, g, h, c, p);
        lemma_linked_step(h, q, p, c);
    }
}

/// With the wall between `c` and its parent put back, a route never leaves
/// or enters the part that hangs from `c`.
proof fn lemma_route_side(
    t: Tree,
    g: Grid,
    c: (int, int),
    route: Seq<(int, int)>,
    i: int,
)
    requires
        t.spans(g),
        visited_room(g, c),
        c != (0int, 0int),
        g.walled(between(c, t.up(c))).is_route(route),
        0 <= i < route.len(),
    ensures
        t.under(c, route[i]) == t.under(c, route[0]),
    decreases i,
{
    if i > 0 {
        lemma_route_side(t, g, c, route, i - 1);
        let w = between(c, t.up(c));
        let h = g.walled(w);
        let x = route[i - 1];
        let y = route[i];
        assert(h.hop(route, i - 1));
        let m = between(x, y);
        lemma_wall_between(x, y);
        assert(m != w);
        assert(g.at(m) == h.at(m));
        assert(t.wall_ok(g, m));
        if t.is_child(y, x) {
            lemma_side_step(t, g, c, y);
        } else {
            lemma_side_step(t, g, c, x);
        }
    }
}

/// Putting back the wall between a room `c` and its parent cuts the rooms
/// in two: those that hang from `c`, and the others.
proof fn lemma_cut_at(t: Tree, g: Grid, c: (int, int))
    requires
        t.spans(g),
        forall|q: (int, int)| g.has_room(q) ==> g.at(q).visited,
        visited_room(g, c),
        c != (0int, 0int),
    ensures
        ({
            let h = g.walled(between(c, t.up(c)));
            &&& !h.linked(c, t.up(c))
            &&& !h.linked(t.up(c), c)
            &&& forall|q: (int, int)| h.has_room(q) ==> h.linked(q, c) || h.linked(q, t.up(c))
        }),
{
    let p = t.up(c);
    let w = between(c, p);
    let h = g.walled(w);
    assert(t.child_ok(g, c));
    lemma_wall_between(c, p);
    assert(t.under(c, c));
    assert(!t.under(c, p));
    if h.linked(c, p) {
        let route = choose|route: Seq<(int, int)>|
            #[trigger] h.is_route(route) && route.first() == c && route.last() == p;
        lemma_route_side(t, g, c, route, route.len() - 1);
        assert(false);
    }
    if h.linked(p, c) {
        lemma_linked_sym(h, p, c);
        assert(false);
    }
    assert forall|q: (int, int)| visited_room(g, q) && q != (0int, 0int) && q != c implies h.passage(
        q,
        #[trigger] t.up(q),
    ) by {
        assert(t.child_ok(g, q));
        let pq = t.up(q);
        lemma_wall_between(q, pq);
        if between(q, pq) == w {
            assert(q == p && pq == c);
            assert(t.child_ok(g, p));
            assert(false);
        }
    }
    assert(t.keeps_links(g, h, c));
    assert forall|q: (int, int)| h.has_room(q) implies h.linked(q, c) || h.linked(q, p) by {
        assert(g.has_room(q));
        if t.under(c, q) {
            lemma_to_apex(t, g, h, c, q);
        } else {
            lemma_to_root(t, g, h, c, q);
            lemma_to_root(t, g, h, c, p);
            lemma_linked_sym(h, p, (0, 0));
            lemma_linked_trans(h, q, (0, 0), p);
        }
    }
}

/// When the stack is empty, the grid is a perfect maze.
proof fn lemma_done(s: DfsState, t: Tree)
    requires
        dfs_inv(s, t),
        s.stack.len() == 0,
    ensures
        s.grid.perfect(),
{
    let g = s.grid;
    assert forall|q: (int, int)| visited_room(g, q) implies #[trigger] closed_room(g, q) by {
        assert(!on_stack(s.stack, q));
    }
    assert forall|p: (int, int)| g.has_room(p) implies g.at(p).visited by {
        lemma_all_visited(g, p);
    }
    assert(g.settled());
    assert(t.keeps_links(g, g, (0, 0))) by {
        assert forall|q: (int, int)|
            visited_room(g, q) && q != (0int, 0int) implies g.passage(q, #[trigger] t.up(q)) by {
            assert(t.child_ok(g, q));
        }
    }
    assert forall|p: (int, int)| g.has_room(p) implies g.linked((0, 0), p) by {
        lemma_to_root(t, g, g, (0, 0), p);
        lemma_linked_sym(g, p, (0, 0));
    }
    lemma_rooms_finite(g);
    assert(g.rooms() =~= g.visited_rooms());
    assert forall|w: (int, int)| g.open_walls().contains(w) implies g.cut_by(w) by {
        assert(t.wall_ok(g, w));
        lemma_wall_ends(w);
        let (a, b) = wall_ends(w);
        if t.is_child(b, a) {
            lemma_cut_at(t, g, b);
        } else {
            lemma_cut_at(t, g, a);
        }
    }
}

/// A run that is not over can make a further transition on any neighbour
/// order: the current room and the neighbours lie inside the grid, the
/// transition either visits a new room or shortens the stack, and it opens
/// no wall that was open already.
pub proof fn lemma_run_advances(
    width: nat,
    height: nat,
    orders: Seq<Seq<(usize, usize)>>,
    order: Seq<(usize, usize)>,
)
    requires
        1 <= width <= usize::MAX,
        1 <= height <= usize::MAX,
        orders_fit(dfs_start(Grid::lattice(width, height)), orders),
        is_neighbor_order(dfs_run(dfs_start(Grid::lattice(width, height)), orders), order),
    ensures
        ({
            let s = dfs_run(dfs_start(Grid::lattice(width, height)), orders);
            let s2 = dfs_step(s, order);
            &&& s.grid.in_bounds(pos(s.stack.last()))
            &&& forall|i: int| 0 <= i < order.len() ==> s.grid.in_bounds(pos(#[trigger] order[i]))
            &&& s2.grid.visited_rooms().len() <= s2.grid.rooms().len()
            &&& s2.grid.rooms() == s.grid.rooms()
            &&& (s2.grid.visited_rooms().len() > s.grid.visited_rooms().len() || (
            s2.grid.visited_rooms().len() == s.grid.visited_rooms().len() && s2.stack.len()
                < s.stack.len()))
            &&& enters_fresh(s, order)
        }),
{
    let t = lemma_run_inv(width, height, orders);
    let t2 = lemma_step_inv(dfs_run(dfs_start(Grid::lattice(width, height)), orders), t, order);
}

/// At every point of a run the stack is a route from the start to the
/// current room, through visited rooms only.
pub proof fn lemma_run_stack_is_route(
    width: nat,
    height: nat,
    orders: Seq<Seq<(usize, usize)>>,
)
    requires
        1 <= width <= usize::MAX,
        1 <= height <= usize::MAX,
        orders_fit(dfs_start(Grid::lattice(width, height)), orders),
        dfs_run(dfs_start(Grid::lattice(width, height)), orders).stack.len() > 0,
    ensures
        ({
            let s = dfs_run(dfs_start(Grid::lattice(width, height)), orders);
            let route = s.stack.map_values(|p: (usize, usize)| pos(p));
            &&& s.grid.is_route(route)
            &&& route.first() == (0int, 0int)
            &&& forall|i: int| 0 <= i < route.len() ==> s.grid.at(#[trigger] route[i]).visited
        }),
{
    let t = lemma_run_inv(width, height, orders);
    let s = dfs_run(dfs_start(Grid::lattice(width, height)), orders);
    let route = s.stack.map_values(|p: (usize, usize)| pos(p));
    assert(visited_room(s.grid, pos(s.stack[0])));
    assert forall|i: int| 0 <= i < route.len() - 1 implies #[trigger] s.grid.hop(route, i) by {
        assert(stack_hop(s.grid, s.stack, i));
    }
    assert forall|i: int| 0 <= i < route.len() implies s.grid.at(#[trigger] route[i]).visited by {
        assert(visited_room(s.grid, pos(s.stack[i])));
    }
}

/// A run from the starting pattern that has emptied its stack has carved a
/// perfect maze, whatever the orders were.
pub proof fn lemma_finished_run_is_perfect(
    width: nat,
    height: nat,
    orders: Seq<Seq<(usize, usize)>>,
)
    requires
        1 <= width <= usize::MAX,
        1 <= height <= usize::MAX,
        orders_fit(dfs_start(Grid::lattice(width, height)), orders),
        dfs_run(dfs_start(Grid::lattice(width, height)), orders).stack.len() == 0,
    ensures
        dfs_run(dfs_start(Grid::lattice(width, height)), orders).grid.perfect(),
{
    let t = lemma_run_inv(width, height, orders);
    lemma_done(dfs_run(dfs_start(Grid::lattice(width, height)), orders), t);
}

} // verus!
