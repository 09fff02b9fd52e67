//! Routes through a grid: being linked is an equivalence, every route can
//! be made simple, and in a perfect maze the simple route between two rooms
//! is the only one.

use vstd::prelude::*;
use crate::grid::{Grid, between, is_room, is_wall_site, jump, wall_ends};

verus! {

/// Between two rooms one jump apart lies a wall site, whose ends they are.
pub proof fn lemma_wall_between(a: (int, int), b: (int, int))
    requires
        is_room(a),
        jump(a, b),
    ensures
        is_room(b),
        is_wall_site(between(a, b)),
        between(a, b) == between(b, a),
        between(a, b) != a,
        between(a, b) != b,
        wall_ends(between(a, b)) == (a, b) || wall_ends(between(a, b)) == (b, a),
{
}

/// The ends of a wall site are lattice points one jump apart, with the site
/// between them.
pub proof fn lemma_wall_ends(w: (int, int))
    requires
        is_wall_site(w),
    ensures
        is_room(wall_ends(w).0),
        is_room(wall_ends(w).1),
        jump(wall_ends(w).0, wall_ends(w).1),
        between(wall_ends(w).0, wall_ends(w).1) == w,
{
}

/// Every room is linked to itself.
pub proof fn lemma_linked_self(g: Grid, a: (int, int))
    requires
        g.has_room(a),
    ensures
        g.linked(a, a),
{
    let route = seq![a];
    assert(g.is_route(route));
    assert(route.first() == a && route.last() == a);
}

/// A passage followed by a route is a route.
pub proof fn lemma_linked_step(g: Grid, a: (int, int), b: (int, int), c: (int, int))
    requires
        g.passage(a, b),
        g.linked(b, c),
    ensures
        g.linked(a, c),
{
    let tail = choose|route: Seq<(int, int)>|
        #[trigger] g.is_route(route) && route.first() == b && route.last() == c;
    let route = seq![a] + tail;
    assert forall|i: int| 0 <= i < route.len() - 1 implies #[trigger] g.hop(route, i) by {
        if i > 0 {
            assert(g.hop(tail, i - 1));
        }
    }
    assert(g.is_route(route));
    assert(route.first() == a && route.last() == c);
}

/// Every position on a route is a room of the grid.
pub proof fn lemma_route_rooms(g: Grid, route: Seq<(int, int)>, i: int)
    requires
        g.is_route(route),
        0 <= i < route.len(),
    ensures
        g.has_room(route[i]),
{
    if i > 0 {
        assert(g.hop(route, i - 1));
    }
}

/// Being linked is symmetric.
pub proof fn lemma_linked_sym(g: Grid, a: (int, int), b: (int, int))
    requires
        g.linked(a, b),
    ensures
        g.linked(b, a),
{
    let route = choose|route: Seq<(int, int)>|
        #[trigger] g.is_route(route) && route.first() == a && route.last() == b;
    let n = route.len() as int;
    let back = Seq::new(route.len(), |i: int| route[n - 1 - i]);
    lemma_route_rooms(g, route, n - 1);
    assert forall|i: int| 0 <= i < back.len() - 1 implies #[trigger] g.hop(back, i) by {
        assert(g.hop(route, n - 2 - i));
    }
    assert(g.is_route(back));
    assert(back.first() == b && back.last() == a);
}

/// Being linked is transitive.
pub proof fn lemma_linked_trans(g: Grid, a: (int, int), b: (int, int), c: (int, int))
    requires
        g.linked(a, b),
        g.linked(b, c),
    ensures
        g.linked(a, c),
{
    let head = choose|route: Seq<(int, int)>|
        #[trigger] g.is_route(route) && route.first() == a && route.last() == b;
    let tail = choose|route: Seq<(int, int)>|
        #[trigger] g.is_route(route) && route.first() == b && route.last() == c;
    let route = head + tail.subrange(1, tail.len() as int);
    assert forall|i: int| 0 <= i < route.len() - 1 implies #[trigger] g.hop(route, i) by {
        if i < head.len() - 1 {
            assert(g.hop(head, i));
        } else {
            assert(g.hop(tail, i - (head.len() - 1)));
        }
    }
    assert(g.is_route(route));
    assert(route.first() == a && route.last() == c);
}

/// Cutting the loops out of a route leaves a simple route with the same
/// ends.
pub proof fn lemma_simple_route(g: Grid, route: Seq<(int, int)>) -> (simple: Seq<(int, int)>)
    requires
        g.is_route(route),
    ensures
        g.is_simple_route(simple),
        simple.first() == route.first(),
        simple.last() == route.last(),
    decreases route.len(),
{
    if route.no_duplicates() {
        route
    } else {
        let (i, j) = choose|i: int, j: int|
            0 <= i < route.len() && 0 <= j < route.len() && i != j && route[i] == route[j];
        let (lo, hi) = if i < j {
            (i, j)
        } else {
            (j, i)
        };
        let n = route.len() as int;
        let shorter = route.subrange(0, lo + 1) + route.subrange(hi + 1, n);
        assert forall|k: int| 0 <= k < shorter.len() - 1 implies #[trigger] g.hop(shorter, k) by {
            if k < lo {
                assert(g.hop(route, k));
            } else {
                assert(g.hop(route, k + (hi - lo)));
            }
        }
        assert(g.is_route(shorter));
        lemma_simple_route(g, shorter)
    }
}

/// The part of a route from step `k` on is still a route when a wall that
/// it does not pass is put back.
proof fn lemma_tail_without(g: Grid, w: (int, int), route: Seq<(int, int)>, k: int)
    requires
        g.is_route(route),
        0 <= k < route.len(),
        forall|j: int| k <= j < route.len() - 1 ==> between(route[j], #[trigger] route[j + 1]) != w,
    ensures
        g.walled(w).linked(route[k], route.last()),
{
    let h = g.walled(w);
    let tail = route.subrange(k, route.len() as int);
    lemma_route_rooms(g, route, k);
    assert forall|i: int| 0 <= i < tail.len() - 1 implies #[trigger] h.hop(tail, i) by {
        assert(g.hop(route, k + i));
        assert(between(route[k + i], route[k + i + 1]) != w);
    }
    assert(h.is_route(tail));
    assert(tail.first() == route[k] && tail.last() == route.last());
}

/// Two simple routes of a perfect maze with the same ends agree step by
/// step: where they parted, the wall that one of them passes could be put
/// back without cutting its ends apart.
proof fn lemma_routes_agree(g: Grid, one: Seq<(int, int)>, other: Seq<(int, int)>, i: int)
    requires
        g.perfect(),
        g.is_simple_route(one),
        g.is_simple_route(other),
        one.first() == other.first(),
        one.last() == other.last(),
        0 <= i < one.len(),
    ensures
        i < other.len(),
        one[i] == other[i],
    decreases i,
{
    if i > 0 {
        lemma_routes_agree(g, one, other, i - 1);
        let x = one[i - 1];
        let y = one[i];
        if i >= other.len() {
            // `other` ends at `x`, so `one` comes back to `x` at its end
            assert(one[one.len() - 1] == one[i - 1]);
            assert(false);
        }
        let z = other[i];
        if z != y {
            let w = between(x, y);
            let h = g.walled(w);
            assert(g.hop(one, i - 1));
            assert(g.hop(other, i - 1));
            lemma_wall_between(x, y);
            assert(g.open_walls().contains(w));
            assert(g.cut_by(w));
            assert forall|j: int| i <= j < one.len() - 1 implies between(
                one[j],
                #[trigger] one[j + 1],
            ) != w by {
                assert(g.hop(one, j));
                lemma_wall_between(one[j], one[j + 1]);
            }
            assert forall|j: int| i - 1 <= j < other.len() - 1 implies between(
                other[j],
                #[trigger] other[j + 1],
            ) != w by {
                assert(g.hop(other, j));
                lemma_wall_between(other[j], other[j + 1]);
            }
            lemma_tail_without(g, w, one, i);
            lemma_tail_without(g, w, other, i - 1);
            let end = one.last();
            lemma_linked_sym(h, y, end);
            lemma_linked_trans(h, x, end, y);
            lemma_linked_sym(h, x, y);
            assert(false);
        }
    }
}

/// In a perfect maze there is only one simple route from a room to another.
pub proof fn lemma_perfect_one_route(g: Grid, one: Seq<(int, int)>, other: Seq<(int, int)>)
    requires
        g.perfect(),
        g.is_simple_route(one),
        g.is_simple_route(other),
        one.first() == other.first(),
        one.last() == other.last(),
    ensures
        one == other,
{
    lemma_routes_agree(g, one, other, one.len() - 1);
    lemma_routes_agree(g, other, one, other.len() - 1);
    assert forall|i: int| 0 <= i < one.len() implies one[i] == other[i] by {
        lemma_routes_agree(g, one, other, i);
    }
    assert(one =~= other);
}

/// In a perfect maze a route leads from every room to every other room.
pub proof fn lemma_perfect_links_all(g: Grid, a: (int, int), b: (int, int))
    requires
        g.perfect(),
        g.has_room(a),
        g.has_room(b),
    ensures
        g.linked(a, b),
{
    assert(g.linked((0, 0), a));
    assert(g.linked((0, 0), b));
    lemma_linked_sym(g, (0, 0), a);
    lemma_linked_trans(g, a, (0, 0), b);
}

/// In a perfect maze a simple route leads from every room to every other
/// room.
pub proof fn lemma_perfect_simple_route(g: Grid, a: (int, int), b: (int, int)) -> (simple: Seq<
    (int, int),
>)
    requires
        g.perfect(),
        g.has_room(a),
        g.has_room(b),
    ensures
        g.is_simple_route(simple),
        simple.first() == a,
        simple.last() == b,
{
    lemma_perfect_links_all(g, a, b);
    let route = choose|route: Seq<(int, int)>|
        #[trigger] g.is_route(route) && route.first() == a && route.last() == b;
    lemma_simple_route(g, route)
}

} // verus!
