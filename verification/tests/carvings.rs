use mazegen::carving::{CarvingStrategy, DFSCarvingAlgorithm};
use mazegen::cell::{Cell, CellType};
use mazegen::maze::Maze;

fn cell_of(maze: &mut Maze, x: usize, y: usize) -> Cell {
    maze.get_cell_ref(x, y).clone()
}

fn is_open(maze: &mut Maze, x: usize, y: usize) -> bool {
    *maze.get_cell_ref(x, y).get_celltype() != CellType::Wall
}

fn rooms(w: usize, h: usize) -> Vec<(usize, usize)> {
    let mut all = Vec::new();
    for y in (0..h).step_by(2) {
        for x in (0..w).step_by(2) {
            all.push((x, y));
        }
    }
    all
}

fn open_walls(maze: &mut Maze) -> Vec<(usize, usize)> {
    let (w, h) = maze.get_dim();
    let mut all = Vec::new();
    for y in 0..h {
        for x in 0..w {
            if (x % 2 == 0) != (y % 2 == 0) && is_open(maze, x, y) {
                all.push((x, y));
            }
        }
    }
    all
}

/// The rooms that can be reached from `from` through open walls.
fn reachable(maze: &mut Maze, from: (usize, usize)) -> Vec<(usize, usize)> {
    let (w, h) = maze.get_dim();
    let mut seen = vec![from];
    let mut todo = vec![from];
    while let Some((x, y)) = todo.pop() {
        let mut next = Vec::new();
        if y >= 2 {
            next.push(((x, y - 2), (x, y - 1)));
        }
        if y + 2 < h {
            next.push(((x, y + 2), (x, y + 1)));
        }
        if x + 2 < w {
            next.push(((x + 2, y), (x + 1, y)));
        }
        if x >= 2 {
            next.push(((x - 2, y), (x - 1, y)));
        }
        for (room, wall) in next {
            if is_open(maze, wall.0, wall.1) && !seen.contains(&room) {
                seen.push(room);
                todo.push(room);
            }
        }
    }
    seen
}

fn wall_ends(wall: (usize, usize)) -> ((usize, usize), (usize, usize)) {
    if wall.0 % 2 == 1 {
        ((wall.0 - 1, wall.1), (wall.0 + 1, wall.1))
    } else {
        ((wall.0, wall.1 - 1), (wall.0, wall.1 + 1))
    }
}

/// Checks all that a finished carving promises.
fn assert_perfect(maze: &mut Maze, w: usize, h: usize) {
    assert_eq!(maze.get_dim(), (w, h));
    let all_rooms = rooms(w, h);
    assert_eq!(all_rooms.len(), ((w + 1) / 2) * ((h + 1) / 2));
    for y in 0..h {
        for x in 0..w {
            let c = cell_of(maze, x, y);
            if x % 2 == 0 && y % 2 == 0 {
                assert_eq!(c, Cell { cell_type: CellType::Tile, visited: true });
            } else if x % 2 == 1 && y % 2 == 1 {
                assert_eq!(c, Cell { cell_type: CellType::Wall, visited: false });
            } else {
                assert!(
                    c == Cell { cell_type: CellType::Wall, visited: false }
                        || c == Cell { cell_type: CellType::Tile, visited: true }
                );
            }
        }
    }
    let walls = open_walls(maze);
    assert_eq!(walls.len() + 1, all_rooms.len());
    assert_eq!(reachable(maze, (0, 0)).len(), all_rooms.len());
    for wall in walls {
        let (a, b) = wall_ends(wall);
        maze.get_cell_ref(wall.0, wall.1).convert_to(CellType::Wall);
        let side_a = reachable(maze, a);
        let side_b = reachable(maze, b);
        assert!(!side_a.contains(&b));
        assert!(!side_b.contains(&a));
        assert_eq!(side_a.len() + side_b.len(), all_rooms.len());
        for room in &all_rooms {
            assert!(side_a.contains(room) != side_b.contains(room));
        }
        maze.get_cell_ref(wall.0, wall.1).convert_to(CellType::Tile);
    }
}

fn all_cells(maze: &mut Maze) -> Vec<Cell> {
    let (w, h) = maze.get_dim();
    let mut all = Vec::new();
    for y in 0..h {
        for x in 0..w {
            all.push(cell_of(maze, x, y));
        }
    }
    all
}

/// The stack leads from the start to the current room through open walls
/// and visited rooms.
fn assert_stack_is_route(maze: &mut Maze, stack: &Vec<(usize, usize)>) {
    if stack.is_empty() {
        return;
    }
    assert_eq!(stack[0], (0, 0));
    for &(x, y) in stack {
        assert_eq!(cell_of(maze, x, y), Cell { cell_type: CellType::Tile, visited: true });
    }
    for pair in stack.windows(2) {
        let (a, b) = (pair[0], pair[1]);
        let apart = (a.0.abs_diff(b.0), a.1.abs_diff(b.1));
        assert!(apart == (2, 0) || apart == (0, 2));
        assert!(is_open(maze, (a.0 + b.0) / 2, (a.1 + b.1) / 2));
    }
}

/// Carves with the neighbours tried in the order that `pick` makes of them,
/// and checks after each transition what holds of every state of a run.
fn carve_in_order(w: usize, h: usize, pick: fn(Vec<(usize, usize)>) -> Vec<(usize, usize)>) -> Maze {
    let dfs = DFSCarvingAlgorithm;
    let mut maze = Maze::grid_fill(w, h);
    maze.get_cell_ref(0, 0).mark_visited();
    let mut stack = vec![(0, 0)];
    let mut steps = 0;
    while let Some(&(x, y)) = stack.last() {
        let cells_before = all_cells(&mut maze);
        let depth_before = stack.len();
        let order = pick(dfs.get_neighbors(x, y, &mut maze));
        DFSCarvingAlgorithm::transition(&mut maze, &mut stack, &order);
        let cells_after = all_cells(&mut maze);
        let mut changed = Vec::new();
        for i in 0..cells_before.len() {
            if cells_before[i] != cells_after[i] {
                changed.push(i);
                // nothing turns back into a wall, no visit is forgotten
                assert_ne!(*cells_after[i].get_celltype(), CellType::Wall);
                assert!(cells_after[i].is_visited());
                assert!(!cells_before[i].is_visited());
            }
        }
        if stack.len() > depth_before {
            // one wall opened that was closed, one room entered that was not visited
            assert_eq!(stack.len(), depth_before + 1);
            assert_eq!(changed.len(), 2);
            let walls: Vec<&usize> =
                changed.iter().filter(|&&i| *cells_before[i].get_celltype() == CellType::Wall).collect();
            assert_eq!(walls.len(), 1);
        } else {
            assert_eq!(stack.len() + 1, depth_before);
            assert!(changed.is_empty());
        }
        assert_stack_is_route(&mut maze, &stack);
        steps += 1;
        assert!(steps <= 2 * w * h + 2);
    }
    // each room but the start is entered once, and each room is left once
    assert_eq!(steps, 2 * rooms(w, h).len() - 1);
    maze
}

/// How many routes lead from `from` to `to` without passing a room twice.
fn count_simple_routes(
    maze: &mut Maze,
    from: (usize, usize),
    to: (usize, usize),
    seen: &mut Vec<(usize, usize)>,
) -> usize {
    if from == to {
        return 1;
    }
    let (w, h) = maze.get_dim();
    let (x, y) = from;
    let mut next = Vec::new();
    if y >= 2 {
        next.push(((x, y - 2), (x, y - 1)));
    }
    if y + 2 < h {
        next.push(((x, y + 2), (x, y + 1)));
    }
    if x + 2 < w {
        next.push(((x + 2, y), (x + 1, y)));
    }
    if x >= 2 {
        next.push(((x - 2, y), (x - 1, y)));
    }
    let mut count = 0;
    seen.push(from);
    for (room, wall) in next {
        if is_open(maze, wall.0, wall.1) && !seen.contains(&room) {
            count += count_simple_routes(maze, room, to, seen);
        }
    }
    seen.pop();
    count
}

fn as_listed(v: Vec<(usize, usize)>) -> Vec<(usize, usize)> {
    v
}

fn reversed(mut v: Vec<(usize, usize)>) -> Vec<(usize, usize)> {
    v.reverse();
    v
}

#[test]
fn carving_three_by_three() {
    let mut m = Maze::new(3, 3, Box::new(DFSCarvingAlgorithm));
    assert_eq!(open_walls(&mut m).len(), 3);
    for room in [(0, 0), (0, 2), (2, 0), (2, 2)] {
        assert!(cell_of(&mut m, room.0, room.1).is_visited());
    }
    assert_perfect(&mut m, 3, 3);
}

#[test]
fn carving_visits_every_room() {
    for (w, h) in [(3, 3), (5, 5), (7, 3), (3, 9), (9, 9), (41, 29)] {
        let mut m = Maze::new(w, h, Box::new(DFSCarvingAlgorithm));
        for (x, y) in rooms(w, h) {
            assert!(cell_of(&mut m, x, y).is_visited());
        }
    }
}

#[test]
fn carving_makes_a_spanning_tree() {
    for (w, h) in [(3, 3), (5, 5), (7, 3), (3, 9), (9, 9), (15, 11)] {
        for _ in 0..5 {
            let mut m = Maze::new(w, h, Box::new(DFSCarvingAlgorithm));
            assert_perfect(&mut m, w, h);
        }
    }
}

#[test]
fn carving_sizes_that_are_even_or_one() {
    for (w, h) in [(1, 1), (1, 2), (2, 1), (2, 2), (1, 7), (4, 4), (6, 5), (5, 8), (10, 10)] {
        let mut m = Maze::new(w, h, Box::new(DFSCarvingAlgorithm));
        assert_perfect(&mut m, w, h);
    }
}

#[test]
fn one_room_needs_no_wall() {
    let mut m = Maze::new(1, 1, Box::new(DFSCarvingAlgorithm));
    assert_eq!(cell_of(&mut m, 0, 0), Cell { cell_type: CellType::Tile, visited: true });
    assert_eq!(m.to_string(), "  r0 \nc0  x \n");
}

#[test]
fn carve_maze_on_a_fresh_grid() {
    let mut m = Maze::grid_fill(7, 5);
    m.carve_maze(Box::new(DFSCarvingAlgorithm));
    assert_perfect(&mut m, 7, 5);
}

#[test]
fn carve_through_the_trait() {
    let mut m = Maze::grid_fill(5, 7);
    let mut strategy: Box<dyn CarvingStrategy> = Box::new(DFSCarvingAlgorithm);
    strategy.carve(&mut m);
    assert_perfect(&mut m, 5, 7);
}

#[test]
fn neighbors_in_the_middle_and_at_the_rim() {
    let dfs = DFSCarvingAlgorithm;
    let mut m = Maze::grid_fill(5, 5);
    assert_eq!(dfs.get_neighbors(2, 2, &mut m), vec![(2, 0), (2, 4), (4, 2), (0, 2)]);
    assert_eq!(dfs.get_neighbors(0, 0, &mut m), vec![(0, 2), (2, 0)]);
    assert_eq!(dfs.get_neighbors(4, 4, &mut m), vec![(4, 2), (2, 4)]);
    assert_eq!(dfs.get_neighbors(4, 0, &mut m), vec![(4, 2), (2, 0)]);
    assert_eq!(dfs.get_neighbors(0, 2, &mut m), vec![(0, 0), (0, 4), (2, 2)]);
    // the grid is only read
    assert_eq!(m.to_string(), Maze::grid_fill(5, 5).to_string());
}

#[test]
fn neighbors_of_positions_off_the_lattice_or_outside() {
    let dfs = DFSCarvingAlgorithm;
    let mut m = Maze::grid_fill(4, 3);
    assert_eq!(dfs.get_neighbors(1, 1, &mut m), vec![(3, 1)]);
    assert_eq!(dfs.get_neighbors(3, 2, &mut m), vec![(3, 0), (1, 2)]);
    // from just outside, a jump can still land inside
    assert_eq!(dfs.get_neighbors(4, 1, &mut m), vec![(2, 1)]);
    assert_eq!(dfs.get_neighbors(5, 0, &mut m), vec![(3, 0)]);
    assert_eq!(dfs.get_neighbors(1, 4, &mut m), vec![(1, 2)]);
    assert_eq!(dfs.get_neighbors(6, 0, &mut m), vec![]);
    assert_eq!(dfs.get_neighbors(usize::MAX, 0, &mut m), vec![]);
    assert_eq!(dfs.get_neighbors(0, usize::MAX, &mut m), vec![]);
    let mut one = Maze::grid_fill(1, 1);
    assert_eq!(dfs.get_neighbors(0, 0, &mut one), vec![]);
}

#[test]
fn transition_enters_the_first_unvisited_neighbor() {
    let mut m = Maze::grid_fill(5, 5);
    m.get_cell_ref(2, 2).mark_visited();
    m.get_cell_ref(2, 0).mark_visited();
    let mut stack = vec![(2, 2)];
    DFSCarvingAlgorithm::transition(&mut m, &mut stack, &vec![(2, 0), (4, 2), (0, 2)]);
    assert_eq!(stack, vec![(2, 2), (4, 2)]);
    assert_eq!(cell_of(&mut m, 3, 2), Cell { cell_type: CellType::Tile, visited: true });
    assert_eq!(cell_of(&mut m, 4, 2), Cell { cell_type: CellType::Tile, visited: true });
    // the neighbour that was skipped and the one that was not reached
    assert_eq!(cell_of(&mut m, 2, 1), Cell { cell_type: CellType::Wall, visited: false });
    assert_eq!(cell_of(&mut m, 1, 2), Cell { cell_type: CellType::Wall, visited: false });
    assert_eq!(cell_of(&mut m, 0, 2), Cell { cell_type: CellType::Tile, visited: false });
}

#[test]
fn transition_steps_back_when_all_are_visited() {
    let mut m = Maze::grid_fill(3, 3);
    for room in [(0, 0), (2, 0), (0, 2)] {
        m.get_cell_ref(room.0, room.1).mark_visited();
    }
    let before = m.to_string();
    let mut stack = vec![(2, 0), (0, 0)];
    DFSCarvingAlgorithm::transition(&mut m, &mut stack, &vec![(0, 2), (2, 0)]);
    assert_eq!(stack, vec![(2, 0)]);
    assert_eq!(m.to_string(), before);
    // with nothing to try, the traversal steps back too
    DFSCarvingAlgorithm::transition(&mut m, &mut stack, &vec![]);
    assert_eq!(stack, vec![]);
    assert_eq!(m.to_string(), before);
}

#[test]
fn fixed_order_gives_a_fixed_maze() {
    let m = carve_in_order(3, 3, as_listed);
    assert_eq!(
        m.to_string(),
        "  r0 r1 r2 \nc0  x  \u{2588}  x \nc1  x  \u{2588}  x \nc2  x  x  x \n"
    );
    let m = carve_in_order(3, 3, reversed);
    assert_eq!(
        m.to_string(),
        "  r0 r1 r2 \nc0  x  x  x \nc1  \u{2588}  \u{2588}  x \nc2  x  x  x \n"
    );
}

#[test]
fn same_orders_same_maze() {
    for (w, h) in [(5, 5), (9, 7), (12, 13)] {
        let first = carve_in_order(w, h, as_listed).to_string();
        let second = carve_in_order(w, h, as_listed).to_string();
        assert_eq!(first, second);
        let mut other = carve_in_order(w, h, reversed);
        assert_eq!(other.to_string(), carve_in_order(w, h, reversed).to_string());
        assert_ne!(first, other.to_string());
        assert_perfect(&mut other, w, h);
    }
}

#[test]
fn random_orders_vary_the_maze() {
    let mut seen: Vec<String> = Vec::new();
    for _ in 0..40 {
        let text = Maze::new(11, 11, Box::new(DFSCarvingAlgorithm)).to_string();
        if !seen.contains(&text) {
            seen.push(text);
        }
    }
    assert!(seen.len() > 1);
}

#[test]
fn one_simple_route_between_any_two_rooms() {
    for (w, h) in [(3, 3), (5, 5), (7, 4), (6, 9)] {
        let mut m = Maze::new(w, h, Box::new(DFSCarvingAlgorithm));
        let all = rooms(w, h);
        for &a in &all {
            for &b in &all {
                assert_eq!(count_simple_routes(&mut m, a, b, &mut Vec::new()), 1);
            }
        }
    }
}

#[test]
fn a_loop_makes_a_second_route() {
    let mut m = carve_in_order(3, 3, as_listed);
    // opening the one wall that the carving left closed closes a loop
    m.get_cell_ref(1, 0).mark_visited();
    assert_eq!(count_simple_routes(&mut m, (0, 0), (2, 0), &mut Vec::new()), 2);
}

#[test]
fn every_state_of_a_run_keeps_its_promises() {
    for (w, h) in [(1, 1), (3, 3), (4, 7), (9, 9), (13, 6)] {
        let mut m = carve_in_order(w, h, as_listed);
        assert_perfect(&mut m, w, h);
        let mut m = carve_in_order(w, h, reversed);
        assert_perfect(&mut m, w, h);
    }
}

#[test]
fn opened_walls_follow_the_room_count() {
    for (w, h, walls) in [(3, 3, 3), (5, 5, 8), (41, 29, 314), (4, 4, 3), (1, 9, 4), (2, 2, 0)] {
        let mut m = Maze::new(w, h, Box::new(DFSCarvingAlgorithm));
        assert_eq!(open_walls(&mut m).len(), walls);
    }
}
