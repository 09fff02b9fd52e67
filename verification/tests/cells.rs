use mazegen::cell::{Cell, CellType};

const ALL_TYPES: [CellType; 3] = [CellType::Wall, CellType::Tile, CellType::Door];

#[test]
fn new_cell_is_unvisited() {
    for ct in ALL_TYPES {
        let c = Cell::new(ct);
        assert_eq!(*c.get_celltype(), ct);
        assert!(!c.is_visited());
    }
}

#[test]
fn mark_visited_on_wall_opens_it() {
    let mut c = Cell::new(CellType::Wall);
    c.mark_visited();
    assert_eq!(*c.get_celltype(), CellType::Tile);
    assert!(c.is_visited());
}

#[test]
fn mark_visited_keeps_tile_and_door() {
    let mut tile = Cell::new(CellType::Tile);
    tile.mark_visited();
    assert_eq!(tile, Cell { cell_type: CellType::Tile, visited: true });

    let mut door = Cell::new(CellType::Door);
    door.mark_visited();
    assert_eq!(door, Cell { cell_type: CellType::Door, visited: true });
}

#[test]
fn mark_visited_twice_is_as_once() {
    for ct in ALL_TYPES {
        for visited in [false, true] {
            let mut once = Cell { cell_type: ct, visited };
            once.mark_visited();
            let mut twice = once.clone();
            twice.mark_visited();
            assert_eq!(once, twice);
        }
    }
}

#[test]
fn mark_visited_leaves_visited_passage_alone() {
    for ct in [CellType::Tile, CellType::Door] {
        let mut c = Cell { cell_type: ct, visited: true };
        c.mark_visited();
        assert_eq!(c, Cell { cell_type: ct, visited: true });
    }
}

#[test]
fn convert_to_sets_the_type_for_every_pair() {
    for from in ALL_TYPES {
        for to in ALL_TYPES {
            for visited in [false, true] {
                let mut c = Cell { cell_type: from, visited };
                c.convert_to(to);
                assert_eq!(*c.get_celltype(), to);
                assert_eq!(c.is_visited(), visited);
            }
        }
    }
}

#[test]
fn clone_copies_both_fields() {
    let c = Cell { cell_type: CellType::Door, visited: true };
    assert_eq!(c.clone(), c);
}

#[test]
fn symbols() {
    assert_eq!(Cell { cell_type: CellType::Wall, visited: false }.to_string(), "\u{2588}");
    assert_eq!(Cell { cell_type: CellType::Wall, visited: true }.to_string(), "\u{2588}");
    assert_eq!(Cell { cell_type: CellType::Tile, visited: false }.to_string(), "_");
    assert_eq!(Cell { cell_type: CellType::Tile, visited: true }.to_string(), "x");
    assert_eq!(Cell { cell_type: CellType::Door, visited: false }.to_string(), "^");
    assert_eq!(Cell { cell_type: CellType::Door, visited: true }.to_string(), "^");
}
