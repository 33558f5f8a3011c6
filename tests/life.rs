use life::config::ParseError;
use life::loc::Loc;
use life::rule::next_status;
use life::world::World;

fn parse(text: &str) -> World {
    match World::from_configuration(text, '.', '*') {
        Ok(w) => w,
        Err(e) => panic!("unexpected parse error: {:?}", e),
    }
}

fn alive_cells(world: &World) -> Vec<(i64, i64)> {
    let mut cells: Vec<(i64, i64)> = world
        .current_buffer()
        .into_iter()
        .filter(|(_, alive)| *alive)
        .map(|(loc, _)| (loc.row, loc.col))
        .collect();
    cells.sort();
    cells
}

fn world_with(cells: &[(i64, i64)]) -> World {
    let mut world = World::new();
    for &(row, col) in cells {
        world.set(&Loc::new(row, col), true);
    }
    // the cells were written to the next generation: make it current
    world.step();
    world
}

#[test]
fn rule_table() {
    assert!(!next_status(true, 0));
    assert!(!next_status(true, 1));
    assert!(next_status(true, 2));
    assert!(next_status(true, 3));
    assert!(!next_status(true, 4));
    assert!(!next_status(true, 8));
    assert!(!next_status(false, 0));
    assert!(!next_status(false, 1));
    assert!(!next_status(false, 2));
    assert!(next_status(false, 3));
    assert!(!next_status(false, 4));
    assert!(!next_status(false, 8));
}

#[test]
fn rule_all_counts() {
    for n in 0..=8usize {
        assert_eq!(next_status(true, n), n == 2 || n == 3);
        assert_eq!(next_status(false, n), n == 3);
    }
}

#[test]
fn neighbors_are_the_moore_neighborhood() {
    let loc = Loc::new(5, -7);
    let mut got: Vec<(i64, i64)> = loc.neighbors().iter().map(|l| (l.row, l.col)).collect();
    got.sort();
    let want = vec![(4, -8), (4, -7), (4, -6), (5, -8), (5, -6), (6, -8), (6, -7), (6, -6)];
    assert_eq!(got, want);
}

#[test]
fn new_world_is_empty() {
    let world = World::new();
    assert!(world.current_buffer().is_empty());
    assert!(!world.get(&Loc::new(0, 0)));
}

#[test]
fn set_writes_the_next_generation() {
    let mut world = World::new();
    world.set(&Loc::new(2, 3), true);
    assert!(!world.get(&Loc::new(2, 3)));
    world.step();
    assert!(world.get(&Loc::new(2, 3)));
    // the live cell and its eight neighbors are tracked
    let buffer = world.current_buffer();
    assert_eq!(buffer.len(), 9);
    for (loc, alive) in buffer {
        assert_eq!(alive, loc.row == 2 && loc.col == 3);
        assert!((loc.row - 2).abs() <= 1 && (loc.col - 3).abs() <= 1);
    }
}

#[test]
fn set_false_overwrites() {
    let mut world = World::new();
    world.set(&Loc::new(0, 0), true);
    world.set(&Loc::new(0, 0), false);
    world.step();
    assert!(!world.get(&Loc::new(0, 0)));
    // the neighbors tracked by the first write stay tracked
    assert_eq!(world.current_buffer().len(), 9);
}

#[test]
fn parse_plus_sign() {
    let world = parse(".*.\n***\n.*.\n");
    assert!(world.get(&Loc::new(1, 0)));
    assert!(!world.get(&Loc::new(0, 0)));
    assert_eq!(alive_cells(&world).len(), 5);
    assert_eq!(alive_cells(&world), vec![(0, 1), (1, 0), (1, 1), (1, 2), (2, 1)]);
}

#[test]
fn parse_ignores_carriage_returns() {
    let world = parse("*.\r\n.*\r\n");
    assert_eq!(alive_cells(&world), vec![(0, 0), (1, 1)]);
}

#[test]
fn parse_other_markers() {
    match World::from_configuration("ox\nxo", 'o', 'x') {
        Ok(world) => assert_eq!(alive_cells(&world), vec![(0, 1), (1, 0)]),
        Err(e) => panic!("unexpected parse error: {:?}", e),
    }
}

#[test]
fn parse_error_reports_char_and_place() {
    match World::from_configuration("ab", '.', '*') {
        Ok(_) => panic!("expected an error"),
        Err(e) => assert_eq!(e, ParseError::MalformedConfiguration { character: 'a', row: 0, col: 0 }),
    }
}

#[test]
fn parse_error_later_in_text() {
    match World::from_configuration("..\n.*x", '.', '*') {
        Ok(_) => panic!("expected an error"),
        Err(e) => assert_eq!(e, ParseError::MalformedConfiguration { character: 'x', row: 1, col: 2 }),
    }
}

#[test]
fn parse_empty_text() {
    let world = parse("");
    assert!(world.current_buffer().is_empty());
}

#[test]
fn row_of_three_updates_simultaneously() {
    // evaluated in place, the row would lose cells before its neighbors saw them
    let mut world = world_with(&[(0, -1), (0, 0), (0, 1)]);
    world.step();
    assert_eq!(alive_cells(&world), vec![(-1, 0), (0, 0), (1, 0)]);
}

#[test]
fn block_is_still() {
    let mut world = parse("....\n.**.\n.**.\n....\n");
    let block = vec![(1, 1), (1, 2), (2, 1), (2, 2)];
    assert_eq!(alive_cells(&world), block);
    for _ in 0..10 {
        world.step();
        assert_eq!(alive_cells(&world), block);
    }
}

#[test]
fn blinker_oscillates() {
    let mut world = parse(".....\n.....\n.***.\n.....\n.....\n");
    let horizontal = vec![(2, 1), (2, 2), (2, 3)];
    let vertical = vec![(1, 2), (2, 2), (3, 2)];
    assert_eq!(alive_cells(&world), horizontal);
    world.step();
    assert_eq!(alive_cells(&world), vertical);
    world.step();
    assert_eq!(alive_cells(&world), horizontal);
    for i in 0..6 {
        world.step();
        let want = if i % 2 == 0 { &vertical } else { &horizontal };
        assert_eq!(&alive_cells(&world), want);
    }
}

#[test]
fn tracked_cells_touch_live_ones() {
    let mut world = parse(".*..\n..*.\n***.\n....\n");
    for _ in 0..12 {
        let before = alive_cells(&world);
        world.step();
        let now = alive_cells(&world);
        for (loc, _) in world.current_buffer() {
            let touches = |live: &Vec<(i64, i64)>| {
                loc.neighbors().iter().any(|n| live.contains(&(n.row, n.col)))
            };
            assert!(touches(&now) || touches(&before));
        }
    }
}

#[test]
fn lone_cell_dies_and_is_forgotten() {
    let mut world = world_with(&[(0, 0)]);
    world.step();
    assert!(alive_cells(&world).is_empty());
    // its neighbors had a live neighbor in the step's generation
    assert_eq!(world.current_buffer().len(), 8);
    world.step();
    assert!(world.current_buffer().is_empty());
}

#[test]
fn empty_world_stays_empty() {
    let mut world = parse("...\n...\n");
    assert!(alive_cells(&world).is_empty());
    for _ in 0..5 {
        world.step();
        assert!(alive_cells(&world).is_empty());
        assert!(world.current_buffer().is_empty());
    }
    let mut fresh = World::new();
    fresh.step();
    assert!(fresh.current_buffer().is_empty());
}

#[test]
fn negative_coordinates() {
    let mut world = world_with(&[(-5, -5), (-5, -4), (-4, -5), (-4, -4)]);
    world.step();
    assert_eq!(alive_cells(&world), vec![(-5, -5), (-5, -4), (-4, -5), (-4, -4)]);
}
