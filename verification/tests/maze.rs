use maze_core::direction::{add_coords, bound_check, Direction};
use maze_core::frame::{Cell, Frame};
use maze_core::generate::{generate_maze, MazeError, PROB_DENOM};
use maze_core::maze::{frame_to_maze, Maze};
use maze_core::solve::solve;
use rand::SeedableRng;

fn frame_with_all(w: usize, h: usize, c: Cell) -> Frame {
    let mut f = Frame::new(w, h);
    for x in 0..w {
        for y in 0..h {
            f.set(x, y, c);
        }
    }
    f
}

#[test]
fn direction_mappings() {
    assert_eq!(Direction::Top.to_number(), 0);
    assert_eq!(Direction::Left.to_number(), 1);
    assert_eq!(Direction::Bottom.to_number(), 2);
    assert_eq!(Direction::Right.to_number(), 3);
    assert_eq!(Direction::from_number(0), Direction::Top);
    assert_eq!(Direction::from_number(1), Direction::Left);
    assert_eq!(Direction::from_number(2), Direction::Bottom);
    assert_eq!(Direction::from_number(3), Direction::Right);
    assert_eq!(Direction::from_number(9), Direction::Top);
    assert_eq!(Direction::Top.to_rel_coord(), (0, -1));
    assert_eq!(Direction::Left.to_rel_coord(), (-1, 0));
    assert_eq!(Direction::Bottom.to_rel_coord(), (0, 1));
    assert_eq!(Direction::Right.to_rel_coord(), (1, 0));
    let order = Direction::iterator();
    assert_eq!(
        order,
        vec![Direction::Top, Direction::Left, Direction::Bottom, Direction::Right]
    );
}

#[test]
fn bound_check_excludes_zero_row_and_column() {
    assert!(!bound_check((0, 5), 10, 10));
    assert!(!bound_check((5, 0), 10, 10));
    assert!(!bound_check((10, 5), 10, 10));
    assert!(!bound_check((5, 10), 10, 10));
    assert!(!bound_check((-3, 5), 10, 10));
    assert!(bound_check((1, 1), 10, 10));
    assert!(bound_check((9, 9), 10, 10));
    assert_eq!(add_coords((3, 4), (-1, 0)), (2, 4));
}

#[test]
fn encoder_projects_walls_onto_neighbors() {
    let mut f = frame_with_all(4, 4, Cell::Free);
    f.set(2, 2, Cell::Blocked);
    let m = frame_to_maze(&f, (1, 1), (3, 3));
    // The blocked cell's own sides stay clear; its marker is set.
    let c = m.get(2, 2);
    assert!(c.blocked);
    assert!(!c.wall_top && !c.wall_left && !c.wall_bottom && !c.wall_right);
    // Each neighbor gets exactly the wall facing back toward (2, 2).
    let above = m.get(2, 1);
    assert!(above.wall_bottom && !above.wall_top && !above.wall_left && !above.wall_right);
    let below = m.get(2, 3);
    assert!(below.wall_top && !below.wall_bottom && !below.wall_left && !below.wall_right);
    let left = m.get(1, 2);
    assert!(left.wall_right && !left.wall_left && !left.wall_top && !left.wall_bottom);
    let right = m.get(3, 2);
    assert!(right.wall_left && !right.wall_right && !right.wall_top && !right.wall_bottom);
    // A far cell sees no wall at all.
    let far = m.get(0, 0);
    assert!(!far.wall_top && !far.wall_left && !far.wall_bottom && !far.wall_right);
}

#[test]
fn wall_symmetry_between_cells_of_equal_state() {
    let mut f = frame_with_all(4, 4, Cell::Free);
    f.set(1, 1, Cell::Blocked);
    f.set(1, 2, Cell::Blocked);
    let m = frame_to_maze(&f, (2, 2), (3, 3));
    // Two adjacent blocked cells wall each other off symmetrically.
    assert_eq!(m.get(1, 1).wall_bottom, m.get(1, 2).wall_top);
    assert!(m.get(1, 1).wall_bottom);
    // Two adjacent free cells are symmetrically open.
    assert_eq!(m.get(2, 2).wall_right, m.get(3, 2).wall_left);
    assert!(!m.get(2, 2).wall_right);
}

#[test]
fn exactly_one_start_and_one_exit() {
    let mut f = frame_with_all(5, 5, Cell::Free);
    f.set(3, 3, Cell::Blocked);
    let m = frame_to_maze(&f, (1, 2), (4, 4));
    let mut starts = 0;
    let mut exits = 0;
    for x in 0..5 {
        for y in 0..5 {
            let c = m.get(x, y);
            if c.start {
                starts += 1;
                assert_eq!((x, y), (1, 2));
            }
            if c.exit {
                exits += 1;
                assert_eq!((x, y), (4, 4));
            }
        }
    }
    assert_eq!(starts, 1);
    assert_eq!(exits, 1);
}

fn open_three_by_three() -> Maze {
    // A 3x3 grid, nothing blocked, start in the center, exit adjacent.
    let f = frame_with_all(3, 3, Cell::Free);
    frame_to_maze(&f, (1, 1), (2, 1))
}

#[test]
fn center_start_reaches_adjacent_exit() {
    let m = open_three_by_three();
    let r = solve(&m, (1, 1));
    assert!(r.reached);
    assert_eq!(r.path.last(), Some(&(2, 1)));
    // The fixed exploration order Top, Left, Bottom, Right pins the route.
    assert_eq!(r.path, vec![(1, 1), (1, 2), (2, 2), (2, 1)]);
    assert_eq!(r.visited, vec![(1, 1), (1, 2), (2, 2), (2, 1)]);
}

#[test]
fn start_equal_to_exit_succeeds_at_once() {
    let f = frame_with_all(3, 3, Cell::Free);
    let m = frame_to_maze(&f, (1, 1), (1, 1));
    let c = m.get(1, 1);
    assert!(c.start && c.exit);
    let r = solve(&m, (1, 1));
    assert!(r.reached);
    assert_eq!(r.path, vec![(1, 1)]);
    assert_eq!(r.visited, vec![(1, 1)]);
}

#[test]
fn repeated_runs_agree() {
    let m = open_three_by_three();
    let a = solve(&m, (1, 1));
    let b = solve(&m, (1, 1));
    assert_eq!(a.reached, b.reached);
    assert_eq!(a.visited, b.visited);
    assert_eq!(a.path, b.path);
}

#[test]
fn visited_holds_no_duplicates() {
    let mut f = frame_with_all(6, 6, Cell::Free);
    f.set(3, 3, Cell::Blocked);
    let m = frame_to_maze(&f, (1, 1), (5, 5));
    let r = solve(&m, (1, 1));
    for i in 0..r.visited.len() {
        for j in 0..i {
            assert_ne!(r.visited[i], r.visited[j]);
        }
    }
}

#[test]
fn out_of_bounds_start_fails_cleanly() {
    let m = open_three_by_three();
    let r = solve(&m, (0, 0));
    assert!(!r.reached);
    assert!(r.visited.is_empty());
    assert!(r.path.is_empty());
}

#[test]
fn walled_off_exit_yields_false_and_full_component() {
    let mut f = frame_with_all(5, 5, Cell::Free);
    // Wall the exit (3, 3) off on all four sides.
    f.set(2, 3, Cell::Blocked);
    f.set(4, 3, Cell::Blocked);
    f.set(3, 2, Cell::Blocked);
    f.set(3, 4, Cell::Blocked);
    let m = frame_to_maze(&f, (1, 1), (3, 3));
    // The exit cell really is sealed.
    let e = m.get(3, 3);
    assert!(e.wall_top && e.wall_left && e.wall_bottom && e.wall_right);
    let r = solve(&m, (1, 1));
    assert!(!r.reached);
    // The trace is exactly the component reachable from the start: every
    // eligible free cell except the sealed exit and the isolated (4, 4).
    let mut expected = vec![
        (1, 1),
        (1, 2),
        (1, 3),
        (1, 4),
        (2, 1),
        (2, 2),
        (2, 4),
        (3, 1),
        (4, 1),
        (4, 2),
    ];
    let mut got = r.visited.clone();
    expected.sort();
    got.sort();
    assert_eq!(got, expected);
}

#[test]
fn fork_probabilities_are_validated() {
    let mut rng = rand::rngs::StdRng::seed_from_u64(7);
    let r = generate_maze(10, 10, (5, 5), (PROB_DENOM + 1, 0), &mut rng);
    assert_eq!(r.err(), Some(MazeError::ProbabilityOutOfRange));
    let r = generate_maze(10, 10, (5, 5), (0, PROB_DENOM + 1), &mut rng);
    assert_eq!(r.err(), Some(MazeError::ProbabilityOutOfRange));
    let r = generate_maze(10, 10, (5, 5), (PROB_DENOM, PROB_DENOM), &mut rng);
    assert!(r.is_ok());
}

#[test]
fn generation_terminates_and_only_carves() {
    // Even at the extreme fork probabilities the run terminates, the seed
    // is carved, and every cell is still Blocked or Free.
    let mut rng = rand::rngs::StdRng::seed_from_u64(1);
    let f = generate_maze(12, 9, (4, 4), (PROB_DENOM, PROB_DENOM), &mut rng).unwrap();
    assert_eq!(f.width, 12);
    assert_eq!(f.height, 9);
    assert_eq!(f.get(4, 4), Cell::Free);
    let mut free = 0usize;
    for x in 0..12 {
        for y in 0..9 {
            let c = f.get(x, y);
            assert!(c == Cell::Blocked || c == Cell::Free);
            if c == Cell::Free {
                free += 1;
            }
        }
    }
    assert!(free >= 1);
    assert_eq!(free, f.count_free_cells());
}

#[test]
fn generation_is_reproducible_under_a_fixed_seed() {
    let mut rng1 = rand::rngs::StdRng::seed_from_u64(42);
    let mut rng2 = rand::rngs::StdRng::seed_from_u64(42);
    let a = generate_maze(15, 15, (7, 7), (70_000, 50_000), &mut rng1).unwrap();
    let b = generate_maze(15, 15, (7, 7), (70_000, 50_000), &mut rng2).unwrap();
    assert_eq!(a.cells, b.cells);
}

#[test]
fn generated_maze_solves_deterministically() {
    let mut rng = rand::rngs::StdRng::seed_from_u64(3);
    let f = generate_maze(11, 11, (5, 5), (70_000, 50_000), &mut rng).unwrap();
    let m = frame_to_maze(&f, (5, 5), (9, 9));
    let a = solve(&m, (5, 5));
    let b = solve(&m, (5, 5));
    assert_eq!(a.reached, b.reached);
    assert_eq!(a.visited, b.visited);
    assert_eq!(a.path, b.path);
    if a.reached {
        assert_eq!(a.path.last(), Some(&(9, 9)));
    }
}
