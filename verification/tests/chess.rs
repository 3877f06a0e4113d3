use maze_core::chess::{in_bounds, solve_problem, Board, CHESS_SIZE};

#[test]
fn in_bounds_covers_the_whole_board() {
    assert!(in_bounds((0, 0)));
    assert!(in_bounds((5, 5)));
    assert!(!in_bounds((-1, 0)));
    assert!(!in_bounds((0, -1)));
    assert!(!in_bounds((6, 0)));
    assert!(!in_bounds((0, 6)));
    assert_eq!(CHESS_SIZE, 6);
}

#[test]
fn finished_tour_succeeds_immediately() {
    let mut b = Board::new();
    b.set((0, 0), 35);
    let before: Vec<i32> = b.cells.clone();
    assert!(solve_problem(&mut b, (0, 0)));
    assert_eq!(b.cells, before);
}

#[test]
fn one_remaining_square_completes_the_tour() {
    // Every square already carries a step number except (1, 2), one knight
    // move from the current square, so a single move finishes the tour.
    let mut b = Board::new();
    for x in 0..6 {
        for y in 0..6 {
            b.set((x, y), 99);
        }
    }
    b.set((0, 0), 34);
    b.set((1, 2), -1);
    assert!(solve_problem(&mut b, (0, 0)));
    assert_eq!(b.get((1, 2)), 35);
    assert_eq!(b.get((0, 0)), 34);
}

#[test]
fn dead_end_restores_and_decrements() {
    // No square is open, so every move fails; the search decrements the
    // current square and reports failure, leaving the rest untouched.
    let mut b = Board::new();
    for x in 0..6 {
        for y in 0..6 {
            b.set((x, y), 99);
        }
    }
    b.set((0, 0), 7);
    assert!(!solve_problem(&mut b, (0, 0)));
    assert_eq!(b.get((0, 0)), 6);
    for x in 0..6 {
        for y in 0..6 {
            if (x, y) != (0, 0) {
                assert_eq!(b.get((x, y)), 99);
            }
        }
    }
}
