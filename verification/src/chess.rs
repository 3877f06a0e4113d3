use vstd::prelude::*;

verus! {

/// Side length of the fixed tour board.
pub const CHESS_SIZE: usize = 6;

/// The tour board: a CHESS_SIZE-by-CHESS_SIZE grid of step numbers, stored
/// row-major, so that square (x, y) sits at flat index x * CHESS_SIZE + y.
/// A square holds -1 while unvisited, or the number of the step that
/// entered it.
pub struct Board {
    pub cells: Vec<i32>,
}

impl Board {
    pub open spec fn wf(self) -> bool {
        self.cells@.len() == CHESS_SIZE * CHESS_SIZE
    }

    pub open spec fn at(self, x: int, y: int) -> int {
        self.cells@[x * CHESS_SIZE + y] as int
    }

    /// A fresh board with every square unvisited.
    pub fn new() -> (b: Board)
        ensures
            b.wf(),
            forall|x: int, y: int|
                0 <= x < CHESS_SIZE && 0 <= y < CHESS_SIZE ==> #[trigger] b.at(x, y) == -1,
    {
        let mut cells: Vec<i32> = Vec::new();
        let mut i: usize = 0;
        while i < 36
            invariant
                i <= 36,
                cells@.len() == i,
                forall|k: int| 0 <= k < i ==> #[trigger] cells@[k] == -1i32,
            decreases 36 - i,
        {
            cells.push(-1);
            i += 1;
        }
        Board { cells }
    }

    pub fn get(&self, c: (i32, i32)) -> (v: i32)
        requires
            self.wf(),
            0 <= c.0 < CHESS_SIZE,
            0 <= c.1 < CHESS_SIZE,
        ensures
            v == self.at(c.0 as int, c.1 as int),
    {
        self.cells[(c.0 as usize) * CHESS_SIZE + (c.1 as usize)]
    }

    pub fn set(&mut self, c: (i32, i32), v: i32)
        requires
            old(self).wf(),
            0 <= c.0 < CHESS_SIZE,
            0 <= c.1 < CHESS_SIZE,
        ensures
            final(self).wf(),
            final(self).at(c.0 as int, c.1 as int) == v,
            forall|x: int, y: int|
                0 <= x < CHESS_SIZE && 0 <= y < CHESS_SIZE && (x != c.0 || y != c.1)
                    ==> #[trigger] final(self).at(x, y) == old(self).at(x, y),
    {
        self.cells.set((c.0 as usize) * CHESS_SIZE + (c.1 as usize), v);
    }
}

/// Whether a square lies on the board; unlike the maze's eligibility
/// predicate, row zero and column zero are in play here.
pub fn in_bounds(field: (i32, i32)) -> (r: bool)
    ensures
        r == (0 <= field.0 < CHESS_SIZE && 0 <= field.1 < CHESS_SIZE),
{
    field.0 >= 0 && field.0 < CHESS_SIZE as i32 && field.1 >= 0 && field.1 < CHESS_SIZE as i32
}

/// Squares only move from unvisited to a step number; nothing else changes.
pub open spec fn tour_extends(before: Board, after: Board) -> bool {
    forall|x: int, y: int|
        0 <= x < CHESS_SIZE && 0 <= y < CHESS_SIZE ==> (#[trigger] after.at(x, y) == before.at(x, y)
            || (before.at(x, y) == -1 && 1 <= after.at(x, y) <= 35))
}

/// Try one knight move: enter `target` with the next step number, search on
/// from there, and undo the move if the search fails, leaving the board
/// exactly as it was.
fn try_move(board: &mut Board, current_number: i32, target: (i32, i32)) -> (r: bool)
    requires
        old(board).wf(),
        0 <= current_number < 35,
    ensures
        final(board).wf(),
        !r ==> forall|x: int, y: int|
            0 <= x < CHESS_SIZE && 0 <= y < CHESS_SIZE ==> #[trigger] final(board).at(x, y)
                == old(board).at(x, y),
        r ==> tour_extends(*old(board), *final(board)),
        r ==> exists|x: int, y: int|
            0 <= x < CHESS_SIZE && 0 <= y < CHESS_SIZE && #[trigger] final(board).at(x, y) == 35,
    decreases 35 - current_number, 1int,
{
    if in_bounds(target) && board.get(target) == -1 {
        board.set(target, current_number + 1);
        let ghost entered = *board;
        if solve_problem(board, target) {
            proof {
                assert forall|x: int, y: int|
                    0 <= x < CHESS_SIZE && 0 <= y < CHESS_SIZE implies (#[trigger] board.at(x, y)
                    == old(board).at(x, y) || (old(board).at(x, y) == -1 && 1 <= board.at(x, y)
                    <= 35)) by {
                    assert(board.at(x, y) == entered.at(x, y) || (entered.at(x, y) == -1 && 1
                        <= board.at(x, y) <= 35));
                }
            }
            true
        } else {
            board.set(target, -1);
            false
        }
    } else {
        false
    }
}

/// Backtracking closed-tour search from `current_field`, whose square holds
/// the current step number. Success leaves the finished tour on the board:
/// some square holds the final step number 35 and every change filled an
/// unvisited square. Failure restores every other square and decrements the
/// current one by one.
pub fn solve_problem(board: &mut Board, current_field: (i32, i32)) -> (r: bool)
    requires
        old(board).wf(),
        0 <= current_field.0 < CHESS_SIZE,
        0 <= current_field.1 < CHESS_SIZE,
        0 <= old(board).at(current_field.0 as int, current_field.1 as int) <= 35,
    ensures
        final(board).wf(),
        !r ==> final(board).at(current_field.0 as int, current_field.1 as int) == old(board).at(
            current_field.0 as int,
            current_field.1 as int,
        ) - 1,
        !r ==> forall|x: int, y: int|
            0 <= x < CHESS_SIZE && 0 <= y < CHESS_SIZE && (x != current_field.0 || y
                != current_field.1) ==> #[trigger] final(board).at(x, y) == old(board).at(x, y),
        r ==> tour_extends(*old(board), *final(board)),
        r ==> exists|x: int, y: int|
            0 <= x < CHESS_SIZE && 0 <= y < CHESS_SIZE && #[trigger] final(board).at(x, y) == 35,
        old(board).at(current_field.0 as int, current_field.1 as int) == 35 ==> r,
    decreases 36 - old(board).at(current_field.0 as int, current_field.1 as int), 0int,
{
    let current_number = board.get(current_field);
    if current_number == 35 {
        proof {
            assert(board.at(current_field.0 as int, current_field.1 as int) == 35);
        }
        return true;
    }
    if try_move(board, current_number, (current_field.0 - 2, current_field.1 - 1)) {
        return true;
    }
    if try_move(board, current_number, (current_field.0 - 2, current_field.1 + 1)) {
        return true;
    }
    if try_move(board, current_number, (current_field.0 - 1, current_field.1 + 2)) {
        return true;
    }
    if try_move(board, current_number, (current_field.0 + 1, current_field.1 + 2)) {
        return true;
    }
    if try_move(board, current_number, (current_field.0 + 2, current_field.1 + 1)) {
        return true;
    }
    if try_move(board, current_number, (current_field.0 + 2, current_field.1 - 1)) {
        return true;
    }
    if try_move(board, current_number, (current_field.0 + 1, current_field.1 - 2)) {
        return true;
    }
    if try_move(board, current_number, (current_field.0 - 1, current_field.1 - 2)) {
        return true;
    }
    let n = board.get(current_field);
    board.set(current_field, n - 1);
    false
}

} // verus!
