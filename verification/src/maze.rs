use vstd::prelude::*;

use crate::direction::Direction;
use crate::frame::{Cell, Frame};
use crate::grid::{lemma_grid_index, MAX_DIM};

verus! {

/// Post-encoding state of one grid cell: four independent wall flags plus
/// the blocked, start and exit markers.
#[derive(Clone, Copy, Debug, PartialEq, Eq, Structural)]
pub struct MazeCell {
    pub wall_top: bool,
    pub wall_left: bool,
    pub wall_bottom: bool,
    pub wall_right: bool,
    pub blocked: bool,
    pub start: bool,
    pub exit: bool,
}

impl MazeCell {
    /// The wall flag on the side facing `d`.
    pub open spec fn wall_spec(self, d: Direction) -> bool {
        match d {
            Direction::Top => self.wall_top,
            Direction::Left => self.wall_left,
            Direction::Bottom => self.wall_bottom,
            Direction::Right => self.wall_right,
        }
    }

    pub fn wall(&self, d: Direction) -> (r: bool)
        ensures
            r == self.wall_spec(d),
    {
        match d {
            Direction::Top => self.wall_top,
            Direction::Left => self.wall_left,
            Direction::Bottom => self.wall_bottom,
            Direction::Right => self.wall_right,
        }
    }
}

/// The encoded maze: a width-by-height grid of `MazeCell`, stored in
/// column-major order like `Frame`, and immutable once produced.
pub struct Maze {
    pub width: usize,
    pub height: usize,
    pub cells: Vec<MazeCell>,
}

impl Maze {
    pub open spec fn wf(self) -> bool {
        &&& self.cells@.len() == self.width * self.height
        &&& 1 <= self.width <= MAX_DIM
        &&& 1 <= self.height <= MAX_DIM
    }

    pub open spec fn in_grid(self, x: int, y: int) -> bool {
        0 <= x < self.width && 0 <= y < self.height
    }

    pub open spec fn cell(self, x: int, y: int) -> MazeCell {
        self.cells@[x * self.height + y]
    }

    pub fn get(&self, x: usize, y: usize) -> (c: MazeCell)
        requires
            self.wf(),
            x < self.width,
            y < self.height,
        ensures
            c == self.cell(x as int, y as int),
    {
        proof {
            lemma_grid_index(x as int, y as int, self.width as int, self.height as int);
        }
        self.cells[x * self.height + y]
    }
}

/// What the encoder owes cell (x, y): a wall on each side whose in-grid
/// neighbor is `Blocked` in the frame (walls are projected from blocked
/// cells onto their neighbors, never onto the blocked cell's own sides),
/// the blocked marker for the cell's own state, and the start and exit
/// markers exactly on the chosen coordinates.
pub open spec fn encoded_cell(f: Frame, x: int, y: int, start: (i32, i32), exit_c: (i32, i32)) -> MazeCell {
    MazeCell {
        wall_top: y > 0 && f.cell(x, y - 1) == Cell::Blocked,
        wall_left: x > 0 && f.cell(x - 1, y) == Cell::Blocked,
        wall_bottom: y + 1 < f.height && f.cell(x, y + 1) == Cell::Blocked,
        wall_right: x + 1 < f.width && f.cell(x + 1, y) == Cell::Blocked,
        blocked: f.cell(x, y) == Cell::Blocked,
        start: x == start.0 && y == start.1,
        exit: x == exit_c.0 && y == exit_c.1,
    }
}

/// `m` is the encoding of `f` with the given start and exit coordinates.
pub open spec fn encodes(m: Maze, f: Frame, start: (i32, i32), exit_c: (i32, i32)) -> bool {
    &&& m.wf()
    &&& m.width == f.width
    &&& m.height == f.height
    &&& forall|x: int, y: int|
        f.in_grid(x, y) ==> #[trigger] m.cell(x, y) == encoded_cell(f, x, y, start, exit_c)
}

fn make_cell(frame: &Frame, x: usize, y: usize, start: (i32, i32), exit_c: (i32, i32)) -> (c: MazeCell)
    requires
        frame.wf(),
        x < frame.width,
        y < frame.height,
    ensures
        c == encoded_cell(*frame, x as int, y as int, start, exit_c),
{
    MazeCell {
        wall_top: y > 0 && frame.get(x, y - 1) == Cell::Blocked,
        wall_left: x > 0 && frame.get(x - 1, y) == Cell::Blocked,
        wall_bottom: y + 1 < frame.height && frame.get(x, y + 1) == Cell::Blocked,
        wall_right: x + 1 < frame.width && frame.get(x + 1, y) == Cell::Blocked,
        blocked: frame.get(x, y) == Cell::Blocked,
        start: start.0 == x as i32 && start.1 == y as i32,
        exit: exit_c.0 == x as i32 && exit_c.1 == y as i32,
    }
}

/// Pure transform of the carved frame into the wall-flag grid. Every side
/// facing an in-grid `Blocked` neighbor gets a wall; the cell's own blocked
/// state becomes its marker; the start and exit markers go to the two given
/// coordinates, independent of the frame's cell states.
pub fn frame_to_maze(frame: &Frame, start: (i32, i32), exit_c: (i32, i32)) -> (m: Maze)
    requires
        frame.wf(),
    ensures
        encodes(m, *frame, start, exit_c),
{
    let w = frame.width;
    let h = frame.height;
    let mut cells: Vec<MazeCell> = Vec::new();
    let mut x: usize = 0;
    while x < w
        invariant
            x <= w,
            frame.wf(),
            w == frame.width,
            h == frame.height,
            cells@.len() == x * h,
            forall|a: int, b: int|
                0 <= a < x && 0 <= b < h ==> #[trigger] cells@[a * h + b] == encoded_cell(
                    *frame,
                    a,
                    b,
                    start,
                    exit_c,
                ),
        decreases w - x,
    {
        let mut y: usize = 0;
        while y < h
            invariant
                x < w,
                y <= h,
                frame.wf(),
                w == frame.width,
                h == frame.height,
                cells@.len() == x * h + y,
                forall|a: int, b: int|
                    0 <= a < x && 0 <= b < h ==> #[trigger] cells@[a * h + b] == encoded_cell(
                        *frame,
                        a,
                        b,
                        start,
                        exit_c,
                    ),
                forall|b: int|
                    0 <= b < y ==> #[trigger] cells@[x * h + b] == encoded_cell(
                        *frame,
                        x as int,
                        b,
                        start,
                        exit_c,
                    ),
            decreases h - y,
        {
            let c = make_cell(frame, x, y, start, exit_c);
            cells.push(c);
            y += 1;
            proof {
                assert forall|a: int, b: int| 0 <= a < x && 0 <= b < h implies #[trigger] cells@[a
                    * h + b] == encoded_cell(*frame, a, b, start, exit_c) by {
                    lemma_grid_index(a, b, x as int, h as int);
                }
            }
        }
        x += 1;
        proof {
            assert(x as int * h == (x - 1) * h + h) by (nonlinear_arith);
            assert forall|a: int, b: int| 0 <= a < x && 0 <= b < h implies #[trigger] cells@[a * h
                + b] == encoded_cell(*frame, a, b, start, exit_c) by {
                lemma_grid_index(a, b, x as int, h as int);
            }
        }
    }
    let m = Maze { width: w, height: h, cells };
    proof {
        assert forall|a: int, b: int| frame.in_grid(a, b) implies #[trigger] m.cell(a, b)
            == encoded_cell(*frame, a, b, start, exit_c) by {
            lemma_grid_index(a, b, w as int, h as int);
        }
    }
    m
}

/// Wall symmetry: for adjacent in-grid cells A and B that agree on whether
/// they are `Blocked`, A's wall toward B is set exactly when B's wall toward
/// A is set. (A free cell beside a blocked one sees a wall the blocked cell
/// does not mirror: the blocked cell's own sides stay clear by construction,
/// so agreement on blockedness is the exact domain of the symmetry.)
pub proof fn lemma_wall_symmetry(
    m: Maze,
    f: Frame,
    start: (i32, i32),
    exit_c: (i32, i32),
    x: int,
    y: int,
    d: Direction,
)
    requires
        encodes(m, f, start, exit_c),
        f.in_grid(x, y),
        f.in_grid(x + d.delta_spec().0, y + d.delta_spec().1),
        (f.cell(x, y) == Cell::Blocked) <==> (f.cell(x + d.delta_spec().0, y + d.delta_spec().1)
            == Cell::Blocked),
    ensures
        m.cell(x, y).wall_spec(d) == m.cell(
            x + d.delta_spec().0,
            y + d.delta_spec().1,
        ).wall_spec(d.opposite_spec()),
{
    let nx = x + d.delta_spec().0;
    let ny = y + d.delta_spec().1;
    assert(m.cell(x, y) == encoded_cell(f, x, y, start, exit_c));
    assert(m.cell(nx, ny) == encoded_cell(f, nx, ny, start, exit_c));
}

/// Single markers: exactly one cell of the encoded maze carries the start
/// flag, and exactly one carries the exit flag, namely the two chosen
/// coordinates.
pub proof fn lemma_single_markers(m: Maze, f: Frame, start: (i32, i32), exit_c: (i32, i32))
    requires
        encodes(m, f, start, exit_c),
        f.in_grid(start.0 as int, start.1 as int),
        f.in_grid(exit_c.0 as int, exit_c.1 as int),
    ensures
        m.cell(start.0 as int, start.1 as int).start,
        forall|x: int, y: int|
            m.in_grid(x, y) && (#[trigger] m.cell(x, y)).start ==> x == start.0 && y == start.1,
        m.cell(exit_c.0 as int, exit_c.1 as int).exit,
        forall|x: int, y: int|
            m.in_grid(x, y) && (#[trigger] m.cell(x, y)).exit ==> x == exit_c.0 && y == exit_c.1,
{
    assert(m.cell(start.0 as int, start.1 as int) == encoded_cell(
        f,
        start.0 as int,
        start.1 as int,
        start,
        exit_c,
    ));
    assert(m.cell(exit_c.0 as int, exit_c.1 as int) == encoded_cell(
        f,
        exit_c.0 as int,
        exit_c.1 as int,
        start,
        exit_c,
    ));
    assert forall|x: int, y: int|
        m.in_grid(x, y) && (#[trigger] m.cell(x, y)).start implies x == start.0 && y
        == start.1 by {
        assert(m.cell(x, y) == encoded_cell(f, x, y, start, exit_c));
    }
    assert forall|x: int, y: int|
        m.in_grid(x, y) && (#[trigger] m.cell(x, y)).exit implies x == exit_c.0 && y
        == exit_c.1 by {
        assert(m.cell(x, y) == encoded_cell(f, x, y, start, exit_c));
    }
}

} // verus!
