use vstd::prelude::*;

use crate::grid::{lemma_grid_index, lemma_grid_index_injective, MAX_DIM};

verus! {

/// Pre-encoding state of one grid cell.
#[derive(Clone, Copy, Debug, PartialEq, Eq, Structural)]
pub enum Cell {
    Blocked,
    Free,
    Exit,
    Start,
}

/// How many cells of `s` are `Free`.
pub open spec fn count_free(s: Seq<Cell>) -> nat
    decreases s.len(),
{
    if s.len() == 0 {
        0
    } else {
        count_free(s.drop_last()) + if s.last() == Cell::Free {
            1nat
        } else {
            0nat
        }
    }
}

pub proof fn lemma_count_free_le_len(s: Seq<Cell>)
    ensures
        count_free(s) <= s.len(),
    decreases s.len(),
{
    if s.len() > 0 {
        lemma_count_free_le_len(s.drop_last());
    }
}

/// `after` keeps every cell of `before` or turns it `Free`.
pub open spec fn only_carves(before: Seq<Cell>, after: Seq<Cell>) -> bool {
    &&& after.len() == before.len()
    &&& forall|i: int|
        0 <= i < before.len() ==> (#[trigger] after[i] == before[i] || after[i] == Cell::Free)
}

/// Carving never lowers the number of `Free` cells: the fill level of a
/// frame is non-decreasing over a run of the generator.
pub proof fn lemma_only_carves_count(before: Seq<Cell>, after: Seq<Cell>)
    requires
        only_carves(before, after),
    ensures
        count_free(before) <= count_free(after),
    decreases before.len(),
{
    if before.len() > 0 {
        assert(only_carves(before.drop_last(), after.drop_last()));
        lemma_only_carves_count(before.drop_last(), after.drop_last());
        assert(after.last() == before.last() || after.last() == Cell::Free);
    }
}

/// The carved grid: a width-by-height grid of `Cell`, stored in column-major
/// order, so that cell (x, y) sits at flat index x * height + y.
pub struct Frame {
    pub width: usize,
    pub height: usize,
    pub cells: Vec<Cell>,
}

/// `after` arose from `before` by carving alone: same shape, and no cell
/// left the `Free` state.
pub open spec fn carved_from(before: Frame, after: Frame) -> bool {
    &&& after.width == before.width
    &&& after.height == before.height
    &&& only_carves(before.cells@, after.cells@)
}

/// Fill monotonicity: a run of the generator, which only carves, never
/// lowers the frame's count of `Free` cells.
pub proof fn lemma_carved_from_fill(a: Frame, b: Frame)
    requires
        carved_from(a, b),
    ensures
        a.free_count() <= b.free_count(),
{
    lemma_only_carves_count(a.cells@, b.cells@);
}

pub proof fn lemma_carved_from_trans(a: Frame, b: Frame, c: Frame)
    requires
        carved_from(a, b),
        carved_from(b, c),
    ensures
        carved_from(a, c),
{
}

impl Frame {
    pub open spec fn wf(self) -> bool {
        &&& self.cells@.len() == self.width * self.height
        &&& 1 <= self.width <= MAX_DIM
        &&& 1 <= self.height <= MAX_DIM
    }

    pub open spec fn in_grid(self, x: int, y: int) -> bool {
        0 <= x < self.width && 0 <= y < self.height
    }

    pub open spec fn cell(self, x: int, y: int) -> Cell {
        self.cells@[x * self.height + y]
    }

    /// How many cells of the frame are `Free`.
    pub open spec fn free_count(self) -> nat {
        count_free(self.cells@)
    }

    /// A fresh frame with every cell `Blocked`.
    pub fn new(width: usize, height: usize) -> (f: Frame)
        requires
            1 <= width <= MAX_DIM,
            1 <= height <= MAX_DIM,
        ensures
            f.wf(),
            f.width == width,
            f.height == height,
            forall|x: int, y: int| f.in_grid(x, y) ==> #[trigger] f.cell(x, y) == Cell::Blocked,
    {
        proof {
            lemma_grid_index(width - 1, height - 1, width as int, height as int);
        }
        let n: usize = width * height;
        let mut cells: Vec<Cell> = Vec::new();
        let mut i: usize = 0;
        while i < n
            invariant
                i <= n,
                cells@.len() == i,
                forall|k: int| 0 <= k < i ==> #[trigger] cells@[k] == Cell::Blocked,
            decreases n - i,
        {
            cells.push(Cell::Blocked);
            i += 1;
        }
        let f = Frame { width, height, cells };
        proof {
            assert forall|x: int, y: int| f.in_grid(x, y) implies #[trigger] f.cell(x, y)
                == Cell::Blocked by {
                lemma_grid_index(x, y, width as int, height as int);
            }
        }
        f
    }

    fn idx(&self, x: usize, y: usize) -> (i: usize)
        requires
            self.wf(),
            x < self.width,
            y < self.height,
        ensures
            i == x * self.height + y,
            i < self.cells@.len(),
    {
        proof {
            lemma_grid_index(x as int, y as int, self.width as int, self.height as int);
        }
        x * self.height + y
    }

    pub fn get(&self, x: usize, y: usize) -> (c: Cell)
        requires
            self.wf(),
            x < self.width,
            y < self.height,
        ensures
            c == self.cell(x as int, y as int),
    {
        let i = self.idx(x, y);
        self.cells[i]
    }

    pub fn set(&mut self, x: usize, y: usize, c: Cell)
        requires
            old(self).wf(),
            x < old(self).width,
            y < old(self).height,
        ensures
            final(self).wf(),
            final(self).width == old(self).width,
            final(self).height == old(self).height,
            final(self).cell(x as int, y as int) == c,
            final(self).cells@ == old(self).cells@.update(x * old(self).height + y, c),
            forall|a: int, b: int|
                old(self).in_grid(a, b) && (a != x || b != y) ==> #[trigger] final(self).cell(a, b)
                    == old(self).cell(a, b),
    {
        let i = self.idx(x, y);
        self.cells.set(i, c);
        proof {
            let w = self.width as int;
            let h = self.height as int;
            assert forall|a: int, b: int|
                old(self).in_grid(a, b) && (a != x || b != y) implies #[trigger] self.cell(a, b)
                == old(self).cell(a, b) by {
                lemma_grid_index(a, b, w, h);
                if a * h + b == x * h + y {
                    lemma_grid_index_injective(a, b, x as int, y as int, h);
                }
            }
        }
    }

    /// How many cells of the frame are `Free`; the numerator of the fill
    /// percentage that drives the generator's stopping rule.
    pub fn count_free_cells(&self) -> (n: usize)
        requires
            self.wf(),
        ensures
            n == self.free_count(),
    {
        let len = self.cells.len();
        let mut n: usize = 0;
        let mut i: usize = 0;
        while i < len
            invariant
                i <= len,
                len == self.cells@.len(),
                n <= i,
                n == count_free(self.cells@.take(i as int)),
            decreases len - i,
        {
            let ghost pre = self.cells@.take(i as int);
            if self.cells[i] == Cell::Free {
                n += 1;
            }
            i += 1;
            proof {
                assert(self.cells@.take(i as int).drop_last() =~= pre);
            }
        }
        proof {
            assert(self.cells@.take(len as int) =~= self.cells@);
        }
        n
    }
}

} // verus!
