use vstd::prelude::*;

use crate::direction::{add_coords, bound_check, in_interior, Direction};
use crate::frame::{carved_from, lemma_carved_from_trans, lemma_count_free_le_len, Cell, Frame};
use crate::grid::{lemma_grid_index, MAX_DIM};
use crate::rng::random_below;

verus! {

/// Probabilities are given in millionths: `PROB_DENOM` stands for one.
pub const PROB_DENOM: u32 = 1_000_000;

/// A generation parameter was rejected before carving started.
#[derive(Clone, Copy, Debug, PartialEq, Eq, Structural)]
pub enum MazeError {
    ProbabilityOutOfRange,
}

/// The stochastic stopping rule: with `free` of `total` cells carved, a
/// uniform sample of [0, 1) in millionths stops the run when it falls below
/// the square of the fill percentage, so the chance of stopping grows
/// quadratically as the grid fills.
pub open spec fn stops(sample: u32, free: nat, total: nat) -> bool {
    (sample as int) * (total as int) * (total as int) < (free as int) * (free as int) * (
    PROB_DENOM as int)
}

fn stop_now(sample: u32, free: usize, total: usize) -> (r: bool)
    requires
        sample < PROB_DENOM,
        free <= total,
        total <= MAX_DIM * MAX_DIM,
    ensures
        r == stops(sample, free as nat, total as nat),
{
    let s = sample as u128;
    let t = total as u128;
    let f = free as u128;
    proof {
        assert(t * t <= 0xFFFF_FFFFu128 * 0xFFFF_FFFFu128) by (nonlinear_arith)
            requires
                t <= 0xFFFF_FFFFu128,
        ;
        assert(s * (t * t) <= 0xF_4240u128 * (0xFFFF_FFFFu128 * 0xFFFF_FFFFu128))
            by (nonlinear_arith)
            requires
                s <= 0xF_4240u128,
                t * t <= 0xFFFF_FFFFu128 * 0xFFFF_FFFFu128,
        ;
        assert(f * f <= 0xFFFF_FFFFu128 * 0xFFFF_FFFFu128) by (nonlinear_arith)
            requires
                f <= 0xFFFF_FFFFu128,
        ;
        assert((f * f) * 0xF_4240u128 <= (0xFFFF_FFFFu128 * 0xFFFF_FFFFu128) * 0xF_4240u128)
            by (nonlinear_arith)
            requires
                f * f <= 0xFFFF_FFFFu128 * 0xFFFF_FFFFu128,
        ;
        assert(s * (t * t) == (s as int) * (t as int) * (t as int)) by (nonlinear_arith);
        assert((f * f) * (PROB_DENOM as u128) == (f as int) * (f as int) * (PROB_DENOM as int))
            by (nonlinear_arith);
    }
    s * (t * t) < (f * f) * (PROB_DENOM as u128)
}

/// How many of the four neighbors of `field` are eligible and already
/// `Free`.
fn count_free_neighbours(m: &Frame, field: (i32, i32)) -> (n: u8)
    requires
        m.wf(),
        in_interior(field, m.width as int, m.height as int),
    ensures
        n <= 4,
{
    let mut n: u8 = 0;
    let t = add_coords(field, Direction::Top.to_rel_coord());
    if bound_check(t, m.width, m.height) && m.get(t.0 as usize, t.1 as usize) == Cell::Free {
        n += 1;
    }
    let l = add_coords(field, Direction::Left.to_rel_coord());
    if bound_check(l, m.width, m.height) && m.get(l.0 as usize, l.1 as usize) == Cell::Free {
        n += 1;
    }
    let b = add_coords(field, Direction::Bottom.to_rel_coord());
    if bound_check(b, m.width, m.height) && m.get(b.0 as usize, b.1 as usize) == Cell::Free {
        n += 1;
    }
    let r = add_coords(field, Direction::Right.to_rel_coord());
    if bound_check(r, m.width, m.height) && m.get(r.0 as usize, r.1 as usize) == Cell::Free {
        n += 1;
    }
    n
}

/// One randomized carving call: mark the field `Free`, perhaps fork a
/// branch rotated a quarter turn to either side (only when this call is not
/// itself a fork and the parent saw fewer than two free neighbors), then
/// extend straight ahead unless the stopping rule fires. Every candidate
/// coordinate passes the eligibility check before it is carved, so an
/// out-of-range coordinate is a skip, never a fault. The fuel caps the
/// recursion depth; Verus checks termination against it. Whatever the
/// random samples were, the call only carves: no cell ever leaves the
/// `Free` state, so the fill percentage is non-decreasing over a run.
pub fn generate(
    m: &mut Frame,
    d: Direction,
    field: (i32, i32),
    rng: &mut rand::rngs::StdRng,
    p_fork: (u32, u32),
    is_fork: bool,
    prev_neighbours: u8,
    fuel: usize,
)
    requires
        old(m).wf(),
    ensures
        final(m).wf(),
        carved_from(*old(m), *final(m)),
        in_interior(field, old(m).width as int, old(m).height as int) ==> final(m).cell(
            field.0 as int,
            field.1 as int,
        ) == Cell::Free,
    decreases fuel,
{
    if !bound_check(field, m.width, m.height) {
        return;
    }
    let ghost w = m.width as int;
    let ghost h = m.height as int;
    let ghost fx = field.0 as int;
    let ghost fy = field.1 as int;
    proof {
        lemma_grid_index(fx, fy, w, h);
    }
    m.set(field.0 as usize, field.1 as usize, Cell::Free);
    if fuel == 0 {
        return;
    }
    let neighbour_count = count_free_neighbours(m, field);
    if !is_fork && prev_neighbours < 2 {
        let s1 = random_below(rng, PROB_DENOM);
        if s1 < p_fork.0 {
            let nd = Direction::from_number((d.to_number() + 1) % 4);
            let next = add_coords(field, nd.to_rel_coord());
            if bound_check(next, m.width, m.height) {
                let ghost before = *m;
                generate(m, nd, next, rng, p_fork, true, neighbour_count, fuel - 1);
                proof {
                    lemma_carved_from_trans(*old(m), before, *m);
                    assert(m.cells@[fx * h + fy] == before.cells@[fx * h + fy] || m.cells@[fx * h
                        + fy] == Cell::Free);
                }
            }
        }
        let s2 = random_below(rng, PROB_DENOM);
        if s2 < p_fork.1 {
            let nd = Direction::from_number((d.to_number() + 3) % 4);
            let next = add_coords(field, nd.to_rel_coord());
            if bound_check(next, m.width, m.height) {
                let ghost before = *m;
                generate(m, nd, next, rng, p_fork, true, neighbour_count, fuel - 1);
                proof {
                    lemma_carved_from_trans(*old(m), before, *m);
                    assert(m.cells@[fx * h + fy] == before.cells@[fx * h + fy] || m.cells@[fx * h
                        + fy] == Cell::Free);
                }
            }
        }
    }
    let free = m.count_free_cells();
    proof {
        lemma_count_free_le_len(m.cells@);
        lemma_grid_index(w - 1, h - 1, w, h);
    }
    let total = m.width * m.height;
    let s3 = random_below(rng, PROB_DENOM);
    if !stop_now(s3, free, total) {
        let next = add_coords(field, d.to_rel_coord());
        if bound_check(next, m.width, m.height) {
            let ghost before = *m;
            generate(m, d, next, rng, p_fork, false, neighbour_count, fuel - 1);
            proof {
                lemma_carved_from_trans(*old(m), before, *m);
                assert(m.cells@[fx * h + fy] == before.cells@[fx * h + fy] || m.cells@[fx * h + fy]
                    == Cell::Free);
            }
        }
    }
}

/// Carve a maze onto a fresh all-`Blocked` frame: four passes from the same
/// seed coordinate, one per initial direction, each seeing the cells the
/// earlier passes carved. Fork probabilities are validated up front: a
/// value above `PROB_DENOM` (that is, above one) is a configuration error
/// and nothing is carved. Every cell of the result is `Blocked` or `Free`,
/// and an eligible seed is `Free`. The random handle is threaded by
/// reference through every call, so a fixed seed reproduces its maze.
pub fn generate_maze(
    width: usize,
    height: usize,
    seed: (i32, i32),
    p_fork: (u32, u32),
    rng: &mut rand::rngs::StdRng,
) -> (r: Result<Frame, MazeError>)
    requires
        1 <= width <= MAX_DIM,
        1 <= height <= MAX_DIM,
    ensures
        r is Ok <==> (p_fork.0 <= PROB_DENOM && p_fork.1 <= PROB_DENOM),
        r matches Err(e) ==> e == MazeError::ProbabilityOutOfRange,
        r matches Ok(f) ==> {
            &&& f.wf()
            &&& f.width == width
            &&& f.height == height
            &&& forall|x: int, y: int|
                f.in_grid(x, y) ==> (#[trigger] f.cell(x, y) == Cell::Blocked || f.cell(x, y)
                    == Cell::Free)
            &&& in_interior(seed, width as int, height as int) ==> f.cell(
                seed.0 as int,
                seed.1 as int,
            ) == Cell::Free
        },
{
    if p_fork.0 > PROB_DENOM || p_fork.1 > PROB_DENOM {
        return Err(MazeError::ProbabilityOutOfRange);
    }
    let mut frame = Frame::new(width, height);
    proof {
        lemma_grid_index(width - 1, height - 1, width as int, height as int);
    }
    let ghost f0 = frame;
    let ghost w = width as int;
    let ghost h = height as int;
    let ghost sx = seed.0 as int;
    let ghost sy = seed.1 as int;
    let fuel: usize = width * height;
    generate(&mut frame, Direction::Top, seed, rng, p_fork, true, 4, fuel);
    let ghost f1 = frame;
    generate(&mut frame, Direction::Left, seed, rng, p_fork, true, 4, fuel);
    proof {
        lemma_carved_from_trans(f0, f1, frame);
    }
    let ghost f2 = frame;
    generate(&mut frame, Direction::Bottom, seed, rng, p_fork, true, 4, fuel);
    proof {
        lemma_carved_from_trans(f0, f2, frame);
    }
    let ghost f3 = frame;
    generate(&mut frame, Direction::Right, seed, rng, p_fork, true, 4, fuel);
    proof {
        lemma_carved_from_trans(f0, f3, frame);
        assert forall|x: int, y: int| frame.in_grid(x, y) implies (#[trigger] frame.cell(x, y)
            == Cell::Blocked || frame.cell(x, y) == Cell::Free) by {
            lemma_grid_index(x, y, w, h);
            assert(f0.cell(x, y) == Cell::Blocked);
            assert(frame.cells@[x * h + y] == f0.cells@[x * h + y] || frame.cells@[x * h + y]
                == Cell::Free);
        }
        if in_interior(seed, w, h) {
            lemma_grid_index(sx, sy, w, h);
            assert(frame.cells@[sx * h + sy] == f3.cells@[sx * h + sy] || frame.cells@[sx * h + sy]
                == Cell::Free);
        }
    }
    Ok(frame)
}

} // verus!
