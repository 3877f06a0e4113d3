use vstd::prelude::*;

use crate::direction::{add_coords, bound_check, in_interior, Direction};
use crate::grid::{lemma_grid_index, lemma_grid_index_injective, MAX_DIM};
use crate::maze::Maze;

verus! {

/// The coordinate one move of `d` away from `c`.
pub open spec fn step(c: (i32, i32), d: Direction) -> (i32, i32) {
    (((c.0 as int) + d.delta_spec().0) as i32, ((c.1 as int) + d.delta_spec().1) as i32)
}

/// The functional model of the solver: a depth-first search over the wall
/// flags, from `field`, with the shared visited set threaded through the
/// whole search tree and an owned path per branch. The result is the
/// reachability verdict, the final visited sequence, and the path of the
/// branch that returned — so the search order (Top, Left, Bottom, Right),
/// the verdict and the discovered path are a function of the maze, the
/// start coordinate and the fuel alone.
pub open spec fn dfs(
    m: Maze,
    field: (i32, i32),
    visited: Seq<(i32, i32)>,
    path: Seq<(i32, i32)>,
    fuel: nat,
) -> (bool, Seq<(i32, i32)>, Seq<(i32, i32)>)
    decreases fuel,
{
    if fuel == 0 {
        (false, visited, path)
    } else if visited.contains(field) || !in_interior(field, m.width as int, m.height as int) {
        (false, visited, path)
    } else {
        let v1 = visited.push(field);
        let p1 = path.push(field);
        let c = m.cell(field.0 as int, field.1 as int);
        if c.exit {
            (true, v1, p1)
        } else {
            let r1 = if !c.wall_top {
                dfs(m, step(field, Direction::Top), v1, p1, (fuel - 1) as nat)
            } else {
                (false, v1, p1)
            };
            if r1.0 {
                r1
            } else {
                let r2 = if !c.wall_left {
                    dfs(m, step(field, Direction::Left), r1.1, p1, (fuel - 1) as nat)
                } else {
                    r1
                };
                if r2.0 {
                    r2
                } else {
                    let r3 = if !c.wall_bottom {
                        dfs(m, step(field, Direction::Bottom), r2.1, p1, (fuel - 1) as nat)
                    } else {
                        r2
                    };
                    if r3.0 {
                        r3
                    } else {
                        let r4 = if !c.wall_right {
                            dfs(m, step(field, Direction::Right), r3.1, p1, (fuel - 1) as nat)
                        } else {
                            r3
                        };
                        if r4.0 {
                            r4
                        } else {
                            (false, r4.1, p1)
                        }
                    }
                }
            }
        }
    }
}

/// Structural facts about the search, proved by induction over the fuel:
/// the visited sequence only grows, a duplicate-free visited sequence stays
/// duplicate-free (no coordinate is ever entered twice), and a positive
/// verdict ends its path on a cell whose exit flag is set.
pub proof fn lemma_dfs_props(
    m: Maze,
    field: (i32, i32),
    visited: Seq<(i32, i32)>,
    path: Seq<(i32, i32)>,
    fuel: nat,
)
    ensures
        ({
            let r = dfs(m, field, visited, path, fuel);
            &&& visited.is_prefix_of(r.1)
            &&& visited.no_duplicates() ==> r.1.no_duplicates()
            &&& r.0 ==> r.2.len() > 0 && m.cell(r.2.last().0 as int, r.2.last().1 as int).exit
            &&& r.0 ==> r.1.contains(r.2.last()) && in_interior(
                r.2.last(),
                m.width as int,
                m.height as int,
            )
        }),
    decreases fuel,
{
    let r = dfs(m, field, visited, path, fuel);
    assert(visited.is_prefix_of(visited));
    if fuel > 0 && !visited.contains(field) && in_interior(
        field,
        m.width as int,
        m.height as int,
    ) {
        let v1 = visited.push(field);
        let p1 = path.push(field);
        let c = m.cell(field.0 as int, field.1 as int);
        assert(visited.is_prefix_of(v1));
        assert(visited.no_duplicates() ==> v1.no_duplicates()) by {
            if visited.no_duplicates() {
                assert forall|i: int, j: int|
                    0 <= i < v1.len() && 0 <= j < v1.len() && i != j implies v1[i] != v1[j] by {
                    if i == v1.len() - 1 {
                        assert(visited.contains(visited[j]));
                    } else if j == v1.len() - 1 {
                        assert(visited.contains(visited[i]));
                    }
                }
            }
        }
        if c.exit {
            assert(r.2.last() == field);
            assert(v1[v1.len() - 1] == field);
            assert(v1.contains(field));
        } else {
            let f1 = (fuel - 1) as nat;
            lemma_dfs_props(m, step(field, Direction::Top), v1, p1, f1);
            let r1 = if !c.wall_top {
                dfs(m, step(field, Direction::Top), v1, p1, f1)
            } else {
                (false, v1, p1)
            };
            lemma_dfs_props(m, step(field, Direction::Left), r1.1, p1, f1);
            let r2 = if !c.wall_left {
                dfs(m, step(field, Direction::Left), r1.1, p1, f1)
            } else {
                r1
            };
            lemma_dfs_props(m, step(field, Direction::Bottom), r2.1, p1, f1);
            let r3 = if !c.wall_bottom {
                dfs(m, step(field, Direction::Bottom), r2.1, p1, f1)
            } else {
                r2
            };
            lemma_dfs_props(m, step(field, Direction::Right), r3.1, p1, f1);
            let r4 = if !c.wall_right {
                dfs(m, step(field, Direction::Right), r3.1, p1, f1)
            } else {
                r3
            };
            lemma_prefix_trans(visited, v1, r1.1);
            lemma_prefix_trans(visited, r1.1, r2.1);
            lemma_prefix_trans(visited, r2.1, r3.1);
            lemma_prefix_trans(visited, r3.1, r4.1);
        }
    }
}

pub proof fn lemma_prefix_trans(a: Seq<(i32, i32)>, b: Seq<(i32, i32)>, c: Seq<(i32, i32)>)
    requires
        a.is_prefix_of(b),
        b.is_prefix_of(c),
    ensures
        a.is_prefix_of(c),
{
    assert(c.subrange(0, a.len() as int) =~= c.subrange(0, b.len() as int).subrange(
        0,
        a.len() as int,
    ));
}

pub proof fn lemma_prefix_contains(a: Seq<(i32, i32)>, b: Seq<(i32, i32)>, x: (i32, i32))
    requires
        a.is_prefix_of(b),
        a.contains(x),
    ensures
        b.contains(x),
{
    let i = choose|i: int| 0 <= i < a.len() && a[i] == x;
    assert(b[i] == x);
}

/// A duplicate-free sequence of eligible coordinates cannot outnumber the
/// grid's cells: each packs injectively into a distinct flat index.
pub proof fn lemma_interior_seq_len(w: int, h: int, v: Seq<(i32, i32)>)
    requires
        v.no_duplicates(),
        forall|i: int| 0 <= i < v.len() ==> in_interior(#[trigger] v[i], w, h),
        0 <= w <= MAX_DIM,
        0 <= h <= MAX_DIM,
    ensures
        v.len() <= w * h,
{
    let f = |c: (i32, i32)| (c.0 as int) * h + (c.1 as int);
    let mv = v.map_values(f);
    assert(mv.no_duplicates()) by {
        assert forall|i: int, j: int|
            0 <= i < mv.len() && 0 <= j < mv.len() && i != j implies mv[i] != mv[j] by {
            if f(v[i]) == f(v[j]) {
                lemma_grid_index_injective(
                    v[i].0 as int,
                    v[i].1 as int,
                    v[j].0 as int,
                    v[j].1 as int,
                    h,
                );
            }
        }
    }
    mv.unique_seq_to_set();
    assert(w * h >= 0) by (nonlinear_arith)
        requires
            w >= 0,
            h >= 0,
    ;
    assert(mv.to_set().subset_of(vstd::set_lib::set_int_range(0, w * h))) by {
        assert forall|e: int| mv.to_set().contains(e) implies vstd::set_lib::set_int_range(
            0,
            w * h,
        ).contains(e) by {
            let k = choose|k: int| 0 <= k < mv.len() && mv[k] == e;
            lemma_grid_index(v[k].0 as int, v[k].1 as int, w, h);
        }
    }
    vstd::set_lib::lemma_int_range(0, w * h);
    vstd::set_lib::lemma_len_subset(mv.to_set(), vstd::set_lib::set_int_range(0, w * h));
}

/// A fresh copy of a path, so each branch owns its own.
fn copy_path(v: &Vec<(i32, i32)>) -> (r: Vec<(i32, i32)>)
    ensures
        r@ == v@,
{
    let mut r: Vec<(i32, i32)> = Vec::new();
    let mut i: usize = 0;
    while i < v.len()
        invariant
            i <= v@.len(),
            r@ == v@.take(i as int),
        decreases v@.len() - i,
    {
        r.push(v[i]);
        i += 1;
        proof {
            assert(r@ =~= v@.take(i as int));
        }
    }
    proof {
        assert(v@.take(v@.len() as int) =~= v@);
    }
    r
}

/// Whether `v` holds the coordinate `c`.
fn contains_coord(v: &Vec<(i32, i32)>, c: (i32, i32)) -> (r: bool)
    ensures
        r == v@.contains(c),
{
    let mut i: usize = 0;
    while i < v.len()
        invariant
            i <= v@.len(),
            forall|k: int| 0 <= k < i ==> v@[k] != c,
        decreases v@.len() - i,
    {
        if v[i].0 == c.0 && v[i].1 == c.1 {
            assert(v@[i as int] == c);
            return true;
        }
        i += 1;
    }
    false
}

/// One solver call frame: the current coordinate, the shared visited
/// sequence (mutated in place), and an owned copy of the branch's path.
/// Out-of-bounds coordinates and already-visited coordinates fail without
/// touching shared state; an exit cell succeeds after recording itself; any
/// other cell records itself, then recurses in the fixed order Top, Left,
/// Bottom, Right through each unwalled side, and the first success
/// short-circuits the rest. The fuel caps the recursion depth; `solve`
/// hands it one more than the cell count, which the visited guard never
/// lets the search exhaust meaningfully.
pub fn solve_maze(
    m: &Maze,
    field: (i32, i32),
    visited: &mut Vec<(i32, i32)>,
    cur_path: Vec<(i32, i32)>,
    fuel: usize,
) -> (r: (bool, Vec<(i32, i32)>))
    requires
        m.wf(),
    ensures
        ({
            let d = dfs(*m, field, old(visited)@, cur_path@, fuel as nat);
            r.0 == d.0 && final(visited)@ == d.1 && r.1@ == d.2
        }),
    decreases fuel,
{
    if fuel == 0 {
        return (false, cur_path);
    }
    if contains_coord(visited, field) || !bound_check(field, m.width, m.height) {
        return (false, cur_path);
    }
    visited.push(field);
    let mut path = cur_path;
    path.push(field);
    let c = m.get(field.0 as usize, field.1 as usize);
    if c.exit {
        return (true, path);
    }
    if !c.wall_top {
        let next = add_coords(field, Direction::Top.to_rel_coord());
        assert(next == step(field, Direction::Top));
        let r = solve_maze(m, next, visited, copy_path(&path), fuel - 1);
        if r.0 {
            return (true, r.1);
        }
    }
    if !c.wall_left {
        let next = add_coords(field, Direction::Left.to_rel_coord());
        assert(next == step(field, Direction::Left));
        let r = solve_maze(m, next, visited, copy_path(&path), fuel - 1);
        if r.0 {
            return (true, r.1);
        }
    }
    if !c.wall_bottom {
        let next = add_coords(field, Direction::Bottom.to_rel_coord());
        assert(next == step(field, Direction::Bottom));
        let r = solve_maze(m, next, visited, copy_path(&path), fuel - 1);
        if r.0 {
            return (true, r.1);
        }
    }
    if !c.wall_right {
        let next = add_coords(field, Direction::Right.to_rel_coord());
        assert(next == step(field, Direction::Right));
        let r = solve_maze(m, next, visited, copy_path(&path), fuel - 1);
        if r.0 {
            return (true, r.1);
        }
    }
    (false, path)
}

/// One open move of the maze: both endpoints are eligible, and the source
/// cell has no wall on the side toward `d`.
pub open spec fn open_step(m: Maze, a: (i32, i32), d: Direction) -> bool {
    &&& in_interior(a, m.width as int, m.height as int)
    &&& in_interior(step(a, d), m.width as int, m.height as int)
    &&& !m.cell(a.0 as int, a.1 as int).wall_spec(d)
}

/// `b` is one open move away from `a`.
pub open spec fn chain_step(m: Maze, a: (i32, i32), b: (i32, i32)) -> bool {
    exists|d: Direction| #[trigger] open_step(m, a, d) && b == step(a, d)
}

/// Consecutive coordinates of `p` are each one open move apart.
pub open spec fn is_open_chain(m: Maze, p: Seq<(i32, i32)>) -> bool {
    forall|i: int| 0 <= i < p.len() - 1 ==> #[trigger] chain_step(m, p[i], p[i + 1])
}

/// `t` lies in the component of `s`: some open chain joins them.
pub open spec fn reachable(m: Maze, s: (i32, i32), t: (i32, i32)) -> bool {
    exists|p: Seq<(i32, i32)>|
        #[trigger] is_open_chain(m, p) && p.len() > 0 && p[0] == s && p.last() == t
}

pub proof fn lemma_reachable_refl(m: Maze, s: (i32, i32))
    ensures
        reachable(m, s, s),
{
    let p = seq![s];
    assert(is_open_chain(m, p));
    assert(p[0] == s && p.last() == s);
}

pub proof fn lemma_reachable_extend(m: Maze, s: (i32, i32), a: (i32, i32), d: Direction)
    requires
        reachable(m, s, a),
        open_step(m, a, d),
    ensures
        reachable(m, s, step(a, d)),
{
    let p = choose|p: Seq<(i32, i32)>|
        #[trigger] is_open_chain(m, p) && p.len() > 0 && p[0] == s && p.last() == a;
    let q = p.push(step(a, d));
    assert(chain_step(m, a, step(a, d))) by {
        assert(open_step(m, a, d));
    }
    assert(is_open_chain(m, q)) by {
        assert forall|i: int| 0 <= i < q.len() - 1 implies #[trigger] chain_step(
            m,
            q[i],
            q[i + 1],
        ) by {
            if i < p.len() - 1 {
                assert(chain_step(m, p[i], p[i + 1]));
            } else {
                assert(q[i] == a && q[i + 1] == step(a, d));
            }
        }
    }
    assert(q.len() > 0 && q[0] == s && q.last() == step(a, d));
}

/// Soundness of the search: every coordinate it adds to the visited
/// sequence lies in the component of `start`.
pub proof fn lemma_dfs_sound(
    m: Maze,
    field: (i32, i32),
    visited: Seq<(i32, i32)>,
    path: Seq<(i32, i32)>,
    fuel: nat,
    start: (i32, i32),
)
    requires
        in_interior(field, m.width as int, m.height as int) ==> reachable(m, start, field),
    ensures
        ({
            let r = dfs(m, field, visited, path, fuel);
            forall|c: (i32, i32)|
                #[trigger] r.1.contains(c) && !visited.contains(c) ==> reachable(m, start, c)
        }),
    decreases fuel,
{
    let r = dfs(m, field, visited, path, fuel);
    if fuel > 0 && !visited.contains(field) && in_interior(
        field,
        m.width as int,
        m.height as int,
    ) {
        let v1 = visited.push(field);
        let p1 = path.push(field);
        let c = m.cell(field.0 as int, field.1 as int);
        assert forall|t: (i32, i32)| #[trigger] v1.contains(t) && !visited.contains(t) implies t
            == field by {
            let j = choose|j: int| 0 <= j < v1.len() && v1[j] == t;
            if j < visited.len() {
                assert(visited[j] == t);
            }
        }
        if !c.exit {
            let f1 = (fuel - 1) as nat;
            let next_top = step(field, Direction::Top);
            let next_left = step(field, Direction::Left);
            let next_bottom = step(field, Direction::Bottom);
            let next_right = step(field, Direction::Right);
            assert(!c.wall_top && in_interior(next_top, m.width as int, m.height as int)
                ==> reachable(m, start, next_top)) by {
                if !c.wall_top && in_interior(next_top, m.width as int, m.height as int) {
                    assert(open_step(m, field, Direction::Top));
                    lemma_reachable_extend(m, start, field, Direction::Top);
                }
            }
            assert(!c.wall_left && in_interior(next_left, m.width as int, m.height as int)
                ==> reachable(m, start, next_left)) by {
                if !c.wall_left && in_interior(next_left, m.width as int, m.height as int) {
                    assert(open_step(m, field, Direction::Left));
                    lemma_reachable_extend(m, start, field, Direction::Left);
                }
            }
            assert(!c.wall_bottom && in_interior(next_bottom, m.width as int, m.height as int)
                ==> reachable(m, start, next_bottom)) by {
                if !c.wall_bottom && in_interior(next_bottom, m.width as int, m.height as int) {
                    assert(open_step(m, field, Direction::Bottom));
                    lemma_reachable_extend(m, start, field, Direction::Bottom);
                }
            }
            assert(!c.wall_right && in_interior(next_right, m.width as int, m.height as int)
                ==> reachable(m, start, next_right)) by {
                if !c.wall_right && in_interior(next_right, m.width as int, m.height as int) {
                    assert(open_step(m, field, Direction::Right));
                    lemma_reachable_extend(m, start, field, Direction::Right);
                }
            }
            let r1 = if !c.wall_top {
                dfs(m, next_top, v1, p1, f1)
            } else {
                (false, v1, p1)
            };
            if !c.wall_top {
                lemma_dfs_sound(m, next_top, v1, p1, f1, start);
            }
            let r2 = if !c.wall_left {
                dfs(m, next_left, r1.1, p1, f1)
            } else {
                r1
            };
            if !r1.0 && !c.wall_left {
                lemma_dfs_sound(m, next_left, r1.1, p1, f1, start);
            }
            let r3 = if !c.wall_bottom {
                dfs(m, next_bottom, r2.1, p1, f1)
            } else {
                r2
            };
            if !r1.0 && !r2.0 && !c.wall_bottom {
                lemma_dfs_sound(m, next_bottom, r2.1, p1, f1, start);
            }
            let r4 = if !c.wall_right {
                dfs(m, next_right, r3.1, p1, f1)
            } else {
                r3
            };
            if !r1.0 && !r2.0 && !r3.0 && !c.wall_right {
                lemma_dfs_sound(m, next_right, r3.1, p1, f1, start);
            }
            assert forall|t: (i32, i32)| #[trigger] r.1.contains(t) && !visited.contains(t) implies
                reachable(m, start, t) by {
                if v1.contains(t) {
                    assert(t == field);
                } else if r1.1.contains(t) {
                    assert(reachable(m, start, t));
                } else if r2.1.contains(t) {
                    assert(reachable(m, start, t));
                } else if r3.1.contains(t) {
                    assert(reachable(m, start, t));
                } else {
                    assert(r4.1.contains(t));
                    assert(reachable(m, start, t));
                }
            }
        }
    }
}

/// The unreachable case, soundness half: when no eligible exit-flagged
/// cell lies in the component of `start`, the search verdict is false, and
/// the visited sequence holds only coordinates of that component.
pub proof fn lemma_solve_unreachable(m: Maze, start: (i32, i32))
    requires
        forall|c: (i32, i32)|
            #[trigger] reachable(m, start, c) && in_interior(c, m.width as int, m.height as int)
                ==> !m.cell(c.0 as int, c.1 as int).exit,
    ensures
        ({
            let r = dfs(m, start, Seq::empty(), Seq::empty(), solve_fuel(m));
            &&& !r.0
            &&& forall|c: (i32, i32)| #[trigger] r.1.contains(c) ==> reachable(m, start, c)
        }),
{
    let r = dfs(m, start, Seq::empty(), Seq::empty(), solve_fuel(m));
    if in_interior(start, m.width as int, m.height as int) {
        lemma_reachable_refl(m, start);
    }
    lemma_dfs_sound(m, start, Seq::empty(), Seq::empty(), solve_fuel(m), start);
    lemma_dfs_props(m, start, Seq::empty(), Seq::empty(), solve_fuel(m));
    if r.0 {
        let last = r.2.last();
        assert(r.1.contains(last));
        assert(reachable(m, start, last));
    }
}

/// Completeness of a failed search, proved by induction over the fuel:
/// every visited coordinate is eligible; on a false verdict an eligible
/// field was visited, and every open move out of a newly visited
/// coordinate leads to a visited coordinate. The fuel bound says the
/// search never ran out of depth: duplicate-free eligible coordinates
/// cannot outnumber the cells, so the budget outlasts the visited set.
#[verifier::rlimit(60)]
pub proof fn lemma_dfs_closed(
    m: Maze,
    field: (i32, i32),
    visited: Seq<(i32, i32)>,
    path: Seq<(i32, i32)>,
    fuel: nat,
)
    requires
        m.wf(),
        visited.no_duplicates(),
        forall|i: int|
            0 <= i < visited.len() ==> in_interior(
                #[trigger] visited[i],
                m.width as int,
                m.height as int,
            ),
        fuel + visited.len() > m.width * m.height,
    ensures
        ({
            let r = dfs(m, field, visited, path, fuel);
            &&& forall|i: int|
                0 <= i < r.1.len() ==> in_interior(
                    #[trigger] r.1[i],
                    m.width as int,
                    m.height as int,
                )
            &&& !r.0 && in_interior(field, m.width as int, m.height as int) ==> r.1.contains(field)
            &&& !r.0 ==> forall|c: (i32, i32), d: Direction|
                r.1.contains(c) && !visited.contains(c) && #[trigger] open_step(m, c, d)
                    ==> r.1.contains(step(c, d))
        }),
    decreases fuel,
{
    let w = m.width as int;
    let h = m.height as int;
    let r = dfs(m, field, visited, path, fuel);
    lemma_interior_seq_len(w, h, visited);
    assert(fuel > 0);
    lemma_dfs_props(m, field, visited, path, fuel);
    if !visited.contains(field) && in_interior(field, w, h) {
        let v1 = visited.push(field);
        let p1 = path.push(field);
        let c0 = m.cell(field.0 as int, field.1 as int);
        assert(v1.no_duplicates()) by {
            assert forall|i: int, j: int|
                0 <= i < v1.len() && 0 <= j < v1.len() && i != j implies v1[i] != v1[j] by {
                if i == v1.len() - 1 {
                    assert(visited.contains(visited[j]));
                } else if j == v1.len() - 1 {
                    assert(visited.contains(visited[i]));
                }
            }
        }
        assert(forall|i: int| 0 <= i < v1.len() ==> in_interior(#[trigger] v1[i], w, h));
        assert(v1[v1.len() - 1] == field);
        assert(v1.contains(field));
        assert forall|t: (i32, i32)| #[trigger] v1.contains(t) && !visited.contains(t) implies t
            == field by {
            let j = choose|j: int| 0 <= j < v1.len() && v1[j] == t;
            if j < visited.len() {
                assert(visited[j] == t);
            }
        }
        if !c0.exit {
            let f1 = (fuel - 1) as nat;
            let next_top = step(field, Direction::Top);
            let next_left = step(field, Direction::Left);
            let next_bottom = step(field, Direction::Bottom);
            let next_right = step(field, Direction::Right);
            let r1 = if !c0.wall_top {
                dfs(m, next_top, v1, p1, f1)
            } else {
                (false, v1, p1)
            };
            lemma_dfs_props(m, next_top, v1, p1, f1);
            if !c0.wall_top {
                lemma_dfs_closed(m, next_top, v1, p1, f1);
            }
            assert(v1.is_prefix_of(r1.1));
            assert(r1.1.no_duplicates());
            assert(forall|i: int| 0 <= i < r1.1.len() ==> in_interior(#[trigger] r1.1[i], w, h));
            let r2 = if !c0.wall_left {
                dfs(m, next_left, r1.1, p1, f1)
            } else {
                r1
            };
            lemma_dfs_props(m, next_left, r1.1, p1, f1);
            if !r1.0 && !c0.wall_left {
                lemma_dfs_closed(m, next_left, r1.1, p1, f1);
            }
            let r3 = if !c0.wall_bottom {
                dfs(m, next_bottom, r2.1, p1, f1)
            } else {
                r2
            };
            if !r1.0 && !r2.0 {
                lemma_dfs_props(m, next_bottom, r2.1, p1, f1);
                if !c0.wall_bottom {
                    lemma_dfs_closed(m, next_bottom, r2.1, p1, f1);
                }
            }
            let r4 = if !c0.wall_right {
                dfs(m, next_right, r3.1, p1, f1)
            } else {
                r3
            };
            if !r1.0 && !r2.0 && !r3.0 {
                lemma_dfs_props(m, next_right, r3.1, p1, f1);
                if !c0.wall_right {
                    lemma_dfs_closed(m, next_right, r3.1, p1, f1);
                }
            }
            if !r1.0 && !r2.0 && !r3.0 && !r4.0 {
                assert(v1.is_prefix_of(r2.1) && v1.is_prefix_of(r3.1) && v1.is_prefix_of(r4.1))
                    by {
                    lemma_prefix_trans(v1, r1.1, r2.1);
                    lemma_prefix_trans(v1, r2.1, r3.1);
                    lemma_prefix_trans(v1, r3.1, r4.1);
                }
                lemma_prefix_contains(v1, r4.1, field);
                assert forall|c: (i32, i32), d: Direction|
                    r4.1.contains(c) && !visited.contains(c) && #[trigger] open_step(m, c, d)
                        implies r4.1.contains(step(c, d)) by {
                    let nxt = step(c, d);
                    if v1.contains(c) {
                        assert(c == field);
                        match d {
                            Direction::Top => {
                                assert(r1.1.contains(nxt));
                                lemma_prefix_trans(r1.1, r2.1, r3.1);
                                lemma_prefix_trans(r1.1, r3.1, r4.1);
                                lemma_prefix_contains(r1.1, r4.1, nxt);
                            },
                            Direction::Left => {
                                assert(r2.1.contains(nxt));
                                lemma_prefix_trans(r2.1, r3.1, r4.1);
                                lemma_prefix_contains(r2.1, r4.1, nxt);
                            },
                            Direction::Bottom => {
                                assert(r3.1.contains(nxt));
                                lemma_prefix_contains(r3.1, r4.1, nxt);
                            },
                            Direction::Right => {
                                assert(r4.1.contains(nxt));
                            },
                        }
                    } else if r1.1.contains(c) {
                        assert(r1.1.contains(nxt));
                        lemma_prefix_trans(r1.1, r2.1, r3.1);
                        lemma_prefix_trans(r1.1, r3.1, r4.1);
                        lemma_prefix_contains(r1.1, r4.1, nxt);
                    } else if r2.1.contains(c) {
                        assert(r2.1.contains(nxt));
                        lemma_prefix_trans(r2.1, r3.1, r4.1);
                        lemma_prefix_contains(r2.1, r4.1, nxt);
                    } else if r3.1.contains(c) {
                        assert(r3.1.contains(nxt));
                        lemma_prefix_contains(r3.1, r4.1, nxt);
                    } else {
                        assert(r4.1.contains(nxt));
                    }
                }
            }
        }
    }
}

/// A set of coordinates closed under open moves swallows every open chain
/// that starts inside it.
pub proof fn lemma_chain_stays(m: Maze, s: Seq<(i32, i32)>, p: Seq<(i32, i32)>)
    requires
        forall|c: (i32, i32), d: Direction|
            s.contains(c) && #[trigger] open_step(m, c, d) ==> s.contains(step(c, d)),
        is_open_chain(m, p),
        p.len() > 0,
        s.contains(p[0]),
    ensures
        s.contains(p.last()),
    decreases p.len(),
{
    if p.len() > 1 {
        let q = p.drop_last();
        assert(is_open_chain(m, q)) by {
            assert forall|i: int| 0 <= i < q.len() - 1 implies #[trigger] chain_step(
                m,
                q[i],
                q[i + 1],
            ) by {
                assert(chain_step(m, p[i], p[i + 1]));
            }
        }
        lemma_chain_stays(m, s, q);
        let n = p.len() - 2;
        assert(chain_step(m, p[n], p[n + 1]));
        let d = choose|d: Direction| #[trigger] open_step(m, p[n], d) && p[n + 1] == step(p[n], d);
        assert(open_step(m, p[n], d));
    }
}

/// The unreachable case, whole: when no eligible exit-flagged cell lies in
/// the component of `start`, the verdict is false and the visited sequence
/// holds exactly the eligible coordinates of that component — everything
/// it holds is reachable, and everything reachable and eligible it holds.
pub proof fn lemma_solve_unreachable_component(m: Maze, start: (i32, i32))
    requires
        m.wf(),
        forall|c: (i32, i32)|
            #[trigger] reachable(m, start, c) && in_interior(c, m.width as int, m.height as int)
                ==> !m.cell(c.0 as int, c.1 as int).exit,
    ensures
        ({
            let r = dfs(m, start, Seq::empty(), Seq::empty(), solve_fuel(m));
            &&& !r.0
            &&& forall|c: (i32, i32)|
                #[trigger] r.1.contains(c) <==> (reachable(m, start, c) && in_interior(
                    c,
                    m.width as int,
                    m.height as int,
                ))
        }),
{
    let w = m.width as int;
    let h = m.height as int;
    let r = dfs(m, start, Seq::empty(), Seq::empty(), solve_fuel(m));
    lemma_solve_unreachable(m, start);
    lemma_dfs_closed(m, start, Seq::empty(), Seq::empty(), solve_fuel(m));
    assert forall|c: (i32, i32)| #[trigger] r.1.contains(c) implies (reachable(m, start, c)
        && in_interior(c, w, h)) by {
        let i = choose|i: int| 0 <= i < r.1.len() && r.1[i] == c;
        assert(in_interior(r.1[i], w, h));
    }
    assert forall|c: (i32, i32)|
        reachable(m, start, c) && in_interior(c, w, h) implies #[trigger] r.1.contains(c) by {
        let p = choose|p: Seq<(i32, i32)>|
            #[trigger] is_open_chain(m, p) && p.len() > 0 && p[0] == start && p.last() == c;
        if p.len() == 1 {
            assert(c == start);
            assert(r.1.contains(start));
        } else {
            let z: int = 0;
            assert(chain_step(m, p[z], p[z + 1]));
            let d0 = choose|d: Direction|
                #[trigger] open_step(m, p[z], d) && p[z + 1] == step(p[z], d);
            assert(in_interior(start, w, h));
            assert(r.1.contains(start));
            assert forall|a: (i32, i32), d: Direction|
                r.1.contains(a) && #[trigger] open_step(m, a, d) implies r.1.contains(
                step(a, d),
            ) by {
                assert(!Seq::<(i32, i32)>::empty().contains(a));
            }
            lemma_chain_stays(m, r.1, p);
        }
    }
}

/// What one run of the solver hands back.
pub struct SolveResult {
    pub reached: bool,
    pub visited: Vec<(i32, i32)>,
    pub path: Vec<(i32, i32)>,
}

/// The recursion-depth ceiling handed to the search: one more than the
/// cell count, which the visited guard keeps the search from exhausting.
pub open spec fn solve_fuel(m: Maze) -> nat {
    (m.width * m.height + 1) as nat
}

/// Depth-first search over the encoded maze from `start`. The verdict, the
/// exploration trace and the discovered path are a function of the maze and
/// the start coordinate alone, so repeated runs agree; the trace holds no
/// duplicate coordinate; and a positive verdict ends its path on a cell
/// whose exit flag is set.
pub fn solve(m: &Maze, start: (i32, i32)) -> (r: SolveResult)
    requires
        m.wf(),
    ensures
        ({
            let d = dfs(*m, start, Seq::empty(), Seq::empty(), solve_fuel(*m));
            r.reached == d.0 && r.visited@ == d.1 && r.path@ == d.2
        }),
        r.visited@.no_duplicates(),
        r.reached ==> r.path@.len() > 0 && m.cell(
            r.path@.last().0 as int,
            r.path@.last().1 as int,
        ).exit,
{
    proof {
        lemma_grid_index(
            m.width - 1,
            m.height - 1,
            m.width as int,
            m.height as int,
        );
        lemma_dfs_props(*m, start, Seq::empty(), Seq::empty(), solve_fuel(*m));
    }
    let fuel: usize = m.width * m.height + 1;
    let mut visited: Vec<(i32, i32)> = Vec::new();
    let (reached, path) = solve_maze(m, start, &mut visited, Vec::new(), fuel);
    SolveResult { reached, visited, path }
}

} // verus!
