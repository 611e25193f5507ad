//! Day 10: hiking trails on a height map.
//!
//! A trail starts at height zero and climbs by exactly one per step in
//! the four cardinal directions. A trailhead's score is the number of
//! distinct height-nine cells it can reach, and the answer sums the
//! scores of all trailheads.

use vstd::prelude::*;

verus! {

use crate::harness::error::Error;
use crate::harness::input::InputError;
use crate::harness::iter::{lines, split_lines};
use crate::parse::is_digit;

pub struct D10;

impl D10 {
    /// The day this module solves.
    pub fn day() -> (d: u8)
        ensures
            d == 10,
    {
        10
    }
}

/// The height map and its trailheads (the zero cells, in row-major
/// order).
pub struct TrailMap {
    pub tiles: Vec<Vec<u32>>,
    pub trailheads: Vec<(usize, usize)>,
}

/// A rectangular grid: every row as long as the first.
pub open spec fn rect(t: Seq<Seq<u32>>) -> bool {
    forall|r: int| 0 <= r < t.len() ==> (#[trigger] t[r]).len() == t[0].len()
}

pub open spec fn in_grid(t: Seq<Seq<u32>>, p: (int, int)) -> bool {
    0 <= p.0 < t.len() && 0 <= p.1 < t[p.0].len()
}

/// One legal trail step: to a neighboring cell exactly one higher.
pub open spec fn step_adj(t: Seq<Seq<u32>>, a: (int, int), b: (int, int)) -> bool {
    &&& in_grid(t, a)
    &&& in_grid(t, b)
    &&& t[b.0][b.1] == t[a.0][a.1] + 1
    &&& ((b.0 == a.0 + 1 && b.1 == a.1) || (b.0 == a.0 - 1 && b.1 == a.1) || (b.0 == a.0 && b.1
        == a.1 + 1) || (b.0 == a.0 && b.1 == a.1 - 1))
}

pub open spec fn path_ok(t: Seq<Seq<u32>>, path: Seq<(int, int)>) -> bool {
    &&& path.len() >= 1
    &&& forall|k: int| 0 <= k < path.len() ==> in_grid(t, #[trigger] path[k])
    &&& forall|k: int| 0 <= k < path.len() - 1 ==> step_adj(t, #[trigger] path[k], path[k + 1])
}

/// Whether a trail leads from `from` to `to`.
pub open spec fn reaches(t: Seq<Seq<u32>>, from: (int, int), to: (int, int)) -> bool {
    exists|path: Seq<(int, int)>|
        #![trigger path_ok(t, path)]
        path_ok(t, path) && path[0] == from && path.last() == to
}

/// Count of the cells of row `y` (from column `x` on) satisfying `f`.
pub open spec fn count_cells_row(
    t: Seq<Seq<u32>>,
    f: spec_fn(int, int) -> bool,
    y: int,
    x: int,
) -> int
    decreases t[y].len() - x,
{
    if !(0 <= y < t.len()) || x >= t[y].len() || x < 0 {
        0
    } else {
        (if f(y, x) {
            1int
        } else {
            0int
        }) + count_cells_row(t, f, y, x + 1)
    }
}

/// Count of the cells from row `y` down satisfying `f`.
pub open spec fn count_cells(t: Seq<Seq<u32>>, f: spec_fn(int, int) -> bool, y: int) -> int
    decreases t.len() - y,
{
    if !(0 <= y) || y >= t.len() {
        0
    } else {
        count_cells_row(t, f, y, 0) + count_cells(t, f, y + 1)
    }
}

proof fn lemma_count_cells_row_congruent(
    t: Seq<Seq<u32>>,
    f: spec_fn(int, int) -> bool,
    g: spec_fn(int, int) -> bool,
    y: int,
    x: int,
)
    requires
        forall|a: int, b: int|
            0 <= a < t.len() && 0 <= b < t[a].len() ==> #[trigger] f(a, b) == g(a, b),
    ensures
        count_cells_row(t, f, y, x) == count_cells_row(t, g, y, x),
    decreases t[y].len() - x,
{
    if 0 <= y < t.len() && 0 <= x < t[y].len() {
        lemma_count_cells_row_congruent(t, f, g, y, x + 1);
    }
}

proof fn lemma_count_cells_congruent(
    t: Seq<Seq<u32>>,
    f: spec_fn(int, int) -> bool,
    g: spec_fn(int, int) -> bool,
    y: int,
)
    requires
        forall|a: int, b: int|
            0 <= a < t.len() && 0 <= b < t[a].len() ==> #[trigger] f(a, b) == g(a, b),
    ensures
        count_cells(t, f, y) == count_cells(t, g, y),
    decreases t.len() - y,
{
    if 0 <= y < t.len() {
        lemma_count_cells_row_congruent(t, f, g, y, 0);
        lemma_count_cells_congruent(t, f, g, y + 1);
    }
}

proof fn lemma_count_cells_row_bounds(t: Seq<Seq<u32>>, f: spec_fn(int, int) -> bool, y: int, x: int)
    ensures
        0 <= count_cells_row(t, f, y, x),
        0 <= y < t.len() && 0 <= x <= t[y].len() ==> count_cells_row(t, f, y, x) <= t[y].len() - x,
    decreases t[y].len() - x,
{
    if 0 <= y < t.len() && 0 <= x < t[y].len() {
        lemma_count_cells_row_bounds(t, f, y, x + 1);
    }
}

proof fn lemma_count_cells_bounds(t: Seq<Seq<u32>>, f: spec_fn(int, int) -> bool, y: int)
    ensures
        0 <= count_cells(t, f, y),
    decreases t.len() - y,
{
    if 0 <= y < t.len() {
        lemma_count_cells_row_bounds(t, f, y, 0);
        lemma_count_cells_bounds(t, f, y + 1);
    }
}

/// On a rectangular grid, no count exceeds the number of cells.
proof fn lemma_count_cells_le(t: Seq<Seq<u32>>, f: spec_fn(int, int) -> bool, y: int)
    requires
        rect(t),
        0 <= y <= t.len(),
    ensures
        count_cells(t, f, y) <= (t.len() - y) * t[0].len(),
    decreases t.len() - y,
{
    if y < t.len() {
        lemma_count_cells_le(t, f, y + 1);
        lemma_count_cells_row_bounds(t, f, y, 0);
        assert((t.len() - y) * t[0].len() == (t.len() - y - 1) * t[0].len() + t[0].len())
            by (nonlinear_arith);
    } else {
        assert((t.len() - y) * t[0].len() == 0) by (nonlinear_arith)
            requires
                y == t.len(),
        ;
    }
}

/// A trailhead's score: how many height-nine cells its trails reach.
pub open spec fn score_spec(t: Seq<Seq<u32>>, th: (int, int)) -> int {
    count_cells(t, |y: int, x: int| reaches(t, th, (y, x)) && t[y][x] == 9, 0)
}

/// Appending one legal step to a trail keeps it a trail.
proof fn lemma_path_extend(t: Seq<Seq<u32>>, path: Seq<(int, int)>, q: (int, int))
    requires
        path_ok(t, path),
        step_adj(t, path.last(), q),
    ensures
        path_ok(t, path.push(q)),
        path.push(q)[0] == path[0],
        path.push(q).last() == q,
{
    let p2 = path.push(q);
    assert forall|k: int| 0 <= k < p2.len() - 1 implies step_adj(t, #[trigger] p2[k], p2[k + 1]) by {
        if k < path.len() - 1 {
            assert(p2[k] == path[k] && p2[k + 1] == path[k + 1]);
        } else {
            assert(p2[k] == path.last() && p2[k + 1] == q);
        }
    }
}

/// A set of cells closed under trail steps and holding the start
/// holds everything the start reaches.
proof fn lemma_closed_reaches(
    t: Seq<Seq<u32>>,
    vset: spec_fn(int, int) -> bool,
    th: (int, int),
    path: Seq<(int, int)>,
    k: int,
)
    requires
        path_ok(t, path),
        path[0] == th,
        0 <= k < path.len(),
        vset(th.0, th.1),
        forall|a: int, b: int, q: (int, int)|
            #[trigger] vset(a, b) && #[trigger] step_adj(t, (a, b), q) ==> vset(q.0, q.1),
    ensures
        vset(path[k].0, path[k].1),
    decreases k,
{
    if k > 0 {
        lemma_closed_reaches(t, vset, th, path, k - 1);
        assert(step_adj(t, path[k - 1], path[k]));
        assert(vset(path[k - 1].0, path[k - 1].1));
        assert(step_adj(t, (path[k - 1].0, path[k - 1].1), path[k]));
    }
}

/// How many slots of the visited vector are still false from `k`
/// on, which bounds the search.
pub open spec fn unvisited(v: Seq<bool>, k: int) -> int
    decreases v.len() - k,
{
    if !(0 <= k) || k >= v.len() {
        0
    } else {
        (if !v[k] {
            1int
        } else {
            0int
        }) + unvisited(v, k + 1)
    }
}

pub(crate) proof fn lemma_unvisited_nonneg(v: Seq<bool>, k: int)
    ensures
        unvisited(v, k) >= 0,
    decreases v.len() - k,
{
    if 0 <= k < v.len() {
        lemma_unvisited_nonneg(v, k + 1);
    }
}

pub(crate) proof fn lemma_unvisited_update(v: Seq<bool>, k: int, j: int)
    requires
        0 <= j < v.len(),
        !v[j],
        0 <= k <= v.len(),
    ensures
        k <= j ==> unvisited(v.update(j, true), k) == unvisited(v, k) - 1,
        k > j ==> unvisited(v.update(j, true), k) == unvisited(v, k),
        unvisited(v, k) >= 0,
    decreases v.len() - k,
{
    if k < v.len() {
        lemma_unvisited_update(v, k + 1, j);
    }
}

/// Whether the visited mark for cell `(y, x)` is set, in a flat
/// row-major vector of width `ncols`.
pub open spec fn vmarked(v: Seq<bool>, ncols: int, y: int, x: int) -> bool {
    0 <= y && 0 <= x < ncols && 0 <= y * ncols + x < v.len() && v[y * ncols + x]
}

impl TrailMap {

    /// Push every legal step out of `(row, col)` onto the search
    /// stack.
    #[verifier::loop_isolation(false)]
    #[verifier::rlimit(100)]
    #[verifier::spinoff_prover]
    fn expand(&self, stack: &mut Vec<(usize, usize)>, row: usize, col: usize, th: Ghost<(int, int)>)
        requires
            rect(self.tiles@.map_values(|r2: Vec<u32>| r2@)),
            in_grid(self.tiles@.map_values(|r2: Vec<u32>| r2@), (row as int, col as int)),
            reaches(
                self.tiles@.map_values(|r2: Vec<u32>| r2@),
                th@,
                (row as int, col as int),
            ),
        ensures
            ({
                let t = self.tiles@.map_values(|r2: Vec<u32>| r2@);
                &&& old(stack)@.is_prefix_of(final(stack)@)
                &&& forall|k: int|
                    old(stack)@.len() <= k < final(stack)@.len() ==> in_grid(
                        t,
                        ((#[trigger] final(stack)@[k]).0 as int, final(stack)@[k].1 as int),
                    ) && reaches(
                        t,
                        th@,
                        (final(stack)@[k].0 as int, final(stack)@[k].1 as int),
                    )
                &&& forall|q: (int, int)|
                    #[trigger] step_adj(t, (row as int, col as int), q) ==> on_stack(
                        final(stack)@,
                        q,
                    )
            }),
    {
        let ghost t = self.tiles@.map_values(|r2: Vec<u32>| r2@);
        let nrows = self.tiles.len();
        let ncols = self.tiles[0].len();
        let ghost nc = ncols as int;
        let h = self.tiles[row][col];
        proof {
            assert(t[row as int] == self.tiles@[row as int]@);
            assert(t[row as int][col as int] == h);
            assert(t[row as int].len() == nc);
            assert forall|a: int| 0 <= a < t.len() implies (#[trigger] t[a]).len() == nc && t[a]
                == self.tiles@[a]@ by {}
        }
        let c_down = if row + 1 < nrows {
            proof {
                assert(t[row as int + 1] == self.tiles@[row as int + 1]@);
                assert(t[row as int + 1].len() == nc);
            }
            (self.tiles[row + 1][col] as u64) == (h as u64) + 1
        } else {
            false
        };
        let c_up = if row > 0 {
            proof {
                assert(t[row as int - 1] == self.tiles@[row as int - 1]@);
                assert(t[row as int - 1].len() == nc);
            }
            (self.tiles[row - 1][col] as u64) == (h as u64) + 1
        } else {
            false
        };
        let c_right = if col + 1 < ncols {
            (self.tiles[row][col + 1] as u64) == (h as u64) + 1
        } else {
            false
        };
        let c_left = if col > 0 {
            (self.tiles[row][col - 1] as u64) == (h as u64) + 1
        } else {
            false
        };
        let ghost mut g_down: int = 0;
        let ghost mut g_up: int = 0;
        let ghost mut g_right: int = 0;
        let ghost mut g_left: int = 0;
        if c_down {
            proof {
                lemma_step_push(t, th@, (row as int, col as int), (row as int + 1, col as int));
            }
            stack.push((row + 1, col));
            proof {
                g_down = stack@.len() - 1;
            }
        }
        if c_up {
            proof {
                lemma_step_push(t, th@, (row as int, col as int), (row as int - 1, col as int));
            }
            stack.push((row - 1, col));
            proof {
                g_up = stack@.len() - 1;
            }
        }
        if c_right {
            proof {
                lemma_step_push(t, th@, (row as int, col as int), (row as int, col as int + 1));
            }
            stack.push((row, col + 1));
            proof {
                g_right = stack@.len() - 1;
            }
        }
        if c_left {
            proof {
                lemma_step_push(t, th@, (row as int, col as int), (row as int, col as int - 1));
            }
            stack.push((row, col - 1));
            proof {
                g_left = stack@.len() - 1;
            }
        }
        proof {
            assert forall|q: (int, int)|
                #[trigger] step_adj(t, (row as int, col as int), q) implies on_stack(
                stack@,
                q,
            ) by {
                assert(in_grid(t, q));
                assert(t[q.0][q.1] == h + 1);
                assert(t[q.0].len() == nc);
                if q == (row as int + 1, col as int) {
                    assert(c_down);
                    assert((stack@[g_down].0 as int, stack@[g_down].1 as int) == q);
                } else if q == (row as int - 1, col as int) {
                    assert(c_up);
                    assert((stack@[g_up].0 as int, stack@[g_up].1 as int) == q);
                } else if q == (row as int, col as int + 1) {
                    assert(c_right);
                    assert((stack@[g_right].0 as int, stack@[g_right].1 as int) == q);
                } else {
                    assert(q == (row as int, col as int - 1));
                    assert(c_left);
                    assert((stack@[g_left].0 as int, stack@[g_left].1 as int) == q);
                }
            }
        }
    }

    /// The depth-first search behind `compute_score`: afterwards the
    /// flat row-major grid marks exactly the cells the trailhead's
    /// trails reach.
    #[verifier::loop_isolation(false)]
    #[verifier::rlimit(100)]
    #[verifier::spinoff_prover]
    fn dfs_mark(&self, trailhead: &(usize, usize)) -> (visited: Vec<bool>)
        requires
            rect(self.tiles@.map_values(|row: Vec<u32>| row@)),
            in_grid(
                self.tiles@.map_values(|row: Vec<u32>| row@),
                (trailhead.0 as int, trailhead.1 as int),
            ),
            self.tiles@.len() * self.tiles@[0]@.len() <= usize::MAX,
        ensures
            ({
                let t = self.tiles@.map_values(|row: Vec<u32>| row@);
                let th = (trailhead.0 as int, trailhead.1 as int);
                &&& visited@.len() == t.len() * t[0].len()
                &&& forall|a: int, b: int|
                    0 <= a < t.len() && 0 <= b < t[a].len() ==> (vmarked(
                        visited@,
                        t[0].len() as int,
                        a,
                        b,
                    ) <==> reaches(t, th, (a, b)))
            }),
    {
        let ghost t = self.tiles@.map_values(|row: Vec<u32>| row@);
        let ghost th = (trailhead.0 as int, trailhead.1 as int);
        let nrows = self.tiles.len();
        let ncols = self.tiles[0].len();
        let ghost nc = ncols as int;
        let total = nrows * ncols;
        let mut visited: Vec<bool> = Vec::new();
        let mut k: usize = 0;
        while k < total
            invariant
                k <= total,
                visited@.len() == k,
                forall|m: int| 0 <= m < k ==> !(#[trigger] visited@[m]),
            decreases total - k,
        {
            visited.push(false);
            k += 1;
        }
        proof {
            assert(visited@.len() == total);
        }
        let mut stack: Vec<(usize, usize)> = Vec::new();
        stack.push(*trailhead);
        proof {
            let path0 = seq![th];
            assert(path_ok(t, path0));
            assert(reaches(t, th, th));
            assert(stack@[0] == *trailhead);
            assert((stack@[0].0 as int, stack@[0].1 as int) == th);
            assert(on_stack(stack@, th));
            assert forall|a: int, b: int| vmarked(visited@, nc, a, b) implies in_grid(
                t,
                (a, b),
            ) && reaches(t, th, (a, b)) by {
                assert(!visited@[a * nc + b]);
            }
        }
        while stack.len() > 0
            invariant
                t == self.tiles@.map_values(|row: Vec<u32>| row@),
                th == (trailhead.0 as int, trailhead.1 as int),
                nrows == t.len(),
                ncols == nc,
                nc == t[0].len(),
                nrows * nc <= usize::MAX,
                visited@.len() == nrows * nc,
                rect(t),
                forall|a: int, b: int|
                    vmarked(visited@, nc, a, b) ==> in_grid(t, (a, b)) && reaches(t, th, (a, b)),
                forall|k2: int|
                    0 <= k2 < stack@.len() ==> in_grid(
                        t,
                        ((#[trigger] stack@[k2]).0 as int, stack@[k2].1 as int),
                    ) && reaches(t, th, (stack@[k2].0 as int, stack@[k2].1 as int)),
                vmarked(visited@, nc, th.0, th.1) || on_stack(stack@, th),
                forall|a: int, b: int, q: (int, int)|
                    vmarked(visited@, nc, a, b) && #[trigger] step_adj(t, (a, b), q) ==> vmarked(
                        visited@,
                        nc,
                        q.0,
                        q.1,
                    ) || on_stack(stack@, q),
            decreases unvisited(visited@, 0), stack@.len(),
        {
            let ghost vv0 = visited@;
            let ghost stack0 = stack@;
            let (row, col) = stack.pop().unwrap();
            proof {
                assert(stack@ =~= stack0.drop_last());
                assert(stack0.last() == (row, col));
                assert(stack0[stack0.len() - 1] == (row, col));
                assert(in_grid(t, (row as int, col as int)));
                assert(row * nc + col < nrows * nc && row * nc + col >= 0) by (nonlinear_arith)
                    requires
                        0 <= row < nrows,
                        0 <= col < nc,
                ;
            }
            let idx = row * ncols + col;
            if visited[idx] {
                proof {
                    assert(vmarked(vv0, nc, row as int, col as int));
                    lemma_obligations_skip(t, nc, vv0, stack0, th);
                    lemma_unvisited_nonneg(visited@, 0);
                }
                continue ;
            }
            visited.set(idx, true);
            proof {
                assert(visited@ == vv0.update(row as int * nc + col as int, true));
                lemma_unvisited_update(vv0, 0, idx as int);
                lemma_mark_cell(vv0, nc, row as int, col as int);
                assert(unvisited(visited@, 0) == unvisited(vv0, 0) - 1);
                assert(vmarked(visited@, nc, row as int, col as int));
                assert forall|a: int, b: int| vmarked(visited@, nc, a, b) implies in_grid(
                    t,
                    (a, b),
                ) && reaches(t, th, (a, b)) by {
                    if (a, b) != (row as int, col as int) {
                        assert(vmarked(vv0, nc, a, b));
                    }
                }
            }
            let ghost mid_stack = stack@;
            proof {
                assert(reaches(t, th, (row as int, col as int)));
            }
            self.expand(&mut stack, row, col, Ghost(th));
            proof {
                assert(mid_stack =~= stack0.drop_last());
                lemma_obligations(
                    t,
                    nc,
                    vv0,
                    visited@,
                    stack0,
                    stack@,
                    row as int,
                    col as int,
                    th,
                );
                lemma_entries(t, th, mid_stack, stack@);
                lemma_unvisited_nonneg(visited@, 0);
            }
        }
        // the marks now cover exactly the reachable cells
        proof {
            lemma_marks_exact(t, nc, visited@, th);
        }
        return visited;
    }

    /// A trailhead's score: the number of distinct height-nine cells
    /// its trails reach.
    #[verifier::loop_isolation(false)]
    #[verifier::rlimit(60)]
    pub fn compute_score(&self, trailhead: &(usize, usize)) -> (r: usize)
        requires
            rect(self.tiles@.map_values(|row: Vec<u32>| row@)),
            in_grid(
                self.tiles@.map_values(|row: Vec<u32>| row@),
                (trailhead.0 as int, trailhead.1 as int),
            ),
            self.tiles@.len() * self.tiles@[0]@.len() <= usize::MAX,
        ensures
            r == score_spec(
                self.tiles@.map_values(|row: Vec<u32>| row@),
                (trailhead.0 as int, trailhead.1 as int),
            ),
    {
        let ghost t = self.tiles@.map_values(|row: Vec<u32>| row@);
        let ghost th = (trailhead.0 as int, trailhead.1 as int);
        let nrows = self.tiles.len();
        let ncols = self.tiles[0].len();
        let ghost nc = ncols as int;
        let visited = self.dfs_mark(trailhead);
        let ghost vv = visited@;
        let ghost f = |y: int, x: int| reaches(t, th, (y, x)) && t[y][x] == 9;
        let ghost g = |y: int, x: int| vmarked(vv, nc, y, x) && t[y][x] == 9;
        proof {
            assert forall|a: int, b: int|
                0 <= a < t.len() && 0 <= b < t[a].len() implies #[trigger] f(a, b) == g(a, b) by {}
            lemma_count_cells_congruent(t, f, g, 0);
        }
        // count the marked height-nine cells
        let mut count: usize = 0;
        let mut y: usize = 0;
        proof {
            lemma_count_cells_bounds(t, g, 0);
            lemma_count_cells_bounds(t, f, 0);
            lemma_count_cells_le(t, g, 0);
            assert((t.len() - 0) * t[0].len() == t.len() * t[0].len()) by (nonlinear_arith);
        }
        while y < nrows
            invariant
                y <= nrows,
                count + count_cells(t, g, y as int) == count_cells(t, g, 0),
                count >= 0,
                count_cells(t, g, 0) <= usize::MAX,
            decreases nrows - y,
        {
            let w = self.tiles[y].len();
            let mut x: usize = 0;
            proof {
                assert(t[y as int] == self.tiles@[y as int]@);
                lemma_count_cells_bounds(t, g, y as int + 1);
                lemma_count_cells_row_bounds(t, g, y as int, 0);
            }
            while x < w
                invariant
                    x <= w,
                    y < nrows,
                    w == t[y as int].len(),
                    count + count_cells_row(t, g, y as int, x as int) + count_cells(
                        t,
                        g,
                        y as int + 1,
                    ) == count_cells(t, g, 0),
                    count >= 0,
                    count_cells(t, g, 0) <= usize::MAX,
                decreases w - x,
            {
                proof {
                    lemma_count_cells_row_bounds(t, g, y as int, x as int + 1);
                    lemma_count_cells_bounds(t, g, y as int + 1);
                    assert(y * nc + x < nrows * nc && y * nc + x >= 0) by (nonlinear_arith)
                        requires
                            0 <= y < nrows,
                            0 <= x < nc,
                    ;
                }
                let cidx = y * ncols + x;
                if visited[cidx] && self.tiles[y][x] == 9 {
                    proof {
                        assert(g(y as int, x as int)) by {
                            assert(vv[y as int * nc + x as int]);
                            assert(t[y as int][x as int] == 9);
                        }
                    }
                    count = count + 1;
                } else {
                    proof {
                        assert(!g(y as int, x as int)) by {
                            assert(t[y as int] == self.tiles@[y as int]@);
                        }
                    }
                }
                x += 1;
            }
            proof {
                assert(count_cells_row(t, g, y as int, w as int) == 0);
            }
            y += 1;
        }
        proof {
            assert(count == count_cells(t, g, 0));
        }
        count
    }

    /// The height of the map.
    pub fn rows(&self) -> (r: usize)
        ensures
            r == self.tiles@.len(),
    {
        self.tiles.len()
    }

    /// The width of the map.
    pub fn cols(&self) -> (r: usize)
        ensures
            r == (if self.tiles@.len() > 0 {
                self.tiles@[0]@.len() as int
            } else {
                0int
            }),
    {
        if self.tiles.len() > 0 {
            self.tiles[0].len()
        } else {
            0
        }
    }
}




/// Whether a cell is somewhere on the search stack.
pub open spec fn on_stack(stack: Seq<(usize, usize)>, q: (int, int)) -> bool {
    exists|k: int| 0 <= k < stack.len() && ((#[trigger] stack[k]).0 as int, stack[k].1 as int) == q
}

pub(crate) proof fn lemma_on_stack_pop(stack: Seq<(usize, usize)>, q: (int, int))
    requires
        stack.len() > 0,
        on_stack(stack, q),
    ensures
        on_stack(stack.drop_last(), q) || (stack.last().0 as int, stack.last().1 as int) == q,
{
    let k = choose|k: int|
        0 <= k < stack.len() && ((#[trigger] stack[k]).0 as int, stack[k].1 as int) == q;
    if k < stack.len() - 1 {
        assert(stack.drop_last()[k] == stack[k]);
    }
}

pub(crate) proof fn lemma_on_stack_push(stack: Seq<(usize, usize)>, e: (usize, usize), q: (int, int))
    ensures
        on_stack(stack, q) ==> on_stack(stack.push(e), q),
        on_stack(stack.push(e), (e.0 as int, e.1 as int)),
{
    if on_stack(stack, q) {
        let k = choose|k: int|
            0 <= k < stack.len() && ((#[trigger] stack[k]).0 as int, stack[k].1 as int) == q;
        assert(stack.push(e)[k] == stack[k]);
    }
    assert(stack.push(e)[stack.len() as int] == e);
}

/// A step pushed by the search really is a legal trail step, so the
/// new stack entry is reachable.
proof fn lemma_step_push(t: Seq<Seq<u32>>, th: (int, int), from: (int, int), to: (int, int))
    requires
        reaches(t, th, from),
        step_adj(t, from, to),
    ensures
        reaches(t, th, to),
{
    let path = choose|path: Seq<(int, int)>|
        #![trigger path_ok(t, path)]
        path_ok(t, path) && path[0] == th && path.last() == from;
    lemma_path_extend(t, path, to);
    assert(path_ok(t, path.push(to)));
}


/// Popping an already-marked cell keeps every obligation covered.
proof fn lemma_obligations_skip(
    t: Seq<Seq<u32>>,
    nc: int,
    vv: Seq<bool>,
    stack0: Seq<(usize, usize)>,
    th: (int, int),
)
    requires
        stack0.len() > 0,
        vmarked(vv, nc, stack0.last().0 as int, stack0.last().1 as int),
        forall|a: int, b: int, q: (int, int)|
            vmarked(vv, nc, a, b) && #[trigger] step_adj(t, (a, b), q) ==> vmarked(vv, nc, q.0, q.1)
                || on_stack(stack0, q),
        vmarked(vv, nc, th.0, th.1) || on_stack(stack0, th),
    ensures
        forall|a: int, b: int, q: (int, int)|
            vmarked(vv, nc, a, b) && #[trigger] step_adj(t, (a, b), q) ==> vmarked(vv, nc, q.0, q.1)
                || on_stack(stack0.drop_last(), q),
        vmarked(vv, nc, th.0, th.1) || on_stack(stack0.drop_last(), th),
{
    assert forall|a: int, b: int, q: (int, int)|
        vmarked(vv, nc, a, b) && #[trigger] step_adj(t, (a, b), q) implies vmarked(
        vv,
        nc,
        q.0,
        q.1,
    ) || on_stack(stack0.drop_last(), q) by {
        if !vmarked(vv, nc, q.0, q.1) {
            lemma_on_stack_pop(stack0, q);
            if (stack0.last().0 as int, stack0.last().1 as int) == q {
                assert(vmarked(vv, nc, q.0, q.1));
            }
        }
    }
    if !vmarked(vv, nc, th.0, th.1) {
        lemma_on_stack_pop(stack0, th);
        if (stack0.last().0 as int, stack0.last().1 as int) == th {
            assert(false);
        }
    }
}

/// A stack that grew by legal entries still holds only in-grid,
/// reachable cells.
proof fn lemma_entries(
    t: Seq<Seq<u32>>,
    th: (int, int),
    mid: Seq<(usize, usize)>,
    fin: Seq<(usize, usize)>,
)
    requires
        mid.is_prefix_of(fin),
        forall|k: int|
            0 <= k < mid.len() ==> in_grid(t, ((#[trigger] mid[k]).0 as int, mid[k].1 as int))
                && reaches(t, th, (mid[k].0 as int, mid[k].1 as int)),
        forall|k: int|
            mid.len() <= k < fin.len() ==> in_grid(
                t,
                ((#[trigger] fin[k]).0 as int, fin[k].1 as int),
            ) && reaches(t, th, (fin[k].0 as int, fin[k].1 as int)),
    ensures
        forall|k: int|
            0 <= k < fin.len() ==> in_grid(t, ((#[trigger] fin[k]).0 as int, fin[k].1 as int))
                && reaches(t, th, (fin[k].0 as int, fin[k].1 as int)),
{
    assert forall|k: int| 0 <= k < fin.len() implies in_grid(
        t,
        ((#[trigger] fin[k]).0 as int, fin[k].1 as int),
    ) && reaches(t, th, (fin[k].0 as int, fin[k].1 as int)) by {
        if k < mid.len() {
            assert(fin[k] == mid[k]);
        }
    }
}

/// After popping a cell, marking it and pushing its legal steps, the
/// stack still covers every unmarked obligation.
proof fn lemma_obligations(
    t: Seq<Seq<u32>>,
    nc: int,
    vv0: Seq<bool>,
    vv1: Seq<bool>,
    stack0: Seq<(usize, usize)>,
    fin: Seq<(usize, usize)>,
    row: int,
    col: int,
    th: (int, int),
)
    requires
        stack0.len() > 0,
        (stack0.last().0 as int, stack0.last().1 as int) == (row, col),
        stack0.drop_last().is_prefix_of(fin),
        forall|a: int, b: int|
            vmarked(vv1, nc, a, b) <==> (vmarked(vv0, nc, a, b) || (a == row && b == col)),
        forall|a: int, b: int, q: (int, int)|
            vmarked(vv0, nc, a, b) && #[trigger] step_adj(t, (a, b), q) ==> vmarked(
                vv0,
                nc,
                q.0,
                q.1,
            ) || on_stack(stack0, q),
        forall|q: (int, int)| #[trigger] step_adj(t, (row, col), q) ==> on_stack(fin, q),
        vmarked(vv0, nc, th.0, th.1) || on_stack(stack0, th),
    ensures
        forall|a: int, b: int, q: (int, int)|
            vmarked(vv1, nc, a, b) && #[trigger] step_adj(t, (a, b), q) ==> vmarked(
                vv1,
                nc,
                q.0,
                q.1,
            ) || on_stack(fin, q),
        vmarked(vv1, nc, th.0, th.1) || on_stack(fin, th),
{
    let mid = stack0.drop_last();
    assert forall|a: int, b: int, q: (int, int)|
        vmarked(vv1, nc, a, b) && #[trigger] step_adj(t, (a, b), q) implies vmarked(
        vv1,
        nc,
        q.0,
        q.1,
    ) || on_stack(fin, q) by {
        if !vmarked(vv1, nc, q.0, q.1) {
            if (a, b) == (row, col) {
                assert(on_stack(fin, q));
            } else {
                assert(vmarked(vv0, nc, a, b));
                assert(!vmarked(vv0, nc, q.0, q.1));
                lemma_on_stack_pop(stack0, q);
                if (stack0.last().0 as int, stack0.last().1 as int) == q {
                    assert(q == (row, col));
                    assert(vmarked(vv1, nc, q.0, q.1));
                } else {
                    lemma_on_stack_prefix(mid, fin, q);
                }
            }
        }
    }
    if !vmarked(vv1, nc, th.0, th.1) {
        assert(!vmarked(vv0, nc, th.0, th.1));
        lemma_on_stack_pop(stack0, th);
        if (stack0.last().0 as int, stack0.last().1 as int) == th {
            assert(th == (row, col));
            assert(vmarked(vv1, nc, th.0, th.1));
            assert(false);
        } else {
            lemma_on_stack_prefix(mid, fin, th);
        }
    }
}

/// A closed, sound set of marks that holds the trailhead marks
/// exactly the reachable cells.
proof fn lemma_marks_exact(t: Seq<Seq<u32>>, nc: int, vv: Seq<bool>, th: (int, int))
    requires
        vmarked(vv, nc, th.0, th.1),
        forall|a: int, b: int| vmarked(vv, nc, a, b) ==> in_grid(t, (a, b)) && reaches(t, th, (a, b)),
        forall|a: int, b: int, q: (int, int)|
            vmarked(vv, nc, a, b) && #[trigger] step_adj(t, (a, b), q) ==> vmarked(vv, nc, q.0, q.1),
    ensures
        forall|a: int, b: int|
            0 <= a < t.len() && 0 <= b < t[a].len() ==> (vmarked(vv, nc, a, b) <==> reaches(
                t,
                th,
                (a, b),
            )),
{
    let vset = |a: int, b: int| vmarked(vv, nc, a, b);
    assert forall|a: int, b: int| 0 <= a < t.len() && 0 <= b < t[a].len() implies (vmarked(
        vv,
        nc,
        a,
        b,
    ) <==> reaches(t, th, (a, b))) by {
        if reaches(t, th, (a, b)) && !vmarked(vv, nc, a, b) {
            let path = choose|path: Seq<(int, int)>|
                #![trigger path_ok(t, path)]
                path_ok(t, path) && path[0] == th && path.last() == (a, b);
            assert(vset(th.0, th.1));
            assert forall|a2: int, b2: int, q: (int, int)|
                #[trigger] vset(a2, b2) && #[trigger] step_adj(t, (a2, b2), q) implies vset(
                q.0,
                q.1,
            ) by {}
            lemma_closed_reaches(t, vset, th, path, path.len() - 1);
            assert(vset(a, b));
        }
    }
}

/// Marking one cell changes no other cell's mark.
pub(crate) proof fn lemma_mark_cell(vv0: Seq<bool>, nc: int, row: int, col: int)
    requires
        0 <= row,
        0 <= col < nc,
        0 <= row * nc + col < vv0.len(),
    ensures
        forall|a: int, b: int|
            vmarked(vv0.update(row * nc + col, true), nc, a, b) <==> (vmarked(vv0, nc, a, b) || (a
                == row && b == col)),
{
    let vv1 = vv0.update(row * nc + col, true);
    assert forall|a: int, b: int|
        vmarked(vv1, nc, a, b) <==> (vmarked(vv0, nc, a, b) || (a == row && b == col)) by {
        if 0 <= a && 0 <= b < nc {
            if (a, b) != (row, col) {
                assert(a * nc + b != row * nc + col) by (nonlinear_arith)
                    requires
                        0 <= b < nc,
                        0 <= col < nc,
                        a >= 0,
                        row >= 0,
                        (a, b) != (row, col),
                        nc >= 1,
                ;
            }
        }
    }
}

pub(crate) proof fn lemma_on_stack_prefix(a: Seq<(usize, usize)>, b: Seq<(usize, usize)>, q: (int, int))
    requires
        a.is_prefix_of(b),
        on_stack(a, q),
    ensures
        on_stack(b, q),
{
    let k = choose|k: int|
        0 <= k < a.len() && ((#[trigger] a[k]).0 as int, a[k].1 as int) == q;
    assert(b[k] == a[k]);
}

/// Pushing onto the stack keeps everything already on it and puts
/// the new entry on it.
pub(crate) proof fn lemma_push_keeps(stack: Seq<(usize, usize)>, e: (usize, usize))
    ensures
        forall|q: (int, int)| on_stack(stack, q) ==> on_stack(#[trigger] stack.push(e), q),
        on_stack(stack.push(e), (e.0 as int, e.1 as int)),
{
    assert forall|q: (int, int)| on_stack(stack, q) implies on_stack(
        #[trigger] stack.push(e),
        q,
    ) by {
        lemma_on_stack_push(stack, e, q);
    }
    lemma_on_stack_push(stack, e, (e.0 as int, e.1 as int));
}

/// The digits of one input line, or `None` on any other byte.
pub open spec fn line_digits(l: Seq<u8>) -> Option<Seq<u32>> {
    if forall|i: int| 0 <= i < l.len() ==> is_digit(#[trigger] l[i]) {
        Some(l.map_values(|b: u8| (b - 48) as u32))
    } else {
        None
    }
}

/// The trailheads of the parsed grid: the zero cells in row-major
/// order, the cells of row `y` from column `x` on.
pub open spec fn zeros_row(t: Seq<Seq<u32>>, y: int, x: int) -> Seq<(usize, usize)>
    decreases t[y].len() - x,
{
    if !(0 <= y < t.len()) || x >= t[y].len() || x < 0 {
        Seq::empty()
    } else {
        (if t[y][x] == 0 {
            seq![((y as usize), (x as usize))]
        } else {
            Seq::empty()
        }) + zeros_row(t, y, x + 1)
    }
}

pub open spec fn zeros_of(t: Seq<Seq<u32>>, y: int) -> Seq<(usize, usize)>
    decreases t.len() - y,
{
    if !(0 <= y) || y >= t.len() {
        Seq::empty()
    } else {
        zeros_row(t, y, 0) + zeros_of(t, y + 1)
    }
}

impl TrailMap {
    /// Read the height map: every byte of every line is a single
    /// digit, and the zero cells become the trailheads.
    #[verifier::loop_isolation(false)]
    #[verifier::rlimit(60)]
    pub fn read(input: &[u8]) -> (r: Result<TrailMap, InputError>)
        ensures
            match r {
                Ok(m) => {
                    let ls = split_lines(input@);
                    &&& m.tiles@.len() == ls.len()
                    &&& forall|i: int|
                        0 <= i < ls.len() ==> line_digits(#[trigger] ls[i]) == Some(
                            m.tiles@[i]@,
                        )
                    &&& m.trailheads@ == zeros_of(m.tiles@.map_values(|row: Vec<u32>| row@), 0)
                },
                Err(e) => {
                    &&& exists|i: int|
                        0 <= i < split_lines(input@).len() && line_digits(
                            #[trigger] split_lines(input@)[i],
                        ) is None
                    &&& e is InvalidInput
                },
            },
    {
        let ls = lines(input);
        let mut tiles: Vec<Vec<u32>> = Vec::new();
        let mut y: usize = 0;
        while y < ls.len()
            invariant
                y <= ls@.len(),
                tiles@.len() == y,
                forall|i: int|
                    0 <= i < y ==> line_digits(#[trigger] split_lines(input@)[i]) == Some(
                        tiles@[i]@,
                    ),
            decreases ls@.len() - y,
        {
            let line = &ls[y];
            proof {
                assert(ls@[y as int]@ == split_lines(input@)[y as int]);
            }
            let mut row: Vec<u32> = Vec::new();
            let mut x: usize = 0;
            while x < line.len()
                invariant
                    x <= line@.len(),
                    row@.len() == x,
                    forall|i: int| 0 <= i < x ==> is_digit(#[trigger] line@[i]),
                    forall|i: int| 0 <= i < x ==> row@[i] == (line@[i] - 48) as u32,
                decreases line@.len() - x,
            {
                let c = line[x];
                if !(48 <= c && c <= 57) {
                    return Err(InputError::invalid("non-digit in height map"));
                }
                row.push((c - 48) as u32);
                x += 1;
            }
            proof {
                assert(row@ =~= line@.map_values(|b: u8| (b - 48) as u32));
            }
            tiles.push(row);
            y += 1;
        }
        // collect the trailheads in row-major order
        let ghost t = tiles@.map_values(|row: Vec<u32>| row@);
        let mut trailheads: Vec<(usize, usize)> = Vec::new();
        let mut ty: usize = 0;
        proof {
            assert(trailheads@ + zeros_of(t, 0) =~= zeros_of(t, 0));
        }
        while ty < tiles.len()
            invariant
                ty <= tiles@.len(),
                t == tiles@.map_values(|row: Vec<u32>| row@),
                zeros_of(t, 0) == trailheads@ + zeros_of(t, ty as int),
            decreases tiles@.len() - ty,
        {
            let w = tiles[ty].len();
            let mut tx: usize = 0;
            proof {
                assert(t[ty as int] == tiles@[ty as int]@);
            }
            while tx < w
                invariant
                    tx <= w,
                    ty < tiles@.len(),
                    w == t[ty as int].len(),
                    t == tiles@.map_values(|row: Vec<u32>| row@),
                    zeros_of(t, 0) == trailheads@ + zeros_row(t, ty as int, tx as int)
                        + zeros_of(t, ty as int + 1),
                decreases w - tx,
            {
                let ghost old_list = trailheads@;
                if tiles[ty][tx] == 0 {
                    trailheads.push((ty, tx));
                    proof {
                        assert(trailheads@ =~= old_list.push((ty, tx)));
                        assert(zeros_row(t, ty as int, tx as int) =~= seq![
                            ((ty as usize), (tx as usize)),
                        ] + zeros_row(t, ty as int, tx as int + 1));
                        assert(old_list + (seq![((ty as usize), (tx as usize))] + zeros_row(
                            t,
                            ty as int,
                            tx as int + 1,
                        )) + zeros_of(t, ty as int + 1) =~= trailheads@ + zeros_row(
                            t,
                            ty as int,
                            tx as int + 1,
                        ) + zeros_of(t, ty as int + 1));
                    }
                } else {
                    proof {
                        assert(zeros_row(t, ty as int, tx as int) =~= zeros_row(
                            t,
                            ty as int,
                            tx as int + 1,
                        ));
                    }
                }
                tx += 1;
            }
            proof {
                assert(zeros_row(t, ty as int, w as int) =~= Seq::<(usize, usize)>::empty());
                assert(trailheads@ + Seq::<(usize, usize)>::empty() + zeros_of(t, ty as int + 1)
                    =~= trailheads@ + zeros_of(t, ty as int + 1));
            }
            ty += 1;
        }
        proof {
            assert(zeros_of(t, tiles@.len() as int) =~= Seq::<(usize, usize)>::empty());
            assert(trailheads@ + Seq::<(usize, usize)>::empty() =~= trailheads@);
        }
        Ok(TrailMap { tiles, trailheads })
    }
}

/// The sum of the scores of the listed trailheads.
pub open spec fn total_score(t: Seq<Seq<u32>>, ths: Seq<(usize, usize)>) -> int
    decreases ths.len(),
{
    if ths.len() == 0 {
        0
    } else {
        score_spec(t, (ths[0].0 as int, ths[0].1 as int)) + total_score(t, ths.skip(1))
    }
}

proof fn lemma_total_score_nonneg(t: Seq<Seq<u32>>, ths: Seq<(usize, usize)>)
    ensures
        total_score(t, ths) >= 0,
    decreases ths.len(),
{
    if ths.len() != 0 {
        lemma_count_cells_bounds(
            t,
            |y: int, x: int| reaches(t, (ths[0].0 as int, ths[0].1 as int), (y, x)) && t[y][x]
                == 9,
            0,
        );
        lemma_total_score_nonneg(t, ths.skip(1));
    }
}

pub struct P1;

impl P1 {
    /// Sum the scores of every trailhead.
    #[verifier::loop_isolation(false)]
    pub fn solve(input: &TrailMap) -> (r: Result<usize, Error>)
        requires
            rect(input.tiles@.map_values(|row: Vec<u32>| row@)),
            input.tiles@.len() * (if input.tiles@.len() > 0 {
                input.tiles@[0]@.len() as int
            } else {
                0int
            }) <= usize::MAX,
            forall|i: int|
                0 <= i < input.trailheads@.len() ==> in_grid(
                    input.tiles@.map_values(|row: Vec<u32>| row@),
                    ((#[trigger] input.trailheads@[i]).0 as int, input.trailheads@[i].1 as int),
                ),
            total_score(
                input.tiles@.map_values(|row: Vec<u32>| row@),
                input.trailheads@,
            ) <= usize::MAX,
        ensures
            r == Ok::<usize, Error>(
                total_score(
                    input.tiles@.map_values(|row: Vec<u32>| row@),
                    input.trailheads@,
                ) as usize,
            ),
    {
        let ghost t = input.tiles@.map_values(|row: Vec<u32>| row@);
        let ghost ths = input.trailheads@;
        let mut sum: usize = 0;
        let mut i: usize = 0;
        proof {
            assert(ths.skip(0) =~= ths);
        }
        while i < input.trailheads.len()
            invariant
                i <= ths.len(),
                sum + total_score(t, ths.skip(i as int)) == total_score(t, ths),
                sum >= 0,
            decreases ths.len() - i,
        {
            proof {
                assert(ths.skip(i as int)[0] == ths[i as int]);
                assert(ths.skip(i as int).skip(1) =~= ths.skip(i as int + 1));
                lemma_total_score_nonneg(t, ths.skip(i as int + 1));
                lemma_count_cells_bounds(
                    t,
                    |y: int, x: int| reaches(
                        t,
                        (ths[i as int].0 as int, ths[i as int].1 as int),
                        (y, x),
                    ) && t[y][x] == 9,
                    0,
                );
            }
            let th = input.trailheads[i];
            let sc = input.compute_score(&th);
            sum = sum + sc;
            i += 1;
        }
        Ok(sum)
    }
}

} // verus!
