//! Day 12: fencing garden regions.
//!
//! Cells of equal letters form regions by side-adjacency. Part one
//! prices a region by area times perimeter; part two by area times the
//! number of straight fence sides. The whole map's price sums over its
//! regions.

use vstd::prelude::*;

verus! {

use vstd::relations::{sorted_by, total_ordering};
use vstd::seq_lib::group_to_multiset_ensures;

use crate::day::d10::{
    lemma_mark_cell,
    lemma_on_stack_pop,
    lemma_on_stack_prefix,
    lemma_unvisited_nonneg,
    lemma_unvisited_update,
    on_stack,
    unvisited,
    vmarked,
};
use crate::harness::error::Error;
use crate::harness::input::InputError;
use crate::harness::iter::{lines, split_lines};

pub struct D12;

impl D12 {
    /// The day this module solves.
    pub fn day() -> (d: u8)
        ensures
            d == 12,
    {
        12
    }
}

/// The garden plot map.
pub struct GardenMap {
    pub plots: Vec<Vec<char>>,
}

/// A rectangular grid: every row as long as the first.
pub open spec fn rect(g: Seq<Seq<char>>) -> bool {
    forall|r: int| 0 <= r < g.len() ==> (#[trigger] g[r]).len() == g[0].len()
}

pub open spec fn in_grid(g: Seq<Seq<char>>, p: (int, int)) -> bool {
    0 <= p.0 < g.len() && 0 <= p.1 < g[p.0].len()
}

/// Two side-adjacent cells of the same letter.
pub open spec fn same_adj(g: Seq<Seq<char>>, a: (int, int), b: (int, int)) -> bool {
    &&& in_grid(g, a)
    &&& in_grid(g, b)
    &&& g[b.0][b.1] == g[a.0][a.1]
    &&& ((b.0 == a.0 + 1 && b.1 == a.1) || (b.0 == a.0 - 1 && b.1 == a.1) || (b.0 == a.0 && b.1
        == a.1 + 1) || (b.0 == a.0 && b.1 == a.1 - 1))
}

pub open spec fn rg_path_ok(g: Seq<Seq<char>>, path: Seq<(int, int)>) -> bool {
    &&& path.len() >= 1
    &&& forall|k: int| 0 <= k < path.len() ==> in_grid(g, #[trigger] path[k])
    &&& forall|k: int| 0 <= k < path.len() - 1 ==> same_adj(g, #[trigger] path[k], path[k + 1])
}

/// Whether two cells belong to the same region.
pub open spec fn rg_reaches(g: Seq<Seq<char>>, from: (int, int), to: (int, int)) -> bool {
    exists|path: Seq<(int, int)>|
        #![trigger rg_path_ok(g, path)]
        rg_path_ok(g, path) && path[0] == from && path.last() == to
}

proof fn lemma_rg_path_extend(g: Seq<Seq<char>>, path: Seq<(int, int)>, q: (int, int))
    requires
        rg_path_ok(g, path),
        same_adj(g, path.last(), q),
    ensures
        rg_path_ok(g, path.push(q)),
        path.push(q)[0] == path[0],
        path.push(q).last() == q,
{
    let p2 = path.push(q);
    assert forall|k: int| 0 <= k < p2.len() - 1 implies same_adj(g, #[trigger] p2[k], p2[k + 1]) by {
        if k < path.len() - 1 {
            assert(p2[k] == path[k] && p2[k + 1] == path[k + 1]);
        } else {
            assert(p2[k] == path.last() && p2[k + 1] == q);
        }
    }
}

proof fn lemma_rg_step(g: Seq<Seq<char>>, from: (int, int), mid: (int, int), to: (int, int))
    requires
        rg_reaches(g, from, mid),
        same_adj(g, mid, to),
    ensures
        rg_reaches(g, from, to),
{
    let path = choose|path: Seq<(int, int)>|
        #![trigger rg_path_ok(g, path)]
        rg_path_ok(g, path) && path[0] == from && path.last() == mid;
    lemma_rg_path_extend(g, path, to);
    assert(rg_path_ok(g, path.push(to)));
}

/// Region membership is symmetric: a trail can be walked backwards.
proof fn lemma_rg_sym(g: Seq<Seq<char>>, a: (int, int), b: (int, int))
    requires
        rg_reaches(g, a, b),
    ensures
        rg_reaches(g, b, a),
{
    let path = choose|path: Seq<(int, int)>|
        #![trigger rg_path_ok(g, path)]
        rg_path_ok(g, path) && path[0] == a && path.last() == b;
    let rev = path.reverse();
    assert(rev.len() == path.len());
    assert(rev[0] == path.last());
    assert(rev.last() == path[0]);
    assert forall|k: int| 0 <= k < rev.len() implies in_grid(g, #[trigger] rev[k]) by {
        assert(rev[k] == path[path.len() - 1 - k]);
    }
    assert forall|k: int| 0 <= k < rev.len() - 1 implies same_adj(g, #[trigger] rev[k], rev[k + 1]) by {
        assert(rev[k] == path[path.len() - 1 - k]);
        assert(rev[k + 1] == path[path.len() - 2 - k]);
        assert(same_adj(g, path[path.len() - 2 - k], path[path.len() - 1 - k]));
    }
    assert(rg_path_ok(g, rev));
}

proof fn lemma_rg_trans(g: Seq<Seq<char>>, a: (int, int), b: (int, int), c: (int, int))
    requires
        rg_reaches(g, a, b),
        rg_reaches(g, b, c),
    ensures
        rg_reaches(g, a, c),
{
    let p1 = choose|p1: Seq<(int, int)>|
        #![trigger rg_path_ok(g, p1)]
        rg_path_ok(g, p1) && p1[0] == a && p1.last() == b;
    let p2 = choose|p2: Seq<(int, int)>|
        #![trigger rg_path_ok(g, p2)]
        rg_path_ok(g, p2) && p2[0] == b && p2.last() == c;
    let joined = p1 + p2.skip(1);
    assert(joined[0] == a);
    assert(joined.last() == (if p2.len() > 1 {
        p2.last()
    } else {
        p1.last()
    }));
    assert forall|k: int| 0 <= k < joined.len() implies in_grid(g, #[trigger] joined[k]) by {
        if k < p1.len() {
            assert(joined[k] == p1[k]);
        } else {
            assert(joined[k] == p2[k - p1.len() + 1]);
        }
    }
    assert forall|k: int| 0 <= k < joined.len() - 1 implies same_adj(
        g,
        #[trigger] joined[k],
        joined[k + 1],
    ) by {
        if k + 1 < p1.len() {
            assert(joined[k] == p1[k] && joined[k + 1] == p1[k + 1]);
        } else if k + 1 == p1.len() {
            assert(joined[k] == p1[k]);
            assert(joined[k + 1] == p2[1]);
            assert(same_adj(g, p2[0], p2[1]));
        } else {
            assert(joined[k] == p2[k - p1.len() + 1] && joined[k + 1] == p2[k - p1.len() + 2]);
        }
    }
    assert(rg_path_ok(g, joined));
}

/// A set of marks closed under same-letter adjacency that holds the
/// start holds the start's whole region.
proof fn lemma_rg_closed(
    g: Seq<Seq<char>>,
    vset: spec_fn(int, int) -> bool,
    start: (int, int),
    path: Seq<(int, int)>,
    k: int,
)
    requires
        rg_path_ok(g, path),
        path[0] == start,
        0 <= k < path.len(),
        vset(start.0, start.1),
        forall|a: int, b: int, q: (int, int)|
            #[trigger] vset(a, b) && #[trigger] same_adj(g, (a, b), q) ==> vset(q.0, q.1),
    ensures
        vset(path[k].0, path[k].1),
    decreases k,
{
    if k > 0 {
        lemma_rg_closed(g, vset, start, path, k - 1);
        assert(same_adj(g, path[k - 1], path[k]));
        assert(vset(path[k - 1].0, path[k - 1].1));
        assert(same_adj(g, (path[k - 1].0, path[k - 1].1), path[k]));
    }
}

impl GardenMap {
    /// The height of the map.
    pub fn rows(&self) -> (r: usize)
        ensures
            r == self.plots@.len(),
    {
        self.plots.len()
    }

    /// The width of the map.
    pub fn cols(&self) -> (r: usize)
        ensures
            r == (if self.plots@.len() > 0 {
                self.plots@[0]@.len() as int
            } else {
                0int
            }),
    {
        if self.plots.len() > 0 {
            self.plots[0].len()
        } else {
            0
        }
    }

    /// Read the map: every line is a row of letters.
    #[verifier::loop_isolation(false)]
    pub fn read(input: &[u8]) -> (r: GardenMap)
        ensures
            r.plots@.map_values(|row: Vec<char>| row@) == split_lines(input@).map_values(
                |l: Seq<u8>| l.map_values(|b: u8| b as char),
            ),
    {
        let ls = lines(input);
        let mut plots: Vec<Vec<char>> = Vec::new();
        let mut y: usize = 0;
        while y < ls.len()
            invariant
                y <= ls@.len(),
                plots@.len() == y,
                forall|i: int|
                    0 <= i < y ==> (#[trigger] plots@[i])@ == split_lines(input@)[i].map_values(
                        |b: u8| b as char,
                    ),
            decreases ls@.len() - y,
        {
            let line = &ls[y];
            proof {
                assert(ls@[y as int]@ == split_lines(input@)[y as int]);
            }
            let mut row: Vec<char> = Vec::new();
            let mut x: usize = 0;
            while x < line.len()
                invariant
                    x <= line@.len(),
                    row@.len() == x,
                    forall|i: int| 0 <= i < x ==> row@[i] == (line@[i] as char),
                decreases line@.len() - x,
            {
                row.push(line[x] as char);
                x += 1;
            }
            proof {
                assert(row@ =~= line@.map_values(|b: u8| b as char));
            }
            plots.push(row);
            y += 1;
        }
        let r = GardenMap { plots };
        proof {
            assert(r.plots@.map_values(|row: Vec<char>| row@) =~= split_lines(input@).map_values(
                |l: Seq<u8>| l.map_values(|b: u8| b as char),
            ));
        }
        r
    }
}


/// One region: its plots and, per direction, the plots whose fence
/// faces that way (east fences are recorded one cell to the right, as
/// the side counting expects).
pub struct Region {
    pub plots: Vec<(usize, usize)>,
    pub n_edges: Vec<(usize, usize)>,
    pub s_edges: Vec<(usize, usize)>,
    pub e_edges: Vec<(usize, usize)>,
    pub w_edges: Vec<(usize, usize)>,
}

/// Fence tests, per direction.
pub open spec fn n_bound(g: Seq<Seq<char>>, p: (int, int)) -> bool {
    in_grid(g, p) && (p.0 == 0 || g[p.0 - 1][p.1] != g[p.0][p.1])
}

pub open spec fn s_bound(g: Seq<Seq<char>>, p: (int, int)) -> bool {
    in_grid(g, p) && (p.0 == g.len() - 1 || g[p.0 + 1][p.1] != g[p.0][p.1])
}

pub open spec fn w_bound(g: Seq<Seq<char>>, p: (int, int)) -> bool {
    in_grid(g, p) && (p.1 == 0 || g[p.0][p.1 - 1] != g[p.0][p.1])
}

pub open spec fn e_bound(g: Seq<Seq<char>>, p: (int, int)) -> bool {
    in_grid(g, p) && (p.1 == g[p.0].len() - 1 || g[p.0][p.1 + 1] != g[p.0][p.1])
}

/// No pair appears twice.
pub open spec fn nodup(s: Seq<(usize, usize)>) -> bool {
    forall|i: int, j: int| 0 <= i < j < s.len() ==> s[i] != s[j]
}

/// Row-major order on cells.
pub open spec fn leq_row() -> spec_fn((usize, usize), (usize, usize)) -> bool {
    |a: (usize, usize), b: (usize, usize)| a.0 < b.0 || (a.0 == b.0 && a.1 <= b.1)
}

/// Column-major order on cells.
pub open spec fn leq_col() -> spec_fn((usize, usize), (usize, usize)) -> bool {
    |a: (usize, usize), b: (usize, usize)| a.1 < b.1 || (a.1 == b.1 && a.0 <= b.0)
}

proof fn lemma_leq_row_total()
    ensures
        total_ordering(leq_row()),
{
    let leq = leq_row();
    assert forall|a: (usize, usize), b: (usize, usize), c: (usize, usize)|
        #[trigger] leq(a, b) && #[trigger] leq(b, c) implies leq(a, c) by {}
}

proof fn lemma_leq_col_total()
    ensures
        total_ordering(leq_col()),
{
    let leq = leq_col();
    assert forall|a: (usize, usize), b: (usize, usize), c: (usize, usize)|
        #[trigger] leq(a, b) && #[trigger] leq(b, c) implies leq(a, c) by {}
}

/// Sort a list of cells in place by the given total order.
#[verifier::loop_isolation(false)]
#[verifier::rlimit(60)]
fn sort_cells(v: &mut Vec<(usize, usize)>, by_col: bool)
    ensures
        final(v)@.to_multiset() == old(v)@.to_multiset(),
        final(v)@.len() == old(v)@.len(),
        sorted_by(final(v)@, if by_col {
            leq_col()
        } else {
            leq_row()
        }),
        forall|q: (usize, usize)| final(v)@.contains(q) <==> old(v)@.contains(q),
        nodup(old(v)@) ==> nodup(final(v)@),
{
    broadcast use group_to_multiset_ensures;

    let ghost orig = v@;
    let ghost leq = if by_col {
        leq_col()
    } else {
        leq_row()
    };
    let mut i: usize = 1;
    while i < v.len() || (v.len() <= 1 && i == 1)
        invariant
            1 <= i,
            v@.len() <= 1 ==> i == 1,
            v@.len() > 1 ==> i <= v@.len(),
            v@.len() == orig.len(),
            v@.to_multiset() == orig.to_multiset(),
            v@.len() > 1 ==> sorted_by(v@.subrange(0, i as int), leq),
        decreases v@.len() - i,
    {
        if i >= v.len() {
            break ;
        }
        let ghost prev = v@;
        let x = v[i];
        let mut j: usize = i;
        let mut searching = true;
        while searching && j > 0
            invariant
                j <= i,
                i < v@.len(),
                v@ == prev,
                x == prev[i as int],
                forall|m: int| j <= m < i ==> !leq(#[trigger] v@[m], x),
                !searching ==> j > 0 && leq(prev[j - 1], x),
            decreases j + (if searching {
                1int
            } else {
                0int
            }),
        {
            let a = v[j - 1];
            let greater = if by_col {
                a.1 > x.1 || (a.1 == x.1 && a.0 > x.0)
            } else {
                a.0 > x.0 || (a.0 == x.0 && a.1 > x.1)
            };
            if greater {
                j -= 1;
            } else {
                searching = false;
            }
        }
        let y = v.remove(i);
        v.insert(j, y);
        proof {
            assert(prev.to_multiset().contains(x));
            assert(v@.to_multiset() =~= prev.to_multiset());
            assert forall|a: int, b: int| 0 <= a < b < i + 1 implies #[trigger] leq(
                v@.subrange(0, i + 1)[a],
                v@.subrange(0, i + 1)[b],
            ) by {
                let pre = prev.subrange(0, i as int);
                assert(forall|m: int| 0 <= m < j ==> v@[m] == prev[m]);
                assert(v@[j as int] == x);
                assert(forall|m: int| j < m <= i ==> v@[m] == prev[m - 1]);
                assert(v@.subrange(0, i + 1)[a] == v@[a]);
                assert(v@.subrange(0, i + 1)[b] == v@[b]);
                if b < j {
                    assert(leq(pre[a], pre[b]));
                } else if b == j {
                    assert(leq(prev[j - 1], x)) by {
                        assert(!leq(prev[j - 1], x) ==> leq(x, prev[j - 1]));
                        assert(!(!leq(prev[j - 1], x)));
                    }
                    if a < j - 1 {
                        assert(leq(pre[a], pre[j - 1]));
                    }
                } else if a == j {
                    assert(!leq(prev[b - 1], x));
                } else if a < j {
                    assert(leq(pre[a], pre[b - 1]));
                } else {
                    assert(leq(pre[a - 1], pre[b - 1]));
                }
            }
        }
        i += 1;
    }
    proof {
        if v@.len() > 1 {
            assert(v@.subrange(0, v@.len() as int) =~= v@);
        }
        assert(sorted_by(v@, leq));
        assert forall|q: (usize, usize)| v@.contains(q) <==> orig.contains(q) by {
            assert(v@.contains(q) <==> v@.to_multiset().count(q) > 0);
            assert(orig.contains(q) <==> orig.to_multiset().count(q) > 0);
        }
        if nodup(orig) {
            orig.lemma_multiset_has_no_duplicates();
            v@.lemma_multiset_has_no_duplicates_conv();
        }
    }
}


pub(crate) proof fn lemma_unvisited_full(v: Seq<bool>, k: int)
    requires
        0 <= k <= v.len(),
        forall|m: int| k <= m < v.len() ==> !(#[trigger] v[m]),
    ensures
        unvisited(v, k) == v.len() - k,
    decreases v.len() - k,
{
    if k < v.len() {
        lemma_unvisited_full(v, k + 1);
    }
}

/// Adapted closure lemmas for the region search.
proof fn lemma_rg_obligations_skip(
    g: Seq<Seq<char>>,
    nc: int,
    vv: Seq<bool>,
    stack0: Seq<(usize, usize)>,
)
    requires
        stack0.len() > 0,
        vmarked(vv, nc, stack0.last().0 as int, stack0.last().1 as int),
        forall|a: int, b: int, q: (int, int)|
            vmarked(vv, nc, a, b) && #[trigger] same_adj(g, (a, b), q) ==> vmarked(vv, nc, q.0, q.1)
                || on_stack(stack0, q),
    ensures
        forall|a: int, b: int, q: (int, int)|
            vmarked(vv, nc, a, b) && #[trigger] same_adj(g, (a, b), q) ==> vmarked(vv, nc, q.0, q.1)
                || on_stack(stack0.drop_last(), q),
{
    assert forall|a: int, b: int, q: (int, int)|
        vmarked(vv, nc, a, b) && #[trigger] same_adj(g, (a, b), q) implies vmarked(
        vv,
        nc,
        q.0,
        q.1,
    ) || on_stack(stack0.drop_last(), q) by {
        if !vmarked(vv, nc, q.0, q.1) {
            lemma_on_stack_pop(stack0, q);
            if (stack0.last().0 as int, stack0.last().1 as int) == q {
                assert(vmarked(vv, nc, q.0, q.1));
            }
        }
    }
}

proof fn lemma_rg_obligations(
    g: Seq<Seq<char>>,
    nc: int,
    vv0: Seq<bool>,
    vv1: Seq<bool>,
    stack0: Seq<(usize, usize)>,
    fin: Seq<(usize, usize)>,
    row: int,
    col: int,
)
    requires
        stack0.len() > 0,
        (stack0.last().0 as int, stack0.last().1 as int) == (row, col),
        stack0.drop_last().is_prefix_of(fin),
        forall|a: int, b: int|
            vmarked(vv1, nc, a, b) <==> (vmarked(vv0, nc, a, b) || (a == row && b == col)),
        forall|a: int, b: int, q: (int, int)|
            vmarked(vv0, nc, a, b) && #[trigger] same_adj(g, (a, b), q) ==> vmarked(
                vv0,
                nc,
                q.0,
                q.1,
            ) || on_stack(stack0, q),
        forall|q: (int, int)| #[trigger] same_adj(g, (row, col), q) ==> on_stack(fin, q),
    ensures
        forall|a: int, b: int, q: (int, int)|
            vmarked(vv1, nc, a, b) && #[trigger] same_adj(g, (a, b), q) ==> vmarked(
                vv1,
                nc,
                q.0,
                q.1,
            ) || on_stack(fin, q),
{
    let mid = stack0.drop_last();
    assert forall|a: int, b: int, q: (int, int)|
        vmarked(vv1, nc, a, b) && #[trigger] same_adj(g, (a, b), q) implies vmarked(
        vv1,
        nc,
        q.0,
        q.1,
    ) || on_stack(fin, q) by {
        if !vmarked(vv1, nc, q.0, q.1) {
            if (a, b) == (row, col) {
                assert(on_stack(fin, q));
            } else {
                assert(vmarked(vv0, nc, a, b));
                assert(!vmarked(vv0, nc, q.0, q.1));
                lemma_on_stack_pop(stack0, q);
                if (stack0.last().0 as int, stack0.last().1 as int) == q {
                    assert(vmarked(vv1, nc, q.0, q.1));
                } else {
                    lemma_on_stack_prefix(mid, fin, q);
                }
            }
        }
    }
}

proof fn lemma_rg_entries(
    g: Seq<Seq<char>>,
    start: (int, int),
    mid: Seq<(usize, usize)>,
    fin: Seq<(usize, usize)>,
)
    requires
        mid.is_prefix_of(fin),
        forall|k: int|
            0 <= k < mid.len() ==> in_grid(g, ((#[trigger] mid[k]).0 as int, mid[k].1 as int))
                && rg_reaches(g, start, (mid[k].0 as int, mid[k].1 as int)),
        forall|k: int|
            mid.len() <= k < fin.len() ==> in_grid(
                g,
                ((#[trigger] fin[k]).0 as int, fin[k].1 as int),
            ) && rg_reaches(g, start, (fin[k].0 as int, fin[k].1 as int)),
    ensures
        forall|k: int|
            0 <= k < fin.len() ==> in_grid(g, ((#[trigger] fin[k]).0 as int, fin[k].1 as int))
                && rg_reaches(g, start, (fin[k].0 as int, fin[k].1 as int)),
{
    assert forall|k: int| 0 <= k < fin.len() implies in_grid(
        g,
        ((#[trigger] fin[k]).0 as int, fin[k].1 as int),
    ) && rg_reaches(g, start, (fin[k].0 as int, fin[k].1 as int)) by {
        if k < mid.len() {
            assert(fin[k] == mid[k]);
        }
    }
}

proof fn lemma_rg_marks_exact(g: Seq<Seq<char>>, nc: int, vv: Seq<bool>, start: (int, int))
    requires
        vmarked(vv, nc, start.0, start.1),
        forall|a: int, b: int|
            vmarked(vv, nc, a, b) ==> in_grid(g, (a, b)) && rg_reaches(g, start, (a, b)),
        forall|a: int, b: int, q: (int, int)|
            vmarked(vv, nc, a, b) && #[trigger] same_adj(g, (a, b), q) ==> vmarked(vv, nc, q.0, q.1),
    ensures
        forall|a: int, b: int|
            0 <= a < g.len() && 0 <= b < g[a].len() ==> (vmarked(vv, nc, a, b) <==> rg_reaches(
                g,
                start,
                (a, b),
            )),
{
    let vset = |a: int, b: int| vmarked(vv, nc, a, b);
    assert forall|a: int, b: int| 0 <= a < g.len() && 0 <= b < g[a].len() implies (vmarked(
        vv,
        nc,
        a,
        b,
    ) <==> rg_reaches(g, start, (a, b))) by {
        if rg_reaches(g, start, (a, b)) && !vmarked(vv, nc, a, b) {
            let path = choose|path: Seq<(int, int)>|
                #![trigger rg_path_ok(g, path)]
                rg_path_ok(g, path) && path[0] == start && path.last() == (a, b);
            assert(vset(start.0, start.1));
            assert forall|a2: int, b2: int, q: (int, int)|
                #[trigger] vset(a2, b2) && #[trigger] same_adj(g, (a2, b2), q) implies vset(
                q.0,
                q.1,
            ) by {}
            lemma_rg_closed(g, vset, start, path, path.len() - 1);
            assert(vset(a, b));
        }
    }
}

impl GardenMap {
    /// Handle one newly-claimed plot: push its same-letter neighbors
    /// onto the search stack and record a fence on every other side.
    #[verifier::loop_isolation(false)]
    #[verifier::rlimit(100)]
    #[verifier::spinoff_prover]
    fn expand_cell(
        &self,
        stack: &mut Vec<(usize, usize)>,
        n_edges: &mut Vec<(usize, usize)>,
        s_edges: &mut Vec<(usize, usize)>,
        e_edges: &mut Vec<(usize, usize)>,
        w_edges: &mut Vec<(usize, usize)>,
        row: usize,
        col: usize,
        start: Ghost<(int, int)>,
    )
        requires
            rect(self.plots@.map_values(|r2: Vec<char>| r2@)),
            in_grid(self.plots@.map_values(|r2: Vec<char>| r2@), (row as int, col as int)),
            rg_reaches(
                self.plots@.map_values(|r2: Vec<char>| r2@),
                start@,
                (row as int, col as int),
            ),
        ensures
            ({
                let g = self.plots@.map_values(|r2: Vec<char>| r2@);
                &&& old(stack)@.is_prefix_of(final(stack)@)
                &&& forall|k: int|
                    old(stack)@.len() <= k < final(stack)@.len() ==> in_grid(
                        g,
                        ((#[trigger] final(stack)@[k]).0 as int, final(stack)@[k].1 as int),
                    ) && rg_reaches(
                        g,
                        start@,
                        (final(stack)@[k].0 as int, final(stack)@[k].1 as int),
                    )
                &&& forall|q: (int, int)|
                    #[trigger] same_adj(g, (row as int, col as int), q) ==> on_stack(
                        final(stack)@,
                        q,
                    )
                &&& final(n_edges)@ == (if n_bound(g, (row as int, col as int)) {
                    old(n_edges)@.push((row, col))
                } else {
                    old(n_edges)@
                })
                &&& final(s_edges)@ == (if s_bound(g, (row as int, col as int)) {
                    old(s_edges)@.push((row, col))
                } else {
                    old(s_edges)@
                })
                &&& final(w_edges)@ == (if w_bound(g, (row as int, col as int)) {
                    old(w_edges)@.push((row, col))
                } else {
                    old(w_edges)@
                })
                &&& final(e_edges)@ == (if e_bound(g, (row as int, col as int)) {
                    old(e_edges)@.push((row, ((col + 1) as usize)))
                } else {
                    old(e_edges)@
                })
            }),
    {
        let ghost g = self.plots@.map_values(|r2: Vec<char>| r2@);
        let nrows = self.plots.len();
        let ncols = self.plots[0].len();
        let ghost nc = ncols as int;
        let ch = self.plots[row][col];
        proof {
            assert(g[row as int] == self.plots@[row as int]@);
            assert(g[row as int][col as int] == ch);
            assert(g[row as int].len() == nc);
        }
        let c_up = if row > 0 {
            proof {
                assert(g[row as int - 1] == self.plots@[row as int - 1]@);
                assert(g[row as int - 1].len() == nc);
            }
            self.plots[row - 1][col] == ch
        } else {
            false
        };
        let c_down = if row + 1 < nrows {
            proof {
                assert(g[row as int + 1] == self.plots@[row as int + 1]@);
                assert(g[row as int + 1].len() == nc);
            }
            self.plots[row + 1][col] == ch
        } else {
            false
        };
        let c_left = if col > 0 {
            self.plots[row][col - 1] == ch
        } else {
            false
        };
        let c_right = if col + 1 < ncols {
            self.plots[row][col + 1] == ch
        } else {
            false
        };
        let ghost mut g_up: int = 0;
        let ghost mut g_down: int = 0;
        let ghost mut g_left: int = 0;
        let ghost mut g_right: int = 0;
        if c_up {
            proof {
                lemma_rg_step(g, start@, (row as int, col as int), (row as int - 1, col as int));
            }
            stack.push((row - 1, col));
            proof {
                g_up = stack@.len() - 1;
            }
        } else {
            n_edges.push((row, col));
        }
        if c_down {
            proof {
                lemma_rg_step(g, start@, (row as int, col as int), (row as int + 1, col as int));
            }
            stack.push((row + 1, col));
            proof {
                g_down = stack@.len() - 1;
            }
        } else {
            s_edges.push((row, col));
        }
        if c_left {
            proof {
                lemma_rg_step(g, start@, (row as int, col as int), (row as int, col as int - 1));
            }
            stack.push((row, col - 1));
            proof {
                g_left = stack@.len() - 1;
            }
        } else {
            w_edges.push((row, col));
        }
        if c_right {
            proof {
                lemma_rg_step(g, start@, (row as int, col as int), (row as int, col as int + 1));
            }
            stack.push((row, col + 1));
            proof {
                g_right = stack@.len() - 1;
            }
        } else {
            e_edges.push((row, col + 1));
        }
        proof {
            assert forall|q: (int, int)|
                #[trigger] same_adj(g, (row as int, col as int), q) implies on_stack(
                stack@,
                q,
            ) by {
                assert(in_grid(g, q));
                assert(g[q.0][q.1] == ch);
                assert(g[q.0].len() == nc);
                if q == (row as int - 1, col as int) {
                    assert(c_up);
                    assert((stack@[g_up].0 as int, stack@[g_up].1 as int) == q);
                } else if q == (row as int + 1, col as int) {
                    assert(c_down);
                    assert((stack@[g_down].0 as int, stack@[g_down].1 as int) == q);
                } else if q == (row as int, col as int - 1) {
                    assert(c_left);
                    assert((stack@[g_left].0 as int, stack@[g_left].1 as int) == q);
                } else {
                    assert(q == (row as int, col as int + 1));
                    assert(c_right);
                    assert((stack@[g_right].0 as int, stack@[g_right].1 as int) == q);
                }
            }
        }
    }
}



/// Claiming one plot extends a fence list exactly when the plot's
/// side faces a fence.
proof fn lemma_edge_update(
    old_list: Seq<(usize, usize)>,
    new_list: Seq<(usize, usize)>,
    old_plots: Seq<(usize, usize)>,
    new_plots: Seq<(usize, usize)>,
    cell: (usize, usize),
    pred: spec_fn((usize, usize)) -> bool,
)
    requires
        new_list == (if pred(cell) {
            old_list.push(cell)
        } else {
            old_list
        }),
        forall|q: (usize, usize)|
            #[trigger] old_list.contains(q) <==> (old_plots.contains(q) && pred(q)),
        new_plots == old_plots.push(cell),
        !old_plots.contains(cell),
        nodup(old_list),
        old_list.len() <= old_plots.len(),
    ensures
        forall|q: (usize, usize)|
            #[trigger] new_list.contains(q) <==> (new_plots.contains(q) && pred(q)),
        nodup(new_list),
        new_list.len() <= new_plots.len(),
{
    assert forall|q: (usize, usize)|
        #[trigger] new_list.contains(q) <==> (new_plots.contains(q) && pred(q)) by {
        if new_list.contains(q) {
            let w = choose|w: int| 0 <= w < new_list.len() && new_list[w] == q;
            if w < old_list.len() {
                assert(old_list[w] == q);
                assert(old_list.contains(q));
                let u = choose|u: int| 0 <= u < old_plots.len() && old_plots[u] == q;
                assert(new_plots[u] == q);
            } else {
                assert(q == cell);
                assert(new_plots[new_plots.len() - 1] == q);
            }
        }
        if new_plots.contains(q) && pred(q) {
            let u = choose|u: int| 0 <= u < new_plots.len() && new_plots[u] == q;
            if u < old_plots.len() {
                assert(old_plots[u] == q);
                assert(old_plots.contains(q));
                assert(old_list.contains(q));
                let w = choose|w: int| 0 <= w < old_list.len() && old_list[w] == q;
                assert(new_list[w] == q);
            } else {
                assert(q == cell);
                assert(pred(cell));
                assert(new_list[new_list.len() - 1] == q);
            }
        }
    }
    if pred(cell) {
        assert(!old_list.contains(cell));
        assert forall|i: int, j: int| 0 <= i < j < new_list.len() implies new_list[i]
            != new_list[j] by {
            if j == new_list.len() - 1 {
                assert(new_list[i] == old_list[i]);
                if new_list[i] == cell {
                    assert(old_list.contains(cell));
                }
            } else {
                assert(new_list[i] == old_list[i] && new_list[j] == old_list[j]);
            }
        }
    }
}

/// The east list records the cell one step to the right.
proof fn lemma_edge_update_e(
    old_list: Seq<(usize, usize)>,
    new_list: Seq<(usize, usize)>,
    old_plots: Seq<(usize, usize)>,
    new_plots: Seq<(usize, usize)>,
    cell: (usize, usize),
    g: Seq<Seq<char>>,
)
    requires
        cell.1 < usize::MAX,
        new_list == (if e_bound(g, (cell.0 as int, cell.1 as int)) {
            old_list.push((cell.0, ((cell.1 + 1) as usize)))
        } else {
            old_list
        }),
        forall|q: (usize, usize)|
            #[trigger] old_list.contains(q) <==> (q.1 >= 1 && old_plots.contains(
                (q.0, ((q.1 - 1) as usize)),
            ) && e_bound(g, (q.0 as int, q.1 as int - 1))),
        new_plots == old_plots.push(cell),
        !old_plots.contains(cell),
        nodup(old_list),
        old_list.len() <= old_plots.len(),
    ensures
        forall|q: (usize, usize)|
            #[trigger] new_list.contains(q) <==> (q.1 >= 1 && new_plots.contains(
                (q.0, ((q.1 - 1) as usize)),
            ) && e_bound(g, (q.0 as int, q.1 as int - 1))),
        nodup(new_list),
        new_list.len() <= new_plots.len(),
{
    let shifted = (cell.0, ((cell.1 + 1) as usize));
    assert forall|q: (usize, usize)|
        #[trigger] new_list.contains(q) <==> (q.1 >= 1 && new_plots.contains(
            (q.0, ((q.1 - 1) as usize)),
        ) && e_bound(g, (q.0 as int, q.1 as int - 1))) by {
        if new_list.contains(q) {
            let w = choose|w: int| 0 <= w < new_list.len() && new_list[w] == q;
            if w < old_list.len() {
                assert(old_list[w] == q);
                assert(old_list.contains(q));
                let u = choose|u: int|
                    0 <= u < old_plots.len() && old_plots[u] == (q.0, ((q.1 - 1) as usize));
                assert(new_plots[u] == (q.0, ((q.1 - 1) as usize)));
            } else {
                assert(q == shifted);
                assert((q.0, ((q.1 - 1) as usize)) == cell);
                assert(new_plots[new_plots.len() - 1] == cell);
            }
        }
        if q.1 >= 1 && new_plots.contains((q.0, ((q.1 - 1) as usize))) && e_bound(
            g,
            (q.0 as int, q.1 as int - 1),
        ) {
            let u = choose|u: int|
                0 <= u < new_plots.len() && new_plots[u] == (q.0, ((q.1 - 1) as usize));
            if u < old_plots.len() {
                assert(old_plots[u] == (q.0, ((q.1 - 1) as usize)));
                assert(old_plots.contains((q.0, ((q.1 - 1) as usize))));
                assert(old_list.contains(q));
                let w = choose|w: int| 0 <= w < old_list.len() && old_list[w] == q;
                assert(new_list[w] == q);
            } else {
                assert((q.0, ((q.1 - 1) as usize)) == cell);
                assert(q == shifted);
                assert(new_list[new_list.len() - 1] == q);
            }
        }
    }
    if e_bound(g, (cell.0 as int, cell.1 as int)) {
        assert(!old_list.contains(shifted)) by {
            if old_list.contains(shifted) {
                assert(old_plots.contains((shifted.0, ((shifted.1 - 1) as usize))));
                assert((shifted.0, ((shifted.1 - 1) as usize)) == cell);
            }
        }
        assert forall|i: int, j: int| 0 <= i < j < new_list.len() implies new_list[i]
            != new_list[j] by {
            if j == new_list.len() - 1 {
                assert(new_list[i] == old_list[i]);
                if new_list[i] == shifted {
                    assert(old_list.contains(shifted));
                }
            } else {
                assert(new_list[i] == old_list[i] && new_list[j] == old_list[j]);
            }
        }
    }
}

/// Find the region of the plot at `(row, col)`: its plots (exactly
/// the cells of the start's letter-connected component) and its
/// fences, each direction's list sorted the way side counting needs.
#[verifier::loop_isolation(false)]
#[verifier::rlimit(100)]
#[verifier::spinoff_prover]
pub fn find_region(map: &GardenMap, row: usize, col: usize) -> (r: Region)
    requires
        rect(map.plots@.map_values(|r2: Vec<char>| r2@)),
        in_grid(map.plots@.map_values(|r2: Vec<char>| r2@), (row as int, col as int)),
        map.plots@.len() * map.plots@[0]@.len() <= usize::MAX,
    ensures
        ({
            let g = map.plots@.map_values(|r2: Vec<char>| r2@);
            let start = (row as int, col as int);
            &&& nodup(r.plots@)
            &&& r.plots@.len() <= g.len() * g[0].len()
            &&& forall|q: (usize, usize)|
                #[trigger] r.plots@.contains(q) <==> rg_reaches(g, start, (q.0 as int, q.1 as int))
            &&& nodup(r.n_edges@) && r.n_edges@.len() <= r.plots@.len()
            &&& nodup(r.s_edges@) && r.s_edges@.len() <= r.plots@.len()
            &&& nodup(r.e_edges@) && r.e_edges@.len() <= r.plots@.len()
            &&& nodup(r.w_edges@) && r.w_edges@.len() <= r.plots@.len()
            &&& sorted_by(r.n_edges@, leq_row())
            &&& sorted_by(r.s_edges@, leq_row())
            &&& sorted_by(r.e_edges@, leq_col())
            &&& sorted_by(r.w_edges@, leq_col())
            &&& forall|q: (usize, usize)|
                #[trigger] r.n_edges@.contains(q) <==> (r.plots@.contains(q) && n_bound(
                    g,
                    (q.0 as int, q.1 as int),
                ))
            &&& forall|q: (usize, usize)|
                #[trigger] r.s_edges@.contains(q) <==> (r.plots@.contains(q) && s_bound(
                    g,
                    (q.0 as int, q.1 as int),
                ))
            &&& forall|q: (usize, usize)|
                #[trigger] r.w_edges@.contains(q) <==> (r.plots@.contains(q) && w_bound(
                    g,
                    (q.0 as int, q.1 as int),
                ))
            &&& forall|q: (usize, usize)|
                #[trigger] r.e_edges@.contains(q) <==> (q.1 >= 1 && r.plots@.contains(
                    (q.0, ((q.1 - 1) as usize)),
                ) && e_bound(g, (q.0 as int, q.1 as int - 1)))
        }),
{
    let ghost g = map.plots@.map_values(|r2: Vec<char>| r2@);
    let ghost start = (row as int, col as int);
    let nrows = map.plots.len();
    let ncols = map.plots[0].len();
    let ghost nc = ncols as int;
    let total = nrows * ncols;
    let mut visited: Vec<bool> = Vec::new();
    let mut k: usize = 0;
    while k < total
        invariant
            k <= total,
            visited@.len() == k,
            forall|m: int| 0 <= m < k ==> !(#[trigger] visited@[m]),
        decreases total - k,
    {
        visited.push(false);
        k += 1;
    }
    let mut plots: Vec<(usize, usize)> = Vec::new();
    let mut n_edges: Vec<(usize, usize)> = Vec::new();
    let mut s_edges: Vec<(usize, usize)> = Vec::new();
    let mut e_edges: Vec<(usize, usize)> = Vec::new();
    let mut w_edges: Vec<(usize, usize)> = Vec::new();
    let mut stack: Vec<(usize, usize)> = Vec::new();
    stack.push((row, col));
    proof {
        let path0 = seq![start];
        assert(rg_path_ok(g, path0));
        assert(rg_reaches(g, start, start));
        assert(stack@[0] == (row, col));
        assert((stack@[0].0 as int, stack@[0].1 as int) == start);
        assert(on_stack(stack@, start));
        assert forall|a: int, b: int| vmarked(visited@, nc, a, b) implies in_grid(g, (a, b))
            && rg_reaches(g, start, (a, b)) by {
            assert(!visited@[a * nc + b]);
        }
        lemma_unvisited_nonneg(visited@, 0);
        lemma_unvisited_full(visited@, 0);
    }
    while stack.len() > 0
        invariant
            g == map.plots@.map_values(|r2: Vec<char>| r2@),
            start == (row as int, col as int),
            rect(g),
            in_grid(g, start),
            nrows == g.len(),
            ncols == nc,
            nc == g[0].len(),
            nrows * nc <= usize::MAX,
            total == nrows * nc,
            visited@.len() == total,
            plots@.len() + unvisited(visited@, 0) == total,
            nodup(plots@),
            forall|q: (usize, usize)|
                #[trigger] plots@.contains(q) <==> vmarked(visited@, nc, q.0 as int, q.1 as int),
            forall|a: int, b: int|
                vmarked(visited@, nc, a, b) ==> in_grid(g, (a, b)) && rg_reaches(g, start, (a, b)),
            forall|k2: int|
                0 <= k2 < stack@.len() ==> in_grid(
                    g,
                    ((#[trigger] stack@[k2]).0 as int, stack@[k2].1 as int),
                ) && rg_reaches(g, start, (stack@[k2].0 as int, stack@[k2].1 as int)),
            vmarked(visited@, nc, start.0, start.1) || on_stack(stack@, start),
            forall|a: int, b: int, q: (int, int)|
                vmarked(visited@, nc, a, b) && #[trigger] same_adj(g, (a, b), q) ==> vmarked(
                    visited@,
                    nc,
                    q.0,
                    q.1,
                ) || on_stack(stack@, q),
            nodup(n_edges@) && n_edges@.len() <= plots@.len(),
            nodup(s_edges@) && s_edges@.len() <= plots@.len(),
            nodup(e_edges@) && e_edges@.len() <= plots@.len(),
            nodup(w_edges@) && w_edges@.len() <= plots@.len(),
            forall|q: (usize, usize)|
                #[trigger] n_edges@.contains(q) <==> (plots@.contains(q) && n_bound(
                    g,
                    (q.0 as int, q.1 as int),
                )),
            forall|q: (usize, usize)|
                #[trigger] s_edges@.contains(q) <==> (plots@.contains(q) && s_bound(
                    g,
                    (q.0 as int, q.1 as int),
                )),
            forall|q: (usize, usize)|
                #[trigger] w_edges@.contains(q) <==> (plots@.contains(q) && w_bound(
                    g,
                    (q.0 as int, q.1 as int),
                )),
            forall|q: (usize, usize)|
                #[trigger] e_edges@.contains(q) <==> (q.1 >= 1 && plots@.contains(
                    (q.0, ((q.1 - 1) as usize)),
                ) && e_bound(g, (q.0 as int, q.1 as int - 1))),
        decreases unvisited(visited@, 0), stack@.len(),
    {
        let ghost vv0 = visited@;
        let ghost stack0 = stack@;
        let (r0, c0) = stack.pop().unwrap();
        proof {
            assert(stack@ =~= stack0.drop_last());
            assert(stack0.last() == (r0, c0));
            assert(stack0[stack0.len() - 1] == (r0, c0));
            assert(in_grid(g, (r0 as int, c0 as int)));
            assert(r0 * nc + c0 < nrows * nc && r0 * nc + c0 >= 0) by (nonlinear_arith)
                requires
                    0 <= r0 < nrows,
                    0 <= c0 < nc,
            ;
        }
        let idx = r0 * ncols + c0;
        if visited[idx] {
            proof {
                assert(vmarked(vv0, nc, r0 as int, c0 as int));
                lemma_rg_obligations_skip(g, nc, vv0, stack0);
                if !vmarked(visited@, nc, start.0, start.1) {
                    lemma_on_stack_pop(stack0, start);
                    if (stack0.last().0 as int, stack0.last().1 as int) == start {
                        assert(false);
                    }
                }
                lemma_unvisited_nonneg(visited@, 0);
            }
            continue ;
        }
        visited.set(idx, true);
        let ghost old_plots = plots@;
        plots.push((r0, c0));
        proof {
            assert(visited@ == vv0.update(r0 as int * nc + c0 as int, true));
            lemma_unvisited_update(vv0, 0, idx as int);
            lemma_mark_cell(vv0, nc, r0 as int, c0 as int);
            assert(unvisited(visited@, 0) == unvisited(vv0, 0) - 1);
            lemma_unvisited_nonneg(visited@, 0);
            assert(vmarked(visited@, nc, r0 as int, c0 as int));
            assert(plots@ =~= old_plots.push((r0, c0)));
            assert(!old_plots.contains((r0, c0)));
            assert forall|q: (usize, usize)| #[trigger] plots@.contains(q) <==> vmarked(
                visited@,
                nc,
                q.0 as int,
                q.1 as int,
            ) by {
                if plots@.contains(q) {
                    let w = choose|w: int| 0 <= w < plots@.len() && plots@[w] == q;
                    if w < old_plots.len() {
                        assert(old_plots[w] == q);
                        assert(old_plots.contains(q));
                    }
                }
                if vmarked(visited@, nc, q.0 as int, q.1 as int) && q != (r0, c0) {
                    assert(vmarked(vv0, nc, q.0 as int, q.1 as int));
                    assert(old_plots.contains(q));
                    let w = choose|w: int| 0 <= w < old_plots.len() && old_plots[w] == q;
                    assert(plots@[w] == q);
                }
                if q == (r0, c0) {
                    assert(plots@[plots@.len() - 1] == q);
                }
            }
            assert forall|a: int, b: int| vmarked(visited@, nc, a, b) implies in_grid(
                g,
                (a, b),
            ) && rg_reaches(g, start, (a, b)) by {
                if (a, b) != (r0 as int, c0 as int) {
                    assert(vmarked(vv0, nc, a, b));
                }
            }
        }
        let ghost mid_stack = stack@;
        let ghost old_n = n_edges@;
        let ghost old_s = s_edges@;
        let ghost old_e = e_edges@;
        let ghost old_w = w_edges@;
        map.expand_cell(
            &mut stack,
            &mut n_edges,
            &mut s_edges,
            &mut e_edges,
            &mut w_edges,
            r0,
            c0,
            Ghost(start),
        );
        proof {
            assert(mid_stack =~= stack0.drop_last());
            lemma_rg_obligations(g, nc, vv0, visited@, stack0, stack@, r0 as int, c0 as int);
            lemma_rg_entries(g, start, mid_stack, stack@);
            if !vmarked(visited@, nc, start.0, start.1) {
                lemma_on_stack_pop(stack0, start);
                if (stack0.last().0 as int, stack0.last().1 as int) == start {
                    assert(vmarked(visited@, nc, start.0, start.1));
                    assert(false);
                } else {
                    lemma_on_stack_prefix(mid_stack, stack@, start);
                }
            }
            // the four fence lists stay exact
            lemma_edge_update(
                old_n,
                n_edges@,
                old_plots,
                plots@,
                (r0, c0),
                |q: (usize, usize)| n_bound(g, (q.0 as int, q.1 as int)),
            );
            lemma_edge_update(
                old_s,
                s_edges@,
                old_plots,
                plots@,
                (r0, c0),
                |q: (usize, usize)| s_bound(g, (q.0 as int, q.1 as int)),
            );
            lemma_edge_update(
                old_w,
                w_edges@,
                old_plots,
                plots@,
                (r0, c0),
                |q: (usize, usize)| w_bound(g, (q.0 as int, q.1 as int)),
            );
            lemma_edge_update_e(old_e, e_edges@, old_plots, plots@, (r0, c0), g);
        }
    }
    sort_cells(&mut n_edges, false);
    sort_cells(&mut s_edges, false);
    sort_cells(&mut e_edges, true);
    sort_cells(&mut w_edges, true);
    proof {
        lemma_rg_marks_exact(g, nc, visited@, start);
        assert forall|q: (usize, usize)| #[trigger] plots@.contains(q) <==> rg_reaches(
            g,
            start,
            (q.0 as int, q.1 as int),
        ) by {
            if plots@.contains(q) {
                assert(vmarked(visited@, nc, q.0 as int, q.1 as int));
            }
            if rg_reaches(g, start, (q.0 as int, q.1 as int)) {
                let path = choose|path: Seq<(int, int)>|
                    #![trigger rg_path_ok(g, path)]
                    rg_path_ok(g, path) && path[0] == start && path.last() == (
                    q.0 as int,
                    q.1 as int,
                );
                assert(in_grid(g, path.last()));
                assert(vmarked(visited@, nc, q.0 as int, q.1 as int));
            }
        }
        lemma_unvisited_nonneg(visited@, 0);
    }
    Region { plots, n_edges, s_edges, e_edges, w_edges }
}


/// The number of straight fence runs in a row-major edge list: a new
/// run starts wherever the previous entry is not the cell just to the
/// left.
pub open spec fn runs_row(es: Seq<(usize, usize)>, i: int) -> int
    decreases es.len() - i,
{
    if i < 0 || i >= es.len() {
        0
    } else {
        (if i == 0 || !(es[i].0 == es[i - 1].0 && es[i].1 == es[i - 1].1 + 1) {
            1int
        } else {
            0int
        }) + runs_row(es, i + 1)
    }
}

/// The same count for a column-major list: a run continues straight
/// down a column.
pub open spec fn runs_col(es: Seq<(usize, usize)>, i: int) -> int
    decreases es.len() - i,
{
    if i < 0 || i >= es.len() {
        0
    } else {
        (if i == 0 || !(es[i].1 == es[i - 1].1 && es[i].0 == es[i - 1].0 + 1) {
            1int
        } else {
            0int
        }) + runs_col(es, i + 1)
    }
}

proof fn lemma_runs_row_bounds(es: Seq<(usize, usize)>, i: int)
    requires
        0 <= i,
    ensures
        0 <= runs_row(es, i) <= es.len() - i || es.len() < i,
        runs_row(es, i) >= 0,
    decreases es.len() - i,
{
    if i < es.len() {
        lemma_runs_row_bounds(es, i + 1);
    }
}

proof fn lemma_runs_col_bounds(es: Seq<(usize, usize)>, i: int)
    requires
        0 <= i,
    ensures
        0 <= runs_col(es, i) <= es.len() - i || es.len() < i,
        runs_col(es, i) >= 0,
    decreases es.len() - i,
{
    if i < es.len() {
        lemma_runs_col_bounds(es, i + 1);
    }
}

#[verifier::loop_isolation(false)]
fn count_runs(es: &Vec<(usize, usize)>, by_col: bool) -> (r: usize)
    ensures
        r == (if by_col {
            runs_col(es@, 0)
        } else {
            runs_row(es@, 0)
        }),
{
    let mut count: usize = 0;
    let mut i: usize = 0;
    proof {
        if by_col {
            lemma_runs_col_bounds(es@, 0);
        } else {
            lemma_runs_row_bounds(es@, 0);
        }
    }
    while i < es.len()
        invariant
            i <= es@.len(),
            count <= i,
            count + (if by_col {
                runs_col(es@, i as int)
            } else {
                runs_row(es@, i as int)
            }) == (if by_col {
                runs_col(es@, 0)
            } else {
                runs_row(es@, 0)
            }),
        decreases es@.len() - i,
    {
        proof {
            if by_col {
                lemma_runs_col_bounds(es@, i as int + 1);
            } else {
                lemma_runs_row_bounds(es@, i as int + 1);
            }
        }
        let here = es[i];
        let is_new = if i == 0 {
            true
        } else {
            let last = es[i - 1];
            if by_col {
                !(here.1 == last.1 && last.0 < usize::MAX && here.0 == last.0 + 1)
            } else {
                !(here.0 == last.0 && last.1 < usize::MAX && here.1 == last.1 + 1)
            }
        };
        if is_new {
            count += 1;
        }
        i += 1;
    }
    count
}

impl Region {
    /// How many plots the region holds.
    pub fn area(&self) -> (r: usize)
        ensures
            r == self.plots@.len(),
    {
        self.plots.len()
    }

    /// How many unit fences surround the region.
    pub fn perimeter(&self) -> (r: usize)
        requires
            self.n_edges@.len() + self.s_edges@.len() + self.e_edges@.len() + self.w_edges@.len()
                <= usize::MAX,
        ensures
            r == self.n_edges@.len() + self.s_edges@.len() + self.e_edges@.len()
                + self.w_edges@.len(),
    {
        self.n_edges.len() + self.s_edges.len() + self.e_edges.len() + self.w_edges.len()
    }

    /// How many straight fence sides surround the region.
    pub fn sides(&self) -> (r: usize)
        requires
            self.n_edges@.len() + self.s_edges@.len() + self.e_edges@.len() + self.w_edges@.len()
                <= usize::MAX,
        ensures
            r == runs_row(self.n_edges@, 0) + runs_row(self.s_edges@, 0) + runs_col(
                self.e_edges@,
                0,
            ) + runs_col(self.w_edges@, 0),
    {
        proof {
            lemma_runs_row_bounds(self.n_edges@, 0);
            lemma_runs_row_bounds(self.s_edges@, 0);
            lemma_runs_col_bounds(self.e_edges@, 0);
            lemma_runs_col_bounds(self.w_edges@, 0);
        }
        let mut sides: usize = 0;
        sides = sides + count_runs(&self.n_edges, false);
        sides = sides + count_runs(&self.s_edges, false);
        sides = sides + count_runs(&self.e_edges, true);
        sides = sides + count_runs(&self.w_edges, true);
        sides
    }

    /// Part one's price: area times perimeter.
    pub fn fence_price(&self) -> (r: usize)
        requires
            self.n_edges@.len() + self.s_edges@.len() + self.e_edges@.len() + self.w_edges@.len()
                <= usize::MAX,
            self.plots@.len() * (self.n_edges@.len() + self.s_edges@.len() + self.e_edges@.len()
                + self.w_edges@.len()) <= usize::MAX,
        ensures
            r == self.plots@.len() * (self.n_edges@.len() + self.s_edges@.len()
                + self.e_edges@.len() + self.w_edges@.len()),
    {
        self.area() * self.perimeter()
    }

    /// Part two's price: area times the number of sides.
    pub fn bulk_price(&self) -> (r: usize)
        requires
            self.n_edges@.len() + self.s_edges@.len() + self.e_edges@.len() + self.w_edges@.len()
                <= usize::MAX,
            self.plots@.len() * (self.n_edges@.len() + self.s_edges@.len() + self.e_edges@.len()
                + self.w_edges@.len()) <= usize::MAX,
        ensures
            r == self.plots@.len() * (runs_row(self.n_edges@, 0) + runs_row(self.s_edges@, 0)
                + runs_col(self.e_edges@, 0) + runs_col(self.w_edges@, 0)),
    {
        proof {
            lemma_runs_row_bounds(self.n_edges@, 0);
            lemma_runs_row_bounds(self.s_edges@, 0);
            lemma_runs_col_bounds(self.e_edges@, 0);
            lemma_runs_col_bounds(self.w_edges@, 0);
            assert(self.plots@.len() * (runs_row(self.n_edges@, 0) + runs_row(self.s_edges@, 0)
                + runs_col(self.e_edges@, 0) + runs_col(self.w_edges@, 0)) <= self.plots@.len() * (
            self.n_edges@.len() + self.s_edges@.len() + self.e_edges@.len()
                + self.w_edges@.len())) by (nonlinear_arith)
                requires
                    0 <= runs_row(self.n_edges@, 0) + runs_row(self.s_edges@, 0) + runs_col(
                        self.e_edges@,
                        0,
                    ) + runs_col(self.w_edges@, 0) <= self.n_edges@.len() + self.s_edges@.len()
                        + self.e_edges@.len() + self.w_edges@.len(),
                    self.plots@.len() >= 0,
            ;
        }
        self.area() * self.sides()
    }
}


/// Everything `find_region` guarantees, phrased about a region and
/// its starting cell.
pub open spec fn region_of(g: Seq<Seq<char>>, r: Region, start: (int, int)) -> bool {
    &&& in_grid(g, start)
    &&& nodup(r.plots@)
    &&& forall|q: (usize, usize)|
        #[trigger] r.plots@.contains(q) <==> rg_reaches(g, start, (q.0 as int, q.1 as int))
    &&& nodup(r.n_edges@) && r.n_edges@.len() <= r.plots@.len()
    &&& nodup(r.s_edges@) && r.s_edges@.len() <= r.plots@.len()
    &&& nodup(r.e_edges@) && r.e_edges@.len() <= r.plots@.len()
    &&& nodup(r.w_edges@) && r.w_edges@.len() <= r.plots@.len()
    &&& sorted_by(r.n_edges@, leq_row())
    &&& sorted_by(r.s_edges@, leq_row())
    &&& sorted_by(r.e_edges@, leq_col())
    &&& sorted_by(r.w_edges@, leq_col())
    &&& forall|q: (usize, usize)|
        #[trigger] r.n_edges@.contains(q) <==> (r.plots@.contains(q) && n_bound(
            g,
            (q.0 as int, q.1 as int),
        ))
    &&& forall|q: (usize, usize)|
        #[trigger] r.s_edges@.contains(q) <==> (r.plots@.contains(q) && s_bound(
            g,
            (q.0 as int, q.1 as int),
        ))
    &&& forall|q: (usize, usize)|
        #[trigger] r.w_edges@.contains(q) <==> (r.plots@.contains(q) && w_bound(
            g,
            (q.0 as int, q.1 as int),
        ))
    &&& forall|q: (usize, usize)|
        #[trigger] r.e_edges@.contains(q) <==> (q.1 >= 1 && r.plots@.contains(
            (q.0, ((q.1 - 1) as usize)),
        ) && e_bound(g, (q.0 as int, q.1 as int - 1)))
}

/// Total fence length of a region.
pub open spec fn edge_sum(r: Region) -> int {
    r.n_edges@.len() as int + r.s_edges@.len() as int + r.e_edges@.len() as int
        + r.w_edges@.len() as int
}

/// Total straight sides of a region.
pub open spec fn runs_sum(r: Region) -> int {
    runs_row(r.n_edges@, 0) + runs_row(r.s_edges@, 0) + runs_col(r.e_edges@, 0) + runs_col(
        r.w_edges@,
        0,
    )
}

/// The summed prices of a list of regions, by either part's rule.
pub open spec fn prices(rs: Seq<Region>, bulk: bool) -> int
    decreases rs.len(),
{
    if rs.len() == 0 {
        0
    } else {
        rs[0].plots@.len() * (if bulk {
            runs_sum(rs[0])
        } else {
            edge_sum(rs[0])
        }) + prices(rs.skip(1), bulk)
    }
}

proof fn lemma_prices_push(rs: Seq<Region>, r: Region, bulk: bool)
    ensures
        prices(rs.push(r), bulk) == prices(rs, bulk) + r.plots@.len() * (if bulk {
            runs_sum(r)
        } else {
            edge_sum(r)
        }),
    decreases rs.len(),
{
    let extra = r.plots@.len() * (if bulk {
        runs_sum(r)
    } else {
        edge_sum(r)
    });
    if rs.len() == 0 {
        assert(rs.push(r)[0] == r);
        assert(rs.push(r).skip(1) =~= Seq::<Region>::empty());
        assert(prices(rs.push(r).skip(1), bulk) == 0);
        assert(prices(rs.push(r), bulk) == extra);
        assert(prices(rs, bulk) == 0);
    } else {
        assert(rs.push(r)[0] == rs[0]);
        assert(rs.push(r).skip(1) =~= rs.skip(1).push(r));
        lemma_prices_push(rs.skip(1), r, bulk);
        let head = rs[0].plots@.len() * (if bulk {
            runs_sum(rs[0])
        } else {
            edge_sum(rs[0])
        });
        assert(prices(rs.push(r), bulk) == head + prices(rs.skip(1).push(r), bulk));
        assert(prices(rs.skip(1).push(r), bulk) == prices(rs.skip(1), bulk) + extra);
        assert(prices(rs, bulk) == head + prices(rs.skip(1), bulk));
    }
}

/// Whether some region of the list claims the cell.
pub open spec fn covered(rs: Seq<Region>, q: (usize, usize)) -> bool {
    exists|k: int| 0 <= k < rs.len() && (#[trigger] rs[k]).plots@.contains(q)
}

proof fn lemma_covered_push(rs: Seq<Region>, r: Region, q: (usize, usize))
    ensures
        covered(rs.push(r), q) <==> (covered(rs, q) || r.plots@.contains(q)),
{
    if covered(rs.push(r), q) {
        let k = choose|k: int| 0 <= k < rs.push(r).len() && (#[trigger] rs.push(r)[k]).plots@.contains(q);
        if k < rs.len() {
            assert(rs[k].plots@.contains(q));
        }
    }
    if covered(rs, q) {
        let k = choose|k: int| 0 <= k < rs.len() && (#[trigger] rs[k]).plots@.contains(q);
        assert(rs.push(r)[k].plots@.contains(q));
    }
    if r.plots@.contains(q) {
        assert(rs.push(r)[rs.len() as int].plots@.contains(q));
    }
}

proof fn lemma_reaches_in_grid(g: Seq<Seq<char>>, a: (int, int), b: (int, int))
    requires
        rg_reaches(g, a, b),
    ensures
        in_grid(g, b),
{
    let path = choose|path: Seq<(int, int)>|
        #![trigger rg_path_ok(g, path)]
        rg_path_ok(g, path) && path[0] == a && path.last() == b;
    assert(in_grid(g, path.last()));
}

/// Mark every plot of a freshly found region.
#[verifier::loop_isolation(false)]
#[verifier::rlimit(60)]
fn mark_plots(visited: &mut Vec<bool>, plots: &Vec<(usize, usize)>, ncols: usize, Ghost(nrows): Ghost<int>)
    requires
        nodup(plots@),
        nrows >= 0,
        old(visited)@.len() == nrows * ncols,
        forall|w: int|
            0 <= w < plots@.len() ==> ((#[trigger] plots@[w]).0 as int) < nrows && (
            plots@[w].1 as int) < ncols,
        forall|w: int|
            0 <= w < plots@.len() ==> !vmarked(
                old(visited)@,
                ncols as int,
                (#[trigger] plots@[w]).0 as int,
                plots@[w].1 as int,
            ),
        ncols >= 1,
    ensures
        final(visited)@.len() == old(visited)@.len(),
        forall|a: int, b: int|
            vmarked(final(visited)@, ncols as int, a, b) <==> (vmarked(
                old(visited)@,
                ncols as int,
                a,
                b,
            ) || (0 <= a < nrows && 0 <= b < ncols && plots@.contains((
                (a as usize),
                (b as usize),
            )))),
        unvisited(final(visited)@, 0) == unvisited(old(visited)@, 0) - plots@.len(),
{
    let ghost nc = ncols as int;
    let total = visited.len();
    proof {
        assert(total == nrows * nc);
        assert(nrows <= usize::MAX) by (nonlinear_arith)
            requires
                nrows * nc == total,
                nc >= 1,
                nrows >= 0,
                total <= usize::MAX,
        ;
    }
    let mut w: usize = 0;
    while w < plots.len()
        invariant
            w <= plots@.len(),
            visited@.len() == old(visited)@.len(),
            forall|a: int, b: int|
                vmarked(visited@, nc, a, b) <==> (vmarked(old(visited)@, nc, a, b) || (0 <= a
                    < nrows && 0 <= b < nc && plots@.take(w as int).contains(
                    ((a as usize), (b as usize)),
                ))),
            unvisited(visited@, 0) == unvisited(old(visited)@, 0) - w,
        decreases plots@.len() - w,
    {
        let (r0, c0) = plots[w];
        proof {
            assert(plots@[w as int] == (r0, c0));
            assert((r0 as int) < nrows && (c0 as int) < nc);
            assert(r0 * nc + c0 < nrows * nc && r0 * nc + c0 >= 0) by (nonlinear_arith)
                requires
                    0 <= r0,
                    (r0 as int) < nrows,
                    0 <= c0 < nc,
            ;
            assert(!vmarked(visited@, nc, r0 as int, c0 as int)) by {
                if vmarked(old(visited)@, nc, r0 as int, c0 as int) {
                    assert(false);
                }
                if plots@.take(w as int).contains((r0, c0)) {
                    let u = choose|u: int|
                        0 <= u < w && plots@.take(w as int)[u] == (r0, c0);
                    assert(plots@[u] == plots@[w as int]);
                    assert(false);
                }
            }
            assert(!visited@[r0 as int * nc + c0 as int]);
        }
        let ghost vv0 = visited@;
        let idx = r0 * ncols + c0;
        visited.set(idx, true);
        proof {
            assert(visited@ == vv0.update(r0 as int * nc + c0 as int, true));
            lemma_unvisited_update(vv0, 0, idx as int);
            lemma_mark_cell(vv0, nc, r0 as int, c0 as int);
            assert forall|a: int, b: int|
                vmarked(visited@, nc, a, b) <==> (vmarked(old(visited)@, nc, a, b) || (0 <= a
                    < nrows && 0 <= b < nc && plots@.take(w as int + 1).contains(
                    ((a as usize), (b as usize)),
                ))) by {
                if vmarked(visited@, nc, a, b) {
                    assert(a * nc + b < nrows * nc);
                    assert(a < nrows) by (nonlinear_arith)
                        requires
                            0 <= b < nc,
                            a * nc + b < nrows * nc,
                            0 <= a,
                            nc >= 1,
                    ;
                    if (a, b) == (r0 as int, c0 as int) {
                        assert(plots@.take(w as int + 1)[w as int] == (r0, c0));
                        assert(plots@.take(w as int + 1).contains(((a as usize), (b as usize))));
                    } else {
                        assert(vmarked(vv0, nc, a, b));
                        if !vmarked(old(visited)@, nc, a, b) {
                            assert(plots@.take(w as int).contains(((a as usize), (b as usize))));
                            let u = choose|u: int|
                                0 <= u < w && plots@.take(w as int)[u] == ((a as usize), (
                                b as usize));
                            assert(plots@.take(w as int + 1)[u] == ((a as usize), (b as usize)));
                        }
                    }
                } else {
                    if 0 <= a < nrows && 0 <= b < nc && plots@.take(w as int + 1).contains(
                        ((a as usize), (b as usize)),
                    ) {
                        let u = choose|u: int|
                            0 <= u <= w && #[trigger] plots@.take(w as int + 1)[u] == ((
                            a as usize), (b as usize));
                        if u < w {
                            assert(plots@.take(w as int)[u] == ((a as usize), (b as usize)));
                            assert(vmarked(vv0, nc, a, b));
                        } else {
                            assert(plots@.take(w as int + 1)[u] == plots@[w as int]);
                            assert(((a as usize), (b as usize)) == (r0, c0));
                            assert(0 <= a <= usize::MAX);
                            assert((a, b) == (r0 as int, c0 as int));
                        }
                        assert(false);
                    }
                }
            }
        }
        w += 1;
    }
    proof {
        assert(plots@.take(plots@.len() as int) =~= plots@);
    }
}


/// Price the whole map: find each region once, in row-major order of
/// first encounter, and sum the chosen price over them. The regions
/// returned in the contract partition the grid, which pins the sum.
#[verifier::loop_isolation(false)]
#[verifier::rlimit(100)]
#[verifier::spinoff_prover]
fn solve_prices(map: &GardenMap, bulk: bool) -> (total: u64)
    requires
        rect(map.plots@.map_values(|r2: Vec<char>| r2@)),
        map.plots@.len() * map.plots@[0]@.len() <= 0x100000,
    ensures
        ({
            let g = map.plots@.map_values(|r2: Vec<char>| r2@);
            exists|rs: Seq<Region>, starts: Seq<(int, int)>|
                #![trigger rs.len(), starts.len()]
                {
                    &&& rs.len() == starts.len()
                    &&& forall|k: int| 0 <= k < rs.len() ==> region_of(g, #[trigger] rs[k], starts[k])
                    &&& forall|k1: int, k2: int, q: (usize, usize)|
                        0 <= k1 < k2 < rs.len() && (#[trigger] rs[k1].plots@.contains(q)) ==> !(
                        #[trigger] rs[k2].plots@.contains(q))
                    &&& forall|a: int, b: int|
                        0 <= a < g.len() && 0 <= b < g[a].len() ==> #[trigger] covered(
                            rs,
                            (((a as usize)), ((b as usize))),
                        )
                    &&& total == prices(rs, bulk)
                }
        }),
{
    let ghost g = map.plots@.map_values(|r2: Vec<char>| r2@);
    let nrows = map.plots.len();
    if nrows == 0 {
        proof {
            let rs0 = Seq::<Region>::empty();
            let st0 = Seq::<(int, int)>::empty();
            assert(rs0.len() == st0.len() && prices(rs0, bulk) == 0);
        }
        return 0;
    }
    let ncols = map.plots[0].len();
    let ghost nc = ncols as int;
    let total_cells = nrows * ncols;
    let ghost nn = total_cells as int;
    let mut visited: Vec<bool> = Vec::new();
    let mut k: usize = 0;
    while k < total_cells
        invariant
            k <= total_cells,
            visited@.len() == k,
            forall|m: int| 0 <= m < k ==> !(#[trigger] visited@[m]),
        decreases total_cells - k,
    {
        visited.push(false);
        k += 1;
    }
    proof {
        lemma_unvisited_full(visited@, 0);
    }
    let ghost mut rs: Seq<Region> = Seq::empty();
    let ghost mut starts: Seq<(int, int)> = Seq::empty();
    let mut total: u64 = 0;
    let mut y: usize = 0;
    while y < nrows
        invariant
            rect(g),
            nrows == g.len(),
            nrows >= 1,
            nc == g[0].len(),
            nn == nrows * nc,
            nn <= 0x100000,
            visited@.len() == nn,
            y <= nrows,
            rs.len() == starts.len(),
            forall|k2: int| 0 <= k2 < rs.len() ==> region_of(g, #[trigger] rs[k2], starts[k2]),
            forall|k1: int, k2: int, q: (usize, usize)|
                0 <= k1 < k2 < rs.len() && (#[trigger] rs[k1].plots@.contains(q)) ==> !(
                #[trigger] rs[k2].plots@.contains(q)),
            forall|a: int, b: int|
                vmarked(visited@, nc, a, b) <==> (0 <= a < nrows && 0 <= b < nc && covered(
                    rs,
                    (((a as usize)), ((b as usize))),
                )),
            forall|a: int, b: int|
                0 <= a < y && 0 <= b < nc ==> vmarked(visited@, nc, a, b),
            total == prices(rs, bulk),
            total <= 4 * nn * (nn - unvisited(visited@, 0)),
            unvisited(visited@, 0) >= 0,
            nn - unvisited(visited@, 0) >= 0,
        decreases nrows - y,
    {
        let mut x: usize = 0;
        while x < ncols
            invariant
                x <= ncols,
                y < nrows,
                rs.len() == starts.len(),
                forall|k2: int| 0 <= k2 < rs.len() ==> region_of(g, #[trigger] rs[k2], starts[k2]),
                forall|k1: int, k2: int, q: (usize, usize)|
                    0 <= k1 < k2 < rs.len() && (#[trigger] rs[k1].plots@.contains(q)) ==> !(
                    #[trigger] rs[k2].plots@.contains(q)),
                forall|a: int, b: int|
                    vmarked(visited@, nc, a, b) <==> (0 <= a < nrows && 0 <= b < nc && covered(
                        rs,
                        (((a as usize)), ((b as usize))),
                    )),
                forall|a: int, b: int|
                    0 <= a < y && 0 <= b < nc ==> vmarked(visited@, nc, a, b),
                forall|b: int| 0 <= b < x ==> vmarked(visited@, nc, y as int, b),
                visited@.len() == nn,
                total == prices(rs, bulk),
                total <= 4 * nn * (nn - unvisited(visited@, 0)),
                unvisited(visited@, 0) >= 0,
                nn - unvisited(visited@, 0) >= 0,
            decreases ncols - x,
        {
            proof {
                assert(y * nc + x < nrows * nc && y * nc + x >= 0) by (nonlinear_arith)
                    requires
                        0 <= y < nrows,
                        0 <= x < nc,
                ;
            }
            let idx = y * ncols + x;
            if !visited[idx] {
                proof {
                    assert(in_grid(g, (y as int, x as int))) by {
                        assert(g[y as int].len() == nc);
                    }
                }
                let region = find_region(map, y, x);
                let ghost start = (y as int, x as int);
                proof {
                    // the new region's plots are disjoint from every older
                    // region, since otherwise its start would already be
                    // claimed and marked
                    assert(!vmarked(visited@, nc, y as int, x as int));
                    assert forall|q: (usize, usize)| #[trigger] region.plots@.contains(q) implies
                        !covered(rs, q) by {
                        if covered(rs, q) {
                            let k2 = choose|k2: int|
                                0 <= k2 < rs.len() && (#[trigger] rs[k2]).plots@.contains(q);
                            assert(rg_reaches(g, starts[k2], (q.0 as int, q.1 as int)));
                            assert(rg_reaches(g, start, (q.0 as int, q.1 as int)));
                            lemma_rg_sym(g, start, (q.0 as int, q.1 as int));
                            lemma_rg_trans(g, starts[k2], (q.0 as int, q.1 as int), start);
                            assert(rs[k2].plots@.contains((((start.0 as usize)), ((start.1 as usize)))));
                            assert(covered(rs, (((y as usize)), ((x as usize))))) by {
                                assert(rs[k2].plots@.contains(((y as usize), (x as usize))));
                            }
                            assert(vmarked(visited@, nc, y as int, x as int));
                            assert(false);
                        }
                    }
                    assert forall|w: int|
                        0 <= w < region.plots@.len() implies ((#[trigger] region.plots@[w]).0
                            as int) < nrows && (region.plots@[w].1 as int) < nc by {
                        assert(region.plots@.contains(region.plots@[w]));
                        lemma_reaches_in_grid(
                            g,
                            start,
                            (region.plots@[w].0 as int, region.plots@[w].1 as int),
                        );
                        assert(g[region.plots@[w].0 as int].len() == nc);
                    }
                    assert forall|w: int|
                        0 <= w < region.plots@.len() implies !vmarked(
                            visited@,
                            nc,
                            (#[trigger] region.plots@[w]).0 as int,
                            region.plots@[w].1 as int,
                        ) by {
                        assert(region.plots@.contains(region.plots@[w]));
                        assert(!covered(rs, region.plots@[w]));
                    }
                }
                let area = region.area();
                proof {
                    assert(area <= nn) by {
                        assert(region.plots@.len() <= g.len() * g[0].len());
                    }
                }
                let measure = if bulk {
                    region.sides()
                } else {
                    region.perimeter()
                };
                proof {
                    lemma_runs_row_bounds(region.n_edges@, 0);
                    lemma_runs_row_bounds(region.s_edges@, 0);
                    lemma_runs_col_bounds(region.e_edges@, 0);
                    lemma_runs_col_bounds(region.w_edges@, 0);
                    assert(measure <= 4 * area);
                    assert((area as int) * (measure as int) <= 4 * nn * area) by (nonlinear_arith)
                        requires
                            0 <= measure <= 4 * area,
                            0 <= area <= nn,
                    ;
                    assert(4 * nn * area <= 4 * nn * nn) by (nonlinear_arith)
                        requires
                            0 <= area <= nn,
                            nn >= 0,
                    ;
                    assert(4 * nn * nn <= 0x40000000000000) by (nonlinear_arith)
                        requires
                            0 <= nn <= 0x100000,
                    ;
                }
                let price = (area as u64) * (measure as u64);
                proof {
                    let old_marked = nn - unvisited(visited@, 0);
                    assert(total + price <= 4 * nn * (old_marked + area)) by (nonlinear_arith)
                        requires
                            total <= 4 * nn * old_marked,
                            price <= 4 * nn * area,
                            nn >= 0,
                            old_marked >= 0,
                            area >= 0,
                    ;
                }
                proof {
                    let old_marked = nn - unvisited(visited@, 0);
                    assert(total <= 0x40000000000000 && price <= 0x40000000000000)
                        by (nonlinear_arith)
                        requires
                            total <= 4 * nn * old_marked,
                            price <= 4 * nn * (area as int),
                            0 <= area <= nn,
                            0 <= old_marked <= nn,
                            0 <= nn <= 0x100000,
                    ;
                }
                total = total + price;
                let ghost vv_before = visited@;
                mark_plots(&mut visited, &region.plots, ncols, Ghost(nrows as int));
                proof {
                    lemma_unvisited_nonneg(visited@, 0);
                    lemma_prices_push(rs, region, bulk);
                    let old_rs = rs;
                    rs = rs.push(region);
                    starts = starts.push(start);
                    assert forall|a: int, b: int|
                        vmarked(visited@, nc, a, b) <==> (0 <= a < nrows && 0 <= b < nc && covered(
                            rs,
                            (((a as usize)), ((b as usize))),
                        )) by {
                        lemma_covered_push(old_rs, region, (((a as usize)), ((b as usize))));
                    }
                    assert forall|k1: int, k2: int, q: (usize, usize)|
                        0 <= k1 < k2 < rs.len() && (#[trigger] rs[k1].plots@.contains(q)) implies !(
                        #[trigger] rs[k2].plots@.contains(q)) by {
                        if k2 < rs.len() - 1 {
                            assert(rs[k1] == old_rs[k1] && rs[k2] == old_rs[k2]);
                        } else {
                            assert(rs[k2] == region);
                            assert(rs[k1] == old_rs[k1]);
                            if region.plots@.contains(q) {
                                assert(!covered(old_rs, q));
                                if old_rs[k1].plots@.contains(q) {
                                    assert(covered(old_rs, q));
                                }
                            }
                        }
                    }
                    assert(vmarked(visited@, nc, y as int, x as int)) by {
                        let path0 = seq![start];
                        assert(rg_path_ok(g, path0));
                        assert(rg_reaches(g, start, start));
                        assert(region.plots@.contains((((y as usize)), ((x as usize)))));
                    }
                }
            }
            x += 1;
        }
        y += 1;
    }
    proof {
        assert forall|a: int, b: int|
            0 <= a < g.len() && 0 <= b < g[a].len() implies #[trigger] covered(
            rs,
            (((a as usize)), ((b as usize))),
        ) by {
            assert(g[a].len() == nc);
            assert(vmarked(visited@, nc, a, b));
        }
    }
    total
}

pub struct P1;

impl P1 {
    /// Total fence price: area times perimeter, summed over regions.
    pub fn solve(input: &GardenMap) -> (r: Result<u64, Error>)
        requires
            rect(input.plots@.map_values(|r2: Vec<char>| r2@)),
            input.plots@.len() * input.plots@[0]@.len() <= 0x100000,
        ensures
            ({
                let g = input.plots@.map_values(|r2: Vec<char>| r2@);
                match r {
                    Ok(total) => exists|rs: Seq<Region>, starts: Seq<(int, int)>|
                        #![trigger rs.len(), starts.len()]
                        {
                            &&& rs.len() == starts.len()
                            &&& forall|k: int|
                                0 <= k < rs.len() ==> region_of(g, #[trigger] rs[k], starts[k])
                            &&& forall|k1: int, k2: int, q: (usize, usize)|
                                0 <= k1 < k2 < rs.len() && (#[trigger] rs[k1].plots@.contains(q))
                                    ==> !(#[trigger] rs[k2].plots@.contains(q))
                            &&& forall|a: int, b: int|
                                0 <= a < g.len() && 0 <= b < g[a].len() ==> #[trigger] covered(
                                    rs,
                                    (((a as usize)), ((b as usize))),
                                )
                            &&& total == prices(rs, false)
                        },
                    Err(_) => false,
                }
            }),
    {
        Ok(solve_prices(input, false))
    }
}

pub struct P2;

impl P2 {
    /// Total bulk price: area times side count, summed over regions.
    pub fn solve(input: &GardenMap) -> (r: Result<u64, Error>)
        requires
            rect(input.plots@.map_values(|r2: Vec<char>| r2@)),
            input.plots@.len() * input.plots@[0]@.len() <= 0x100000,
        ensures
            ({
                let g = input.plots@.map_values(|r2: Vec<char>| r2@);
                match r {
                    Ok(total) => exists|rs: Seq<Region>, starts: Seq<(int, int)>|
                        #![trigger rs.len(), starts.len()]
                        {
                            &&& rs.len() == starts.len()
                            &&& forall|k: int|
                                0 <= k < rs.len() ==> region_of(g, #[trigger] rs[k], starts[k])
                            &&& forall|k1: int, k2: int, q: (usize, usize)|
                                0 <= k1 < k2 < rs.len() && (#[trigger] rs[k1].plots@.contains(q))
                                    ==> !(#[trigger] rs[k2].plots@.contains(q))
                            &&& forall|a: int, b: int|
                                0 <= a < g.len() && 0 <= b < g[a].len() ==> #[trigger] covered(
                                    rs,
                                    (((a as usize)), ((b as usize))),
                                )
                            &&& total == prices(rs, true)
                        },
                    Err(_) => false,
                }
            }),
    {
        Ok(solve_prices(input, true))
    }
}

} // verus!
