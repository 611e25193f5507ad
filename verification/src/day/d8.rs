//! Day 8: antenna antinodes.
//!
//! Antennas of equal frequency come in pairs; part one marks the two
//! points mirroring one antenna over the other, part two marks every
//! grid point on the line through the pair, stepping by their offset.
//! Both parts count the distinct marked points on the grid.

use vstd::prelude::*;

verus! {

use crate::harness::error::Error;
use crate::harness::input::InputError;
use crate::harness::iter::{lines, split_lines};

pub struct D8;

impl D8 {
    /// The day this module solves.
    pub fn day() -> (d: u8)
        ensures
            d == 8,
    {
        8
    }
}

/// The antenna map: the grid size and, per frequency, the antenna
/// cells in scan order.
pub struct AntennaMap {
    pub cols: usize,
    pub rows: usize,
    pub antennae_by_freq: Vec<(char, Vec<(usize, usize)>)>,
}

/// Whether a point lies on the grid.
pub open spec fn in_b(q: (int, int), cols: int, rows: int) -> bool {
    0 <= q.0 < cols && 0 <= q.1 < rows
}

/// The mirror of antenna `a` over antenna `b`.
pub open spec fn mirror(a: (usize, usize), b: (usize, usize)) -> (int, int) {
    (2 * b.0 - a.0, 2 * b.1 - a.1)
}

/// Part one's antinodes: for some equal-frequency pair, the mirror of
/// one antenna over the other, on the grid.
pub open spec fn p1_anti(
    groups: Seq<(char, Seq<(usize, usize)>)>,
    cols: int,
    rows: int,
    q: (int, int),
) -> bool {
    exists|gi: int, i: int, j: int|
        #![trigger groups[gi].1[i], groups[gi].1[j]]
        {
            &&& 0 <= gi < groups.len()
            &&& 0 <= i < j < groups[gi].1.len()
            &&& in_b(q, cols, rows)
            &&& (q == mirror(groups[gi].1[i], groups[gi].1[j]) || q == mirror(
                groups[gi].1[j],
                groups[gi].1[i],
            ))
        }
}

/// The `k`-th point of the ray from `a` away from `b`.
pub open spec fn ray_at(a: (usize, usize), b: (usize, usize), k: int) -> (int, int) {
    (a.0 + k * (a.0 - b.0), a.1 + k * (a.1 - b.1))
}

/// Part two's antinodes: on the ray from one antenna of a pair, away
/// from the other, up to the first step off the grid.
pub open spec fn p2_anti(
    groups: Seq<(char, Seq<(usize, usize)>)>,
    cols: int,
    rows: int,
    q: (int, int),
) -> bool {
    exists|gi: int, i: int, j: int, k: int|
        #![trigger groups[gi].1[i], groups[gi].1[j], ray_at(groups[gi].1[i], groups[gi].1[j], k)]
        {
            &&& 0 <= gi < groups.len()
            &&& 0 <= i < j < groups[gi].1.len()
            &&& k >= 0
            &&& (q == ray_at(groups[gi].1[i], groups[gi].1[j], k) && (forall|k2: int|
                0 <= k2 <= k ==> in_b(
                    #[trigger] ray_at(groups[gi].1[i], groups[gi].1[j], k2),
                    cols,
                    rows,
                )) || (q == ray_at(groups[gi].1[j], groups[gi].1[i], k) && (forall|k2: int|
                0 <= k2 <= k ==> in_b(
                    #[trigger] ray_at(groups[gi].1[j], groups[gi].1[i], k2),
                    cols,
                    rows,
                ))))
        }
}

/// Whether an integer point is on the list.
pub open spec fn in_list(list: Seq<(isize, isize)>, q: (int, int)) -> bool {
    exists|w: int|
        0 <= w < list.len() && ((#[trigger] list[w]).0 as int, list[w].1 as int) == q
}

pub open spec fn nodup_list(list: Seq<(isize, isize)>) -> bool {
    forall|i: int, j: int| 0 <= i < j < list.len() ==> list[i] != list[j]
}

/// Push a point unless it is already on the list.
#[verifier::loop_isolation(false)]
fn push_new(list: &mut Vec<(isize, isize)>, q: (isize, isize))
    ensures
        forall|q2: (int, int)|
            in_list(final(list)@, q2) <==> (in_list(old(list)@, q2) || q2 == (
            q.0 as int,
            q.1 as int,
            )),
        nodup_list(old(list)@) ==> nodup_list(final(list)@),
{
    let mut w: usize = 0;
    while w < list.len()
        invariant
            w <= list@.len(),
            forall|m: int| 0 <= m < w ==> list@[m] != q,
        decreases list@.len() - w,
    {
        let e = list[w];
        if e.0 == q.0 && e.1 == q.1 {
            proof {
                assert(list@[w as int] == q);
                assert(in_list(list@, (q.0 as int, q.1 as int)));
                assert forall|q2: (int, int)|
                    in_list(list@, q2) <==> (in_list(list@, q2) || q2 == (
                    q.0 as int,
                    q.1 as int,
                    )) by {
                    if q2 == (q.0 as int, q.1 as int) {
                    }
                }
            }
            return ;
        }
        w += 1;
    }
    let ghost old_list = list@;
    list.push(q);
    proof {
        assert forall|q2: (int, int)|
            in_list(list@, q2) <==> (in_list(old_list, q2) || q2 == (
            q.0 as int,
            q.1 as int,
            )) by {
            if in_list(list@, q2) {
                let w2 = choose|w2: int|
                    0 <= w2 < list@.len() && ((#[trigger] list@[w2]).0 as int, list@[w2].1 as int)
                        == q2;
                if w2 < old_list.len() {
                    assert(old_list[w2] == list@[w2]);
                    assert(in_list(old_list, q2));
                }
            }
            if in_list(old_list, q2) {
                let w2 = choose|w2: int|
                    0 <= w2 < old_list.len() && ((#[trigger] old_list[w2]).0 as int,
                    old_list[w2].1 as int) == q2;
                assert(list@[w2] == old_list[w2]);
                assert(in_list(list@, q2));
            }
            if q2 == (q.0 as int, q.1 as int) {
                assert(list@[list@.len() - 1] == q);
                assert(in_list(list@, q2));
            }
        }
        if nodup_list(old_list) {
            assert forall|i: int, j: int|
                0 <= i < j < list@.len() implies list@[i] != list@[j] by {
                if j == list@.len() - 1 {
                    assert(list@[i] == old_list[i]);
                    assert(old_list[i] != q);
                } else {
                    assert(list@[i] == old_list[i] && list@[j] == old_list[j]);
                }
            }
        }
    }
}

impl AntennaMap {
    /// Whether a frequency's group is wide enough for its positions
    /// to stay inside `isize`.
    pub open spec fn wf(&self) -> bool {
        &&& self.cols <= 0x100000
        &&& self.rows <= 0x100000
        &&& forall|gi: int, i: int|
            0 <= gi < self.antennae_by_freq@.len() && 0 <= i < (#[trigger] self.antennae_by_freq@[
                gi]).1@.len() ==> ((#[trigger] self.antennae_by_freq@[gi].1@[i]).0 as int)
                <= 0x100000 && (self.antennae_by_freq@[gi].1@[i].1 as int) <= 0x100000
    }

    pub open spec fn groups(&self) -> Seq<(char, Seq<(usize, usize)>)> {
        self.antennae_by_freq@.map_values(|g: (char, Vec<(usize, usize)>)| (g.0, g.1@))
    }
}

pub struct P1;

impl P1 {
    /// Count the distinct mirror antinodes on the grid.
    #[verifier::loop_isolation(false)]
    #[verifier::rlimit(100)]
    #[verifier::spinoff_prover]
    pub fn solve(map: AntennaMap) -> (r: Result<usize, Error>)
        requires
            map.wf(),
        ensures
            match r {
                Ok(count) => exists|locs: Seq<(isize, isize)>|
                    #![trigger locs.len()]
                    {
                        &&& nodup_list(locs)
                        &&& (forall|q: (int, int)|
                            in_list(locs, q) <==> p1_anti(
                                map.groups(),
                                map.cols as int,
                                map.rows as int,
                                q,
                            ))
                        &&& count == locs.len()
                    },
                Err(_) => false,
            },
    {
        let ghost gs = map.groups();
        let ghost colsi = map.cols as int;
        let ghost rowsi = map.rows as int;
        let mut locs: Vec<(isize, isize)> = Vec::new();
        let mut gi: usize = 0;
        while gi < map.antennae_by_freq.len()
            invariant
                gi <= gs.len(),
                map.wf(),
                gs == map.groups(),
                nodup_list(locs@),
                forall|q: (int, int)|
                    in_list(locs@, q) <==> exists|g2: int, i2: int, j2: int|
                        #![trigger gs[g2].1[i2], gs[g2].1[j2]]
                        {
                            &&& 0 <= g2 < gs.len()
                            &&& 0 <= i2 < j2 < gs[g2].1.len()
                            &&& in_b(q, colsi, rowsi)
                            &&& (q == mirror(gs[g2].1[i2], gs[g2].1[j2]) || q == mirror(
                                gs[g2].1[j2],
                                gs[g2].1[i2],
                            ))
                            &&& g2 < gi
                        },
            decreases gs.len() - gi,
        {
            let group = &map.antennae_by_freq[gi];
            let n = group.1.len();
            let mut i: usize = 0;
            while i < n
                invariant
                    i <= n,
                    gi < gs.len(),
                    n == gs[gi as int].1.len(),
                    nodup_list(locs@),
                    forall|q: (int, int)|
                        in_list(locs@, q) <==> exists|g2: int, i2: int, j2: int|
                            #![trigger gs[g2].1[i2], gs[g2].1[j2]]
                            {
                                &&& 0 <= g2 < gs.len()
                                &&& 0 <= i2 < j2 < gs[g2].1.len()
                                &&& in_b(q, colsi, rowsi)
                                &&& (q == mirror(gs[g2].1[i2], gs[g2].1[j2]) || q == mirror(
                                    gs[g2].1[j2],
                                    gs[g2].1[i2],
                                ))
                                &&& (g2 < gi || (g2 == gi && i2 < i))
                            },
                decreases n - i,
            {
                let a = group.1[i];
                let mut j: usize = i + 1;
                while j < n
                    invariant
                        i < j <= n,
                        gi < gs.len(),
                        n == gs[gi as int].1.len(),
                        a == gs[gi as int].1[i as int],
                        nodup_list(locs@),
                        forall|q: (int, int)|
                            in_list(locs@, q) <==> exists|g2: int, i2: int, j2: int|
                                #![trigger gs[g2].1[i2], gs[g2].1[j2]]
                                {
                                    &&& 0 <= g2 < gs.len()
                                    &&& 0 <= i2 < j2 < gs[g2].1.len()
                                    &&& in_b(q, colsi, rowsi)
                                    &&& (q == mirror(gs[g2].1[i2], gs[g2].1[j2]) || q == mirror(
                                        gs[g2].1[j2],
                                        gs[g2].1[i2],
                                    ))
                                    &&& (g2 < gi || (g2 == gi && (i2 < i || (i2 == i && j2 < j))))
                                },
                    decreases n - j,
                {
                    let b = group.1[j];
                    proof {
                        assert(b == gs[gi as int].1[j as int]);
                        assert((a.0 as int) <= 0x100000 && (a.1 as int) <= 0x100000);
                        assert((b.0 as int) <= 0x100000 && (b.1 as int) <= 0x100000);
                    }
                    let n1x: i64 = 2 * (b.0 as i64) - (a.0 as i64);
                    let n1y: i64 = 2 * (b.1 as i64) - (a.1 as i64);
                    let n2x: i64 = 2 * (a.0 as i64) - (b.0 as i64);
                    let n2y: i64 = 2 * (a.1 as i64) - (b.1 as i64);
                    let ghost before = locs@;
                    if 0 <= n1x && n1x < map.cols as i64 && 0 <= n1y && n1y < map.rows as i64 {
                        push_new(&mut locs, (n1x as isize, n1y as isize));
                    }
                    let ghost after1 = locs@;
                    if 0 <= n2x && n2x < map.cols as i64 && 0 <= n2y && n2y < map.rows as i64 {
                        push_new(&mut locs, (n2x as isize, n2y as isize));
                    }
                    proof {
                        lemma_p1_pair(
                            gs,
                            colsi,
                            rowsi,
                            before,
                            after1,
                            locs@,
                            gi as int,
                            i as int,
                            j as int,
                        );
                    }
                    j += 1;
                }
                i += 1;
                proof {
                    assert forall|q: (int, int)|
                        in_list(locs@, q) <==> exists|g2: int, i2: int, j2: int|
                            #![trigger gs[g2].1[i2], gs[g2].1[j2]]
                            {
                                &&& 0 <= g2 < gs.len()
                                &&& 0 <= i2 < j2 < gs[g2].1.len()
                                &&& in_b(q, colsi, rowsi)
                                &&& (q == mirror(gs[g2].1[i2], gs[g2].1[j2]) || q == mirror(
                                    gs[g2].1[j2],
                                    gs[g2].1[i2],
                                ))
                                &&& (g2 < gi || (g2 == gi && i2 < i))
                            } by {}
                }
            }
            gi += 1;
            proof {
                assert forall|q: (int, int)|
                    in_list(locs@, q) <==> exists|g2: int, i2: int, j2: int|
                        #![trigger gs[g2].1[i2], gs[g2].1[j2]]
                        {
                            &&& 0 <= g2 < gs.len()
                            &&& 0 <= i2 < j2 < gs[g2].1.len()
                            &&& in_b(q, colsi, rowsi)
                            &&& (q == mirror(gs[g2].1[i2], gs[g2].1[j2]) || q == mirror(
                                gs[g2].1[j2],
                                gs[g2].1[i2],
                            ))
                            &&& g2 < gi
                        } by {}
            }
        }
        proof {
            assert forall|q: (int, int)|
                in_list(locs@, q) <==> p1_anti(gs, colsi, rowsi, q) by {}
        }
        Ok(locs.len())
    }
}

/// Handling one pair extends the antinode list by exactly the pair's
/// two in-grid mirrors.
proof fn lemma_p1_pair(
    gs: Seq<(char, Seq<(usize, usize)>)>,
    colsi: int,
    rowsi: int,
    before: Seq<(isize, isize)>,
    after1: Seq<(isize, isize)>,
    after2: Seq<(isize, isize)>,
    gi: int,
    i: int,
    j: int,
)
    requires
        0 <= gi < gs.len(),
        0 <= i < j < gs[gi].1.len(),
        forall|q2: (int, int)|
            in_list(after1, q2) <==> (in_list(before, q2) || (q2 == mirror(
                gs[gi].1[i],
                gs[gi].1[j],
            ) && in_b(q2, colsi, rowsi))),
        forall|q2: (int, int)|
            in_list(after2, q2) <==> (in_list(after1, q2) || (q2 == mirror(
                gs[gi].1[j],
                gs[gi].1[i],
            ) && in_b(q2, colsi, rowsi))),
        forall|q: (int, int)|
            in_list(before, q) <==> exists|g2: int, i2: int, j2: int|
                #![trigger gs[g2].1[i2], gs[g2].1[j2]]
                {
                    &&& 0 <= g2 < gs.len()
                    &&& 0 <= i2 < j2 < gs[g2].1.len()
                    &&& in_b(q, colsi, rowsi)
                    &&& (q == mirror(gs[g2].1[i2], gs[g2].1[j2]) || q == mirror(
                        gs[g2].1[j2],
                        gs[g2].1[i2],
                    ))
                    &&& (g2 < gi || (g2 == gi && (i2 < i || (i2 == i && j2 < j))))
                },
    ensures
        forall|q: (int, int)|
            in_list(after2, q) <==> exists|g2: int, i2: int, j2: int|
                #![trigger gs[g2].1[i2], gs[g2].1[j2]]
                {
                    &&& 0 <= g2 < gs.len()
                    &&& 0 <= i2 < j2 < gs[g2].1.len()
                    &&& in_b(q, colsi, rowsi)
                    &&& (q == mirror(gs[g2].1[i2], gs[g2].1[j2]) || q == mirror(
                        gs[g2].1[j2],
                        gs[g2].1[i2],
                    ))
                    &&& (g2 < gi || (g2 == gi && (i2 < i || (i2 == i && j2 < j + 1))))
                },
{
    assert forall|q: (int, int)|
        in_list(after2, q) <==> exists|g2: int, i2: int, j2: int|
            #![trigger gs[g2].1[i2], gs[g2].1[j2]]
            {
                &&& 0 <= g2 < gs.len()
                &&& 0 <= i2 < j2 < gs[g2].1.len()
                &&& in_b(q, colsi, rowsi)
                &&& (q == mirror(gs[g2].1[i2], gs[g2].1[j2]) || q == mirror(
                    gs[g2].1[j2],
                    gs[g2].1[i2],
                ))
                &&& (g2 < gi || (g2 == gi && (i2 < i || (i2 == i && j2 < j + 1))))
            } by {
        if in_list(after2, q) {
            if in_list(before, q) {
                let (g2, i2, j2) = choose|g2: int, i2: int, j2: int|
                    #![trigger gs[g2].1[i2], gs[g2].1[j2]]
                    {
                        &&& 0 <= g2 < gs.len()
                        &&& 0 <= i2 < j2 < gs[g2].1.len()
                        &&& in_b(q, colsi, rowsi)
                        &&& (q == mirror(gs[g2].1[i2], gs[g2].1[j2]) || q == mirror(
                            gs[g2].1[j2],
                            gs[g2].1[i2],
                        ))
                        &&& (g2 < gi || (g2 == gi && (i2 < i || (i2 == i && j2 < j))))
                    };
                assert(0 <= g2 < gs.len() && 0 <= i2 < j2 < gs[g2].1.len() && in_b(
                    q,
                    colsi,
                    rowsi,
                ) && (q == mirror(gs[g2].1[i2], gs[g2].1[j2]) || q == mirror(
                    gs[g2].1[j2],
                    gs[g2].1[i2],
                )) && (g2 < gi || (g2 == gi && (i2 < i || (i2 == i && j2 < j + 1)))));
            } else {
                assert(0 <= gi < gs.len() && 0 <= i < j < gs[gi].1.len() && in_b(
                    q,
                    colsi,
                    rowsi,
                ) && (q == mirror(gs[gi].1[i], gs[gi].1[j]) || q == mirror(
                    gs[gi].1[j],
                    gs[gi].1[i],
                )) && (gi < gi || (gi == gi && (i < i || (i == i && j < j + 1)))));
            }
        }
        if exists|g2: int, i2: int, j2: int|
            #![trigger gs[g2].1[i2], gs[g2].1[j2]]
            {
                &&& 0 <= g2 < gs.len()
                &&& 0 <= i2 < j2 < gs[g2].1.len()
                &&& in_b(q, colsi, rowsi)
                &&& (q == mirror(gs[g2].1[i2], gs[g2].1[j2]) || q == mirror(
                    gs[g2].1[j2],
                    gs[g2].1[i2],
                ))
                &&& (g2 < gi || (g2 == gi && (i2 < i || (i2 == i && j2 < j + 1))))
            } {
            let (g2, i2, j2) = choose|g2: int, i2: int, j2: int|
                #![trigger gs[g2].1[i2], gs[g2].1[j2]]
                {
                    &&& 0 <= g2 < gs.len()
                    &&& 0 <= i2 < j2 < gs[g2].1.len()
                    &&& in_b(q, colsi, rowsi)
                    &&& (q == mirror(gs[g2].1[i2], gs[g2].1[j2]) || q == mirror(
                        gs[g2].1[j2],
                        gs[g2].1[i2],
                    ))
                    &&& (g2 < gi || (g2 == gi && (i2 < i || (i2 == i && j2 < j + 1))))
                };
            if g2 < gi || (g2 == gi && (i2 < i || (i2 == i && j2 < j))) {
                assert(in_list(before, q));
            } else {
                assert(g2 == gi && i2 == i && j2 == j);
            }
            assert(in_list(after2, q));
        }
    }
}


/// The points of the ray from `a` away from `b`, up to the first step
/// off the grid.
pub open spec fn ray_pts(
    a: (usize, usize),
    b: (usize, usize),
    cols: int,
    rows: int,
    q: (int, int),
) -> bool {
    exists|k: int|
        #![trigger ray_at(a, b, k)]
        {
            &&& k >= 0
            &&& q == ray_at(a, b, k)
            &&& forall|k2: int| 0 <= k2 <= k ==> in_b(#[trigger] ray_at(a, b, k2), cols, rows)
        }
}

/// Walk one ray, collecting its on-grid points.
#[verifier::loop_isolation(false)]
#[verifier::rlimit(100)]
#[verifier::spinoff_prover]
fn walk_ray(
    locs: &mut Vec<(isize, isize)>,
    a: (usize, usize),
    b: (usize, usize),
    cols: usize,
    rows: usize,
)
    requires
        a != b,
        (a.0 as int) <= 0x100000 && (a.1 as int) <= 0x100000,
        (b.0 as int) <= 0x100000 && (b.1 as int) <= 0x100000,
        cols <= 0x100000,
        rows <= 0x100000,
    ensures
        forall|q: (int, int)|
            in_list(final(locs)@, q) <==> (in_list(old(locs)@, q) || ray_pts(
                a,
                b,
                cols as int,
                rows as int,
                q,
            )),
        nodup_list(old(locs)@) ==> nodup_list(final(locs)@),
{
    let ghost colsi = cols as int;
    let ghost rowsi = rows as int;
    let dx: i64 = a.0 as i64 - b.0 as i64;
    let dy: i64 = a.1 as i64 - b.1 as i64;
    let mut cx: i64 = a.0 as i64;
    let mut cy: i64 = a.1 as i64;
    let cols64: i64 = cols as i64;
    let rows64: i64 = rows as i64;
    let ghost mut kk: int = 0;
    proof {
        assert(dx != 0 || dy != 0) by {
            if dx == 0 && dy == 0 {
                assert(a.0 == b.0 && a.1 == b.1);
                assert(a == b);
            }
        }
        assert(ray_at(a, b, 0) == (a.0 as int, a.1 as int)) by {
            assert(0 * ((a.0 as int) - (b.0 as int)) == 0) by (nonlinear_arith);
            assert(0 * ((a.1 as int) - (b.1 as int)) == 0) by (nonlinear_arith);
        }
    }
    while 0 <= cx && cx < cols64 && 0 <= cy && cy < rows64
        invariant
            kk >= 0,
            cx == ray_at(a, b, kk).0,
            cy == ray_at(a, b, kk).1,
            -0x300000 <= cx <= 0x300000,
            -0x300000 <= cy <= 0x300000,
            forall|k2: int| 0 <= k2 < kk ==> in_b(#[trigger] ray_at(a, b, k2), colsi, rowsi),
            nodup_list(old(locs)@) ==> nodup_list(locs@),
            forall|q: (int, int)|
                in_list(locs@, q) <==> (in_list(old(locs)@, q) || exists|k: int|
                    #![trigger ray_at(a, b, k)]
                    {
                        &&& 0 <= k < kk
                        &&& q == ray_at(a, b, k)
                    }),
        decreases (if dx > 0 {
            if cols64 - cx >= 0 {
                cols64 - cx
            } else {
                0int
            }
        } else if dx < 0 {
            if cx + 0x300000 >= 0 {
                cx + 0x300000
            } else {
                0int
            }
        } else if dy > 0 {
            if rows64 - cy >= 0 {
                rows64 - cy
            } else {
                0int
            }
        } else {
            if cy + 0x300000 >= 0 {
                cy + 0x300000
            } else {
                0int
            }
        }),
    {
        push_new(locs, (cx as isize, cy as isize));
        proof {
            assert(dx != 0 || dy != 0) by {
                if dx == 0 && dy == 0 {
                    assert(a.0 == b.0 && a.1 == b.1);
                    assert(a == b);
                }
            }
            assert(in_b(ray_at(a, b, kk), colsi, rowsi));
            assert((kk + 1) * ((a.0 as int) - (b.0 as int)) == kk * ((a.0 as int) - (b.0 as int))
                + ((a.0 as int) - (b.0 as int))) by (nonlinear_arith);
            assert((kk + 1) * ((a.1 as int) - (b.1 as int)) == kk * ((a.1 as int) - (b.1 as int))
                + ((a.1 as int) - (b.1 as int))) by (nonlinear_arith);
            assert(ray_at(a, b, kk + 1).0 == cx + dx);
            assert(ray_at(a, b, kk + 1).1 == cy + dy);
        }
        let ghost mid_list = locs@;
        cx = cx + dx;
        cy = cy + dy;
        proof {
            let old_kk = kk;
            kk = kk + 1;
            assert forall|q: (int, int)|
                in_list(locs@, q) <==> (in_list(old(locs)@, q) || exists|k: int|
                    #![trigger ray_at(a, b, k)]
                    {
                        &&& 0 <= k < kk
                        &&& q == ray_at(a, b, k)
                    }) by {
                if in_list(locs@, q) && !in_list(old(locs)@, q) {
                    if q == (ray_at(a, b, old_kk).0, ray_at(a, b, old_kk).1) {
                        assert(q == ray_at(a, b, old_kk));
                    } else {
                        let k = choose|k: int|
                            #![trigger ray_at(a, b, k)]
                            0 <= k < old_kk && q == ray_at(a, b, k);
                        assert(0 <= k < kk && q == ray_at(a, b, k));
                    }
                }
                if !in_list(locs@, q) && (exists|k: int|
                    #![trigger ray_at(a, b, k)]
                    0 <= k < kk && q == ray_at(a, b, k)) {
                    let k = choose|k: int|
                        #![trigger ray_at(a, b, k)]
                        0 <= k < kk && q == ray_at(a, b, k);
                    if k < old_kk {
                        assert(in_list(mid_list, q));
                    } else {
                        assert(k == old_kk);
                        assert(q == (ray_at(a, b, old_kk).0, ray_at(a, b, old_kk).1));
                        assert(in_list(mid_list, q));
                    }
                    assert(false);
                }
            }
        }
    }
    proof {
        assert(!in_b(ray_at(a, b, kk), colsi, rowsi));
        assert forall|q: (int, int)|
            in_list(locs@, q) <==> (in_list(old(locs)@, q) || ray_pts(a, b, colsi, rowsi, q)) by {
            if in_list(locs@, q) && !in_list(old(locs)@, q) {
                let k = choose|k: int|
                    #![trigger ray_at(a, b, k)]
                    0 <= k < kk && q == ray_at(a, b, k);
                assert forall|k2: int| 0 <= k2 <= k implies in_b(
                    #[trigger] ray_at(a, b, k2),
                    colsi,
                    rowsi,
                ) by {}
                assert(ray_pts(a, b, colsi, rowsi, q));
            }
            if ray_pts(a, b, colsi, rowsi, q) && !in_list(locs@, q) {
                let k = choose|k: int|
                    #![trigger ray_at(a, b, k)]
                    {
                        &&& k >= 0
                        &&& q == ray_at(a, b, k)
                        &&& forall|k2: int|
                            0 <= k2 <= k ==> in_b(#[trigger] ray_at(a, b, k2), colsi, rowsi)
                    };
                if k >= kk {
                    assert(in_b(ray_at(a, b, kk), colsi, rowsi));
                    assert(false);
                }
                assert(false);
            }
        }
    }
}

pub struct P2;

impl P2 {
    /// Count the distinct ray antinodes on the grid.
    #[verifier::loop_isolation(false)]
    #[verifier::rlimit(100)]
    #[verifier::spinoff_prover]
    pub fn solve(map: AntennaMap) -> (r: Result<usize, Error>)
        requires
            map.wf(),
            forall|gi: int, i: int, j: int|
                #![trigger map.groups()[gi].1[i], map.groups()[gi].1[j]]
                0 <= gi < map.groups().len() && 0 <= i < j < map.groups()[gi].1.len()
                    ==> map.groups()[gi].1[i] != map.groups()[gi].1[j],
        ensures
            match r {
                Ok(count) => exists|locs: Seq<(isize, isize)>|
                    #![trigger locs.len()]
                    {
                        &&& nodup_list(locs)
                        &&& (forall|q: (int, int)|
                            in_list(locs, q) <==> p2_anti(
                                map.groups(),
                                map.cols as int,
                                map.rows as int,
                                q,
                            ))
                        &&& count == locs.len()
                    },
                Err(_) => false,
            },
    {
        let ghost gs = map.groups();
        let ghost colsi = map.cols as int;
        let ghost rowsi = map.rows as int;
        let mut locs: Vec<(isize, isize)> = Vec::new();
        let mut gi: usize = 0;
        while gi < map.antennae_by_freq.len()
            invariant
                gi <= gs.len(),
                map.wf(),
                gs == map.groups(),
                forall|g2: int, i2: int, j2: int|
                    #![trigger gs[g2].1[i2], gs[g2].1[j2]]
                    0 <= g2 < gs.len() && 0 <= i2 < j2 < gs[g2].1.len() ==> gs[g2].1[i2] != gs[
                        g2].1[j2],
                nodup_list(locs@),
                forall|q: (int, int)|
                    in_list(locs@, q) <==> exists|g2: int, i2: int, j2: int|
                        #![trigger gs[g2].1[i2], gs[g2].1[j2]]
                        {
                            &&& 0 <= g2 < gs.len()
                            &&& 0 <= i2 < j2 < gs[g2].1.len()
                            &&& (ray_pts(gs[g2].1[i2], gs[g2].1[j2], colsi, rowsi, q) || ray_pts(
                                gs[g2].1[j2],
                                gs[g2].1[i2],
                                colsi,
                                rowsi,
                                q,
                            ))
                            &&& g2 < gi
                        },
            decreases gs.len() - gi,
        {
            let group = &map.antennae_by_freq[gi];
            let n = group.1.len();
            let mut i: usize = 0;
            while i < n
                invariant
                    i <= n,
                    gi < gs.len(),
                    n == gs[gi as int].1.len(),
                    nodup_list(locs@),
                    forall|q: (int, int)|
                        in_list(locs@, q) <==> exists|g2: int, i2: int, j2: int|
                            #![trigger gs[g2].1[i2], gs[g2].1[j2]]
                            {
                                &&& 0 <= g2 < gs.len()
                                &&& 0 <= i2 < j2 < gs[g2].1.len()
                                &&& (ray_pts(gs[g2].1[i2], gs[g2].1[j2], colsi, rowsi, q)
                                    || ray_pts(gs[g2].1[j2], gs[g2].1[i2], colsi, rowsi, q))
                                &&& (g2 < gi || (g2 == gi && i2 < i))
                            },
                decreases n - i,
            {
                let a = group.1[i];
                let mut j: usize = i + 1;
                while j < n
                    invariant
                        i < j <= n,
                        gi < gs.len(),
                        n == gs[gi as int].1.len(),
                        a == gs[gi as int].1[i as int],
                        nodup_list(locs@),
                        forall|q: (int, int)|
                            in_list(locs@, q) <==> exists|g2: int, i2: int, j2: int|
                                #![trigger gs[g2].1[i2], gs[g2].1[j2]]
                                {
                                    &&& 0 <= g2 < gs.len()
                                    &&& 0 <= i2 < j2 < gs[g2].1.len()
                                    &&& (ray_pts(gs[g2].1[i2], gs[g2].1[j2], colsi, rowsi, q)
                                        || ray_pts(gs[g2].1[j2], gs[g2].1[i2], colsi, rowsi, q))
                                    &&& (g2 < gi || (g2 == gi && (i2 < i || (i2 == i && j2
                                        < j))))
                                },
                    decreases n - j,
                {
                    let b = group.1[j];
                    proof {
                        assert(b == gs[gi as int].1[j as int]);
                        assert(a != b);
                        assert((a.0 as int) <= 0x100000 && (a.1 as int) <= 0x100000);
                        assert((b.0 as int) <= 0x100000 && (b.1 as int) <= 0x100000);
                    }
                    let ghost before = locs@;
                    walk_ray(&mut locs, a, b, map.cols, map.rows);
                    let ghost after1 = locs@;
                    walk_ray(&mut locs, b, a, map.cols, map.rows);
                    proof {
                        lemma_p2_pair(
                            gs,
                            colsi,
                            rowsi,
                            before,
                            after1,
                            locs@,
                            gi as int,
                            i as int,
                            j as int,
                        );
                    }
                    j += 1;
                }
                i += 1;
                proof {
                    assert forall|q: (int, int)|
                        in_list(locs@, q) <==> exists|g2: int, i2: int, j2: int|
                            #![trigger gs[g2].1[i2], gs[g2].1[j2]]
                            {
                                &&& 0 <= g2 < gs.len()
                                &&& 0 <= i2 < j2 < gs[g2].1.len()
                                &&& (ray_pts(gs[g2].1[i2], gs[g2].1[j2], colsi, rowsi, q)
                                    || ray_pts(gs[g2].1[j2], gs[g2].1[i2], colsi, rowsi, q))
                                &&& (g2 < gi || (g2 == gi && i2 < i))
                            } by {}
                }
            }
            gi += 1;
            proof {
                assert forall|q: (int, int)|
                    in_list(locs@, q) <==> exists|g2: int, i2: int, j2: int|
                        #![trigger gs[g2].1[i2], gs[g2].1[j2]]
                        {
                            &&& 0 <= g2 < gs.len()
                            &&& 0 <= i2 < j2 < gs[g2].1.len()
                            &&& (ray_pts(gs[g2].1[i2], gs[g2].1[j2], colsi, rowsi, q) || ray_pts(
                                gs[g2].1[j2],
                                gs[g2].1[i2],
                                colsi,
                                rowsi,
                                q,
                            ))
                            &&& g2 < gi
                        } by {}
            }
        }
        proof {
            assert forall|q: (int, int)|
                in_list(locs@, q) <==> p2_anti(gs, colsi, rowsi, q) by {
                if in_list(locs@, q) {
                    let (g2, i2, j2) = choose|g2: int, i2: int, j2: int|
                        #![trigger gs[g2].1[i2], gs[g2].1[j2]]
                        {
                            &&& 0 <= g2 < gs.len()
                            &&& 0 <= i2 < j2 < gs[g2].1.len()
                            &&& (ray_pts(gs[g2].1[i2], gs[g2].1[j2], colsi, rowsi, q) || ray_pts(
                                gs[g2].1[j2],
                                gs[g2].1[i2],
                                colsi,
                                rowsi,
                                q,
                            ))
                            &&& g2 < gs.len()
                        };
                    if ray_pts(gs[g2].1[i2], gs[g2].1[j2], colsi, rowsi, q) {
                        let aa = gs[g2].1[i2];
                        let bb = gs[g2].1[j2];
                        let k = choose|k: int|
                            #![trigger ray_at(aa, bb, k)]
                            {
                                &&& k >= 0
                                &&& q == ray_at(aa, bb, k)
                                &&& forall|k2: int|
                                    0 <= k2 <= k ==> in_b(#[trigger] ray_at(aa, bb, k2), colsi, rowsi)
                            };
                        assert(ray_at(gs[g2].1[i2], gs[g2].1[j2], k) == q);
                        assert(p2_anti(gs, colsi, rowsi, q));
                    } else {
                        let aa = gs[g2].1[j2];
                        let bb = gs[g2].1[i2];
                        let k = choose|k: int|
                            #![trigger ray_at(aa, bb, k)]
                            {
                                &&& k >= 0
                                &&& q == ray_at(aa, bb, k)
                                &&& forall|k2: int|
                                    0 <= k2 <= k ==> in_b(#[trigger] ray_at(aa, bb, k2), colsi, rowsi)
                            };
                        assert(ray_at(gs[g2].1[j2], gs[g2].1[i2], k) == q);
                        let wterm = ray_at(gs[g2].1[i2], gs[g2].1[j2], k);
                        assert(wterm == ray_at(gs[g2].1[i2], gs[g2].1[j2], k));
                        assert(p2_anti(gs, colsi, rowsi, q));
                    }
                }
                if p2_anti(gs, colsi, rowsi, q) {
                    let (g2, i2, j2, k) = choose|g2: int, i2: int, j2: int, k: int|
                        #![trigger gs[g2].1[i2], gs[g2].1[j2], ray_at(gs[g2].1[i2], gs[g2].1[j2], k)]
                        {
                            &&& 0 <= g2 < gs.len()
                            &&& 0 <= i2 < j2 < gs[g2].1.len()
                            &&& k >= 0
                            &&& (q == ray_at(gs[g2].1[i2], gs[g2].1[j2], k) && (forall|k2: int|
                                0 <= k2 <= k ==> in_b(
                                    #[trigger] ray_at(gs[g2].1[i2], gs[g2].1[j2], k2),
                                    colsi,
                                    rowsi,
                                )) || (q == ray_at(gs[g2].1[j2], gs[g2].1[i2], k) && (forall|
                                k2: int,
                            |
                                0 <= k2 <= k ==> in_b(
                                    #[trigger] ray_at(gs[g2].1[j2], gs[g2].1[i2], k2),
                                    colsi,
                                    rowsi,
                                ))))
                        };
                    if q == ray_at(gs[g2].1[i2], gs[g2].1[j2], k) && (forall|k2: int|
                        0 <= k2 <= k ==> in_b(
                            #[trigger] ray_at(gs[g2].1[i2], gs[g2].1[j2], k2),
                            colsi,
                            rowsi,
                        )) {
                        assert(ray_pts(gs[g2].1[i2], gs[g2].1[j2], colsi, rowsi, q));
                    } else {
                        assert(ray_pts(gs[g2].1[j2], gs[g2].1[i2], colsi, rowsi, q));
                    }
                    assert(in_list(locs@, q));
                }
            }
        }
        Ok(locs.len())
    }
}

/// Handling one pair extends the antinode list by exactly its two
/// rays.
proof fn lemma_p2_pair(
    gs: Seq<(char, Seq<(usize, usize)>)>,
    colsi: int,
    rowsi: int,
    before: Seq<(isize, isize)>,
    after1: Seq<(isize, isize)>,
    after2: Seq<(isize, isize)>,
    gi: int,
    i: int,
    j: int,
)
    requires
        0 <= gi < gs.len(),
        0 <= i < j < gs[gi].1.len(),
        forall|q2: (int, int)|
            in_list(after1, q2) <==> (in_list(before, q2) || ray_pts(
                gs[gi].1[i],
                gs[gi].1[j],
                colsi,
                rowsi,
                q2,
            )),
        forall|q2: (int, int)|
            in_list(after2, q2) <==> (in_list(after1, q2) || ray_pts(
                gs[gi].1[j],
                gs[gi].1[i],
                colsi,
                rowsi,
                q2,
            )),
        forall|q: (int, int)|
            in_list(before, q) <==> exists|g2: int, i2: int, j2: int|
                #![trigger gs[g2].1[i2], gs[g2].1[j2]]
                {
                    &&& 0 <= g2 < gs.len()
                    &&& 0 <= i2 < j2 < gs[g2].1.len()
                    &&& (ray_pts(gs[g2].1[i2], gs[g2].1[j2], colsi, rowsi, q) || ray_pts(
                        gs[g2].1[j2],
                        gs[g2].1[i2],
                        colsi,
                        rowsi,
                        q,
                    ))
                    &&& (g2 < gi || (g2 == gi && (i2 < i || (i2 == i && j2 < j))))
                },
    ensures
        forall|q: (int, int)|
            in_list(after2, q) <==> exists|g2: int, i2: int, j2: int|
                #![trigger gs[g2].1[i2], gs[g2].1[j2]]
                {
                    &&& 0 <= g2 < gs.len()
                    &&& 0 <= i2 < j2 < gs[g2].1.len()
                    &&& (ray_pts(gs[g2].1[i2], gs[g2].1[j2], colsi, rowsi, q) || ray_pts(
                        gs[g2].1[j2],
                        gs[g2].1[i2],
                        colsi,
                        rowsi,
                        q,
                    ))
                    &&& (g2 < gi || (g2 == gi && (i2 < i || (i2 == i && j2 < j + 1))))
                },
{
    assert forall|q: (int, int)|
        in_list(after2, q) <==> exists|g2: int, i2: int, j2: int|
            #![trigger gs[g2].1[i2], gs[g2].1[j2]]
            {
                &&& 0 <= g2 < gs.len()
                &&& 0 <= i2 < j2 < gs[g2].1.len()
                &&& (ray_pts(gs[g2].1[i2], gs[g2].1[j2], colsi, rowsi, q) || ray_pts(
                    gs[g2].1[j2],
                    gs[g2].1[i2],
                    colsi,
                    rowsi,
                    q,
                ))
                &&& (g2 < gi || (g2 == gi && (i2 < i || (i2 == i && j2 < j + 1))))
            } by {
        if in_list(after2, q) {
            if in_list(before, q) {
                let (g2, i2, j2) = choose|g2: int, i2: int, j2: int|
                    #![trigger gs[g2].1[i2], gs[g2].1[j2]]
                    {
                        &&& 0 <= g2 < gs.len()
                        &&& 0 <= i2 < j2 < gs[g2].1.len()
                        &&& (ray_pts(gs[g2].1[i2], gs[g2].1[j2], colsi, rowsi, q) || ray_pts(
                            gs[g2].1[j2],
                            gs[g2].1[i2],
                            colsi,
                            rowsi,
                            q,
                        ))
                        &&& (g2 < gi || (g2 == gi && (i2 < i || (i2 == i && j2 < j))))
                    };
                assert(0 <= g2 < gs.len() && 0 <= i2 < j2 < gs[g2].1.len() && (ray_pts(
                    gs[g2].1[i2],
                    gs[g2].1[j2],
                    colsi,
                    rowsi,
                    q,
                ) || ray_pts(gs[g2].1[j2], gs[g2].1[i2], colsi, rowsi, q)) && (g2 < gi || (g2
                    == gi && (i2 < i || (i2 == i && j2 < j + 1)))));
            } else {
                assert(ray_pts(gs[gi].1[i], gs[gi].1[j], colsi, rowsi, q) || ray_pts(
                    gs[gi].1[j],
                    gs[gi].1[i],
                    colsi,
                    rowsi,
                    q,
                ));
                assert(0 <= gi < gs.len() && 0 <= i < j < gs[gi].1.len() && (gi < gi || (gi == gi
                    && (i < i || (i == i && j < j + 1)))));
            }
        }
        if exists|g2: int, i2: int, j2: int|
            #![trigger gs[g2].1[i2], gs[g2].1[j2]]
            {
                &&& 0 <= g2 < gs.len()
                &&& 0 <= i2 < j2 < gs[g2].1.len()
                &&& (ray_pts(gs[g2].1[i2], gs[g2].1[j2], colsi, rowsi, q) || ray_pts(
                    gs[g2].1[j2],
                    gs[g2].1[i2],
                    colsi,
                    rowsi,
                    q,
                ))
                &&& (g2 < gi || (g2 == gi && (i2 < i || (i2 == i && j2 < j + 1))))
            } {
            let (g2, i2, j2) = choose|g2: int, i2: int, j2: int|
                #![trigger gs[g2].1[i2], gs[g2].1[j2]]
                {
                    &&& 0 <= g2 < gs.len()
                    &&& 0 <= i2 < j2 < gs[g2].1.len()
                    &&& (ray_pts(gs[g2].1[i2], gs[g2].1[j2], colsi, rowsi, q) || ray_pts(
                        gs[g2].1[j2],
                        gs[g2].1[i2],
                        colsi,
                        rowsi,
                        q,
                    ))
                    &&& (g2 < gi || (g2 == gi && (i2 < i || (i2 == i && j2 < j + 1))))
                };
            if g2 < gi || (g2 == gi && (i2 < i || (i2 == i && j2 < j))) {
                assert(in_list(before, q));
            } else {
                assert(g2 == gi && i2 == i && j2 == j);
            }
            assert(in_list(after2, q));
        }
    }
}


/// The antennas of row `row` (from column `col` on): every non-`'.'`
/// byte with its frequency and cell.
pub open spec fn ants_row(l: Seq<u8>, row: int, col: int) -> Seq<(char, (usize, usize))>
    decreases l.len() - col,
{
    if col < 0 || col >= l.len() {
        Seq::empty()
    } else {
        (if l[col] != 46 {
            seq![((l[col] as char), (((col as usize)), ((row as usize))))]
        } else {
            Seq::empty()
        }) + ants_row(l, row, col + 1)
    }
}

/// Every antenna of the map, in row-major scan order.
pub open spec fn ants_of(lss: Seq<Seq<u8>>, y: int) -> Seq<(char, (usize, usize))>
    decreases lss.len() - y,
{
    if y < 0 || y >= lss.len() {
        Seq::empty()
    } else {
        ants_row(lss[y], y, 0) + ants_of(lss, y + 1)
    }
}

/// The cells of the antennas of one frequency, in scan order.
pub open spec fn positions_of(flat: Seq<(char, (usize, usize))>, ch: char) -> Seq<(usize, usize)>
    decreases flat.len(),
{
    if flat.len() == 0 {
        Seq::empty()
    } else {
        (if flat[0].0 == ch {
            seq![flat[0].1]
        } else {
            Seq::empty()
        }) + positions_of(flat.skip(1), ch)
    }
}

/// Whether some antenna of the list has the frequency.
pub open spec fn has_freq(flat: Seq<(char, (usize, usize))>, ch: char) -> bool {
    exists|w: int| 0 <= w < flat.len() && (#[trigger] flat[w]).0 == ch
}

proof fn lemma_positions_sub(flat: Seq<(char, (usize, usize))>, ch: char)
    ensures
        forall|m: int|
            0 <= m < positions_of(flat, ch).len() ==> exists|w: int|
                0 <= w < flat.len() && (#[trigger] flat[w]) == (
                ch,
                (#[trigger] positions_of(flat, ch)[m]),
                ),
        positions_of(flat, ch).len() > 0 ==> has_freq(flat, ch),
        has_freq(flat, ch) ==> positions_of(flat, ch).len() > 0,
    decreases flat.len(),
{
    if flat.len() > 0 {
        lemma_positions_sub(flat.skip(1), ch);
        assert forall|m: int|
            0 <= m < positions_of(flat, ch).len() implies exists|w: int|
                0 <= w < flat.len() && (#[trigger] flat[w]) == (
                ch,
                (#[trigger] positions_of(flat, ch)[m]),
                ) by {
            let head = (if flat[0].0 == ch {
                seq![flat[0].1]
            } else {
                Seq::<(usize, usize)>::empty()
            });
            if m < head.len() {
                assert(flat[0] == (ch, positions_of(flat, ch)[m]));
            } else {
                assert(positions_of(flat, ch)[m] == positions_of(flat.skip(1), ch)[m - head.len()]);
                let w = choose|w: int|
                    0 <= w < flat.skip(1).len() && (#[trigger] flat.skip(1)[w]) == (
                    ch,
                    positions_of(flat.skip(1), ch)[m - head.len()],
                    );
                assert(flat[w + 1] == (ch, positions_of(flat, ch)[m]));
            }
        }
        if has_freq(flat, ch) && positions_of(flat, ch).len() == 0 {
            let w = choose|w: int| 0 <= w < flat.len() && (#[trigger] flat[w]).0 == ch;
            if w == 0 {
            } else {
                assert(flat.skip(1)[w - 1].0 == ch);
                assert(has_freq(flat.skip(1), ch));
            }
            assert(false);
        }
    }
}

/// Distinct cells in the flat list stay distinct per frequency.
proof fn lemma_positions_nodup(flat: Seq<(char, (usize, usize))>, ch: char)
    requires
        forall|w1: int, w2: int|
            0 <= w1 < w2 < flat.len() ==> (#[trigger] flat[w1]).1 != (#[trigger] flat[w2]).1,
    ensures
        forall|m1: int, m2: int|
            0 <= m1 < m2 < positions_of(flat, ch).len() ==> #[trigger] positions_of(flat, ch)[m1]
                != #[trigger] positions_of(flat, ch)[m2],
    decreases flat.len(),
{
    if flat.len() > 0 {
        assert forall|w1: int, w2: int|
            0 <= w1 < w2 < flat.skip(1).len() implies (#[trigger] flat.skip(1)[w1]).1 != (
            #[trigger] flat.skip(1)[w2]).1 by {
            assert(flat.skip(1)[w1] == flat[w1 + 1] && flat.skip(1)[w2] == flat[w2 + 1]);
        }
        lemma_positions_nodup(flat.skip(1), ch);
        lemma_positions_sub(flat.skip(1), ch);
        assert forall|m1: int, m2: int|
            0 <= m1 < m2 < positions_of(flat, ch).len() implies #[trigger] positions_of(
            flat,
            ch,
        )[m1] != #[trigger] positions_of(flat, ch)[m2] by {
            let head = (if flat[0].0 == ch {
                seq![flat[0].1]
            } else {
                Seq::<(usize, usize)>::empty()
            });
            if m1 < head.len() {
                assert(positions_of(flat, ch)[m1] == flat[0].1);
                assert(positions_of(flat, ch)[m2] == positions_of(flat.skip(1), ch)[m2
                    - head.len()]);
                let w = choose|w: int|
                    0 <= w < flat.skip(1).len() && (#[trigger] flat.skip(1)[w]) == (
                    ch,
                    positions_of(flat.skip(1), ch)[m2 - head.len()],
                    );
                assert(flat[w + 1].1 == positions_of(flat, ch)[m2]);
                assert(flat[0].1 != flat[w + 1].1);
            } else {
                assert(positions_of(flat, ch)[m1] == positions_of(flat.skip(1), ch)[m1
                    - head.len()]);
                assert(positions_of(flat, ch)[m2] == positions_of(flat.skip(1), ch)[m2
                    - head.len()]);
            }
        }
    }
}

impl AntennaMap {
    /// Read the antenna map. The grid size records the row count and
    /// the width of the last line, as the line scan leaves them.
    /// Oversized inputs are rejected so the coordinates stay small.
    #[verifier::loop_isolation(false)]
    #[verifier::rlimit(100)]
    #[verifier::spinoff_prover]
    pub fn read(input: &[u8]) -> (r: Result<AntennaMap, InputError>)
        ensures
            match r {
                Ok(m) => {
                    let lss = split_lines(input@);
                    let flat = ants_of(lss, 0);
                    &&& m.wf()
                    &&& m.rows == lss.len()
                    &&& (m.cols as int) == (if lss.len() > 0 {
                        lss.last().len() as int
                    } else {
                        0int
                    })
                    &&& forall|k1: int, k2: int|
                        0 <= k1 < k2 < m.groups().len() ==> (#[trigger] m.groups()[k1]).0 != (
                        #[trigger] m.groups()[k2]).0
                    &&& forall|k: int|
                        0 <= k < m.groups().len() ==> (#[trigger] m.groups()[k]).1 == positions_of(
                            flat,
                            m.groups()[k].0,
                        )
                    &&& forall|ch: char|
                        #[trigger] has_freq(flat, ch) ==> exists|k: int|
                            0 <= k < m.groups().len() && (#[trigger] m.groups()[k]).0 == ch
                    &&& forall|gi: int, i: int, j: int|
                        #![trigger m.groups()[gi].1[i], m.groups()[gi].1[j]]
                        0 <= gi < m.groups().len() && 0 <= i < j < m.groups()[gi].1.len()
                            ==> m.groups()[gi].1[i] != m.groups()[gi].1[j]
                },
                Err(e) => {
                    let lss = split_lines(input@);
                    &&& e is InvalidInput
                    &&& (lss.len() > 0x100000 || exists|i: int|
                        0 <= i < lss.len() && (#[trigger] lss[i]).len() > 0x100000)
                },
            },
    {
        let ls = lines(input);
        let ghost lss = split_lines(input@);
        if ls.len() > 0x100000 {
            return Err(InputError::invalid("map has too many rows"));
        }
        // first a flat scan of every antenna
        let mut flat: Vec<(char, (usize, usize))> = Vec::new();
        let mut y: usize = 0;
        let mut cols: usize = 0;
        proof {
            assert(flat@ + ants_of(lss, 0) =~= ants_of(lss, 0));
        }
        while y < ls.len()
            invariant
                y <= ls@.len(),
                ls@.len() <= 0x100000,
                ants_of(lss, 0) == flat@ + ants_of(lss, y as int),
                cols == (if y > 0 {
                    lss[y as int - 1].len() as int
                } else {
                    0int
                }),
                cols <= 0x100000,
                forall|w: int|
                    0 <= w < flat@.len() ==> ((#[trigger] flat@[w]).1.0 as int) <= 0x100000 && (
                    flat@[w].1.1 as int) <= 0x100000,
                forall|w1: int, w2: int|
                    0 <= w1 < w2 < flat@.len() ==> (#[trigger] flat@[w1]).1 != (
                    #[trigger] flat@[w2]).1,
                forall|w: int|
                    0 <= w < flat@.len() ==> ((#[trigger] flat@[w]).1.1 as int) < y,
            decreases ls@.len() - y,
        {
            let line = &ls[y];
            proof {
                assert(ls@[y as int]@ == lss[y as int]);
            }
            if line.len() > 0x100000 {
                proof {
                    assert(lss[y as int].len() > 0x100000);
                }
                return Err(InputError::invalid("map row is too wide"));
            }
            cols = line.len();
            let mut x: usize = 0;
            proof {
                assert(ants_of(lss, y as int) == ants_row(lss[y as int], y as int, 0) + ants_of(
                    lss,
                    y as int + 1,
                ));
            }
            while x < line.len()
                invariant
                    x <= line@.len(),
                    y < ls@.len(),
                    line@ == lss[y as int],
                    line@.len() <= 0x100000,
                    ants_of(lss, 0) == flat@ + ants_row(lss[y as int], y as int, x as int)
                        + ants_of(lss, y as int + 1),
                    forall|w: int|
                        0 <= w < flat@.len() ==> ((#[trigger] flat@[w]).1.0 as int) <= 0x100000
                            && (flat@[w].1.1 as int) <= 0x100000,
                    forall|w1: int, w2: int|
                        0 <= w1 < w2 < flat@.len() ==> (#[trigger] flat@[w1]).1 != (
                        #[trigger] flat@[w2]).1,
                    forall|w: int|
                        0 <= w < flat@.len() ==> ((#[trigger] flat@[w]).1.1 as int) < y || ((
                        flat@[w].1.1 as int) == y && (flat@[w].1.0 as int) < x),
                decreases line@.len() - x,
            {
                let c = line[x];
                let ghost old_flat = flat@;
                if c != 46 {
                    flat.push((c as char, (x, y)));
                    proof {
                        assert(flat@ =~= old_flat.push(((c as char), (x, y))));
                        assert(ants_row(lss[y as int], y as int, x as int) =~= seq![
                            ((c as char), (x, y)),
                        ] + ants_row(lss[y as int], y as int, x as int + 1));
                        assert((old_flat + seq![((c as char), (x, y))]) + (ants_row(
                            lss[y as int],
                            y as int,
                            x as int + 1,
                        ) + ants_of(lss, y as int + 1)) =~= old_flat + (seq![
                            ((c as char), (x, y)),
                        ] + ants_row(lss[y as int], y as int, x as int + 1)) + ants_of(
                            lss,
                            y as int + 1,
                        ));
                        assert(flat@ =~= old_flat + seq![((c as char), (x, y))]);
                    }
                } else {
                    proof {
                        assert(ants_row(lss[y as int], y as int, x as int) =~= ants_row(
                            lss[y as int],
                            y as int,
                            x as int + 1,
                        ));
                    }
                }
                x += 1;
            }
            proof {
                assert(ants_row(lss[y as int], y as int, line@.len() as int)
                    =~= Seq::<(char, (usize, usize))>::empty());
                assert(flat@ + Seq::<(char, (usize, usize))>::empty() + ants_of(
                    lss,
                    y as int + 1,
                ) =~= flat@ + ants_of(lss, y as int + 1));
            }
            y += 1;
        }
        proof {
            assert(ants_of(lss, ls@.len() as int) =~= Seq::<(char, (usize, usize))>::empty());
            assert(flat@ + Seq::<(char, (usize, usize))>::empty() =~= flat@);
            assert(flat@ == ants_of(lss, 0));
        }
        // then group the antennas by frequency, in first-appearance order
        let ghost flats = flat@;
        let mut groups: Vec<(char, Vec<(usize, usize)>)> = Vec::new();
        let mut i: usize = 0;
        while i < flat.len()
            invariant
                i <= flats.len(),
                flats == flat@,
                cols <= 0x100000,
                ls@.len() <= 0x100000,
                forall|k1: int, k2: int|
                    0 <= k1 < k2 < groups@.len() ==> (#[trigger] groups@[k1]).0 != (
                    #[trigger] groups@[k2]).0,
                forall|k: int|
                    0 <= k < groups@.len() ==> (#[trigger] groups@[k]).1@ == positions_of(
                        flats,
                        groups@[k].0,
                    ),
                forall|w: int|
                    0 <= w < i ==> exists|k: int|
                        0 <= k < groups@.len() && (#[trigger] groups@[k]).0 == (
                        #[trigger] flats[w]).0,
            decreases flats.len() - i,
        {
            let ghost groups_before = groups@;
            let ch = flat[i].0;
            // seen before?
            let mut seen = false;
            let mut k: usize = 0;
            while k < groups.len()
                invariant
                    k <= groups@.len(),
                    seen ==> exists|k2: int|
                        0 <= k2 < groups@.len() && (#[trigger] groups@[k2]).0 == ch,
                    !seen ==> forall|k2: int| 0 <= k2 < k ==> (#[trigger] groups@[k2]).0 != ch,
                decreases groups@.len() - k + (if seen {
                    0int
                } else {
                    1int
                }),
            {
                if groups[k].0 == ch {
                    seen = true;
                    proof {
                        assert(groups@[k as int].0 == ch);
                    }
                    break ;
                }
                k += 1;
            }
            if !seen {
                // gather every cell of this frequency
                let mut ps: Vec<(usize, usize)> = Vec::new();
                let mut w: usize = 0;
                proof {
                    assert(flats.skip(0) =~= flats);
                    assert(ps@ + positions_of(flats, ch) =~= positions_of(flats, ch));
                }
                while w < flat.len()
                    invariant
                        w <= flats.len(),
                        flats == flat@,
                        positions_of(flats, ch) == ps@ + positions_of(flats.skip(w as int), ch),
                    decreases flats.len() - w,
                {
                    proof {
                        assert(flats.skip(w as int)[0] == flats[w as int]);
                        assert(flats.skip(w as int).skip(1) =~= flats.skip(w as int + 1));
                    }
                    let e = flat[w];
                    if e.0 == ch {
                        let ghost old_ps = ps@;
                        ps.push(e.1);
                        proof {
                            assert(ps@ =~= old_ps.push(flats[w as int].1));
                            assert(positions_of(flats.skip(w as int), ch) =~= seq![
                                flats[w as int].1,
                            ] + positions_of(flats.skip(w as int + 1), ch));
                            assert((old_ps + seq![flats[w as int].1]) + positions_of(
                                flats.skip(w as int + 1),
                                ch,
                            ) =~= old_ps + (seq![flats[w as int].1] + positions_of(
                                flats.skip(w as int + 1),
                                ch,
                            )));
                            assert(ps@ =~= old_ps + seq![flats[w as int].1]);
                        }
                    } else {
                        proof {
                            assert(positions_of(flats.skip(w as int), ch) =~= positions_of(
                                flats.skip(w as int + 1),
                                ch,
                            ));
                        }
                    }
                    w += 1;
                }
                proof {
                    assert(positions_of(flats.skip(flats.len() as int), ch) =~= Seq::<
                        (usize, usize),
                    >::empty());
                    assert(ps@ + Seq::<(usize, usize)>::empty() =~= ps@);
                }
                let ghost old_groups = groups@;
                groups.push((ch, ps));
                proof {
                    assert(groups@ =~= old_groups.push((ch, ps)));
                    assert forall|k1: int, k2: int|
                        0 <= k1 < k2 < groups@.len() implies (#[trigger] groups@[k1]).0 != (
                        #[trigger] groups@[k2]).0 by {
                        if k2 == groups@.len() - 1 {
                            assert(groups@[k1] == old_groups[k1]);
                        } else {
                            assert(groups@[k1] == old_groups[k1] && groups@[k2] == old_groups[k2]);
                        }
                    }
                }
            }
            i += 1;
            proof {
                assert forall|w: int| 0 <= w < i implies exists|k2: int|
                    0 <= k2 < groups@.len() && (#[trigger] groups@[k2]).0 == (
                    #[trigger] flats[w]).0 by {
                    if w == i - 1 {
                        assert(flats[w].0 == ch);
                        if seen {
                            let k2 = choose|k2: int|
                                0 <= k2 < groups_before.len() && (#[trigger] groups_before[k2]).0
                                    == ch;
                            assert(groups@[k2] == groups_before[k2]);
                        } else {
                            assert(groups@[groups@.len() - 1].0 == ch);
                        }
                    } else {
                        let k2 = choose|k2: int|
                            0 <= k2 < groups_before.len() && (#[trigger] groups_before[k2]).0
                                == flats[w].0;
                        assert(groups@[k2] == groups_before[k2]);
                        assert(groups@[k2].0 == flats[w].0);
                    }
                }
            }
        }
        let m = AntennaMap { cols, rows: ls.len(), antennae_by_freq: groups };
        proof {
            assert(m.groups() =~= groups@.map_values(
                |g: (char, Vec<(usize, usize)>)| (g.0, g.1@),
            ));
            assert forall|k: int| 0 <= k < m.groups().len() implies (#[trigger] m.groups()[k]).1
                == positions_of(flats, m.groups()[k].0) by {
                assert(m.groups()[k] == (groups@[k].0, groups@[k].1@));
            }
            assert forall|gi: int, i2: int|
                0 <= gi < m.groups().len() && 0 <= i2 < (#[trigger] m.groups()[gi]).1.len()
                    implies ((#[trigger] m.groups()[gi].1[i2]).0 as int) <= 0x100000 && (m.groups()[
                gi].1[i2].1 as int) <= 0x100000 by {
                let ch = m.groups()[gi].0;
                lemma_positions_sub(flats, ch);
                assert(m.groups()[gi].1[i2] == positions_of(flats, ch)[i2]);
                let w = choose|w: int|
                    0 <= w < flats.len() && (#[trigger] flats[w]) == (
                    ch,
                    (#[trigger] positions_of(flats, ch)[i2]),
                    );
                assert(flats[w].1 == m.groups()[gi].1[i2]);
            }
            assert(m.wf()) by {
                assert forall|gi: int, i2: int|
                    0 <= gi < m.antennae_by_freq@.len() && 0 <= i2 < (
                    #[trigger] m.antennae_by_freq@[gi]).1@.len() implies ((
                #[trigger] m.antennae_by_freq@[gi].1@[i2]).0 as int) <= 0x100000 && (
                m.antennae_by_freq@[gi].1@[i2].1 as int) <= 0x100000 by {
                    assert(m.groups()[gi].1 == m.antennae_by_freq@[gi].1@);
                    assert(m.groups()[gi].1[i2] == m.antennae_by_freq@[gi].1@[i2]);
                }
            }
            assert forall|ch: char| #[trigger] has_freq(flats, ch) implies exists|k: int|
                0 <= k < m.groups().len() && (#[trigger] m.groups()[k]).0 == ch by {
                let w = choose|w: int| 0 <= w < flats.len() && (#[trigger] flats[w]).0 == ch;
                let k = choose|k: int|
                    0 <= k < groups@.len() && (#[trigger] groups@[k]).0 == flats[w].0;
                assert(m.groups()[k].0 == ch);
            }
            assert forall|gi: int, i2: int, j2: int|
                #![trigger m.groups()[gi].1[i2], m.groups()[gi].1[j2]]
                0 <= gi < m.groups().len() && 0 <= i2 < j2 < m.groups()[gi].1.len()
                    implies m.groups()[gi].1[i2] != m.groups()[gi].1[j2] by {
                lemma_positions_nodup(flats, m.groups()[gi].0);
            }
            if lss.len() > 0 {
                assert(lss.last() == lss[lss.len() - 1]);
            }
        }
        Ok(m)
    }
}

} // verus!
