//! Day 14: robots patrolling a bathroom.
//!
//! Each robot has a position and a velocity and wraps around the room's
//! edges. After a hundred seconds, the safety factor is the product of
//! the robot counts of the four quadrants, with robots on a middle line
//! not counted.

use vstd::prelude::*;

verus! {

use vstd::arithmetic::div_mod::{lemma_fundamental_div_mod, lemma_mod_multiples_vanish};

use crate::harness::error::Error;
use crate::harness::input::InputError;
use crate::harness::iter::{lines, split_lines};
use crate::parse::{lemma_digit_run_bounds, num_at, scan_u64};

pub struct D14;

impl D14 {
    /// The day this module solves.
    pub fn day() -> (d: u8)
        ensures
            d == 14,
    {
        14
    }
}

/// One robot: its position and its per-second movement.
#[derive(Debug, Clone, Copy)]
pub struct Robot {
    pub pos: (usize, usize),
    pub velocity: (isize, isize),
}

/// The room and its robots.
pub struct Bathroom {
    pub width: usize,
    pub height: usize,
    pub robots: Vec<Robot>,
}

/// Where a coordinate ends up after moving at `vel` for `seconds`,
/// wrapping around a dimension of size `dim`.
pub open spec fn wrapped(pos: int, vel: int, seconds: int, dim: int) -> int {
    (pos + vel * seconds) % dim
}

/// One coordinate's wrap-around step, computed without leaving
/// unsigned arithmetic: the velocity is first reduced to an
/// equivalent non-negative step below `dim`.
#[verifier::loop_isolation(false)]
fn wrap_coord(pos: usize, vel: isize, seconds: usize, dim: usize) -> (r: usize)
    requires
        dim >= 1,
    ensures
        r == wrapped(pos as int, vel as int, seconds as int, dim as int),
        r < dim,
{
    let w: u128 = dim as u128;
    let v: i128 = vel as i128;
    let step: u128 = if v >= 0 {
        (v as u128) % w
    } else {
        let m = ((-v) as u128) % w;
        if m == 0 {
            0
        } else {
            w - m
        }
    };
    let ghost di = dim as int;
    let ghost vi = vel as int;
    let ghost nv = -vi;
    let ghost kk: int = if vi >= 0 {
        -(vi / di)
    } else if nv % di == 0 {
        nv / di
    } else {
        nv / di + 1
    };
    proof {
        // step differs from vel by a multiple of dim, and sits in [0, dim)
        assert(v as int == vi);
        if v >= 0 {
            assert((v as u128) as int == vi);
            assert(step == vi % di);
            lemma_fundamental_div_mod(vi, di);
            assert(step - vi == di * kk) by (nonlinear_arith)
                requires
                    step == vi % di,
                    vi == di * (vi / di) + (vi % di),
                    kk == -(vi / di),
            ;
        } else {
            assert(((-v) as u128) as int == nv);
            lemma_fundamental_div_mod(nv, di);
            let q = nv / di;
            let m = nv % di;
            assert(nv == di * q + m);
            if m == 0 {
                assert(step == 0);
                assert(step - vi == di * q);
            } else {
                assert(step == di - m);
                assert(step - vi == di * (q + 1)) by (nonlinear_arith)
                    requires
                        step == di - m,
                        vi == -(di * q + m),
                ;
            }
        }
        vstd::arithmetic::div_mod::lemma_mod_bound(step as int, di);
        // so the final positions agree
        assert((pos + step * seconds) % di == (pos + vi * seconds) % di) by {
            assert(step * seconds - vi * seconds == (di * kk) * seconds) by (nonlinear_arith)
                requires
                    (step as int) - vi == di * kk,
            ;
            assert((di * kk) * seconds == di * (kk * seconds)) by (nonlinear_arith);
            lemma_mod_multiples_vanish(kk * seconds, pos + vi * (seconds as int), di);
        }
        // and nothing overflows a u128
        assert(step * seconds <= u64::MAX * (u64::MAX as int)) by (nonlinear_arith)
            requires
                0 <= step <= u64::MAX,
                0 <= seconds <= u64::MAX,
        ;
    }
    let total: u128 = (pos as u128) + step * (seconds as u128);
    let r = (total % w) as usize;
    proof {
        assert((total as int) % (dim as int) == (pos + step * seconds) % (dim as int));
    }
    r
}

impl Bathroom {
    /// Advance every robot by the given number of seconds, wrapping
    /// at the room's edges.
    #[verifier::loop_isolation(false)]
    pub fn tick_seconds(&mut self, seconds: usize)
        requires
            old(self).width >= 1,
            old(self).height >= 1,
        ensures
            final(self).width == old(self).width,
            final(self).height == old(self).height,
            final(self).robots@.len() == old(self).robots@.len(),
            forall|i: int|
                0 <= i < old(self).robots@.len() ==> {
                    let o = old(self).robots@[i];
                    let n = #[trigger] final(self).robots@[i];
                    &&& n.velocity == o.velocity
                    &&& n.pos.0 == wrapped(
                        o.pos.0 as int,
                        o.velocity.0 as int,
                        seconds as int,
                        old(self).width as int,
                    )
                    &&& n.pos.1 == wrapped(
                        o.pos.1 as int,
                        o.velocity.1 as int,
                        seconds as int,
                        old(self).height as int,
                    )
                },
    {
        let w = self.width;
        let h = self.height;
        let mut i: usize = 0;
        while i < self.robots.len()
            invariant
                i <= self.robots@.len(),
                w == old(self).width,
                h == old(self).height,
                self.width == w,
                self.height == h,
                self.robots@.len() == old(self).robots@.len(),
                forall|m: int| i <= m < self.robots@.len() ==> self.robots@[m] == old(self).robots@[m],
                forall|m: int|
                    0 <= m < i ==> {
                        let o = old(self).robots@[m];
                        let n = #[trigger] self.robots@[m];
                        &&& n.velocity == o.velocity
                        &&& n.pos.0 == wrapped(o.pos.0 as int, o.velocity.0 as int, seconds as int, w as int)
                        &&& n.pos.1 == wrapped(o.pos.1 as int, o.velocity.1 as int, seconds as int, h as int)
                    },
            decreases self.robots@.len() - i,
        {
            let r = self.robots[i];
            let nx = wrap_coord(r.pos.0, r.velocity.0, seconds, w);
            let ny = wrap_coord(r.pos.1, r.velocity.1, seconds, h);
            self.robots.set(i, Robot { pos: (nx, ny), velocity: r.velocity });
            i += 1;
        }
    }
}

/// Count the robots a predicate accepts.
pub open spec fn count_robots(rs: Seq<Robot>, p: spec_fn(Robot) -> bool) -> int
    decreases rs.len(),
{
    if rs.len() == 0 {
        0
    } else {
        (if p(rs[0]) {
            1int
        } else {
            0int
        }) + count_robots(rs.skip(1), p)
    }
}

proof fn lemma_count_robots_bounds(rs: Seq<Robot>, p: spec_fn(Robot) -> bool)
    ensures
        0 <= count_robots(rs, p) <= rs.len(),
    decreases rs.len(),
{
    if rs.len() != 0 {
        lemma_count_robots_bounds(rs.skip(1), p);
    }
}

/// The four quadrant predicates: a robot counts as strictly
/// left/top of the middle, or as right/bottom of it
/// (with the middle line itself only belonging to the lower/right
/// half when the dimension is even).
pub open spec fn is_left(r: Robot, w: int) -> bool {
    r.pos.0 < w / 2
}

pub open spec fn is_right(r: Robot, w: int) -> bool {
    if w % 2 == 0 {
        r.pos.0 >= w / 2
    } else {
        r.pos.0 > w / 2
    }
}

pub open spec fn is_top(r: Robot, h: int) -> bool {
    r.pos.1 < h / 2
}

pub open spec fn is_bot(r: Robot, h: int) -> bool {
    if h % 2 == 0 {
        r.pos.1 >= h / 2
    } else {
        r.pos.1 > h / 2
    }
}

pub open spec fn pred_tl(w: int, h: int) -> spec_fn(Robot) -> bool {
    |r: Robot| is_top(r, h) && is_left(r, w)
}

pub open spec fn pred_tr(w: int, h: int) -> spec_fn(Robot) -> bool {
    |r: Robot| is_top(r, h) && is_right(r, w)
}

pub open spec fn pred_bl(w: int, h: int) -> spec_fn(Robot) -> bool {
    |r: Robot| is_bot(r, h) && is_left(r, w)
}

pub open spec fn pred_br(w: int, h: int) -> spec_fn(Robot) -> bool {
    |r: Robot| is_bot(r, h) && is_right(r, w)
}

/// The product of the four quadrant counts.
pub open spec fn safety_factor_spec(b: Bathroom) -> int {
    count_robots(b.robots@, pred_tl(b.width as int, b.height as int)) * count_robots(
        b.robots@,
        pred_tr(b.width as int, b.height as int),
    ) * count_robots(b.robots@, pred_bl(b.width as int, b.height as int)) * count_robots(
        b.robots@,
        pred_br(b.width as int, b.height as int),
    )
}

impl Bathroom {
    /// The safety factor: the product of the robot counts of the four
    /// quadrants.
    #[verifier::loop_isolation(false)]
    pub fn safety_factor(&self) -> (r: u64)
        requires
            self.robots@.len() <= 65535,
        ensures
            r == safety_factor_spec(*self),
    {
        let ghost wi = self.width as int;
        let ghost hi = self.height as int;
        let mid_x = self.width / 2;
        let mid_y = self.height / 2;
        let even_width = self.width % 2 == 0;
        let even_height = self.height % 2 == 0;
        let mut top_left: u64 = 0;
        let mut top_right: u64 = 0;
        let mut bot_left: u64 = 0;
        let mut bot_right: u64 = 0;
        let mut i: usize = 0;
        proof {
            assert(self.robots@.skip(0) =~= self.robots@);
        }
        while i < self.robots.len()
            invariant
                i <= self.robots@.len(),
                top_left + count_robots(self.robots@.skip(i as int), pred_tl(wi, hi))
                    == count_robots(self.robots@, pred_tl(wi, hi)),
                top_right + count_robots(self.robots@.skip(i as int), pred_tr(wi, hi))
                    == count_robots(self.robots@, pred_tr(wi, hi)),
                bot_left + count_robots(self.robots@.skip(i as int), pred_bl(wi, hi))
                    == count_robots(self.robots@, pred_bl(wi, hi)),
                bot_right + count_robots(self.robots@.skip(i as int), pred_br(wi, hi))
                    == count_robots(self.robots@, pred_br(wi, hi)),
                top_left <= i && top_right <= i && bot_left <= i && bot_right <= i,
            decreases self.robots@.len() - i,
        {
            proof {
                let rest = self.robots@.skip(i as int);
                assert(rest[0] == self.robots@[i as int]);
                assert(rest.skip(1) =~= self.robots@.skip(i as int + 1));
                lemma_count_robots_bounds(self.robots@.skip(i as int + 1), pred_tl(wi, hi));
                lemma_count_robots_bounds(self.robots@.skip(i as int + 1), pred_tr(wi, hi));
                lemma_count_robots_bounds(self.robots@.skip(i as int + 1), pred_bl(wi, hi));
                lemma_count_robots_bounds(self.robots@.skip(i as int + 1), pred_br(wi, hi));
            }
            let robot = self.robots[i];
            let x = robot.pos.0;
            let y = robot.pos.1;
            let left = x < mid_x;
            let right = (even_width && x >= mid_x) || (!even_width && x > mid_x);
            let top = y < mid_y;
            let bot = (even_height && y >= mid_y) || (!even_height && y > mid_y);
            if top && left {
                top_left += 1;
            } else if top && right {
                top_right += 1;
            } else if bot && left {
                bot_left += 1;
            } else if bot && right {
                bot_right += 1;
            }
            i += 1;
        }
        proof {
            assert(count_robots(self.robots@.skip(i as int), pred_tl(wi, hi)) == 0);
            assert(count_robots(self.robots@.skip(i as int), pred_tr(wi, hi)) == 0);
            assert(count_robots(self.robots@.skip(i as int), pred_bl(wi, hi)) == 0);
            assert(count_robots(self.robots@.skip(i as int), pred_br(wi, hi)) == 0);
            assert(top_left * top_right <= 65535 * 65535) by (nonlinear_arith)
                requires
                    0 <= top_left <= 65535,
                    0 <= top_right <= 65535,
            ;
            assert(top_left * top_right * bot_left <= 65535 * 65535 * 65535) by (nonlinear_arith)
                requires
                    0 <= top_left * top_right <= 65535 * 65535,
                    0 <= bot_left <= 65535,
            ;
            assert(top_left * top_right * bot_left * bot_right <= 65535 * 65535 * 65535 * 65535)
                by (nonlinear_arith)
                requires
                    0 <= top_left * top_right * bot_left <= 65535 * 65535 * 65535,
                    0 <= bot_right <= 65535,
            ;
        }
        top_left * top_right * bot_left * bot_right
    }
}

/// `"p="`
pub open spec fn lit_p() -> Seq<u8> {
    seq![112u8, 61u8]
}

/// `" v="`
pub open spec fn lit_v() -> Seq<u8> {
    seq![32u8, 118u8, 61u8]
}

/// The signed number at position `i`: an optional `'-'`, then a digit
/// run whose value fits in an `isize`. Yields the value and the index
/// just past it.
pub open spec fn signed_at(s: Seq<u8>, i: int) -> Option<(int, int)> {
    let neg = 0 <= i < s.len() && s[i] == 45;
    let j = if neg {
        i + 1
    } else {
        i
    };
    match num_at(s, j) {
        Some((v, d)) => {
            let val = if neg {
                -(v as int)
            } else {
                v as int
            };
            if isize::MIN <= val <= isize::MAX {
                Some((val, j + d))
            } else {
                None
            }
        },
        None => None,
    }
}

/// Read the signed number at `s[i..]`.
#[verifier::loop_isolation(false)]
fn scan_signed(s: &[u8], i: usize) -> (r: Option<(isize, usize)>)
    requires
        i <= s@.len(),
    ensures
        match r {
            Some(p) => signed_at(s@, i as int) == Some((p.0 as int, p.1 as int)),
            None => signed_at(s@, i as int) is None,
        },
{
    let n = s.len();
    let neg = i < n && s[i] == 45;
    let j = if neg {
        i + 1
    } else {
        i
    };
    let (v, d) = match scan_u64(s, j) {
        Some(p) => p,
        None => {
            return None;
        },
    };
    proof {
        lemma_digit_run_bounds(s@.skip(j as int));
        assert(j + d <= n);
    }
    if neg {
        if v <= (isize::MAX as u64) {
            Some((-(v as isize), j + d))
        } else if v == (isize::MAX as u64) + 1 {
            Some((isize::MIN, j + d))
        } else {
            None
        }
    } else {
        if v <= (isize::MAX as u64) {
            Some((v as isize, j + d))
        } else {
            None
        }
    }
}

/// The robot description anchored at position `i` of the line, if a
/// whole one starts exactly there: `p=` and an unsigned coordinate
/// pair, then ` v=` and a signed velocity pair.
pub open spec fn robot_at(line: Seq<u8>, i: int) -> Option<Robot> {
    if 0 <= i && i + 2 <= line.len() && lit_p().is_prefix_of(line.skip(i)) {
        match num_at(line, i + 2) {
            Some((px, d1)) => {
                let j = i + 2 + d1;
                if 0 <= j < line.len() && line[j] == 44 && px <= usize::MAX {
                    match num_at(line, j + 1) {
                        Some((py, d2)) => {
                            let k = j + 1 + d2;
                            if lit_v().is_prefix_of(line.skip(k)) && py <= usize::MAX {
                                match signed_at(line, k + 3) {
                                    Some((vx, m)) => {
                                        if 0 <= m < line.len() && line[m] == 44 {
                                            match signed_at(line, m + 1) {
                                                Some((vy, _)) => Some(
                                                    Robot {
                                                        pos: ((px as usize), (py as usize)),
                                                        velocity: ((vx as isize), (vy as isize)),
                                                    },
                                                ),
                                                None => None,
                                            }
                                        } else {
                                            None
                                        }
                                    },
                                    None => None,
                                }
                            } else {
                                None
                            }
                        },
                        None => None,
                    }
                } else {
                    None
                }
            },
            None => None,
        }
    } else {
        None
    }
}

/// The first position from `i` on where a whole robot description
/// starts, or `-1` when there is none. A bare `p=` with nothing
/// parsable after it does not count: the search keeps looking, as a
/// pattern search does.
pub open spec fn find_robot_from(line: Seq<u8>, i: int) -> int
    decreases line.len() - i,
{
    if i < 0 || i + 2 > line.len() {
        -1
    } else if robot_at(line, i) is Some {
        i
    } else {
        find_robot_from(line, i + 1)
    }
}

proof fn lemma_find_robot_bounds(line: Seq<u8>, i: int)
    requires
        0 <= i,
    ensures
        find_robot_from(line, i) < 0 ==> forall|m: int|
            i <= m ==> robot_at(line, m) is None,
        find_robot_from(line, i) >= 0 ==> {
            &&& i <= find_robot_from(line, i) <= line.len() - 2
            &&& robot_at(line, find_robot_from(line, i)) is Some
            &&& forall|m: int| i <= m < find_robot_from(line, i) ==> robot_at(line, m) is None
        },
    decreases line.len() - i,
{
    if i + 2 <= line.len() && robot_at(line, i) is None {
        lemma_find_robot_bounds(line, i + 1);
    }
}

/// The robot a well-formed line carries: the values at the first
/// position where the whole description matches.
pub open spec fn robot_of(line: Seq<u8>) -> Option<Robot> {
    let fr = find_robot_from(line, 0);
    if fr < 0 {
        None
    } else {
        robot_at(line, fr)
    }
}

impl Robot {
    /// Try to read a whole robot description anchored at `i`.
    #[verifier::loop_isolation(false)]
    #[verifier::rlimit(60)]
    fn try_at(line: &[u8], i: usize) -> (r: Option<Robot>)
        requires
            i <= line@.len(),
        ensures
            r == robot_at(line@, i as int),
    {
        let n = line.len();
        if !(n - i >= 2 && line[i] == 112 && line[i + 1] == 61) {
            proof {
                if i + 2 <= n && lit_p().is_prefix_of(line@.skip(i as int)) {
                    assert(line@.skip(i as int)[0] == line@[i as int]);
                    assert(line@.skip(i as int)[1] == line@[i as int + 1]);
                }
            }
            return None;
        }
        proof {
            assert(lit_p().is_prefix_of(line@.skip(i as int))) by {
                assert(lit_p() =~= line@.skip(i as int).subrange(0, 2));
            }
        }
        let (px, d1) = match scan_u64(line, i + 2) {
            Some(p) => p,
            None => {
                return None;
            },
        };
        proof {
            lemma_digit_run_bounds(line@.skip(i as int + 2));
        }
        let j = i + 2 + d1;
        if !(j < n && line[j] == 44) {
            return None;
        }
        let (py, d2) = match scan_u64(line, j + 1) {
            Some(p) => p,
            None => {
                return None;
            },
        };
        proof {
            lemma_digit_run_bounds(line@.skip(j as int + 1));
        }
        let k = j + 1 + d2;
        if !(n - k >= 3 && line[k] == 32 && line[k + 1] == 118 && line[k + 2] == 61) {
            proof {
                if lit_v().is_prefix_of(line@.skip(k as int)) {
                    assert(line@.skip(k as int)[0] == line@[k as int]);
                    assert(line@.skip(k as int)[1] == line@[k as int + 1]);
                    assert(line@.skip(k as int)[2] == line@[k as int + 2]);
                }
            }
            return None;
        }
        proof {
            assert(lit_v().is_prefix_of(line@.skip(k as int))) by {
                assert(lit_v() =~= line@.skip(k as int).subrange(0, 3));
            }
        }
        let (vx, m) = match scan_signed(line, k + 3) {
            Some(p) => p,
            None => {
                return None;
            },
        };
        if !(m < n && line[m] == 44) {
            return None;
        }
        let (vy, _end) = match scan_signed(line, m + 1) {
            Some(p) => p,
            None => {
                return None;
            },
        };
        if px > (usize::MAX as u64) || py > (usize::MAX as u64) {
            return None;
        }
        Some(Robot { pos: (px as usize, py as usize), velocity: (vx, vy) })
    }

    /// Parse one robot line: the first place where the whole
    /// description matches supplies the values.
    #[verifier::loop_isolation(false)]
    pub fn parse(line: &[u8]) -> (r: Result<Robot, InputError>)
        ensures
            match r {
                Ok(rb) => robot_of(line@) == Some(rb),
                Err(e) => robot_of(line@) is None && e is InvalidInput,
            },
    {
        let n = line.len();
        let mut i: usize = 0;
        while n >= 2 && i <= n - 2
            invariant
                i <= n,
                forall|m: int| 0 <= m < i ==> robot_at(line@, m) is None,
            decreases n - i,
        {
            match Robot::try_at(line, i) {
                Some(rb) => {
                    proof {
                        lemma_find_robot_bounds(line@, 0);
                        if find_robot_from(line@, 0) < i {
                            assert(robot_at(line@, find_robot_from(line@, 0)) is None);
                        }
                        if find_robot_from(line@, 0) > i || find_robot_from(line@, 0) < 0 {
                            assert(robot_at(line@, i as int) is None);
                        }
                        assert(find_robot_from(line@, 0) == i);
                    }
                    return Ok(rb);
                },
                None => {},
            }
            i += 1;
        }
        proof {
            lemma_find_robot_bounds(line@, 0);
            if find_robot_from(line@, 0) >= 0 {
                assert(robot_at(line@, find_robot_from(line@, 0)) is Some);
                assert(find_robot_from(line@, 0) <= line@.len() - 2);
                assert(robot_at(line@, find_robot_from(line@, 0)) is None);
            }
        }
        Err(InputError::invalid("no robot description on the line"))
    }
}

impl Bathroom {
    /// Read the room: its size is fixed by the puzzle, and every line
    /// is a robot.
    #[verifier::loop_isolation(false)]
    pub fn read(input: &[u8]) -> (r: Result<Bathroom, InputError>)
        ensures
            match r {
                Ok(b) => {
                    let ls = split_lines(input@);
                    &&& b.width == 101 && b.height == 103
                    &&& b.robots@.len() == ls.len()
                    &&& forall|i: int|
                        0 <= i < ls.len() ==> robot_of(#[trigger] ls[i]) == Some(b.robots@[i])
                },
                Err(e) => {
                    &&& exists|i: int|
                        0 <= i < split_lines(input@).len() && robot_of(
                            #[trigger] split_lines(input@)[i],
                        ) is None
                    &&& e is InvalidInput
                },
            },
    {
        let ls = lines(input);
        let mut robots: Vec<Robot> = Vec::new();
        let mut idx: usize = 0;
        while idx < ls.len()
            invariant
                idx <= ls@.len(),
                robots@.len() == idx,
                forall|i: int|
                    0 <= i < idx ==> robot_of(#[trigger] split_lines(input@)[i]) == Some(
                        robots@[i],
                    ),
            decreases ls@.len() - idx,
        {
            assert(ls@[idx as int]@ == split_lines(input@)[idx as int]);
            match Robot::parse(ls[idx].as_slice()) {
                Ok(rb) => {
                    robots.push(rb);
                },
                Err(e) => {
                    return Err(e);
                },
            }
            idx += 1;
        }
        Ok(Bathroom { width: 101, height: 103, robots })
    }
}

pub struct P1;

impl P1 {
    /// Run the robots for a hundred seconds and take the safety
    /// factor.
    pub fn solve(input: Bathroom) -> (r: Result<u64, Error>)
        requires
            input.width >= 1,
            input.height >= 1,
            input.robots@.len() <= 65535,
        ensures
            match r {
                Ok(f) => exists|b: Bathroom|
                    {
                        &&& b.width == input.width && b.height == input.height
                        &&& b.robots@.len() == input.robots@.len()
                        &&& forall|i: int|
                            0 <= i < input.robots@.len() ==> {
                                let o = input.robots@[i];
                                let n = (#[trigger] b.robots@[i]);
                                &&& n.velocity == o.velocity
                                &&& n.pos.0 == wrapped(
                                    o.pos.0 as int,
                                    o.velocity.0 as int,
                                    100,
                                    input.width as int,
                                )
                                &&& n.pos.1 == wrapped(
                                    o.pos.1 as int,
                                    o.velocity.1 as int,
                                    100,
                                    input.height as int,
                                )
                            }
                        &&& f == safety_factor_spec(b)
                    },
                Err(_) => false,
            },
    {
        let mut room = input;
        room.tick_seconds(100);
        let f = room.safety_factor();
        proof {
            let b = room;
            assert(b.width == input.width && f == safety_factor_spec(b));
        }
        Ok(f)
    }
}

} // verus!
