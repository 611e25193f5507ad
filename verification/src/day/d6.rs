//! Day 6: the patrolling guard.
//!
//! The guard walks straight, turns right at obstacles and leaves the
//! grid at its edge. Part one counts the distinct cells of the patrol;
//! part two counts the patrol cells where a new obstacle would trap the
//! guard in a loop.

use vstd::prelude::*;

verus! {

use crate::day::d10::{lemma_unvisited_nonneg, lemma_unvisited_update, unvisited};
use crate::harness::error::Error;
use crate::harness::input::InputError;
use crate::harness::iter::{lines, split_lines};

pub struct D6;

impl D6 {
    /// The day this module solves.
    pub fn day() -> (d: u8)
        ensures
            d == 6,
    {
        6
    }
}

/// A grid coordinate; `x` counts columns, `y` counts rows.
#[derive(Debug, Clone, Copy, PartialEq, Eq, Structural, Hash)]
pub struct Point {
    pub x: isize,
    pub y: isize,
}

/// The guard's facing.
#[derive(Debug, Clone, Copy, PartialEq, Eq, Structural, Hash)]
pub enum Direction {
    North,
    East,
    South,
    West,
}

/// One cell of the map.
#[derive(Debug, Clone, Copy, PartialEq, Eq, Structural)]
pub enum MapItem {
    Empty,
    Obstacle,
    Guard(Direction),
}

/// The guard's full state: where it stands and where it faces.
pub type Position = (Point, Direction);

/// A grid of cells with uniform row length.
pub struct Grid<T> {
    pub rows: Vec<Vec<T>>,
}

/// The largest grid dimension the solver accepts.
pub const MAX_DIM: usize = 100000;

pub open spec fn grid_view<T>(g: Grid<T>) -> Seq<Seq<T>> {
    g.rows@.map_values(|row: Vec<T>| row@)
}

/// Uniform rows, within the supported size.
pub open spec fn grid_wf<T>(g: Grid<T>) -> bool {
    &&& grid_view(g).len() <= MAX_DIM
    &&& forall|r: int|
        0 <= r < grid_view(g).len() ==> (#[trigger] grid_view(g)[r]).len() == grid_view(g)[0].len()
    &&& grid_view(g).len() > 0 ==> grid_view(g)[0].len() <= MAX_DIM
}

/// The cell at a point, if it is on the grid.
pub open spec fn grid_at<T>(g: Seq<Seq<T>>, p: Point) -> Option<T> {
    if 0 <= p.y < g.len() && 0 <= p.x < g[p.y as int].len() {
        Some(g[p.y as int][p.x as int])
    } else {
        None
    }
}

impl<T> Grid<T> {
    /// Wrap rows into a grid; the rows must already be uniform.
    pub fn new(rows: Vec<Vec<T>>) -> (g: Grid<T>)
        requires
            rows@.len() <= MAX_DIM,
            forall|r: int| 0 <= r < rows@.len() ==> (#[trigger] rows@[r])@.len() == rows@[0]@.len(),
            rows@.len() > 0 ==> rows@[0]@.len() <= MAX_DIM,
        ensures
            g.rows == rows,
            grid_wf(g),
    {
        Grid { rows }
    }

    /// The number of rows.
    pub fn rows(&self) -> (r: usize)
        ensures
            r == grid_view(*self).len(),
    {
        self.rows.len()
    }

    /// The number of columns.
    pub fn cols(&self) -> (r: usize)
        ensures
            r == (if grid_view(*self).len() > 0 {
                grid_view(*self)[0].len() as int
            } else {
                0int
            }),
    {
        if self.rows.len() > 0 {
            self.rows[0].len()
        } else {
            0
        }
    }

    /// The cell at a point.
    pub fn get(&self, idx: &Point) -> (r: Option<&T>)
        ensures
            match r {
                Some(v) => grid_at(grid_view(*self), *idx) == Some(*v),
                None => grid_at(grid_view(*self), *idx) is None,
            },
    {
        if idx.x < 0 || idx.y < 0 {
            return None;
        }
        let x = idx.x as usize;
        let y = idx.y as usize;
        if y >= self.rows.len() {
            return None;
        }
        if x >= self.rows[y].len() {
            return None;
        }
        Some(&self.rows[y][x])
    }

    /// Overwrite the cell at a point; off-grid points are ignored.
    pub fn set(&mut self, idx: &Point, val: T)
        ensures
            final(self).rows@.len() == old(self).rows@.len(),
            grid_at(grid_view(*old(self)), *idx) is Some ==> grid_view(*final(self)) == grid_view(
                *old(self),
            ).update(idx.y as int, grid_view(*old(self))[idx.y as int].update(idx.x as int, val)),
            grid_at(grid_view(*old(self)), *idx) is None ==> final(self).rows@ == old(self).rows@,
            grid_wf(*old(self)) ==> grid_wf(*final(self)),
    {
        let on = match self.get(idx) {
            Some(_) => true,
            None => false,
        };
        if !on {
            return ;
        }
        let y = idx.y as usize;
        let x = idx.x as usize;
        let mut row = self.rows.remove(y);
        row.set(x, val);
        self.rows.insert(y, row);
        proof {
            assert(grid_view(*self) =~= grid_view(*old(self)).update(
                idx.y as int,
                grid_view(*old(self))[idx.y as int].update(idx.x as int, val),
            ));
        }
    }
}

impl Point {
    pub fn new(x: isize, y: isize) -> (p: Point)
        ensures
            p == (Point { x, y }),
    {
        Point { x, y }
    }

    /// Whether the point lies strictly inside the grid's interior
    /// (the very first row and column do not count).
    pub fn on_grid<T>(&self, grid: &Grid<T>) -> (r: bool)
        ensures
            r == (self.x > 0 && (self.x as int) < (if grid_view(*grid).len() > 0 {
                grid_view(*grid)[0].len() as int
            } else {
                0int
            }) && self.y > 0 && (self.y as int) < grid_view(*grid).len()),
    {
        self.x > 0 && (self.x as usize) < grid.cols() && self.y > 0 && (self.y as usize)
            < grid.rows()
    }
}

impl Direction {
    /// The facing after a right turn.
    pub fn turn(&self) -> (r: Direction)
        ensures
            r == (match self {
                Direction::North => Direction::East,
                Direction::East => Direction::South,
                Direction::South => Direction::West,
                Direction::West => Direction::North,
            }),
    {
        match self {
            Direction::North => Direction::East,
            Direction::East => Direction::South,
            Direction::South => Direction::West,
            Direction::West => Direction::North,
        }
    }

    /// The unit offset of the facing.
    pub fn facing(&self) -> (r: Point)
        ensures
            r == facing_offset(*self),
    {
        match self {
            Direction::North => Point { x: 0, y: -1 },
            Direction::East => Point { x: 1, y: 0 },
            Direction::South => Point { x: 0, y: 1 },
            Direction::West => Point { x: -1, y: 0 },
        }
    }
}

pub open spec fn facing_offset(d: Direction) -> Point {
    match d {
        Direction::North => Point { x: 0, y: -1isize },
        Direction::East => Point { x: 1, y: 0 },
        Direction::South => Point { x: 0, y: 1 },
        Direction::West => Point { x: -1isize, y: 0 },
    }
}

/// The point one step ahead of a guard state.
pub open spec fn facing_spec(pos: Position) -> Point {
    Point {
        x: (pos.0.x + facing_offset(pos.1).x) as isize,
        y: (pos.0.y + facing_offset(pos.1).y) as isize,
    }
}

/// The point the guard faces.
pub fn point_facing(pos: &Position) -> (r: Point)
    requires
        isize::MIN < pos.0.x < isize::MAX,
        isize::MIN < pos.0.y < isize::MAX,
    ensures
        r == facing_spec(*pos),
{
    let d = pos.1.facing();
    Point { x: pos.0.x + d.x, y: pos.0.y + d.y }
}

/// The patrol map: the grid, where the guard started, where it stands
/// now, and the extra obstacle (if one was placed).
pub struct GuardMap {
    pub guard_origin: Position,
    pub cur_guard: Option<Position>,
    pub obstacle: Option<Point>,
    pub grid: Grid<MapItem>,
}

/// Whether `p` is the winning guard cell: it holds a guard arrow,
/// and no guard cell comes later in column-major scan order (greater
/// column, or same column and greater row).
pub open spec fn last_guard(g: Seq<Seq<MapItem>>, p: Position) -> bool {
    &&& (grid_at(g, p.0) matches Some(MapItem::Guard(d)) && d == p.1)
    &&& forall|a: int, b: int|
        0 <= a < g.len() && 0 <= b < g[a].len() && (#[trigger] g[a][b]) is Guard ==> (b < p.0.x
            || (b == p.0.x && a <= p.0.y))
}

/// The map keeps its grid well-formed and its guard on the grid.
pub open spec fn map_wf(m: GuardMap) -> bool {
    &&& grid_wf(m.grid)
    &&& grid_at(grid_view(m.grid), m.guard_origin.0) is Some
    &&& (m.cur_guard matches Some(p) ==> grid_at(grid_view(m.grid), p.0) is Some)
}

/// One guard step on the given grid: walk ahead, turn at an obstacle,
/// or leave.
pub open spec fn gstep(g: Seq<Seq<MapItem>>, pos: Position) -> Option<Position> {
    match grid_at(g, facing_spec(pos)) {
        Some(MapItem::Obstacle) => Some((pos.0, turn_spec(pos.1))),
        Some(_) => Some((facing_spec(pos), pos.1)),
        None => None,
    }
}

pub open spec fn turn_spec(d: Direction) -> Direction {
    match d {
        Direction::North => Direction::East,
        Direction::East => Direction::South,
        Direction::South => Direction::West,
        Direction::West => Direction::North,
    }
}

impl GuardMap {
    /// Build the map around a parsed grid, locating the guard. When
    /// several arrows appear, the last one in column-major scan order
    /// wins.
    #[verifier::loop_isolation(false)]
    pub fn new(grid: Grid<MapItem>) -> (r: Result<GuardMap, InputError>)
        requires
            grid_wf(grid),
        ensures
            match r {
                Ok(m) => {
                    &&& m.grid == grid
                    &&& m.obstacle is None
                    &&& m.cur_guard == Some(m.guard_origin)
                    &&& map_wf(m)
                    &&& last_guard(grid_view(grid), m.guard_origin)
                },
                Err(e) => {
                    &&& (forall|a: int, b: int|
                        0 <= a < grid_view(grid).len() && 0 <= b < grid_view(grid)[a].len()
                            ==> !((#[trigger] grid_view(grid)[a][b]) is Guard))
                    &&& e is InvalidInput
                },
            },
    {
        let ghost g = grid_view(grid);
        let mut guard: Option<Position> = None;
        let ncols = grid.cols();
        let nrows = grid.rows();
        let mut x: usize = 0;
        while x < ncols
            invariant
                x <= ncols,
                nrows == g.len(),
                g.len() > 0 ==> ncols == g[0].len(),
                g.len() == 0 ==> ncols == 0,
                match guard {
                    Some(p) => grid_at(g, p.0) == Some(MapItem::Guard(p.1)) && forall|
                        a: int,
                        b: int,
                    |
                        0 <= a < g.len() && 0 <= b < x && b < g[a].len() && (#[trigger] g[a][b])
                            is Guard ==> (b < p.0.x || (b == p.0.x && a <= p.0.y)),
                    None => forall|a: int, b: int|
                        0 <= a < g.len() && 0 <= b < x && b < g[a].len() ==> !((
                        #[trigger] g[a][b]) is Guard),
                },
            decreases ncols - x,
        {
            let mut y: usize = 0;
            while y < nrows
                invariant
                    y <= nrows,
                    x < ncols,
                    match guard {
                        Some(p) => grid_at(g, p.0) == Some(MapItem::Guard(p.1)) && (forall|
                            a: int,
                            b: int,
                        |
                            0 <= a < g.len() && 0 <= b < x && b < g[a].len() && (
                            #[trigger] g[a][b]) is Guard ==> (b < p.0.x || (b == p.0.x && a
                                <= p.0.y))) && (forall|a: int|
                            0 <= a < y && x < g[a].len() && (#[trigger] g[a][x as int]) is Guard
                                ==> (x < p.0.x || (x == p.0.x && a <= p.0.y))),
                        None => (forall|a: int, b: int|
                            0 <= a < g.len() && 0 <= b < x && b < g[a].len() ==> !((
                            #[trigger] g[a][b]) is Guard)) && (forall|a: int|
                            0 <= a < y ==> !((#[trigger] g[a][x as int]) is Guard)),
                    },
                decreases nrows - y,
            {
                let point = Point { x: x as isize, y: y as isize };
                match grid.get(&point) {
                    Some(MapItem::Guard(dir)) => {
                        let d = *dir;
                        guard = Some((point, d));
                    },
                    _ => {},
                }
                y += 1;
            }
            x += 1;
        }
        match guard {
            Some(p) => {
                proof {
                    assert forall|a: int, b: int|
                        0 <= a < g.len() && 0 <= b < g[a].len() && (#[trigger] g[a][b]) is Guard
                            implies (b < p.0.x || (b == p.0.x && a <= p.0.y)) by {
                        assert(g[a].len() == g[0].len());
                    }
                }
                Ok(GuardMap { guard_origin: p, cur_guard: Some(p), obstacle: None, grid })
            },
            None => {
                proof {
                    assert forall|a: int, b: int|
                        0 <= a < g.len() && 0 <= b < g[a].len() implies !((#[trigger] g[a][b])
                        is Guard) by {
                        assert(g[a].len() == g[0].len());
                    }
                }
                Err(InputError::invalid("map has no guard"))
            },
        }
    }

    /// Move the guard one step, returning its previous state: it
    /// walks ahead, turns right at an obstacle, or leaves the grid.
    pub fn move_guard(&mut self) -> (r: Option<Position>)
        requires
            map_wf(*old(self)),
        ensures
            map_wf(*final(self)),
            final(self).grid == old(self).grid,
            final(self).guard_origin == old(self).guard_origin,
            final(self).obstacle == old(self).obstacle,
            r == old(self).cur_guard,
            match old(self).cur_guard {
                Some(p) => final(self).cur_guard == gstep(grid_view(old(self).grid), p),
                None => final(self).cur_guard is None,
            },
    {
        let guard_pos = match self.cur_guard {
            Some(g) => g,
            None => {
                return None;
            },
        };
        let (guard_point, guard_dir) = guard_pos;
        proof {
            assert(grid_at(grid_view(self.grid), guard_point) is Some);
            assert(0 <= guard_point.y < grid_view(self.grid).len());
            assert(0 <= guard_point.x < grid_view(self.grid)[guard_point.y as int].len());
            assert(grid_view(self.grid)[guard_point.y as int].len() <= MAX_DIM);
            assert(grid_view(self.grid).len() <= MAX_DIM);
        }
        let facing = point_facing(&guard_pos);
        match self.grid.get(&facing) {
            Some(MapItem::Empty) | Some(MapItem::Guard(_)) => {
                self.cur_guard = Some((facing, guard_dir));
            },
            Some(MapItem::Obstacle) => {
                self.cur_guard = Some((guard_point, guard_dir.turn()));
            },
            None => {
                self.cur_guard = None;
            },
        }
        Some((guard_point, guard_dir))
    }

    /// Whether an extra obstacle may go at `point`: not on the
    /// guard's start, only one at a time, and only on empty ground.
    pub fn can_place_obstacle(&self, point: &Point) -> (r: bool)
        ensures
            r == (*point != self.guard_origin.0 && self.obstacle is None && grid_at(
                grid_view(self.grid),
                *point,
            ) == Some(MapItem::Empty)),
    {
        let origin_differs = !(point.x == self.guard_origin.0.x && point.y
            == self.guard_origin.0.y);
        let empty = match self.grid.get(point) {
            Some(MapItem::Empty) => true,
            _ => false,
        };
        origin_differs && self.obstacle.is_none() && empty
    }

    /// Place an extra obstacle, if the spot allows one.
    pub fn place_obstacle(&mut self, point: &Point)
        requires
            map_wf(*old(self)),
        ensures
            map_wf(*final(self)),
            final(self).guard_origin == old(self).guard_origin,
            final(self).cur_guard == old(self).cur_guard,
            if *point != old(self).guard_origin.0 && old(self).obstacle is None && grid_at(
                grid_view(old(self).grid),
                *point,
            ) == Some(MapItem::Empty) {
                &&& final(self).obstacle == Some(*point)
                &&& grid_view(final(self).grid) == grid_view(old(self).grid).update(
                    point.y as int,
                    grid_view(old(self).grid)[point.y as int].update(
                        point.x as int,
                        MapItem::Obstacle,
                    ),
                )
            } else {
                *final(self) == *old(self)
            },
    {
        if !self.can_place_obstacle(point) {
            return ;
        }
        self.grid.set(point, MapItem::Obstacle);
        self.obstacle = Some(*point);
        proof {
            assert(grid_at(grid_view(self.grid), self.guard_origin.0) is Some) by {
                let g0 = grid_view(old(self).grid);
                let p = self.guard_origin.0;
                assert(grid_at(g0, p) is Some);
                assert(grid_view(self.grid)[p.y as int].len() == g0[p.y as int].len());
            }
            if self.cur_guard is Some {
                let p = self.cur_guard.unwrap().0;
                let g0 = grid_view(old(self).grid);
                assert(grid_at(g0, p) is Some);
                assert(grid_view(self.grid)[p.y as int].len() == g0[p.y as int].len());
            }
        }
    }

    /// Put the guard back at its origin and clear the extra obstacle.
    pub fn reset(&mut self)
        requires
            map_wf(*old(self)),
        ensures
            map_wf(*final(self)),
            final(self).guard_origin == old(self).guard_origin,
            final(self).cur_guard == Some(old(self).guard_origin),
            final(self).obstacle is None,
            match old(self).obstacle {
                Some(p) => if grid_at(grid_view(old(self).grid), p) is Some {
                    grid_view(final(self).grid) == grid_view(old(self).grid).update(
                        p.y as int,
                        grid_view(old(self).grid)[p.y as int].update(p.x as int, MapItem::Empty),
                    )
                } else {
                    grid_view(final(self).grid) == grid_view(old(self).grid)
                },
                None => final(self).grid == old(self).grid,
            },
    {
        self.cur_guard = Some(self.guard_origin);
        let ob = self.obstacle;
        match ob {
            Some(obstacle_pos) => {
                self.grid.set(&obstacle_pos, MapItem::Empty);
                self.obstacle = None;
                proof {
                    let g0 = grid_view(old(self).grid);
                    let p = self.guard_origin.0;
                    assert(grid_at(g0, p) is Some);
                    if grid_at(g0, obstacle_pos) is Some {
                        assert(grid_view(self.grid)[p.y as int].len() == g0[p.y as int].len());
                    }
                }
            },
            None => {},
        }
    }
}

/// One parsed map row.
pub open spec fn row_items(l: Seq<u8>) -> Seq<MapItem> {
    l.map_values(
        |c: u8|
            if c == 35 {
                MapItem::Obstacle
            } else if c == 94 {
                MapItem::Guard(Direction::North)
            } else if c == 62 {
                MapItem::Guard(Direction::East)
            } else if c == 118 {
                MapItem::Guard(Direction::South)
            } else if c == 60 {
                MapItem::Guard(Direction::West)
            } else {
                MapItem::Empty
            },
    )
}

/// Parse one map row: `#` is an obstacle, the four arrows are the
/// guard, anything else is open ground.
#[verifier::loop_isolation(false)]
pub fn parse_row(line: &[u8]) -> (r: Vec<MapItem>)
    ensures
        r@ == row_items(line@),
{
    let mut r: Vec<MapItem> = Vec::new();
    let mut i: usize = 0;
    while i < line.len()
        invariant
            i <= line@.len(),
            r@.len() == i,
            forall|m: int| 0 <= m < i ==> r@[m] == row_items(line@)[m],
        decreases line@.len() - i,
    {
        let c = line[i];
        let item = if c == 35 {
            MapItem::Obstacle
        } else if c == 94 {
            MapItem::Guard(Direction::North)
        } else if c == 62 {
            MapItem::Guard(Direction::East)
        } else if c == 118 {
            MapItem::Guard(Direction::South)
        } else if c == 60 {
            MapItem::Guard(Direction::West)
        } else {
            MapItem::Empty
        };
        r.push(item);
        i += 1;
    }
    proof {
        assert(r@ =~= row_items(line@));
    }
    r
}

impl GuardMap {
    /// Read the patrol map: uniform rows with exactly one guard
    /// arrow; oversized or ragged grids are rejected.
    #[verifier::loop_isolation(false)]
    pub fn read(input: &[u8]) -> (r: Result<GuardMap, InputError>)
        ensures
            match r {
                Ok(m) => {
                    let ls = split_lines(input@);
                    &&& map_wf(m)
                    &&& m.obstacle is None
                    &&& m.cur_guard == Some(m.guard_origin)
                    &&& grid_view(m.grid).len() == ls.len()
                    &&& forall|i: int|
                        0 <= i < ls.len() ==> grid_view(m.grid)[i] == row_items(#[trigger] ls[i])
                    &&& last_guard(grid_view(m.grid), m.guard_origin)
                },
                Err(e) => {
                    let ls = split_lines(input@);
                    &&& e is InvalidInput
                    &&& {
                        ||| ls.len() > MAX_DIM
                        ||| exists|i: int| 0 <= i < ls.len() && (#[trigger] ls[i]).len() > MAX_DIM
                        ||| exists|i: int|
                            0 <= i < ls.len() && (#[trigger] ls[i]).len() != ls[0].len()
                        ||| forall|i: int, b: int|
                            0 <= i < ls.len() && 0 <= b < ls[i].len() ==> !((#[trigger] row_items(
                                ls[i],
                            )[b]) is Guard)
                    }
                },
            },
    {
        let ls = lines(input);
        if ls.len() > MAX_DIM {
            return Err(InputError::invalid("map has too many rows"));
        }
        let mut rows: Vec<Vec<MapItem>> = Vec::new();
        let mut y: usize = 0;
        while y < ls.len()
            invariant
                y <= ls@.len(),
                ls@.len() <= MAX_DIM,
                rows@.len() == y,
                forall|i: int|
                    0 <= i < y ==> (#[trigger] rows@[i])@ == row_items(split_lines(input@)[i]),
                forall|i: int| 0 <= i < y ==> (#[trigger] rows@[i])@.len() == rows@[0]@.len(),
                y > 0 ==> rows@[0]@.len() <= MAX_DIM,
            decreases ls@.len() - y,
        {
            let line = &ls[y];
            proof {
                assert(ls@[y as int]@ == split_lines(input@)[y as int]);
            }
            if line.len() > MAX_DIM {
                proof {
                    assert(split_lines(input@)[y as int].len() > MAX_DIM);
                }
                return Err(InputError::invalid("map row is too wide"));
            }
            let row = parse_row(line.as_slice());
            if y > 0 && row.len() != rows[0].len() {
                proof {
                    assert(rows@[0]@ == row_items(split_lines(input@)[0]));
                    assert(split_lines(input@)[y as int].len() != split_lines(input@)[0].len());
                }
                return Err(InputError::invalid("map rows differ in width"));
            }
            rows.push(row);
            y += 1;
        }
        let grid = Grid::new(rows);
        let built = GuardMap::new(grid);
        proof {
            if built is Err {
                let ls = split_lines(input@);
                assert forall|i: int, b: int|
                    0 <= i < ls.len() && 0 <= b < ls[i].len() implies !((#[trigger] row_items(
                    ls[i],
                )[b]) is Guard) by {
                    assert(grid_view(grid)[i] == row_items(ls[i]));
                    assert(grid_view(grid)[i].len() == ls[i].len());
                    assert(!(grid_view(grid)[i][b] is Guard));
                }
            }
        }
        built
    }
}


/// A walk of the guard: successive states under `gstep`.
pub open spec fn valid_walk(g: Seq<Seq<MapItem>>, start: Position, tr: Seq<Position>) -> bool {
    &&& tr.len() >= 1
    &&& tr[0] == start
    &&& forall|k: int| 0 <= k < tr.len() - 1 ==> gstep(g, #[trigger] tr[k]) == Some(tr[k + 1])
}

/// The walk's last state repeats an earlier one.
pub open spec fn revisits(tr: Seq<Position>) -> bool {
    exists|i: int| 0 <= i < tr.len() - 1 && tr[i] == tr.last()
}

/// The walk's last state steps off the grid.
pub open spec fn walk_exits(g: Seq<Seq<MapItem>>, tr: Seq<Position>) -> bool {
    gstep(g, tr.last()) is None
}

/// How many distinct points a list holds.
pub open spec fn distinct_count(ps: Seq<Point>) -> int
    decreases ps.len(),
{
    if ps.len() == 0 {
        0
    } else {
        distinct_count(ps.drop_last()) + (if ps.drop_last().contains(ps.last()) {
            0int
        } else {
            1int
        })
    }
}

pub open spec fn points_of(tr: Seq<Position>) -> Seq<Point> {
    tr.map_values(|p: Position| p.0)
}

/// Whether a state occurs in a walk.
pub open spec fn in_walk(tr: Seq<Position>, pos: Position) -> bool {
    exists|k: int| 0 <= k < tr.len() && tr[k] == pos
}

/// Whether a point occurs in a walk, not counting the start.
pub open spec fn later_point(tr: Seq<Position>, p: Point) -> bool {
    exists|i: int| 1 <= i < tr.len() && (#[trigger] tr[i]).0 == p
}

pub open spec fn dir_idx(d: Direction) -> int {
    match d {
        Direction::North => 0,
        Direction::East => 1,
        Direction::South => 2,
        Direction::West => 3,
    }
}

/// Whether the state's mark is set in the flat state grid.
pub open spec fn smarked(v: Seq<bool>, nc: int, pos: Position) -> bool {
    &&& 0 <= pos.0.y
    &&& 0 <= pos.0.x < nc
    &&& 0 <= (pos.0.y * nc + pos.0.x) * 4 + dir_idx(pos.1) < v.len()
    &&& v[(pos.0.y * nc + pos.0.x) * 4 + dir_idx(pos.1)]
}

/// Marking one state changes no other state's mark.
proof fn lemma_smark(v0: Seq<bool>, nc: int, cur: Position)
    requires
        nc >= 1,
        0 <= cur.0.y,
        0 <= cur.0.x < nc,
        0 <= (cur.0.y * nc + cur.0.x) * 4 + dir_idx(cur.1) < v0.len(),
    ensures
        forall|pos: Position|
            smarked(v0.update((cur.0.y * nc + cur.0.x) * 4 + dir_idx(cur.1), true), nc, pos) <==> (
            smarked(v0, nc, pos) || pos == cur),
{
    let idx = (cur.0.y * nc + cur.0.x) * 4 + dir_idx(cur.1);
    let v1 = v0.update(idx, true);
    assert forall|pos: Position|
        smarked(v1, nc, pos) <==> (smarked(v0, nc, pos) || pos == cur) by {
        if 0 <= pos.0.y && 0 <= pos.0.x < nc {
            if pos != cur {
                assert((pos.0.y * nc + pos.0.x) * 4 + dir_idx(pos.1) != idx) by (nonlinear_arith)
                    requires
                        0 <= pos.0.x < nc,
                        0 <= cur.0.x < nc,
                        pos.0.y >= 0,
                        cur.0.y >= 0,
                        0 <= dir_idx(pos.1) < 4,
                        0 <= dir_idx(cur.1) < 4,
                        pos != cur,
                        dir_idx(pos.1) == dir_idx(cur.1) ==> pos.1 == cur.1,
                        idx == (cur.0.y * nc + cur.0.x) * 4 + dir_idx(cur.1),
                ;
            }
        }
    }
}


/// Stepping the walk keeps the state marks exact.
proof fn lemma_swalk_marks(
    sv0: Seq<bool>,
    svis: Seq<bool>,
    nc: int,
    old_tr: Seq<Position>,
    cur: Position,
)
    requires
        old_tr.len() >= 1,
        old_tr.last() == cur,
        nc >= 1,
        0 <= cur.0.y,
        0 <= cur.0.x < nc,
        0 <= (cur.0.y * nc + cur.0.x) * 4 + dir_idx(cur.1) < sv0.len(),
        svis == sv0.update((cur.0.y * nc + cur.0.x) * 4 + dir_idx(cur.1), true),
        forall|pos: Position| smarked(sv0, nc, pos) <==> in_walk(old_tr.drop_last(), pos),
    ensures
        forall|pos: Position| smarked(svis, nc, pos) <==> in_walk(old_tr, pos),
{
    lemma_smark(sv0, nc, cur);
    assert forall|pos: Position| smarked(svis, nc, pos) <==> in_walk(old_tr, pos) by {
        if smarked(svis, nc, pos) {
            if pos == cur {
                assert(old_tr[old_tr.len() - 1] == cur);
            } else {
                assert(in_walk(old_tr.drop_last(), pos));
                let w = choose|w: int|
                    0 <= w < old_tr.drop_last().len() && old_tr.drop_last()[w] == pos;
                assert(old_tr[w] == pos);
            }
        }
        if in_walk(old_tr, pos) && !smarked(svis, nc, pos) {
            let w = choose|w: int| 0 <= w < old_tr.len() && old_tr[w] == pos;
            if w < old_tr.len() - 1 {
                assert(old_tr.drop_last()[w] == pos);
                assert(in_walk(old_tr.drop_last(), pos));
            } else {
                assert(pos == cur);
            }
            assert(false);
        }
    }
}

/// Counting the current cell keeps the point marks and the distinct
/// count exact.
proof fn lemma_pmarks(
    pv0: Seq<bool>,
    pvis: Seq<bool>,
    nc: int,
    nrows: int,
    old_tr: Seq<Position>,
    cur: Position,
    added: bool,
)
    requires
        old_tr.len() >= 1,
        old_tr.last() == cur,
        nc >= 1,
        0 <= cur.0.y < nrows,
        0 <= cur.0.x < nc,
        nrows <= MAX_DIM,
        nc <= MAX_DIM,
        0 <= cur.0.y * nc + cur.0.x < pv0.len(),
        added == !crate::day::d10::vmarked(pv0, nc, cur.0.y as int, cur.0.x as int),
        pvis == (if added {
            pv0.update(cur.0.y * nc + cur.0.x, true)
        } else {
            pv0
        }),
        forall|a: int, b: int|
            crate::day::d10::vmarked(pv0, nc, a, b) <==> (0 <= a < nrows && 0 <= b < nc
                && points_of(old_tr.drop_last()).contains(
                (Point { x: (b as isize), y: (a as isize) }),
            )),
    ensures
        forall|a: int, b: int|
            crate::day::d10::vmarked(pvis, nc, a, b) <==> (0 <= a < nrows && 0 <= b < nc
                && points_of(old_tr).contains((Point { x: (b as isize), y: (a as isize) }))),
        distinct_count(points_of(old_tr)) == distinct_count(points_of(old_tr.drop_last())) + (
        if added {
            1int
        } else {
            0int
        }),
{
    if added {
        crate::day::d10::lemma_mark_cell(pv0, nc, cur.0.y as int, cur.0.x as int);
    }
    assert(points_of(old_tr).drop_last() =~= points_of(old_tr.drop_last()));
    assert(points_of(old_tr).last() == cur.0);
    if added {
        assert(!points_of(old_tr.drop_last()).contains(cur.0)) by {
            if points_of(old_tr.drop_last()).contains(cur.0) {
                assert(crate::day::d10::vmarked(pv0, nc, cur.0.y as int, cur.0.x as int));
            }
        }
    } else {
        assert(points_of(old_tr.drop_last()).contains(cur.0));
    }
    assert forall|a: int, b: int|
        crate::day::d10::vmarked(pvis, nc, a, b) <==> (0 <= a < nrows && 0 <= b < nc && points_of(
            old_tr,
        ).contains((Point { x: (b as isize), y: (a as isize) }))) by {
        let pt = Point { x: (b as isize), y: (a as isize) };
        if crate::day::d10::vmarked(pvis, nc, a, b) {
            if !crate::day::d10::vmarked(pv0, nc, a, b) {
                assert(added && a == cur.0.y as int && b == cur.0.x as int);
                assert(points_of(old_tr)[old_tr.len() - 1] == cur.0);
            } else {
                assert(points_of(old_tr.drop_last()).contains(pt));
                let w = choose|w: int|
                    0 <= w < points_of(old_tr.drop_last()).len() && points_of(
                        old_tr.drop_last(),
                    )[w] == pt;
                assert(points_of(old_tr)[w] == pt);
            }
        }
        if 0 <= a < nrows && 0 <= b < nc && points_of(old_tr).contains(pt) {
            let w = choose|w: int| 0 <= w < points_of(old_tr).len() && points_of(old_tr)[w] == pt;
            if w < old_tr.len() - 1 {
                assert(points_of(old_tr.drop_last())[w] == pt);
                assert(crate::day::d10::vmarked(pv0, nc, a, b));
            } else {
                assert(pt == cur.0);
                assert((b as isize) == cur.0.x && (a as isize) == cur.0.y);
                assert(b == cur.0.x as int && a == cur.0.y as int);
                assert(crate::day::d10::vmarked(pvis, nc, a, b));
            }
            assert(crate::day::d10::vmarked(pvis, nc, a, b));
        }
    }
}

/// A repeated state ends the walk with nothing new: the count and
/// candidate list already describe the whole walk.
proof fn lemma_patrol_revisit(tr: Seq<Position>, cur: Position)
    requires
        tr.len() >= 1,
        tr.last() == cur,
        in_walk(tr.drop_last(), cur),
    ensures
        revisits(tr),
        distinct_count(points_of(tr)) == distinct_count(points_of(tr.drop_last())),
{
    let i = choose|i: int| 0 <= i < tr.drop_last().len() && tr.drop_last()[i] == cur;
    assert(tr[i] == cur);
    assert(revisits(tr));
    assert(points_of(tr).drop_last() =~= points_of(tr.drop_last()));
    assert(points_of(tr.drop_last())[i] == cur.0);
    assert(points_of(tr.drop_last()).contains(cur.0));
    assert(points_of(tr).last() == cur.0);
}

/// Walk the guard until it leaves the grid or repeats a state. The
/// returns are: how many distinct cells the walk touched, whether it
/// ended in a repeat (a loop), and the distinct cells touched after
/// the start, the candidate spots for a new obstacle.
#[verifier::loop_isolation(false)]
#[verifier::rlimit(100)]
#[verifier::spinoff_prover]
fn patrol(map: &mut GuardMap) -> (r: (usize, bool, Vec<Point>))
    requires
        map_wf(*old(map)),
        old(map).cur_guard is Some,
        grid_view(old(map).grid).len() * (if grid_view(old(map).grid).len() > 0 {
            grid_view(old(map).grid)[0].len() as int
        } else {
            0int
        }) * 4 <= usize::MAX,
    ensures
        map_wf(*final(map)),
        final(map).grid == old(map).grid,
        final(map).guard_origin == old(map).guard_origin,
        final(map).obstacle == old(map).obstacle,
        ({
            let g = grid_view(old(map).grid);
            let start = old(map).cur_guard.unwrap();
            exists|tr: Seq<Position>|
                #![trigger valid_walk(g, start, tr)]
                {
                    &&& valid_walk(g, start, tr)
                    &&& (if r.1 {
                        revisits(tr)
                    } else {
                        walk_exits(g, tr)
                    })
                    &&& r.0 == distinct_count(points_of(tr))
                    &&& nodup_points(r.2@)
                    &&& forall|p: Point|
                        r.2@.contains(p) <==> later_point(
                            if r.1 {
                                tr.drop_last()
                            } else {
                                tr
                            },
                            p,
                        )
                }
        }),
{
    let ghost g = grid_view(map.grid);
    let start = match map.cur_guard {
        Some(p) => p,
        None => {
            proof {
                assert(false);
            }
            return (0, false, Vec::new());
        },
    };
    let nrows = map.grid.rows();
    let ncols = map.grid.cols();
    let ghost nc = ncols as int;
    let cell_count = nrows * ncols;
    let state_count = cell_count * 4;
    let mut svisited: Vec<bool> = Vec::new();
    let mut k: usize = 0;
    while k < state_count
        invariant
            k <= state_count,
            svisited@.len() == k,
            forall|m: int| 0 <= m < k ==> !(#[trigger] svisited@[m]),
        decreases state_count - k,
    {
        svisited.push(false);
        k += 1;
    }
    let mut pvisited: Vec<bool> = Vec::new();
    let mut k2: usize = 0;
    while k2 < cell_count
        invariant
            k2 <= cell_count,
            pvisited@.len() == k2,
            forall|m: int| 0 <= m < k2 ==> !(#[trigger] pvisited@[m]),
        decreases cell_count - k2,
    {
        pvisited.push(false);
        k2 += 1;
    }
    let mut cands: Vec<Point> = Vec::new();
    let mut count: usize = 0;
    let mut at_start = true;
    let ghost mut tr: Seq<Position> = seq![start];
    proof {
        lemma_unvisited_nonneg(svisited@, 0);
        crate::day::d12::lemma_unvisited_full(pvisited@, 0);
        assert(tr.drop_last() =~= Seq::<Position>::empty());
        assert(points_of(tr.drop_last()) =~= Seq::<Point>::empty());
    }
    loop
        invariant
            map_wf(*map),
            map.grid == old(map).grid,
            map.guard_origin == old(map).guard_origin,
            map.obstacle == old(map).obstacle,
            g == grid_view(map.grid),
            nrows == g.len(),
            nc == (if g.len() > 0 {
                g[0].len() as int
            } else {
                0int
            }),
            g.len() * nc * 4 <= usize::MAX,
            cell_count == nrows * nc,
            state_count == cell_count * 4,
            svisited@.len() == state_count,
            pvisited@.len() == cell_count,
            valid_walk(g, start, tr),
            map.cur_guard == Some(tr.last()),
            forall|k3: int| 0 <= k3 < tr.len() ==> grid_at(g, (#[trigger] tr[k3]).0) is Some,
            forall|pos: Position| smarked(svisited@, nc, pos) <==> in_walk(tr.drop_last(), pos),
            forall|a: int, b: int|
                crate::day::d10::vmarked(pvisited@, nc, a, b) <==> (0 <= a < nrows && 0 <= b < nc
                    && points_of(tr.drop_last()).contains(
                    (Point { x: (b as isize), y: (a as isize) }),
                )),
            count == distinct_count(points_of(tr.drop_last())),
            count + unvisited(pvisited@, 0) == cell_count,
            unvisited(pvisited@, 0) >= 0,
            at_start <==> tr.len() == 1,
            nodup_points(cands@),
            forall|p: Point| cands@.contains(p) <==> later_point(tr.drop_last(), p),
        decreases unvisited(svisited@, 0),
    {
        let cur = match map.cur_guard {
            Some(p) => p,
            None => {
                proof {
                    assert(false);
                }
                return (0, false, Vec::new());
            },
        };
        proof {
            assert(cur == tr.last());
            assert(grid_at(g, cur.0) is Some);
            assert(0 <= cur.0.y < g.len());
            assert(0 <= cur.0.x < g[cur.0.y as int].len());
            assert(g[cur.0.y as int].len() == nc);
            assert((cur.0.y * nc + cur.0.x) * 4 + dir_idx(cur.1) < state_count && (cur.0.y * nc
                + cur.0.x) * 4 + dir_idx(cur.1) >= 0) by (nonlinear_arith)
                requires
                    0 <= cur.0.y < nrows,
                    0 <= cur.0.x < nc,
                    0 <= dir_idx(cur.1) < 4,
                    state_count == nrows * nc * 4,
                    cell_count == nrows * nc,
                    state_count == cell_count * 4,
            ;
            assert(cur.0.y * nc + cur.0.x < cell_count && cur.0.y * nc + cur.0.x
                >= 0) by (nonlinear_arith)
                requires
                    0 <= cur.0.y < nrows,
                    0 <= cur.0.x < nc,
                    cell_count == nrows * nc,
            ;
        }
        let y = cur.0.y as usize;
        let x = cur.0.x as usize;
        let di: usize = match cur.1 {
            Direction::North => 0,
            Direction::East => 1,
            Direction::South => 2,
            Direction::West => 3,
        };
        let sidx = (y * ncols + x) * 4 + di;
        if svisited[sidx] {
            proof {
                assert(smarked(svisited@, nc, cur));
                assert(in_walk(tr.drop_last(), cur));
                lemma_patrol_revisit(tr, cur);
            }
            return (count, true, cands);
        }
        let ghost sv0 = svisited@;
        svisited.set(sidx, true);
        proof {
            assert(svisited@ == sv0.update(
                (cur.0.y * nc + cur.0.x) * 4 + dir_idx(cur.1),
                true,
            ));
            lemma_unvisited_update(sv0, 0, sidx as int);
            lemma_unvisited_nonneg(svisited@, 0);
        }
        let pidx = y * ncols + x;
        let ghost pv0 = pvisited@;
        let mut added_point = false;
        if !pvisited[pidx] {
            pvisited.set(pidx, true);
            count += 1;
            added_point = true;
            proof {
                assert(pvisited@ == pv0.update(cur.0.y * nc + cur.0.x, true));
                lemma_unvisited_update(pv0, 0, pidx as int);
            }
        }
        proof {
            lemma_unvisited_nonneg(pvisited@, 0);
            assert(added_point == !crate::day::d10::vmarked(
                pv0,
                nc,
                cur.0.y as int,
                cur.0.x as int,
            ));
        }
        let ghost old_cands = cands@;
        if !at_start {
            // the start does not become a candidate on its first visit
            let already = contains_point(&cands, &cur.0);
            if !already {
                cands.push(cur.0);
            }
        }
        at_start = false;
        let prev = map.move_guard();
        proof {
            assert(prev == Some(cur));
        }
        match map.cur_guard {
            None => {
                proof {
                    assert(gstep(g, cur) is None);
                    assert(walk_exits(g, tr));
                    lemma_pmarks(pv0, pvisited@, nc, nrows as int, tr, cur, added_point);
                    assert(count == distinct_count(points_of(tr)));
                    lemma_cands_step(tr, old_cands, cands@, cur);
                }
                return (count, false, cands);
            },
            Some(next) => {
                proof {
                    assert(gstep(g, cur) == Some(next));
                    let old_tr = tr;
                    tr = tr.push(next);
                    assert(tr.drop_last() =~= old_tr);
                    assert(tr.last() == next);
                    assert forall|k3: int| 0 <= k3 < tr.len() implies grid_at(
                        g,
                        (#[trigger] tr[k3]).0,
                    ) is Some by {
                        if k3 < old_tr.len() {
                            assert(tr[k3] == old_tr[k3]);
                        } else {
                            assert(tr[k3] == next);
                            assert(map_wf(*map));
                        }
                    }
                    lemma_swalk_marks(sv0, svisited@, nc, old_tr, cur);
                    lemma_pmarks(pv0, pvisited@, nc, nrows as int, old_tr, cur, added_point);
                    assert(count == distinct_count(points_of(tr.drop_last())));
                    lemma_cands_step(old_tr, old_cands, cands@, cur);
                }
            },
        }
    }
}

/// No point appears twice.
pub open spec fn nodup_points(s: Seq<Point>) -> bool {
    forall|i: int, j: int| 0 <= i < j < s.len() ==> s[i] != s[j]
}

/// Linear search for a point.
#[verifier::loop_isolation(false)]
fn contains_point(v: &Vec<Point>, p: &Point) -> (r: bool)
    ensures
        r == v@.contains(*p),
{
    let mut i: usize = 0;
    while i < v.len()
        invariant
            i <= v@.len(),
            forall|m: int| 0 <= m < i ==> v@[m] != *p,
        decreases v@.len() - i,
    {
        if v[i].x == p.x && v[i].y == p.y {
            proof {
                assert(v@[i as int] == *p);
            }
            return true;
        }
        i += 1;
    }
    false
}

/// After handling one more state, the candidate list covers exactly
/// the later points of the extended walk.
proof fn lemma_cands_step(
    old_tr: Seq<Position>,
    old_cands: Seq<Point>,
    new_cands: Seq<Point>,
    cur: Position,
)
    requires
        old_tr.len() >= 1,
        old_tr.last() == cur,
        forall|p: Point| old_cands.contains(p) <==> later_point(old_tr.drop_last(), p),
        nodup_points(old_cands),
        new_cands == (if old_tr.len() > 1 && !old_cands.contains(cur.0) {
            old_cands.push(cur.0)
        } else {
            old_cands
        }),
    ensures
        forall|p: Point| new_cands.contains(p) <==> later_point(old_tr, p),
        nodup_points(new_cands),
{
    assert forall|p: Point| new_cands.contains(p) <==> later_point(old_tr, p) by {
        if new_cands.contains(p) {
            let w = choose|w: int| 0 <= w < new_cands.len() && new_cands[w] == p;
            if w < old_cands.len() {
                assert(old_cands[w] == p);
                assert(old_cands.contains(p));
                assert(later_point(old_tr.drop_last(), p));
                let i = choose|i: int|
                    1 <= i < old_tr.drop_last().len() && (#[trigger] old_tr.drop_last()[i]).0 == p;
                assert(old_tr[i].0 == p);
                assert(later_point(old_tr, p));
            } else {
                assert(p == cur.0);
                assert(old_tr.len() > 1);
                assert(old_tr[old_tr.len() - 1].0 == p);
                assert(later_point(old_tr, p));
            }
        }
        if later_point(old_tr, p) && !new_cands.contains(p) {
            let i = choose|i: int| 1 <= i < old_tr.len() && (#[trigger] old_tr[i]).0 == p;
            if i < old_tr.len() - 1 {
                assert(old_tr.drop_last()[i].0 == p);
                assert(later_point(old_tr.drop_last(), p));
                assert(old_cands.contains(p));
                if old_tr.len() > 1 && !old_cands.contains(cur.0) {
                    let w = choose|w: int| 0 <= w < old_cands.len() && old_cands[w] == p;
                    assert(new_cands[w] == p);
                }
                assert(false);
            } else {
                assert(p == cur.0);
                assert(old_tr.len() > 1);
                if old_cands.contains(cur.0) {
                    let w = choose|w: int| 0 <= w < old_cands.len() && old_cands[w] == p;
                    assert(new_cands[w] == p);
                } else {
                    assert(new_cands[new_cands.len() - 1] == p);
                }
                assert(false);
            }
        }
    }
    if old_tr.len() > 1 && !old_cands.contains(cur.0) {
        assert forall|i: int, j: int|
            0 <= i < j < new_cands.len() implies new_cands[i] != new_cands[j] by {
            if j == new_cands.len() - 1 {
                assert(new_cands[i] == old_cands[i]);
                if new_cands[i] == cur.0 {
                    assert(old_cands.contains(cur.0));
                }
            } else {
                assert(new_cands[i] == old_cands[i] && new_cands[j] == old_cands[j]);
            }
        }
    }
}


/// The count of set flags.
pub open spec fn count_true(flags: Seq<bool>) -> int
    decreases flags.len(),
{
    if flags.len() == 0 {
        0
    } else {
        (if flags[0] {
            1int
        } else {
            0int
        }) + count_true(flags.skip(1))
    }
}

proof fn lemma_count_true_push(flags: Seq<bool>, b: bool)
    ensures
        count_true(flags.push(b)) == count_true(flags) + (if b {
            1int
        } else {
            0int
        }),
    decreases flags.len(),
{
    if flags.len() == 0 {
        assert(flags.push(b)[0] == b);
        assert(flags.push(b).skip(1) =~= Seq::<bool>::empty());
        assert(count_true(Seq::<bool>::empty()) == 0);
        assert(count_true(flags.push(b)) == (if b {
            1int
        } else {
            0int
        }) + 0);
    } else {
        assert(flags.push(b)[0] == flags[0]);
        assert(flags.push(b).skip(1) =~= flags.skip(1).push(b));
        lemma_count_true_push(flags.skip(1), b);
        assert(count_true(flags.push(b)) == (if flags[0] {
            1int
        } else {
            0int
        }) + count_true(flags.skip(1).push(b)));
        assert(count_true(flags) == (if flags[0] {
            1int
        } else {
            0int
        }) + count_true(flags.skip(1)));
    }
}

/// Whether `flag` truthfully reports the walk outcome on the grid
/// with an obstacle attempted at `cand`.
pub open spec fn flag_ok(g0: Seq<Seq<MapItem>>, origin: Position, cand: Point, flag: bool) -> bool {
    let pg = placed_grid(g0, origin.0, cand);
    exists|trc: Seq<Position>|
        #![trigger valid_walk(pg, origin, trc)]
        {
            &&& valid_walk(pg, origin, trc)
            &&& (if flag {
                revisits(trc)
            } else {
                walk_exits(pg, trc)
            })
        }
}

/// The grid after an obstacle attempt at `p`: changed only when the
/// placement rules allow it.
pub open spec fn placed_grid(g: Seq<Seq<MapItem>>, origin: Point, p: Point) -> Seq<Seq<MapItem>> {
    if p != origin && grid_at(g, p) == Some(MapItem::Empty) {
        g.update(p.y as int, g[p.y as int].update(p.x as int, MapItem::Obstacle))
    } else {
        g
    }
}

pub struct P1;

impl P1 {
    /// Count the distinct cells of the guard's patrol: the walk runs
    /// until the guard leaves the grid, or until it repeats a state
    /// (after which no new cell could ever be reached).
    pub fn solve(input: GuardMap) -> (r: Result<usize, Error>)
        requires
            map_wf(input),
            input.cur_guard is Some,
            grid_view(input.grid).len() * (if grid_view(input.grid).len() > 0 {
                grid_view(input.grid)[0].len() as int
            } else {
                0int
            }) * 4 <= usize::MAX,
        ensures
            ({
                let g = grid_view(input.grid);
                let start = input.cur_guard.unwrap();
                match r {
                    Ok(count) => exists|tr: Seq<Position>|
                        #![trigger valid_walk(g, start, tr)]
                        {
                            &&& valid_walk(g, start, tr)
                            &&& (revisits(tr) || walk_exits(g, tr))
                            &&& count == distinct_count(points_of(tr))
                        },
                    Err(_) => false,
                }
            }),
    {
        let mut map = input;
        let (count, _, _) = patrol(&mut map);
        Ok(count)
    }
}

/// Whether the guard's walk from its current state loops: it ends in
/// a repeated state rather than off the grid.
pub fn has_cycle(map: &mut GuardMap) -> (r: bool)
    requires
        map_wf(*old(map)),
        old(map).cur_guard is Some,
        grid_view(old(map).grid).len() * (if grid_view(old(map).grid).len() > 0 {
            grid_view(old(map).grid)[0].len() as int
        } else {
            0int
        }) * 4 <= usize::MAX,
    ensures
        map_wf(*final(map)),
        final(map).grid == old(map).grid,
        final(map).guard_origin == old(map).guard_origin,
        final(map).obstacle == old(map).obstacle,
        ({
            let g = grid_view(old(map).grid);
            let start = old(map).cur_guard.unwrap();
            exists|tr: Seq<Position>|
                #![trigger valid_walk(g, start, tr)]
                {
                    &&& valid_walk(g, start, tr)
                    &&& (if r {
                        revisits(tr)
                    } else {
                        walk_exits(g, tr)
                    })
                }
        }),
{
    let (_, cycled, _) = patrol(map);
    cycled
}


/// A walk cannot both leave the grid and end in a repeat.
proof fn lemma_walk_exclusive(g: Seq<Seq<MapItem>>, start: Position, tr: Seq<Position>)
    requires
        valid_walk(g, start, tr),
    ensures
        !(revisits(tr) && walk_exits(g, tr)),
{
    if revisits(tr) && walk_exits(g, tr) {
        let i = choose|i: int| 0 <= i < tr.len() - 1 && tr[i] == tr.last();
        assert(gstep(g, tr[i]) == Some(tr[i + 1]));
    }
}

/// Trying one more candidate extends the per-candidate evidence.
proof fn lemma_flags_extend(
    g0: Seq<Seq<MapItem>>,
    origin: Position,
    cands: Seq<Point>,
    old_flags: Seq<bool>,
    new_flags: Seq<bool>,
    cycled: bool,
    point: Point,
)
    requires
        new_flags == old_flags.push(cycled),
        old_flags.len() < cands.len(),
        point == cands[old_flags.len() as int],
        forall|k: int|
            0 <= k < old_flags.len() ==> #[trigger] flag_ok(g0, origin, cands[k], old_flags[k]),
        flag_ok(g0, origin, point, cycled),
    ensures
        forall|k: int|
            0 <= k < new_flags.len() ==> #[trigger] flag_ok(g0, origin, cands[k], new_flags[k]),
{
    assert forall|k: int| 0 <= k < new_flags.len() implies #[trigger] flag_ok(
        g0,
        origin,
        cands[k],
        new_flags[k],
    ) by {
        if k < old_flags.len() {
            assert(new_flags[k] == old_flags[k]);
            assert(flag_ok(g0, origin, cands[k], old_flags[k]));
        } else {
            assert(new_flags[k] == cycled);
            assert(cands[k] == point);
        }
    }
}

pub struct P2;

impl P2 {
    /// Count the patrol cells (other than the start) where a new
    /// obstacle would trap the guard: each candidate is tried on the
    /// reset map, watching for a repeated state.
    #[verifier::loop_isolation(false)]
    #[verifier::rlimit(100)]
    #[verifier::spinoff_prover]
    pub fn solve(input: GuardMap) -> (r: Result<usize, Error>)
        requires
            map_wf(input),
            input.cur_guard == Some(input.guard_origin),
            input.obstacle is None,
            grid_view(input.grid).len() * (if grid_view(input.grid).len() > 0 {
                grid_view(input.grid)[0].len() as int
            } else {
                0int
            }) * 4 <= usize::MAX,
        ensures
            ({
                let g = grid_view(input.grid);
                let origin = input.guard_origin;
                match r {
                    Ok(count) => exists|tr: Seq<Position>, cands: Seq<Point>, flags: Seq<bool>|
                        #![trigger valid_walk(g, origin, tr), cands.len(), flags.len()]
                        {
                            &&& valid_walk(g, origin, tr)
                            &&& (revisits(tr) || walk_exits(g, tr))
                            &&& nodup_points(cands)
                            &&& (forall|p: Point|
                                cands.contains(p) <==> later_point(
                                    if revisits(tr) {
                                        tr.drop_last()
                                    } else {
                                        tr
                                    },
                                    p,
                                ))
                            &&& flags.len() == cands.len()
                            &&& (forall|k: int|
                                0 <= k < flags.len() ==> #[trigger] flag_ok(
                                    g,
                                    origin,
                                    cands[k],
                                    flags[k],
                                ))
                            &&& count == count_true(flags)
                        },
                    Err(_) => false,
                }
            }),
    {
        let ghost g0 = grid_view(input.grid);
        let ghost origin = input.guard_origin;
        let mut map = input;
        let (_, first_cycled, cands) = patrol(&mut map);
        let ghost tr0 = choose|tr: Seq<Position>|
            #![trigger valid_walk(g0, origin, tr)]
            {
                &&& valid_walk(g0, origin, tr)
                &&& (if first_cycled {
                    revisits(tr)
                } else {
                    walk_exits(g0, tr)
                })
                &&& nodup_points(cands@)
                &&& forall|p: Point|
                    cands@.contains(p) <==> later_point(
                        if first_cycled {
                            tr.drop_last()
                        } else {
                            tr
                        },
                        p,
                    )
            };
        proof {
            lemma_walk_exclusive(g0, origin, tr0);
            assert(revisits(tr0) <==> first_cycled);
        }
        let mut count: usize = 0;
        let mut idx: usize = 0;
        let ghost mut flags: Seq<bool> = Seq::empty();
        while idx < cands.len()
            invariant
                map_wf(map),
                map.guard_origin == origin,
                match map.obstacle {
                    Some(p) => grid_view(map.grid) == placed_grid(g0, origin.0, p) && p
                        != origin.0 && grid_at(g0, p) == Some(MapItem::Empty),
                    None => grid_view(map.grid) == g0,
                },
                idx <= cands@.len(),
                flags.len() == idx,
                count == count_true(flags),
                count <= idx,
                forall|k: int|
                    0 <= k < flags.len() ==> #[trigger] flag_ok(g0, origin, cands@[k], flags[k]),
            decreases cands@.len() - idx,
        {
            let ghost prev_ob = map.obstacle;
            map.reset();
            proof {
                match prev_ob {
                    Some(p) => {
                        let placed = placed_grid(g0, origin.0, p);
                        assert(placed == g0.update(
                            p.y as int,
                            g0[p.y as int].update(p.x as int, MapItem::Obstacle),
                        ));
                        assert(grid_at(placed, p) is Some);
                        assert(grid_view(map.grid) =~= g0) by {
                            assert(grid_view(map.grid) == placed.update(
                                p.y as int,
                                placed[p.y as int].update(p.x as int, MapItem::Empty),
                            ));
                            assert(placed[p.y as int].update(p.x as int, MapItem::Empty) =~= g0[
                                p.y as int]);
                        }
                    },
                    None => {},
                }
            }
            let point = cands[idx];
            map.place_obstacle(&point);
            proof {
                assert(grid_view(map.grid) == placed_grid(g0, origin.0, point));
                match map.obstacle {
                    Some(p2) => {
                        assert(p2 == point);
                        assert(point != origin.0 && grid_at(g0, point) == Some(MapItem::Empty));
                    },
                    None => {},
                }
            }
            let cycled = has_cycle(&mut map);
            if cycled {
                count += 1;
            }
            proof {
                assert(flag_ok(g0, origin, point, cycled));
                lemma_count_true_push(flags, cycled);
                lemma_flags_extend(g0, origin, cands@, flags, flags.push(cycled), cycled, point);
                flags = flags.push(cycled);
            }
            idx += 1;
        }
        proof {
            assert(forall|p: Point|
                cands@.contains(p) <==> later_point(
                    if revisits(tr0) {
                        tr0.drop_last()
                    } else {
                        tr0
                    },
                    p,
                ));
        }
        Ok(count)
    }
}

} // verus!
