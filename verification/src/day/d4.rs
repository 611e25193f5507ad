//! Day 4: counting words in a crossword grid.
//!
//! Part one counts every straight occurrence of "XMAS" starting from an
//! `'X'` cell, in all eight directions. Part two counts the `'A'` cells
//! whose two diagonals both spell "MAS" one way or the other.

use vstd::prelude::*;

verus! {

use vstd::string::StringSliceAdditionalSpecFns;

use crate::harness::error::Error;
use crate::harness::input::InputError;
use crate::harness::iter::{lines, split_lines};

pub struct D4;

impl D4 {
    /// The day this module solves.
    pub fn day() -> (d: u8)
        ensures
            d == 4,
    {
        4
    }
}

/// The largest grid dimension the solver accepts; keeps every
/// coordinate computation far away from `isize` overflow.
pub const MAX_DIM: usize = 100000;

/// The crossword grid, row by row.
pub struct Crossword(pub Vec<Vec<char>>);

/// A grid coordinate; `x` counts columns, `y` counts rows.
#[derive(Debug, Hash, PartialEq, Eq, Structural, Clone, Copy)]
pub struct Point {
    pub x: isize,
    pub y: isize,
}

impl Point {
    pub fn new(x: isize, y: isize) -> (p: Point)
        ensures
            p == (Point { x, y }),
    {
        Point { x, y }
    }
}

/// The character at column `x` of row `y`, if both are in range.
pub open spec fn cw_at(g: Seq<Seq<char>>, x: int, y: int) -> Option<char> {
    if 0 <= y < g.len() && 0 <= x < g[y].len() {
        Some(g[y][x])
    } else {
        None
    }
}

impl Crossword {
    pub open spec fn view_spec(&self) -> Seq<Seq<char>> {
        self.0@.map_values(|row: Vec<char>| row@)
    }

    /// Both grid dimensions stay below [`MAX_DIM`].
    pub open spec fn wf(&self) -> bool {
        &&& self.view_spec().len() <= MAX_DIM
        &&& forall|r: int|
            0 <= r < self.view_spec().len() ==> (#[trigger] self.view_spec()[r]).len() <= MAX_DIM
    }

    /// The character at a point, if the point is on the grid.
    pub fn get(&self, idx: Point) -> (r: Option<char>)
        ensures
            r == cw_at(self.view_spec(), idx.x as int, idx.y as int),
    {
        if idx.x < 0 || idx.y < 0 {
            return None;
        }
        let x = idx.x as usize;
        let y = idx.y as usize;
        if y >= self.0.len() {
            return None;
        }
        if x >= self.0[y].len() {
            return None;
        }
        Some(self.0[y][x])
    }
}

/// Whether `w[wi..]` is spelled out on the grid starting at `(x, y)`
/// and stepping by `(dx, dy)`; characters compare by code point.
pub open spec fn has_word_from(
    g: Seq<Seq<char>>,
    w: Seq<u8>,
    wi: int,
    x: int,
    y: int,
    dx: int,
    dy: int,
) -> bool
    decreases w.len() - wi,
{
    if wi >= w.len() {
        true
    } else if cw_at(g, x, y) is None {
        false
    } else if (cw_at(g, x, y).unwrap() as u32) != (w[wi] as u32) {
        false
    } else {
        has_word_from(g, w, wi + 1, x + dx, y + dy, dx, dy)
    }
}

/// The eight straight directions, in the order the scans try them.
pub open spec fn dirs_spec() -> Seq<Point> {
    seq![
        (Point { x: 1isize, y: 0isize }),
        (Point { x: 0isize, y: 1isize }),
        (Point { x: -1isize, y: 0isize }),
        (Point { x: 0isize, y: -1isize }),
        (Point { x: 1isize, y: 1isize }),
        (Point { x: -1isize, y: 1isize }),
        (Point { x: -1isize, y: -1isize }),
        (Point { x: 1isize, y: -1isize }),
    ]
}

fn dirs() -> (r: Vec<Point>)
    ensures
        r@ == dirs_spec(),
{
    let mut r: Vec<Point> = Vec::new();
    r.push(Point { x: 1, y: 0 });
    r.push(Point { x: 0, y: 1 });
    r.push(Point { x: -1, y: 0 });
    r.push(Point { x: 0, y: -1 });
    r.push(Point { x: 1, y: 1 });
    r.push(Point { x: -1, y: 1 });
    r.push(Point { x: -1, y: -1 });
    r.push(Point { x: 1, y: -1 });
    proof {
        assert(r@ =~= dirs_spec());
    }
    r
}

/// How many of the given directions spell the word out from `(x, y)`.
pub open spec fn words_at(g: Seq<Seq<char>>, w: Seq<u8>, x: int, y: int, ds: Seq<Point>) -> int
    decreases ds.len(),
{
    if ds.len() == 0 {
        0
    } else {
        (if has_word_from(g, w, 0, x, y, ds[0].x as int, ds[0].y as int) {
            1int
        } else {
            0int
        }) + words_at(g, w, x, y, ds.skip(1))
    }
}

impl Crossword {
    /// Whether the word is spelled out starting at `point`, stepping
    /// by `delta`, with the first `word_idx` characters already
    /// matched.
    pub fn has_word(&self, word: &str, word_idx: usize, point: Point, delta: Point) -> (r: bool)
        requires
            self.wf(),
            -(MAX_DIM as int) <= delta.x <= MAX_DIM as int,
            -(MAX_DIM as int) <= delta.y <= MAX_DIM as int,
        ensures
            r == has_word_from(
                self.view_spec(),
                word.spec_bytes(),
                word_idx as int,
                point.x as int,
                point.y as int,
                delta.x as int,
                delta.y as int,
            ),
        decreases word.spec_bytes().len() - word_idx,
    {
        let wb = word.as_bytes();
        if word_idx >= wb.len() {
            return true;
        }
        let to_match = wb[word_idx];
        let cur = match self.get(point) {
            Some(c) => c,
            None => {
                return false;
            },
        };
        if (cur as u32) != (to_match as u32) {
            return false;
        }
        let next = Point { x: point.x + delta.x, y: point.y + delta.y };
        self.has_word(word, word_idx + 1, next, delta)
    }

    /// How many of the eight directions spell the word out from
    /// `point`.
    #[verifier::loop_isolation(false)]
    pub fn words_from_point(&self, word: &str, point: Point) -> (r: usize)
        requires
            self.wf(),
        ensures
            r == words_at(
                self.view_spec(),
                word.spec_bytes(),
                point.x as int,
                point.y as int,
                dirs_spec(),
            ),
    {
        let ds = dirs();
        let mut r: usize = 0;
        let mut k: usize = 0;
        proof {
            assert(dirs_spec().skip(0) =~= dirs_spec());
        }
        while k < ds.len()
            invariant
                k <= ds@.len(),
                r <= k,
                r + words_at(
                    self.view_spec(),
                    word.spec_bytes(),
                    point.x as int,
                    point.y as int,
                    dirs_spec().skip(k as int),
                ) == words_at(
                    self.view_spec(),
                    word.spec_bytes(),
                    point.x as int,
                    point.y as int,
                    dirs_spec(),
                ),
            decreases ds@.len() - k,
        {
            proof {
                assert(dirs_spec().skip(k as int)[0] == dirs_spec()[k as int]);
                assert(dirs_spec().skip(k as int).skip(1) =~= dirs_spec().skip(k + 1));
                lemma_words_at_bounds(
                    self.view_spec(),
                    word.spec_bytes(),
                    point.x as int,
                    point.y as int,
                    dirs_spec().skip(k + 1),
                );
            }
            if self.has_word(word, 0, point, ds[k]) {
                r += 1;
            }
            k += 1;
        }
        r
    }
}

proof fn lemma_words_at_bounds(g: Seq<Seq<char>>, w: Seq<u8>, x: int, y: int, ds: Seq<Point>)
    ensures
        0 <= words_at(g, w, x, y, ds) <= ds.len(),
    decreases ds.len(),
{
    if ds.len() != 0 {
        lemma_words_at_bounds(g, w, x, y, ds.skip(1));
    }
}

/// Whether the cell at `(x, y)` is the centre of an X of "MAS": an
/// `'A'` whose two diagonals each hold an `'M'` and an `'S'`.
pub open spec fn is_x_mas_spec(g: Seq<Seq<char>>, x: int, y: int) -> bool {
    &&& cw_at(g, x, y) == Some('A')
    &&& {
        let nw = cw_at(g, x - 1, y - 1);
        let ne = cw_at(g, x + 1, y - 1);
        let se = cw_at(g, x + 1, y + 1);
        let sw = cw_at(g, x - 1, y + 1);
        &&& ((nw == Some('M') && se == Some('S')) || (nw == Some('S') && se == Some('M')))
        &&& ((sw == Some('M') && ne == Some('S')) || (sw == Some('S') && ne == Some('M')))
    }
}

/// Part two's test for one cell.
pub fn is_x_mas(cw: &Crossword, point: &Point) -> (r: bool)
    requires
        cw.wf(),
    ensures
        r == is_x_mas_spec(cw.view_spec(), point.x as int, point.y as int),
{
    match cw.get(*point) {
        Some(c) => {
            if c != 'A' {
                return false;
            }
        },
        None => {
            return false;
        },
    }
    let nw = cw.get(Point { x: point.x - 1, y: point.y - 1 });
    let ne = cw.get(Point { x: point.x + 1, y: point.y - 1 });
    let se = cw.get(Point { x: point.x + 1, y: point.y + 1 });
    let sw = cw.get(Point { x: point.x - 1, y: point.y + 1 });
    ((nw == Some('M') && se == Some('S')) || (nw == Some('S') && se == Some('M'))) && ((sw == Some(
        'M',
    ) && ne == Some('S')) || (sw == Some('S') && ne == Some('M')))
}

/// Part one's contribution of the cells of row `y` from column `x`
/// on: each `'X'` cell adds its word count.
pub open spec fn count_x_row(g: Seq<Seq<char>>, w: Seq<u8>, y: int, x: int) -> int
    decreases g[y].len() - x,
{
    if !(0 <= y < g.len()) || x >= g[y].len() || x < 0 {
        0
    } else {
        (if cw_at(g, x, y) == Some('X') {
            words_at(g, w, x, y, dirs_spec())
        } else {
            0int
        }) + count_x_row(g, w, y, x + 1)
    }
}

/// Part one's contribution of the rows from `y` down.
pub open spec fn count_x_rows(g: Seq<Seq<char>>, w: Seq<u8>, y: int) -> int
    decreases g.len() - y,
{
    if !(0 <= y) || y >= g.len() {
        0
    } else {
        count_x_row(g, w, y, 0) + count_x_rows(g, w, y + 1)
    }
}

proof fn lemma_count_x_row_bounds(g: Seq<Seq<char>>, w: Seq<u8>, y: int, x: int)
    requires
        0 <= y < g.len(),
        0 <= x <= g[y].len(),
    ensures
        0 <= count_x_row(g, w, y, x) <= (g[y].len() - x) * 8,
    decreases g[y].len() - x,
{
    if x < g[y].len() {
        lemma_count_x_row_bounds(g, w, y, x + 1);
        lemma_words_at_bounds(g, w, x, y, dirs_spec());
    }
}

/// Part two's contribution of the cells of row `y` from column `x`
/// on: each X-of-MAS centre adds one.
pub open spec fn count_a_row(g: Seq<Seq<char>>, y: int, x: int) -> int
    decreases g[y].len() - x,
{
    if !(0 <= y < g.len()) || x >= g[y].len() || x < 0 {
        0
    } else {
        (if is_x_mas_spec(g, x, y) {
            1int
        } else {
            0int
        }) + count_a_row(g, y, x + 1)
    }
}

/// Part two's contribution of the rows from `y` down.
pub open spec fn count_a_rows(g: Seq<Seq<char>>, y: int) -> int
    decreases g.len() - y,
{
    if !(0 <= y) || y >= g.len() {
        0
    } else {
        count_a_row(g, y, 0) + count_a_rows(g, y + 1)
    }
}

proof fn lemma_count_a_row_bounds(g: Seq<Seq<char>>, y: int, x: int)
    requires
        0 <= y < g.len(),
        0 <= x <= g[y].len(),
    ensures
        0 <= count_a_row(g, y, x) <= g[y].len() - x,
    decreases g[y].len() - x,
{
    if x < g[y].len() {
        lemma_count_a_row_bounds(g, y, x + 1);
    }
}

/// The bytes of a line read as characters, which is how the grid is
/// stored.
pub open spec fn line_chars(l: Seq<u8>) -> Seq<char> {
    l.map_values(|b: u8| b as char)
}

impl Crossword {
    /// Read the grid: every input line becomes a row of characters.
    /// Inputs wider or taller than [`MAX_DIM`] are rejected.
    #[verifier::loop_isolation(false)]
    pub fn read(input: &[u8]) -> (r: Result<Crossword, InputError>)
        ensures
            match r {
                Ok(cw) => {
                    &&& cw.wf()
                    &&& cw.view_spec() == split_lines(input@).map_values(|l: Seq<u8>| line_chars(l))
                },
                Err(e) => {
                    &&& (split_lines(input@).len() > MAX_DIM || exists|i: int|
                        0 <= i < split_lines(input@).len() && (#[trigger] split_lines(
                            input@,
                        )[i]).len() > MAX_DIM)
                    &&& e is InvalidInput
                },
            },
    {
        let ls = lines(input);
        let ghost lss = ls@.map_values(|l: Vec<u8>| l@);
        if ls.len() > MAX_DIM {
            return Err(InputError::invalid("grid has too many rows"));
        }
        let mut rows: Vec<Vec<char>> = Vec::new();
        let mut y: usize = 0;
        while y < ls.len()
            invariant
                y <= ls@.len(),
                rows@.len() == y,
                forall|i: int| 0 <= i < y ==> (#[trigger] rows@[i])@.len() <= MAX_DIM,
                forall|i: int| 0 <= i < y ==> (#[trigger] rows@[i])@ == line_chars(lss[i]),
            decreases ls@.len() - y,
        {
            let line = &ls[y];
            if line.len() > MAX_DIM {
                proof {
                    assert(lss[y as int] == ls@[y as int]@);
                    assert(lss[y as int].len() > MAX_DIM);
                }
                return Err(InputError::invalid("grid row is too wide"));
            }
            let mut row: Vec<char> = Vec::new();
            let mut x: usize = 0;
            while x < line.len()
                invariant
                    x <= line@.len(),
                    row@.len() == x,
                    forall|i: int| 0 <= i < x ==> row@[i] == (line@[i] as char),
                decreases line@.len() - x,
            {
                row.push(line[x] as char);
                x += 1;
            }
            proof {
                assert(row@ =~= line_chars(lss[y as int]));
            }
            rows.push(row);
            y += 1;
        }
        let cw = Crossword(rows);
        proof {
            assert(cw.view_spec() =~= lss.map_values(|l: Seq<u8>| line_chars(l)));
        }
        Ok(cw)
    }
}

pub struct P1;

impl P1 {
    /// Count every straight "XMAS" in the grid, per starting `'X'`.
    #[verifier::loop_isolation(false)]
    pub fn solve(input: Crossword) -> (r: Result<usize, Error>)
        requires
            input.wf(),
            count_x_rows(input.view_spec(), seq![88u8, 77u8, 65u8, 83u8], 0) <= usize::MAX,
        ensures
            r == Ok::<usize, Error>(
                count_x_rows(input.view_spec(), seq![88u8, 77u8, 65u8, 83u8], 0) as usize,
            ),
    {
        let word = "XMAS";
        let ghost g = input.view_spec();
        let ghost w = word.spec_bytes();
        proof {
            broadcast use vstd::string::group_string_axioms;

            reveal_strlit("XMAS");
            assert(word@ =~= seq!['X', 'M', 'A', 'S']);
            assert(vstd::string::is_ascii(word));
            assert(w =~= seq![88u8, 77u8, 65u8, 83u8]);
        }
        let mut count: usize = 0;
        let mut y: usize = 0;
        while y < input.0.len()
            invariant
                y <= g.len(),
                count + count_x_rows(g, w, y as int) == count_x_rows(g, w, 0),
                count <= usize::MAX,
            decreases g.len() - y,
        {
            proof {
                lemma_count_x_rows_split(g, w, y as int);
            }
            let row_len = input.0[y].len();
            let mut x: usize = 0;
            while x < row_len
                invariant
                    x <= g[y as int].len(),
                    y < g.len(),
                    row_len == g[y as int].len(),
                    count + count_x_row(g, w, y as int, x as int) + count_x_rows(g, w, y as int + 1)
                        == count_x_rows(g, w, 0),
                    count <= usize::MAX,
                decreases g[y as int].len() - x,
            {
                proof {
                    lemma_count_x_row_bounds(g, w, y as int, x as int + 1);
                    lemma_count_x_rows_nonneg(g, w, y as int + 1);
                    lemma_words_at_bounds(g, w, x as int, y as int, dirs_spec());
                }
                let p = Point { x: x as isize, y: y as isize };
                match input.get(p) {
                    Some(c) => {
                        if c == 'X' {
                            let words = input.words_from_point(word, p);
                            count = count + words;
                        }
                    },
                    None => {
                        proof {
                            assert(false);
                        }
                    },
                }
                x += 1;
            }
            y += 1;
        }
        Ok(count)
    }
}

proof fn lemma_count_x_rows_nonneg(g: Seq<Seq<char>>, w: Seq<u8>, y: int)
    ensures
        count_x_rows(g, w, y) >= 0,
    decreases g.len() - y,
{
    if 0 <= y < g.len() {
        lemma_count_x_rows_nonneg(g, w, y + 1);
        lemma_count_x_row_bounds(g, w, y, 0);
    }
}

/// Splitting the rows-from-`y` sum into row `y` and the rest, with the
/// bounds the loops need.
proof fn lemma_count_x_rows_split(g: Seq<Seq<char>>, w: Seq<u8>, y: int)
    requires
        0 <= y < g.len(),
    ensures
        count_x_rows(g, w, y) == count_x_row(g, w, y, 0) + count_x_rows(g, w, y + 1),
        count_x_rows(g, w, y + 1) >= 0,
        count_x_row(g, w, y, 0) >= 0,
{
    lemma_count_x_rows_nonneg(g, w, y + 1);
    lemma_count_x_row_bounds(g, w, y, 0);
}

pub struct P2;

impl P2 {
    /// Count the X-of-"MAS" centres.
    #[verifier::loop_isolation(false)]
    pub fn solve(input: Crossword) -> (r: Result<usize, Error>)
        requires
            input.wf(),
            count_a_rows(input.view_spec(), 0) <= usize::MAX,
        ensures
            r == Ok::<usize, Error>(count_a_rows(input.view_spec(), 0) as usize),
    {
        let ghost g = input.view_spec();
        let mut count: usize = 0;
        let mut y: usize = 0;
        while y < input.0.len()
            invariant
                y <= g.len(),
                count + count_a_rows(g, y as int) == count_a_rows(g, 0),
                count <= usize::MAX,
            decreases g.len() - y,
        {
            proof {
                lemma_count_a_rows_nonneg(g, y as int + 1);
                lemma_count_a_row_bounds(g, y as int, 0);
            }
            let row_len = input.0[y].len();
            let mut x: usize = 0;
            while x < row_len
                invariant
                    x <= g[y as int].len(),
                    y < g.len(),
                    row_len == g[y as int].len(),
                    count + count_a_row(g, y as int, x as int) + count_a_rows(g, y as int + 1)
                        == count_a_rows(g, 0),
                    count <= usize::MAX,
                decreases g[y as int].len() - x,
            {
                proof {
                    lemma_count_a_row_bounds(g, y as int, x as int + 1);
                    lemma_count_a_rows_nonneg(g, y as int + 1);
                }
                let p = Point { x: x as isize, y: y as isize };
                if is_x_mas(&input, &p) {
                    count = count + 1;
                }
                x += 1;
            }
            y += 1;
        }
        Ok(count)
    }
}

proof fn lemma_count_a_rows_nonneg(g: Seq<Seq<char>>, y: int)
    ensures
        count_a_rows(g, y) >= 0,
    decreases g.len() - y,
{
    if 0 <= y < g.len() {
        lemma_count_a_rows_nonneg(g, y + 1);
        lemma_count_a_row_bounds(g, y, 0);
    }
}

} // verus!
