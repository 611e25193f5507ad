//! Day 1: pairing up two lists of location identifiers.
//!
//! Part one sorts both lists and sums the element-wise distances; part
//! two sums every right-hand entry that also appears on the left.

use vstd::prelude::*;

verus! {

use vstd::seq_lib::group_to_multiset_ensures;
use vstd::seq_lib::lemma_sorted_unique;
use vstd::relations::sorted_by;
use vstd::relations::total_ordering;

use crate::harness::error::Error;
use crate::harness::input::InputError;
use crate::harness::iter::{lines, split_lines, split_ws};
use crate::parse::{parse_u32_bytes, str_num};

pub struct D1;

impl D1 {
    /// The day this module solves.
    pub fn day() -> (d: u8)
        ensures
            d == 1,
    {
        1
    }
}

/// The two columns of the day's input, in file order.
pub struct Input {
    pub l: Vec<u32>,
    pub r: Vec<u32>,
}

/// The pair of numbers a well-formed input line carries: exactly its
/// first two whitespace-separated tokens, each a `u32`.
pub open spec fn line_pair(line: Seq<u8>) -> Option<(u32, u32)> {
    let ts = split_ws(line);
    if ts.len() >= 2 && str_num(ts[0]) is Some && str_num(ts[0]).unwrap() <= u32::MAX && str_num(
        ts[1],
    ) is Some && str_num(ts[1]).unwrap() <= u32::MAX {
        Some(((str_num(ts[0]).unwrap() as u32), (str_num(ts[1]).unwrap() as u32)))
    } else {
        None
    }
}

/// Ordinary `<=` on `u32`, the order both lists are sorted in.
pub open spec fn u32_leq() -> spec_fn(u32, u32) -> bool {
    |a: u32, b: u32| a <= b
}

proof fn lemma_u32_leq_total()
    ensures
        total_ordering(u32_leq()),
{
    let leq = u32_leq();
    assert forall|a: u32, b: u32, c: u32| #[trigger] leq(a, b) && #[trigger] leq(b, c) implies leq(
        a,
        c,
    ) by {}
}

/// Distance between two location identifiers.
pub open spec fn diff_u32(a: u32, b: u32) -> int {
    if a >= b {
        a - b
    } else {
        b - a
    }
}

/// Sum of element-wise distances between two lists, up to the shorter
/// one's length.
pub open spec fn total_distance(a: Seq<u32>, b: Seq<u32>) -> int
    decreases a.len(),
{
    if a.len() == 0 || b.len() == 0 {
        0
    } else {
        diff_u32(a[0], b[0]) + total_distance(a.skip(1), b.skip(1))
    }
}

proof fn lemma_total_distance_nonneg(a: Seq<u32>, b: Seq<u32>)
    ensures
        total_distance(a, b) >= 0,
    decreases a.len(),
{
    if a.len() != 0 && b.len() != 0 {
        lemma_total_distance_nonneg(a.skip(1), b.skip(1));
    }
}

/// Part one's answer: the total distance between the two sorted lists.
pub open spec fn p1_answer(inp: Input) -> int {
    total_distance(inp.l@.sort_by(u32_leq()), inp.r@.sort_by(u32_leq()))
}

/// Part two's answer: the sum of the right-hand entries that appear in
/// the left list.
pub open spec fn p2_answer(l: Seq<u32>, r: Seq<u32>) -> int
    decreases r.len(),
{
    if r.len() == 0 {
        0
    } else {
        (if l.contains(r[0]) {
            r[0] as int
        } else {
            0
        }) + p2_answer(l, r.skip(1))
    }
}

proof fn lemma_p2_answer_nonneg(l: Seq<u32>, r: Seq<u32>)
    ensures
        p2_answer(l, r) >= 0,
    decreases r.len(),
{
    if r.len() != 0 {
        lemma_p2_answer_nonneg(l, r.skip(1));
    }
}

/// Sort a list in place: afterwards it is ordered and holds the same
/// elements, so it equals the mathematical `sort_by` of its old value.
#[verifier::loop_isolation(false)]
fn sort_u32(v: &mut Vec<u32>)
    ensures
        final(v)@ == old(v)@.sort_by(u32_leq()),
        sorted_by(final(v)@, u32_leq()),
{
    broadcast use group_to_multiset_ensures;

    let ghost orig = v@;
    if v.len() <= 1 {
        proof {
            lemma_u32_leq_total();
            orig.lemma_sort_by_ensures(u32_leq());
            lemma_sorted_unique(v@, orig.sort_by(u32_leq()), u32_leq());
        }
        return ;
    }
    let mut i: usize = 1;
    while i < v.len()
        invariant
            1 <= i <= v@.len(),
            v@.len() == orig.len(),
            v@.to_multiset() == orig.to_multiset(),
            sorted_by(v@.subrange(0, i as int), u32_leq()),
        decreases v@.len() - i,
    {
        let ghost prev = v@;
        let x = v[i];
        let mut j: usize = i;
        while j > 0 && v[j - 1] > x
            invariant
                j <= i,
                v@ == prev,
                forall|m: int| j <= m < i ==> v@[m] > x,
            decreases j,
        {
            j -= 1;
        }
        let y = v.remove(i);
        v.insert(j, y);
        proof {
            assert(prev.to_multiset().contains(x));
            assert(v@.to_multiset() =~= prev.to_multiset());
            assert forall|a: int, b: int| 0 <= a < b < i + 1 implies #[trigger] u32_leq()(
                v@.subrange(0, i + 1)[a],
                v@.subrange(0, i + 1)[b],
            ) by {
                let pre = prev.subrange(0, i as int);
                assert(forall|m: int| 0 <= m < j ==> v@[m] == prev[m]);
                assert(v@[j as int] == x);
                assert(forall|m: int| j < m <= i ==> v@[m] == prev[m - 1]);
                assert(v@.subrange(0, i + 1)[a] == v@[a]);
                assert(v@.subrange(0, i + 1)[b] == v@[b]);
                if b < j {
                    assert(u32_leq()(pre[a], pre[b]));
                } else if b == j {
                    assert(prev[j - 1] <= x);
                    if a < j - 1 {
                        assert(u32_leq()(pre[a], pre[j - 1]));
                    }
                } else if a == j {
                    assert(prev[b - 1] > x);
                } else if a < j {
                    assert(u32_leq()(pre[a], pre[b - 1]));
                } else {
                    assert(u32_leq()(pre[a - 1], pre[b - 1]));
                }
            }
        }
        i += 1;
    }
    proof {
        if v@.len() > 1 {
            assert(v@.subrange(0, v@.len() as int) =~= v@);
        } else {
            assert(sorted_by(v@, u32_leq()));
        }
        lemma_u32_leq_total();
        orig.lemma_sort_by_ensures(u32_leq());
        lemma_sorted_unique(v@, orig.sort_by(u32_leq()), u32_leq());
    }
}

fn parse_num(num: Option<&Vec<u8>>) -> (r: Result<u32, InputError>)
    ensures
        match r {
            Ok(v) => num is Some && str_num(num.unwrap()@) == Some(v as nat),
            Err(e) => {
                &&& (num is None || str_num(num.unwrap()@) is None || str_num(
                    num.unwrap()@,
                ).unwrap() > u32::MAX)
                &&& e is InvalidInput
            },
        },
{
    match num {
        Some(t) => parse_u32_bytes(t.as_slice()),
        None => Err(InputError::invalid("missing number on line")),
    }
}

/// Parse one input line into its pair of numbers; tokens past the
/// second are ignored.
fn parse_line(line: &Vec<u8>) -> (r: Result<(u32, u32), InputError>)
    ensures
        match r {
            Ok(p) => line_pair(line@) == Some(p),
            Err(e) => line_pair(line@) is None && e is InvalidInput,
        },
{
    let ts = crate::harness::iter::tokens(line.as_slice());
    let l_num = match parse_num(if ts.len() >= 1 {
        Some(&ts[0])
    } else {
        None
    }) {
        Ok(v) => v,
        Err(e) => {
            return Err(e);
        },
    };
    let r_num = match parse_num(if ts.len() >= 2 {
        Some(&ts[1])
    } else {
        None
    }) {
        Ok(v) => v,
        Err(e) => {
            return Err(e);
        },
    };
    Ok((l_num, r_num))
}

impl Input {
    /// Read the two columns out of the raw puzzle input: every line
    /// must carry two numbers, and the columns keep file order.
    #[verifier::loop_isolation(false)]
    pub fn read(input: &[u8]) -> (r: Result<Input, InputError>)
        ensures
            match r {
                Ok(inp) => {
                    let ls = split_lines(input@);
                    &&& inp.l@.len() == ls.len()
                    &&& inp.r@.len() == ls.len()
                    &&& forall|i: int|
                        0 <= i < ls.len() ==> line_pair(#[trigger] ls[i]) == Some(
                            (inp.l@[i], inp.r@[i]),
                        )
                },
                Err(e) => {
                    &&& exists|i: int|
                        0 <= i < split_lines(input@).len() && line_pair(
                            #[trigger] split_lines(input@)[i],
                        ) is None
                    &&& e is InvalidInput
                },
            },
    {
        let ls = lines(input);
        let mut l: Vec<u32> = Vec::new();
        let mut r: Vec<u32> = Vec::new();
        let mut idx: usize = 0;
        while idx < ls.len()
            invariant
                idx <= ls@.len(),
                l@.len() == idx,
                r@.len() == idx,
                forall|i: int|
                    0 <= i < idx ==> line_pair(#[trigger] split_lines(input@)[i]) == Some(
                        (l@[i], r@[i]),
                    ),
            decreases ls@.len() - idx,
        {
            assert(ls@[idx as int]@ == split_lines(input@)[idx as int]);
            match parse_line(&ls[idx]) {
                Ok(p) => {
                    l.push(p.0);
                    r.push(p.1);
                },
                Err(e) => {
                    return Err(e);
                },
            }
            idx += 1;
        }
        Ok(Input { l, r })
    }

    /// Whether `n` appears anywhere in the left list.
    pub fn l_contains(&self, n: u32) -> (b: bool)
        ensures
            b == self.l@.contains(n),
    {
        let mut i: usize = 0;
        while i < self.l.len()
            invariant
                i <= self.l@.len(),
                forall|m: int| 0 <= m < i ==> self.l@[m] != n,
            decreases self.l@.len() - i,
        {
            if self.l[i] == n {
                return true;
            }
            i += 1;
        }
        false
    }
}

pub struct P1;

impl P1 {
    /// Sum of distances between the sorted columns.
    #[verifier::loop_isolation(false)]
    pub fn solve(input: Input) -> (r: Result<u32, Error>)
        requires
            p1_answer(input) <= u32::MAX,
        ensures
            r == Ok::<u32, Error>(p1_answer(input) as u32),
    {
        let Input { mut l, mut r } = input;
        let ghost inp0 = input;
        sort_u32(&mut l);
        sort_u32(&mut r);
        let mut sum: u32 = 0;
        let mut i: usize = 0;
        let n = if l.len() < r.len() {
            l.len()
        } else {
            r.len()
        };
        proof {
            assert(l@.skip(0) =~= l@);
            assert(r@.skip(0) =~= r@);
        }
        while i < n
            invariant
                i <= n,
                sum + total_distance(l@.skip(i as int), r@.skip(i as int)) == p1_answer(inp0),
            decreases n - i,
        {
            proof {
                lemma_total_distance_nonneg(l@.skip(i + 1), r@.skip(i + 1));
                assert(l@.skip(i as int)[0] == l@[i as int]);
                assert(r@.skip(i as int)[0] == r@[i as int]);
                assert(l@.skip(i as int).skip(1) =~= l@.skip(i + 1));
                assert(r@.skip(i as int).skip(1) =~= r@.skip(i + 1));
            }
            let a = l[i];
            let b = r[i];
            let d = if a >= b {
                a - b
            } else {
                b - a
            };
            sum = sum + d;
            i += 1;
        }
        proof {
            if l@.len() <= r@.len() {
                assert(l@.skip(n as int).len() == 0);
            } else {
                assert(r@.skip(n as int).len() == 0);
            }
        }
        Ok(sum)
    }
}

pub struct P2;

impl P2 {
    /// Sum of the right-hand entries that appear in the left list.
    #[verifier::loop_isolation(false)]
    pub fn solve(input: Input) -> (r: Result<u32, Error>)
        requires
            p2_answer(input.l@, input.r@) <= u32::MAX,
        ensures
            r == Ok::<u32, Error>(p2_answer(input.l@, input.r@) as u32),
    {
        let mut sum: u32 = 0;
        let mut i: usize = 0;
        proof {
            assert(input.r@.skip(0) =~= input.r@);
        }
        while i < input.r.len()
            invariant
                i <= input.r@.len(),
                sum + p2_answer(input.l@, input.r@.skip(i as int)) == p2_answer(
                    input.l@,
                    input.r@,
                ),
            decreases input.r@.len() - i,
        {
            proof {
                lemma_p2_answer_nonneg(input.l@, input.r@.skip(i + 1));
                assert(input.r@.skip(i as int)[0] == input.r@[i as int]);
                assert(input.r@.skip(i as int).skip(1) =~= input.r@.skip(i + 1));
            }
            let n = input.r[i];
            if input.l_contains(n) {
                sum = sum + n;
            }
            i += 1;
        }
        Ok(sum)
    }
}

} // verus!
