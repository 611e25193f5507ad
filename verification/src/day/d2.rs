//! Day 2: classifying level reports as safe or unsafe.
//!
//! A report is safe when its levels are strictly monotonic with steps of
//! one to three. Part one counts safe reports; part two also accepts a
//! report that becomes safe after dropping a single level near the first
//! violation.

use vstd::prelude::*;

verus! {

use crate::harness::error::Error;
use crate::harness::input::InputError;
use crate::harness::iter::{lines, split_lines, split_ws};
use crate::parse::{parse_u8_bytes, str_num};

pub struct D2;

impl D2 {
    /// The day this module solves.
    pub fn day() -> (d: u8)
        ensures
            d == 2,
    {
        2
    }
}

/// One report: the levels in file order.
pub struct Report(pub Vec<u8>);

/// The classification of a report: safe, or unsafe with the index of
/// the first offending adjacent pair.
#[derive(Debug, PartialEq, Eq, Structural, Clone, Copy)]
pub enum SafetyReport {
    Safe,
    Unsafe(usize),
}

impl SafetyReport {
    pub fn is_safe(&self) -> (r: bool)
        ensures
            r == (self is Safe),
    {
        self == &SafetyReport::Safe
    }
}

/// One step from `prv` to `cur` is fine when it moves strictly in the
/// report's direction by at most three.
pub open spec fn step_ok(prv: u8, cur: u8, inc: bool) -> bool {
    if inc {
        prv < cur && cur - prv <= 3
    } else {
        cur < prv && prv - cur <= 3
    }
}

/// Classification of the pairs from index `k` on, given the direction
/// fixed by the first two levels.
pub open spec fn safety_from(s: Seq<u8>, inc: bool, k: nat) -> SafetyReport
    decreases s.len() - k,
{
    if k + 1 >= s.len() {
        SafetyReport::Safe
    } else if !step_ok(s[k as int], s[k as int + 1], inc) {
        SafetyReport::Unsafe(k as usize)
    } else {
        safety_from(s, inc, k + 1)
    }
}

/// Classification of a whole report: reports shorter than two levels
/// are safe; otherwise the first two levels fix the direction and the
/// first bad pair (if any) is reported.
pub open spec fn safety_spec(s: Seq<u8>) -> SafetyReport {
    if s.len() < 2 {
        SafetyReport::Safe
    } else {
        safety_from(s, s[1] >= s[0], 0)
    }
}

proof fn lemma_safety_from_bounds(s: Seq<u8>, inc: bool, k: nat)
    requires
        s.len() <= usize::MAX,
    ensures
        safety_from(s, inc, k) matches SafetyReport::Unsafe(i) ==> k <= i && i + 2 <= s.len(),
    decreases s.len() - k,
{
    if k + 1 < s.len() && step_ok(s[k as int], s[k as int + 1], inc) {
        lemma_safety_from_bounds(s, inc, k + 1);
    }
}

/// Whether a report passes with the single-level tolerance of part two:
/// it is safe as it stands, or dropping the first offending level, the
/// one after it, or the one before it leaves a safe report.
pub open spec fn tolerant_safe(s: Seq<u8>) -> bool {
    match safety_spec(s) {
        SafetyReport::Safe => true,
        SafetyReport::Unsafe(idx) => {
            ||| safety_spec(s.remove(idx as int)) == SafetyReport::Safe
            ||| (idx + 1 < s.len() && safety_spec(s.remove(idx + 1)) == SafetyReport::Safe)
            ||| (idx >= 1 && safety_spec(s.remove(idx - 1)) == SafetyReport::Safe)
        },
    }
}

/// The levels a well-formed report line carries: all its tokens, each a
/// `u8`.
pub open spec fn line_levels(line: Seq<u8>) -> Option<Seq<u8>>
    decreases split_ws(line).len(),
{
    line_levels_from(split_ws(line), 0)
}

pub open spec fn line_levels_from(ts: Seq<Seq<u8>>, k: nat) -> Option<Seq<u8>>
    decreases ts.len() - k,
{
    if k >= ts.len() {
        Some(Seq::empty())
    } else if str_num(ts[k as int]) is Some && str_num(ts[k as int]).unwrap() <= u8::MAX {
        match line_levels_from(ts, k + 1) {
            Some(rest) => Some(seq![(str_num(ts[k as int]).unwrap() as u8)] + rest),
            None => None,
        }
    } else {
        None
    }
}

proof fn lemma_line_levels_none(ts: Seq<Seq<u8>>, j: nat, k: nat)
    requires
        j <= k,
        line_levels_from(ts, k) is None,
    ensures
        line_levels_from(ts, j) is None,
    decreases k - j,
{
    if j < k {
        lemma_line_levels_none(ts, j + 1, k);
    }
}

impl Report {
    /// Classify the report, returning the index of the first bad
    /// adjacent pair when there is one.
    #[verifier::loop_isolation(false)]
    pub fn safety(&self) -> (r: SafetyReport)
        ensures
            r == safety_spec(self.0@),
    {
        let levels = &self.0;
        if levels.len() < 2 {
            return SafetyReport::Safe;
        }
        let mut prv = levels[0];
        let inc = levels[1] >= prv;
        let mut idx: usize = 0;
        while idx + 1 < levels.len()
            invariant
                idx + 1 <= levels@.len(),
                prv == levels@[idx as int],
                safety_from(levels@, inc, 0) == safety_from(levels@, inc, idx as nat),
            decreases levels@.len() - idx,
    {
            let cur = levels[idx + 1];
            let ok = if inc {
                prv < cur && cur - prv <= 3
            } else {
                cur < prv && prv - cur <= 3
            };
            if !ok {
                return SafetyReport::Unsafe(idx);
            }
            prv = cur;
            idx += 1;
        }
        SafetyReport::Safe
    }

    /// A copy of the report with the level at `idx` dropped.
    #[verifier::loop_isolation(false)]
    fn without(&self, idx: usize) -> (r: Report)
        requires
            idx < self.0@.len(),
        ensures
            r.0@ == self.0@.remove(idx as int),
    {
        let mut v: Vec<u8> = Vec::new();
        let mut i: usize = 0;
        while i < self.0.len()
            invariant
                i <= self.0@.len(),
                v@ == (if i <= idx {
                    self.0@.take(i as int)
                } else {
                    self.0@.remove(idx as int).take(i - 1)
                }),
            decreases self.0@.len() - i,
        {
            if i != idx {
                v.push(self.0[i]);
            }
            proof {
                let s = self.0@;
                if i < idx {
                    assert(s.take(i + 1) =~= s.take(i as int).push(s[i as int]));
                } else if i == idx {
                    assert(s.remove(idx as int).take(i as int) =~= s.take(i as int));
                } else {
                    assert(s.remove(idx as int).take(i as int) =~= s.remove(idx as int).take(i - 1).push(s[i as int]));
                }
            }
            i += 1;
        }
        proof {
            assert(self.0@.remove(idx as int).take(self.0@.len() - 1) =~= self.0@.remove(
                idx as int,
            ));
        }
        Report(v)
    }

    /// Whether the report passes with part two's tolerance: besides the
    /// report itself, only the three drops around the first violation
    /// are tried.
    pub fn safe_with_tolerance(&self) -> (r: bool)
        ensures
            r == tolerant_safe(self.0@),
    {
        let idx = match self.safety() {
            SafetyReport::Unsafe(idx) => idx,
            SafetyReport::Safe => {
                return true;
            },
        };
        let n = self.0.len();
        proof {
            assert(self.0@.len() == n);
            lemma_safety_from_bounds(self.0@, self.0@[1] >= self.0@[0], 0);
        }
        if self.without(idx).safety().is_safe() {
            return true;
        }
        if idx < self.0.len() - 1 {
            if self.without(idx + 1).safety().is_safe() {
                return true;
            }
        }
        if idx > 0 {
            if self.without(idx - 1).safety().is_safe() {
                return true;
            }
        }
        false
    }

    /// Parse one report line: every whitespace-separated token must be
    /// a small number.
    #[verifier::loop_isolation(false)]
    pub fn parse(line: &[u8]) -> (r: Result<Report, InputError>)
        ensures
            match r {
                Ok(rep) => line_levels(line@) == Some(rep.0@),
                Err(e) => line_levels(line@) is None && e is InvalidInput,
            },
    {
        let ts = crate::harness::iter::tokens(line);
        let mut levels: Vec<u8> = Vec::new();
        let mut k: usize = ts.len();
        // walk backwards so the recursive spec unfolds one token at a time
        let ghost tss = ts@.map_values(|t: Vec<u8>| t@);
        proof {
            assert(line_levels_from(tss, k as nat) == Some(levels@));
        }
        while k > 0
            invariant
                k <= ts@.len(),
                line_levels_from(tss, k as nat) == Some(levels@),
            decreases k,
        {
            k -= 1;
            proof {
                assert(tss[k as int] == ts@[k as int]@);
            }
            match parse_u8_bytes(ts[k].as_slice()) {
                Ok(v) => {
                    let ghost old_levels = levels@;
                    levels.insert(0, v);
                    proof {
                        assert(levels@ =~= seq![v] + old_levels);
                    }
                },
                Err(e) => {
                    proof {
                        lemma_line_levels_none(tss, 0, k as nat);
                    }
                    return Err(InputError::invalid("bad level in report"));
                },
            }
        }
        Ok(Report(levels))
    }
}

/// Part one's count: how many reports are safe as they stand.
pub open spec fn count_safe(rs: Seq<Report>) -> int
    decreases rs.len(),
{
    if rs.len() == 0 {
        0
    } else {
        (if safety_spec(rs[0].0@) is Safe {
            1int
        } else {
            0int
        }) + count_safe(rs.skip(1))
    }
}

/// Part two's count: how many reports pass with the tolerance.
pub open spec fn count_tolerant(rs: Seq<Report>) -> int
    decreases rs.len(),
{
    if rs.len() == 0 {
        0
    } else {
        (if tolerant_safe(rs[0].0@) {
            1int
        } else {
            0int
        }) + count_tolerant(rs.skip(1))
    }
}

/// Read every line of the input as a report.
#[verifier::loop_isolation(false)]
pub fn read_reports(input: &[u8]) -> (r: Result<Vec<Report>, InputError>)
    ensures
        match r {
            Ok(rs) => {
                let ls = split_lines(input@);
                &&& rs@.len() == ls.len()
                &&& forall|i: int|
                    0 <= i < ls.len() ==> line_levels(#[trigger] ls[i]) == Some(rs@[i].0@)
            },
            Err(e) => {
                &&& exists|i: int|
                    0 <= i < split_lines(input@).len() && line_levels(
                        #[trigger] split_lines(input@)[i],
                    ) is None
                &&& e is InvalidInput
            },
        },
{
    let ls = lines(input);
    let mut rs: Vec<Report> = Vec::new();
    let mut idx: usize = 0;
    while idx < ls.len()
        invariant
            idx <= ls@.len(),
            rs@.len() == idx,
            forall|i: int|
                0 <= i < idx ==> line_levels(#[trigger] split_lines(input@)[i]) == Some(rs@[i].0@),
        decreases ls@.len() - idx,
    {
        assert(ls@[idx as int]@ == split_lines(input@)[idx as int]);
        match Report::parse(ls[idx].as_slice()) {
            Ok(rep) => {
                rs.push(rep);
            },
            Err(e) => {
                return Err(e);
            },
        }
        idx += 1;
    }
    Ok(rs)
}

pub struct P1;

impl P1 {
    /// Count the reports that are safe as they stand.
    #[verifier::loop_isolation(false)]
    pub fn solve(input: &Vec<Report>) -> (r: Result<usize, Error>)
        ensures
            r == Ok::<usize, Error>(count_safe(input@) as usize),
    {
        let mut count: usize = 0;
        let mut i: usize = 0;
        proof {
            assert(input@.skip(0) =~= input@);
        }
        while i < input.len()
            invariant
                i <= input@.len(),
                count <= i,
                count + count_safe(input@.skip(i as int)) == count_safe(input@),
            decreases input@.len() - i,
    {
            proof {
                assert(input@.skip(i as int)[0] == input@[i as int]);
                assert(input@.skip(i as int).skip(1) =~= input@.skip(i + 1));
                lemma_count_safe_bounds(input@.skip(i + 1));
            }
            if input[i].safety().is_safe() {
                count += 1;
            }
            i += 1;
        }
        Ok(count)
    }
}

proof fn lemma_count_safe_bounds(rs: Seq<Report>)
    ensures
        0 <= count_safe(rs) <= rs.len(),
    decreases rs.len(),
{
    if rs.len() != 0 {
        lemma_count_safe_bounds(rs.skip(1));
    }
}

proof fn lemma_count_tolerant_bounds(rs: Seq<Report>)
    ensures
        0 <= count_tolerant(rs) <= rs.len(),
    decreases rs.len(),
{
    if rs.len() != 0 {
        lemma_count_tolerant_bounds(rs.skip(1));
    }
}

pub struct P2;

impl P2 {
    /// Count the reports that pass with the single-level tolerance.
    #[verifier::loop_isolation(false)]
    pub fn solve(input: &Vec<Report>) -> (r: Result<usize, Error>)
        ensures
            r == Ok::<usize, Error>(count_tolerant(input@) as usize),
    {
        let mut count: usize = 0;
        let mut i: usize = 0;
        proof {
            assert(input@.skip(0) =~= input@);
        }
        while i < input.len()
            invariant
                i <= input@.len(),
                count <= i,
                count + count_tolerant(input@.skip(i as int)) == count_tolerant(input@),
            decreases input@.len() - i,
    {
            proof {
                assert(input@.skip(i as int)[0] == input@[i as int]);
                assert(input@.skip(i as int).skip(1) =~= input@.skip(i + 1));
                lemma_count_tolerant_bounds(input@.skip(i + 1));
            }
            if input[i].safe_with_tolerance() {
                count += 1;
            }
            i += 1;
        }
        Ok(count)
    }
}

} // verus!
