//! Day 7: calibration equations.
//!
//! Each line names a target and a list of terms; the question is
//! whether inserting `+`, `*` (and, in part two, digit concatenation)
//! between the terms, evaluated strictly left to right, can reach the
//! target. The answer is the sum of the reachable targets.

use vstd::prelude::*;

verus! {

use crate::harness::error::Error;
use crate::harness::input::InputError;
use crate::harness::iter::{lines, split_lines, split_ws};
use crate::parse::{
    lemma_pow10_pos,
    parse_tokens_u64,
    parse_u64_bytes,
    pow10,
    str_num,
    token_nums,
};

pub struct D7;

impl D7 {
    /// The day this module solves.
    pub fn day() -> (d: u8)
        ensures
            d == 7,
    {
        7
    }
}

/// One calibration equation.
pub struct Equation {
    pub target: u64,
    pub terms: Vec<u64>,
}

/// How many decimal digits a number has.
pub open spec fn num_digits(n: nat) -> nat
    decreases n,
{
    if n < 10 {
        1
    } else {
        1 + num_digits((n / 10) as nat)
    }
}

/// Digit concatenation: `x` shifted left by `y`'s width, plus `y`.
pub open spec fn concat_spec(x: int, y: u64) -> int {
    x * pow10(num_digits(y as nat)) + y
}

/// Whether the remaining terms can take the accumulator to the
/// target, choosing `+`, `*` or (when allowed) concatenation at each
/// step.
pub open spec fn reachable(target: u64, acc: int, terms: Seq<u64>, use_concat: bool) -> bool
    decreases terms.len(),
{
    if terms.len() == 0 {
        acc == target
    } else {
        ||| reachable(target, acc + terms[0], terms.skip(1), use_concat)
        ||| reachable(target, acc * terms[0], terms.skip(1), use_concat)
        ||| (use_concat && reachable(target, concat_spec(acc, terms[0]), terms.skip(1), use_concat))
    }
}

/// With every term at least one, the accumulator never decreases, so
/// overshooting the target is final.
proof fn lemma_unreachable_above(target: u64, acc: int, terms: Seq<u64>, use_concat: bool)
    requires
        acc > target,
        forall|i: int| 0 <= i < terms.len() ==> terms[i] >= 1,
    ensures
        !reachable(target, acc, terms, use_concat),
    decreases terms.len(),
{
    if terms.len() > 0 {
        let t = terms[0];
        assert(acc * t >= acc) by (nonlinear_arith)
            requires
                acc >= 1,
                t >= 1,
        ;
        lemma_pow10_pos(num_digits(t as nat));
        assert(acc * pow10(num_digits(t as nat)) >= acc) by (nonlinear_arith)
            requires
                acc >= 1,
                pow10(num_digits(t as nat)) >= 1,
        ;
        assert(forall|i: int| 0 <= i < terms.skip(1).len() ==> terms.skip(1)[i] >= 1);
        lemma_unreachable_above(target, acc + t, terms.skip(1), use_concat);
        lemma_unreachable_above(target, acc * t, terms.skip(1), use_concat);
        lemma_unreachable_above(target, concat_spec(acc, t), terms.skip(1), use_concat);
    }
}

/// Digit concatenation of two numbers.
pub fn concat(x: u64, y: u64) -> (r: u64)
    requires
        y >= 1,
        concat_spec(x as int, y) <= u64::MAX,
    ensures
        r == concat_spec(x as int, y),
{
    match concat_checked(x, y) {
        Some(r) => r,
        None => {
            proof {
                assert(false);
            }
            0
        },
    }
}

/// Number of decimal digits of `y`.
#[verifier::loop_isolation(false)]
pub fn width_of(y: u64) -> (d: u64)
    ensures
        d == num_digits(y as nat),
        1 <= d,
    decreases y,
{
    proof {
        lemma_num_digits_le(y as nat);
    }
    if y < 10 {
        1
    } else {
        let w = width_of(y / 10);
        proof {
            lemma_num_digits_le((y / 10) as nat);
        }
        1 + w
    }
}

pub proof fn lemma_num_digits_le(n: nat)
    ensures
        1 <= num_digits(n) <= n + 1,
    decreases n,
{
    if n >= 10 {
        lemma_num_digits_le((n / 10) as nat);
    }
}

/// Concatenation, or `None` when the result would not fit in a `u64`.
#[verifier::loop_isolation(false)]
fn concat_checked(x: u64, y: u64) -> (r: Option<u64>)
    ensures
        match r {
            Some(v) => v == concat_spec(x as int, y),
            None => concat_spec(x as int, y) > u64::MAX,
        },
{
    let d = width_of(y);
    let mut p: u64 = 1;
    let mut k: u64 = 0;
    while k < d
        invariant
            k <= d,
            p == pow10(k as nat),
        decreases d - k,
    {
        if p > u64::MAX / 10 {
            proof {
                assert(pow10(k as nat + 1) == 10 * pow10(k as nat));
                lemma_pow10_grows(k as nat + 1, num_digits(y as nat));
                if x >= 1 {
                    assert(x * pow10(num_digits(y as nat)) >= pow10(num_digits(y as nat)))
                        by (nonlinear_arith)
                        requires
                            x >= 1,
                            pow10(num_digits(y as nat)) >= 0,
                    ;
                }
            }
            if x == 0 {
                return Some(y);
            }
            return None;
        }
        p = p * 10;
        k += 1;
    }
    // p == pow10(width of y)
    if x > 0 && p > u64::MAX / x {
        proof {
            assert(x * p > u64::MAX) by (nonlinear_arith)
                requires
                    x >= 1,
                    p > u64::MAX / x,
                    u64::MAX / x == (u64::MAX as int) / (x as int),
        ;
        }
        return None;
    }
    proof {
        if x > 0 {
            assert(x * p <= u64::MAX) by (nonlinear_arith)
                requires
                    x >= 1,
                    p <= u64::MAX / x,
                    u64::MAX / x == (u64::MAX as int) / (x as int),
            ;
        }
    }
    let shifted = x * p;
    if y > u64::MAX - shifted {
        return None;
    }
    Some(shifted + y)
}

pub proof fn lemma_pow10_grows(a: nat, b: nat)
    requires
        a <= b,
    ensures
        pow10(a) <= pow10(b),
    decreases b,
{
    if a < b {
        lemma_pow10_grows(a, (b - 1) as nat);
        lemma_pow10_pos((b - 1) as nat);
    }
}

/// Anything below ten to the `k` has at most `k` digits.
pub proof fn lemma_digits_le(n: nat, k: nat)
    requires
        k >= 1,
        n < pow10(k),
    ensures
        num_digits(n) <= k,
    decreases k,
{
    if n >= 10 {
        assert(pow10(k) == 10 * pow10((k - 1) as nat));
        if k == 1 {
            assert(pow10(0) == 1);
            assert(false);
        }
        lemma_digits_le((n / 10) as nat, (k - 1) as nat);
    }
}

/// The concrete values of the small powers of ten.
pub proof fn lemma_pow10_values()
    ensures
        pow10(10) == 10000000000,
        pow10(20) == 100000000000000000000,
{
    assert(pow10(0) == 1);
    assert(pow10(1) == 10);
    assert(pow10(2) == 100);
    assert(pow10(3) == 1000);
    assert(pow10(4) == 10000);
    assert(pow10(5) == 100000);
    assert(pow10(6) == 1000000);
    assert(pow10(7) == 10000000);
    assert(pow10(8) == 100000000);
    assert(pow10(9) == 1000000000);
    assert(pow10(10) == 10000000000);
    assert(pow10(11) == 100000000000);
    assert(pow10(12) == 1000000000000);
    assert(pow10(13) == 10000000000000);
    assert(pow10(14) == 100000000000000);
    assert(pow10(15) == 1000000000000000);
    assert(pow10(16) == 10000000000000000);
    assert(pow10(17) == 100000000000000000);
    assert(pow10(18) == 1000000000000000000);
    assert(pow10(19) == 10000000000000000000);
    assert(pow10(20) == 100000000000000000000);
}

/// A `u64` has at most twenty digits.
pub proof fn lemma_num_digits_u64(n: nat)
    requires
        n <= u64::MAX,
    ensures
        1 <= num_digits(n) <= 20,
{
    lemma_pow10_values();
    lemma_digits_le(n, 20);
    lemma_num_digits_le(n);
}

/// The depth-first search behind `can_solve`, pruned as soon as the
/// accumulator overshoots the target.
#[verifier::loop_isolation(false)]
fn search(target: u64, acc: u64, terms: &[u64], i: usize, use_concat: bool) -> (r: bool)
    requires
        i <= terms@.len(),
        forall|m: int| 0 <= m < terms@.len() ==> terms@[m] >= 1,
    ensures
        r == reachable(target, acc as int, terms@.skip(i as int), use_concat),
    decreases terms@.len() - i,
{
    let ghost rest = terms@.skip(i as int);
    if i == terms.len() {
        return acc == target;
    }
    proof {
        assert(rest[0] == terms@[i as int]);
        assert(rest.skip(1) =~= terms@.skip(i as int + 1));
        assert(forall|m: int| 0 <= m < rest.len() ==> rest[m] >= 1);
    }
    let t = terms[i];
    // addition
    let via_add = if t <= u64::MAX - acc {
        search(target, acc + t, terms, i + 1, use_concat)
    } else {
        proof {
            lemma_unreachable_above(target, acc + t, rest.skip(1), use_concat);
        }
        false
    };
    if via_add {
        return true;
    }
    // multiplication
    let via_mul = if acc == 0 || t <= u64::MAX / acc {
        proof {
            if acc > 0 {
                assert(acc * t <= u64::MAX) by (nonlinear_arith)
                    requires
                        acc >= 1,
                        t <= u64::MAX / acc,
                        u64::MAX / acc == (u64::MAX as int) / (acc as int),
                ;
            }
        }
        search(target, acc * t, terms, i + 1, use_concat)
    } else {
        proof {
            assert(acc * t > u64::MAX) by (nonlinear_arith)
                requires
                    acc >= 1,
                    t > u64::MAX / acc,
                    u64::MAX / acc == (u64::MAX as int) / (acc as int),
            ;
            lemma_unreachable_above(target, acc * t, rest.skip(1), use_concat);
        }
        false
    };
    if via_mul {
        return true;
    }
    // concatenation
    if use_concat {
        let via_concat = match concat_checked(acc, t) {
            Some(v) => search(target, v, terms, i + 1, use_concat),
            None => {
                proof {
                    lemma_unreachable_above(target, concat_spec(acc as int, t), rest.skip(1), use_concat);
                }
                false
            },
        };
        if via_concat {
            return true;
        }
    }
    false
}

impl Equation {
    /// Whether the equation can be made true, starting the fold from
    /// zero as the search always has.
    pub fn can_solve(&self, use_concat: bool) -> (r: bool)
        requires
            forall|m: int| 0 <= m < self.terms@.len() ==> self.terms@[m] >= 1,
        ensures
            r == reachable(self.target, 0, self.terms@, use_concat),
    {
        proof {
            assert(self.terms@.skip(0) =~= self.terms@);
        }
        search(self.target, 0, self.terms.as_slice(), 0, use_concat)
    }
}

/// Index of the first `':'` in `s`, or `-1` when there is none.
pub open spec fn first_colon(s: Seq<u8>) -> int
    decreases s.len(),
{
    if s.len() == 0 {
        -1
    } else if s[0] == 58 {
        0
    } else {
        let r = first_colon(s.skip(1));
        if r < 0 {
            -1
        } else {
            r + 1
        }
    }
}

proof fn lemma_first_colon_bounds(s: Seq<u8>)
    ensures
        first_colon(s) < 0 ==> forall|i: int| 0 <= i < s.len() ==> s[i] != 58,
        first_colon(s) >= 0 ==> {
            &&& first_colon(s) < s.len()
            &&& s[first_colon(s)] == 58
            &&& forall|i: int| 0 <= i < first_colon(s) ==> s[i] != 58
        },
    decreases s.len(),
{
    if s.len() > 0 && s[0] != 58 {
        lemma_first_colon_bounds(s.skip(1));
        assert forall|i: int| 0 <= i < s.len() && first_colon(s) < 0 implies s[i] != 58 by {
            if i > 0 {
                assert(s.skip(1)[i - 1] == s[i]);
            }
        }
        if first_colon(s) >= 0 {
            assert(s.skip(1)[first_colon(s) - 1] == s[first_colon(s)]);
            assert forall|i: int| 0 <= i < first_colon(s) implies s[i] != 58 by {
                if i > 0 {
                    assert(s.skip(1)[i - 1] == s[i]);
                }
            }
        }
    }
}

proof fn lemma_first_colon_at(s: Seq<u8>, k: int)
    requires
        0 <= k < s.len(),
        s[k] == 58,
        forall|i: int| 0 <= i < k ==> s[i] != 58,
    ensures
        first_colon(s) == k,
{
    lemma_first_colon_bounds(s);
    if first_colon(s) < 0 {
        assert(false);
    } else if first_colon(s) < k {
        assert(s[first_colon(s)] != 58);
    } else if first_colon(s) > k {
        assert(s[k] != 58);
    }
}

/// The equation a well-formed line carries: a `u64` target before the
/// first colon, then whitespace-separated `u64` terms.
pub open spec fn eq_of_line(line: Seq<u8>) -> Option<(u64, Seq<u64>)> {
    let i = first_colon(line);
    if i < 0 {
        None
    } else if str_num(line.take(i)) is Some && str_num(line.take(i)).unwrap() <= u64::MAX {
        match token_nums(split_ws(line.skip(i + 1))) {
            Some(ts) => Some(((str_num(line.take(i)).unwrap() as u64), ts)),
            None => None,
        }
    } else {
        None
    }
}

impl Equation {
    /// Parse one equation line.
    #[verifier::loop_isolation(false)]
    pub fn parse(line: &[u8]) -> (r: Result<Equation, InputError>)
        ensures
            match r {
                Ok(eq) => eq_of_line(line@) == Some((eq.target, eq.terms@)),
                Err(e) => eq_of_line(line@) is None && e is InvalidInput,
            },
    {
        let n = line.len();
        let mut c: usize = 0;
        while c < n && line[c] != 58
            invariant
                c <= n,
                forall|m: int| 0 <= m < c ==> line@[m] != 58,
            decreases n - c,
        {
            c += 1;
        }
        if c == n {
            proof {
                lemma_first_colon_bounds(line@);
                if first_colon(line@) >= 0 {
                    assert(line@[first_colon(line@)] != 58);
                }
            }
            return Err(InputError::invalid("equation line has no colon"));
        }
        proof {
            lemma_first_colon_at(line@, c as int);
        }
        let head = crate::harness::iter::tokens(&line[0..c]);
        // the target is the text before the colon, which must be a
        // single number (surrounding whitespace is not accepted, as
        // the raw slice is parsed directly)
        let target = match parse_u64_bytes(&line[0..c]) {
            Ok(v) => v,
            Err(e) => {
                proof {
                    assert(line@.subrange(0, c as int) =~= line@.take(c as int));
                }
                return Err(e);
            },
        };
        proof {
            assert(line@.subrange(0, c as int) =~= line@.take(c as int));
        }
        let tail = crate::harness::iter::tokens(&line[c + 1..n]);
        proof {
            assert(line@.subrange(c + 1, n as int) =~= line@.skip(c + 1));
        }
        let terms = match parse_tokens_u64(&tail) {
            Ok(v) => v,
            Err(e) => {
                return Err(e);
            },
        };
        Ok(Equation { target, terms })
    }
}

/// Read every line of the input as an equation.
#[verifier::loop_isolation(false)]
pub fn read_equations(input: &[u8]) -> (r: Result<Vec<Equation>, InputError>)
    ensures
        match r {
            Ok(eqs) => {
                let ls = split_lines(input@);
                &&& eqs@.len() == ls.len()
                &&& forall|i: int|
                    0 <= i < ls.len() ==> eq_of_line(#[trigger] ls[i]) == Some(
                        (eqs@[i].target, eqs@[i].terms@),
                    )
            },
            Err(e) => {
                &&& exists|i: int|
                    0 <= i < split_lines(input@).len() && eq_of_line(
                        #[trigger] split_lines(input@)[i],
                    ) is None
                &&& e is InvalidInput
            },
        },
{
    let ls = lines(input);
    let mut eqs: Vec<Equation> = Vec::new();
    let mut idx: usize = 0;
    while idx < ls.len()
        invariant
            idx <= ls@.len(),
            eqs@.len() == idx,
            forall|i: int|
                0 <= i < idx ==> eq_of_line(#[trigger] split_lines(input@)[i]) == Some(
                    (eqs@[i].target, eqs@[i].terms@),
                ),
        decreases ls@.len() - idx,
    {
        assert(ls@[idx as int]@ == split_lines(input@)[idx as int]);
        match Equation::parse(ls[idx].as_slice()) {
            Ok(eq) => {
                eqs.push(eq);
            },
            Err(e) => {
                return Err(e);
            },
        }
        idx += 1;
    }
    Ok(eqs)
}

/// The sum of the targets of the equations that can be made true.
pub open spec fn total_calibration(eqs: Seq<Equation>, use_concat: bool) -> int
    decreases eqs.len(),
{
    if eqs.len() == 0 {
        0
    } else {
        (if reachable(eqs[0].target, 0, eqs[0].terms@, use_concat) {
            eqs[0].target as int
        } else {
            0int
        }) + total_calibration(eqs.skip(1), use_concat)
    }
}

proof fn lemma_total_calibration_nonneg(eqs: Seq<Equation>, use_concat: bool)
    ensures
        total_calibration(eqs, use_concat) >= 0,
    decreases eqs.len(),
{
    if eqs.len() != 0 {
        lemma_total_calibration_nonneg(eqs.skip(1), use_concat);
    }
}

/// Every term of every equation is at least one, which the search's
/// pruning relies on.
pub open spec fn all_terms_positive(eqs: Seq<Equation>) -> bool {
    forall|i: int, m: int|
        0 <= i < eqs.len() && 0 <= m < eqs[i].terms@.len() ==> (#[trigger] eqs[i].terms@[m]) >= 1
}

#[verifier::loop_isolation(false)]
fn sum_solvable(eqs: &Vec<Equation>, use_concat: bool) -> (r: u64)
    requires
        all_terms_positive(eqs@),
        total_calibration(eqs@, use_concat) <= u64::MAX,
    ensures
        r == total_calibration(eqs@, use_concat),
{
    let mut sum: u64 = 0;
    let mut i: usize = 0;
    proof {
        assert(eqs@.skip(0) =~= eqs@);
    }
    while i < eqs.len()
        invariant
            i <= eqs@.len(),
            sum + total_calibration(eqs@.skip(i as int), use_concat) == total_calibration(
                eqs@,
                use_concat,
            ),
        decreases eqs@.len() - i,
    {
        proof {
            assert(eqs@.skip(i as int)[0] == eqs@[i as int]);
            assert(eqs@.skip(i as int).skip(1) =~= eqs@.skip(i as int + 1));
            lemma_total_calibration_nonneg(eqs@.skip(i as int + 1), use_concat);
        }
        if eqs[i].can_solve(use_concat) {
            sum = sum + eqs[i].target;
        }
        i += 1;
    }
    sum
}

pub struct P1;

impl P1 {
    /// Sum of reachable targets using `+` and `*` only.
    pub fn solve(input: &Vec<Equation>) -> (r: Result<u64, Error>)
        requires
            all_terms_positive(input@),
            total_calibration(input@, false) <= u64::MAX,
        ensures
            r == Ok::<u64, Error>(total_calibration(input@, false) as u64),
    {
        Ok(sum_solvable(input, false))
    }
}

pub struct P2;

impl P2 {
    /// Sum of reachable targets with concatenation allowed too.
    pub fn solve(input: &Vec<Equation>) -> (r: Result<u64, Error>)
        requires
            all_terms_positive(input@),
            total_calibration(input@, true) <= u64::MAX,
        ensures
            r == Ok::<u64, Error>(total_calibration(input@, true) as u64),
    {
        Ok(sum_solvable(input, true))
    }
}

} // verus!
