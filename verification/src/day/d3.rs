//! Day 3: scanning corrupted memory for `mul`, `do()` and `don't()`
//! instructions and running them through a little accumulator machine.

use vstd::prelude::*;

verus! {

use crate::harness::error::Error;
use crate::harness::iter::{lines, split_lines};
use crate::harness::part::Part;
use crate::parse::{all_digits, digit_run, digits_val, is_digit, lemma_digit_run_bounds, lemma_digits_val_lt_pow10, pow10};

pub struct D3;

impl D3 {
    /// The day this module solves.
    pub fn day() -> (d: u8)
        ensures
            d == 3,
    {
        3
    }
}

/// One recognized instruction from the corrupted memory.
#[derive(Debug, PartialEq, Eq, Structural, Clone, Copy)]
pub enum Instruction {
    Mul(u32, u32),
    Do,
    Dont,
}

/// The accumulator machine: `Do`/`Dont` toggle `resumed`, and `Mul`
/// adds its product to `count` whenever multiplication is allowed.
#[derive(Debug, Clone, Copy)]
pub struct Machine {
    pub part: Part,
    pub resumed: bool,
    pub count: u32,
}

/// Multiplication is always allowed in part one, and only while
/// resumed in part two.
pub open spec fn allow_mul_spec(m: Machine) -> bool {
    m.part is One || m.resumed
}

/// What one instruction does to the machine.
pub open spec fn exec_spec(m: Machine, i: Instruction) -> Machine {
    match i {
        Instruction::Mul(x, y) => if allow_mul_spec(m) {
            Machine { count: (m.count + x * y) as u32, ..m }
        } else {
            m
        },
        Instruction::Do => Machine { resumed: true, ..m },
        Instruction::Dont => Machine { resumed: false, ..m },
    }
}

/// Whether one instruction keeps the accumulator inside `u32`.
pub open spec fn step_fits(m: Machine, i: Instruction) -> bool {
    match i {
        Instruction::Mul(x, y) => allow_mul_spec(m) ==> m.count + x * y <= u32::MAX,
        _ => true,
    }
}

/// Folding a whole instruction stream through the machine.
pub open spec fn exec_all_spec(m: Machine, is: Seq<Instruction>) -> Machine
    decreases is.len(),
{
    if is.len() == 0 {
        m
    } else {
        exec_all_spec(exec_spec(m, is[0]), is.skip(1))
    }
}

/// Whether a whole stream keeps the accumulator inside `u32`.
pub open spec fn exec_all_fits(m: Machine, is: Seq<Instruction>) -> bool
    decreases is.len(),
{
    if is.len() == 0 {
        true
    } else {
        step_fits(m, is[0]) && exec_all_fits(exec_spec(m, is[0]), is.skip(1))
    }
}

impl Machine {
    /// A fresh machine for the given part: resumed, with a zero count.
    pub fn new(part: Part) -> (m: Machine)
        ensures
            m == (Machine { part, resumed: true, count: 0 }),
    {
        Machine { part, resumed: true, count: 0 }
    }

    /// Run one instruction.
    pub fn execute(self, instruction: Instruction) -> (m: Machine)
        requires
            step_fits(self, instruction),
        ensures
            m == exec_spec(self, instruction),
    {
        match instruction {
            Instruction::Mul(x, y) => {
                if self.allow_mul() {
                    let mut new = self.clone();
                    new.count = new.count + x * y;
                    new
                } else {
                    self
                }
            },
            Instruction::Do => {
                let mut new = self.clone();
                new.resumed = true;
                new
            },
            Instruction::Dont => {
                let mut new = self.clone();
                new.resumed = false;
                new
            },
        }
    }

    /// Run a whole instruction stream, front to back.
    #[verifier::loop_isolation(false)]
    pub fn execute_all(self, instructions: &[Instruction]) -> (m: Machine)
        requires
            exec_all_fits(self, instructions@),
        ensures
            m == exec_all_spec(self, instructions@),
    {
        let mut m = self;
        let mut i: usize = 0;
        proof {
            assert(instructions@.skip(0) =~= instructions@);
        }
        while i < instructions.len()
            invariant
                i <= instructions@.len(),
                exec_all_fits(m, instructions@.skip(i as int)),
                exec_all_spec(m, instructions@.skip(i as int)) == exec_all_spec(
                    self,
                    instructions@,
                ),
            decreases instructions@.len() - i,
        {
            proof {
                assert(instructions@.skip(i as int)[0] == instructions@[i as int]);
                assert(instructions@.skip(i as int).skip(1) =~= instructions@.skip(i + 1));
            }
            m = m.execute(instructions[i]);
            i += 1;
        }
        m
    }

    /// Whether a `mul` would currently count.
    pub fn allow_mul(&self) -> (b: bool)
        ensures
            b == allow_mul_spec(*self),
    {
        match self.part {
            Part::One => true,
            Part::Two => self.resumed,
        }
    }
}

/// The `mul(x,y)` instruction sitting at the very front of `s`, if
/// any, with the number of bytes it spans: `mul(`, one to three
/// digits, a comma, one to three digits, and a closing parenthesis.
pub open spec fn match_mul(s: Seq<u8>) -> Option<(u32, u32, int)> {
    if seq![109u8, 117u8, 108u8, 40u8].is_prefix_of(s) {
        let s1 = s.skip(4);
        let d1 = digit_run(s1);
        if 1 <= d1 <= 3 && d1 < s1.len() && s1[d1] == 44u8 {
            let s2 = s1.skip(d1 + 1);
            let d2 = digit_run(s2);
            if 1 <= d2 <= 3 && d2 < s2.len() && s2[d2] == 41u8 {
                Some(
                    (
                        (digits_val(s1.take(d1)) as u32),
                        (digits_val(s2.take(d2)) as u32),
                        4 + d1 + 1 + d2 + 1,
                    ),
                )
            } else {
                None
            }
        } else {
            None
        }
    } else {
        None
    }
}

/// The instruction sitting at the very front of `s`, if any, with the
/// number of bytes it spans. `mul` is tried first, then `do()`, then
/// `don't()`.
pub open spec fn match_instr(s: Seq<u8>) -> Option<(Instruction, int)> {
    if match_mul(s) is Some {
        let (x, y, l) = match_mul(s).unwrap();
        Some((Instruction::Mul(x, y), l))
    } else if seq![100u8, 111u8, 40u8, 41u8].is_prefix_of(s) {
        Some((Instruction::Do, 4))
    } else if seq![100u8, 111u8, 110u8, 39u8, 116u8, 40u8, 41u8].is_prefix_of(s) {
        Some((Instruction::Dont, 7))
    } else {
        None
    }
}

proof fn lemma_match_instr_bounds(s: Seq<u8>)
    ensures
        match_instr(s) matches Some((i, l)) ==> 1 <= l <= s.len(),
{
    if match_mul(s) is Some {
        lemma_digit_run_bounds(s.skip(4));
        let d1 = digit_run(s.skip(4));
        lemma_digit_run_bounds(s.skip(4).skip(d1 + 1));
    }
}

/// Every instruction in the buffer, scanning left to right and never
/// looking back inside a match.
pub open spec fn find_spec(s: Seq<u8>) -> Seq<Instruction>
    decreases s.len(),
    via find_spec_decreases
{
    if s.len() == 0 {
        Seq::empty()
    } else {
        match match_instr(s) {
            Some((instr, l)) => seq![instr] + find_spec(s.skip(l)),
            None => find_spec(s.skip(1)),
        }
    }
}

#[via_fn]
proof fn find_spec_decreases(s: Seq<u8>) {
    lemma_match_instr_bounds(s);
}

/// Read the digit run at `s[i..]`: its value and its length, with the
/// length capped at four so that anything too long to be an operand is
/// reported as such without overflowing.
#[verifier::loop_isolation(false)]
fn scan_number(s: &[u8], i: usize) -> (r: (u32, usize))
    requires
        i <= s@.len(),
    ensures
        r.1 == (if digit_run(s@.skip(i as int)) <= 4 {
            digit_run(s@.skip(i as int))
        } else {
            4int
        }),
        r.1 <= 3 ==> r.0 == digits_val(s@.skip(i as int).take(r.1 as int)),
{
    let ghost t = s@.skip(i as int);
    proof {
        lemma_digit_run_bounds(t);
    }
    let mut v: u32 = 0;
    let mut j: usize = 0;
    while j < 4 && j < s.len() - i && s[i + j] >= 48u8 && s[i + j] <= 57u8
        invariant
            j <= 4,
            i + j <= s@.len(),
            j <= digit_run(t),
            v == digits_val(t.take(j as int)),
            v <= 9999,
        decreases 4 - j,
    {
        proof {
            assert(t[j as int] == s@[i + j]);
            assert(t.take(j + 1).drop_last() =~= t.take(j as int));
            assert(t.take(j + 1).last() == t[j as int]);
            assert(all_digits(t.take(j + 1))) by {
                assert(forall|m: int|
                    0 <= m <= j ==> t.take(j + 1)[m] == #[trigger] t[m] && is_digit(t[m]));
            }
            lemma_digits_val_lt_pow10(t.take(j + 1));
            assert(pow10(0) == 1);
            assert(pow10(1) == 10);
            assert(pow10(2) == 100);
            assert(pow10(3) == 1000);
            assert(pow10(4) == 10000);
        }
        v = v * 10 + ((s[i + j] - 48u8) as u32);
        j += 1;
        proof {
            if j > digit_run(t) {
                assert(!is_digit(t[digit_run(t)]));
                assert(false);
            }
        }
    }
    proof {
        if j < 4 {
            // the loop stopped at the end of the run
            if j < t.len() && is_digit(t[j as int]) {
                assert(s@[i + j] == t[j as int]);
                assert(false);
            }
            if digit_run(t) > j {
                assert(is_digit(t[j as int]));
            }
        }
    }
    (v, j)
}

/// The instruction at `haystack[i..]`, if one starts exactly there.
#[verifier::loop_isolation(false)]
fn match_instr_at(s: &[u8], i: usize) -> (r: Option<(Instruction, usize)>)
    requires
        i <= s@.len(),
    ensures
        match r {
            Some(p) => match_instr(s@.skip(i as int)) == Some((p.0, p.1 as int)),
            None => match_instr(s@.skip(i as int)) is None,
        },
{
    let ghost t = s@.skip(i as int);
    let n = s.len();
    // mul(x,y)
    if n - i >= 4 && s[i] == 109u8 && s[i + 1] == 117u8 && s[i + 2] == 108u8 && s[i + 3] == 40u8 {
        proof {
            assert(seq![109u8, 117u8, 108u8, 40u8].is_prefix_of(t)) by {
                assert(t.len() >= 4);
                assert(seq![109u8, 117u8, 108u8, 40u8] =~= t.subrange(0, 4)) by {
                    assert(t[0] == s@[i as int] && t[1] == s@[i + 1] && t[2] == s@[i + 2] && t[3]
                        == s@[i + 3]);
                }
            }
            assert(t.skip(4) =~= s@.skip(i + 4));
        }
        let (x, d1) = scan_number(s, i + 4);
        if 1 <= d1 && d1 <= 3 && d1 < n - (i + 4) && s[i + 4 + d1] == 44u8 {
            proof {
                assert(t.skip(4)[d1 as int] == s@[i + 4 + d1]);
                assert(t.skip(4).skip(d1 + 1) =~= s@.skip(i + 4 + d1 + 1));
            }
            let (y, d2) = scan_number(s, i + 4 + d1 + 1);
            if 1 <= d2 && d2 <= 3 && d2 < n - (i + 4 + d1 + 1) && s[i + 4 + d1 + 1 + d2] == 41u8 {
                proof {
                    assert(t.skip(4).skip(d1 + 1)[d2 as int] == s@[i + 4 + d1 + 1 + d2]);
                    assert(t.skip(4).take(d1 as int) =~= s@.skip(i + 4).take(d1 as int));
                    assert(t.skip(4).skip(d1 + 1).take(d2 as int) =~= s@.skip(
                        i + 4 + d1 + 1,
                    ).take(d2 as int));
                }
                return Some((Instruction::Mul(x, y), 4 + d1 + 1 + d2 + 1));
            } else {
                proof {
                    assert(match_mul(t) is None);
                    assert(t[0] != 100u8);
                }
                return None;
            }
        } else {
            proof {
                assert(match_mul(t) is None);
                assert(t[0] != 100u8);
            }
            return None;
        }
    }
    // do()
    if n - i >= 4 && s[i] == 100u8 && s[i + 1] == 111u8 && s[i + 2] == 40u8 && s[i + 3] == 41u8 {
        proof {
            assert(match_mul(t) is None) by {
                if seq![109u8, 117u8, 108u8, 40u8].is_prefix_of(t) {
                    assert(t[0] == 109u8);
                }
            }
            assert(seq![100u8, 111u8, 40u8, 41u8].is_prefix_of(t)) by {
                assert(seq![100u8, 111u8, 40u8, 41u8] =~= t.subrange(0, 4));
            }
        }
        return Some((Instruction::Do, 4));
    }
    // don't()
    if n - i >= 7 && s[i] == 100u8 && s[i + 1] == 111u8 && s[i + 2] == 110u8 && s[i + 3] == 39u8
        && s[i + 4] == 116u8 && s[i + 5] == 40u8 && s[i + 6] == 41u8 {
        proof {
            assert(match_mul(t) is None) by {
                if seq![109u8, 117u8, 108u8, 40u8].is_prefix_of(t) {
                    assert(t[0] == 109u8);
                }
            }
            assert(!seq![100u8, 111u8, 40u8, 41u8].is_prefix_of(t)) by {
                if seq![100u8, 111u8, 40u8, 41u8].is_prefix_of(t) {
                    assert(t[2] == 40u8);
                }
            }
            assert(seq![100u8, 111u8, 110u8, 39u8, 116u8, 40u8, 41u8].is_prefix_of(t)) by {
                assert(seq![100u8, 111u8, 110u8, 39u8, 116u8, 40u8, 41u8] =~= t.subrange(0, 7));
            }
        }
        return Some((Instruction::Dont, 7));
    }
    proof {
        assert(match_mul(t) is None) by {
            if seq![109u8, 117u8, 108u8, 40u8].is_prefix_of(t) {
                assert(t[0] == 109u8 && t[1] == 117u8 && t[2] == 108u8 && t[3] == 40u8);
                assert(s@[i as int] == 109u8 && s@[i + 1] == 117u8 && s@[i + 2] == 108u8 && s@[i + 3]
                    == 40u8);
            }
        }
        assert(!seq![100u8, 111u8, 40u8, 41u8].is_prefix_of(t)) by {
            if seq![100u8, 111u8, 40u8, 41u8].is_prefix_of(t) {
                assert(t[0] == 100u8 && t[1] == 111u8 && t[2] == 40u8 && t[3] == 41u8);
            }
        }
        assert(!seq![100u8, 111u8, 110u8, 39u8, 116u8, 40u8, 41u8].is_prefix_of(t)) by {
            if seq![100u8, 111u8, 110u8, 39u8, 116u8, 40u8, 41u8].is_prefix_of(t) {
                assert(t[0] == 100u8 && t[1] == 111u8 && t[2] == 110u8 && t[3] == 39u8 && t[4]
                    == 116u8 && t[5] == 40u8 && t[6] == 41u8);
            }
        }
    }
    None
}

/// Scan a buffer for every instruction it holds, left to right.
#[verifier::loop_isolation(false)]
pub fn find_instructions(haystack: &[u8]) -> (r: Vec<Instruction>)
    ensures
        r@ == find_spec(haystack@),
{
    let mut r: Vec<Instruction> = Vec::new();
    let mut i: usize = 0;
    proof {
        assert(haystack@.skip(0) =~= haystack@);
        assert(r@ + find_spec(haystack@) =~= find_spec(haystack@));
    }
    while i < haystack.len()
        invariant
            i <= haystack@.len(),
            find_spec(haystack@) == r@ + find_spec(haystack@.skip(i as int)),
        decreases haystack@.len() - i,
    {
        let ghost t = haystack@.skip(i as int);
        match match_instr_at(haystack, i) {
            Some((instr, l)) => {
                proof {
                    lemma_match_instr_bounds(t);
                    assert(t.skip(l as int) =~= haystack@.skip(i + l));
                    assert(find_spec(t) == seq![instr] + find_spec(haystack@.skip(i + l)));
                }
                let ghost old_map = r@;
                r.push(instr);
                proof {
                    assert(r@ =~= old_map + seq![instr]);
                    assert((old_map + seq![instr]) + find_spec(haystack@.skip(i + l)) =~= old_map
                        + (seq![instr] + find_spec(haystack@.skip(i + l))));
                }
                i = i + l;
            },
            None => {
                proof {
                    assert(t.skip(1) =~= haystack@.skip(i + 1));
                    assert(find_spec(t) == find_spec(haystack@.skip(i + 1)));
                }
                i = i + 1;
            },
        }
    }
    proof {
        assert(find_spec(haystack@.skip(i as int)) =~= Seq::<Instruction>::empty());
        assert(r@ + Seq::<Instruction>::empty() =~= r@);
    }
    r
}

/// The instructions of every line of the input, in file order.
pub open spec fn instrs_of_lines(ls: Seq<Seq<u8>>) -> Seq<Instruction>
    decreases ls.len(),
{
    if ls.len() == 0 {
        Seq::empty()
    } else {
        find_spec(ls[0]) + instrs_of_lines(ls.skip(1))
    }
}

/// Scan the whole input, line by line, for its instruction stream.
#[verifier::loop_isolation(false)]
#[verifier::rlimit(30)]
pub fn read_instructions(input: &[u8]) -> (r: Vec<Instruction>)
    ensures
        r@ == instrs_of_lines(split_lines(input@)),
{
    let ls = lines(input);
    let ghost lss = ls@.map_values(|l: Vec<u8>| l@);
    let mut r: Vec<Instruction> = Vec::new();
    let mut idx: usize = 0;
    proof {
        assert(lss.skip(0) =~= lss);
        assert(r@ + instrs_of_lines(lss) =~= instrs_of_lines(lss));
    }
    while idx < ls.len()
        invariant
            idx <= ls@.len(),
            instrs_of_lines(lss) == r@ + instrs_of_lines(lss.skip(idx as int)),
        decreases ls@.len() - idx,
    {
        proof {
            assert(lss.skip(idx as int)[0] == lss[idx as int]);
            assert(lss.skip(idx as int).skip(1) =~= lss.skip(idx + 1));
        }
        let mut found = find_instructions(ls[idx].as_slice());
        let ghost old_map = r@;
        let ghost found_map = found@;
        r.append(&mut found);
        proof {
            assert((old_map + found_map) + instrs_of_lines(lss.skip(idx + 1)) =~= old_map + (
            found_map + instrs_of_lines(lss.skip(idx + 1))));
        }
        idx += 1;
    }
    proof {
        assert(instrs_of_lines(lss.skip(idx as int)) =~= Seq::<Instruction>::empty());
        assert(r@ + Seq::<Instruction>::empty() =~= r@);
    }
    r
}

pub struct P1;

impl P1 {
    /// Run the stream with every `mul` counting.
    pub fn solve(input: &Vec<Instruction>) -> (r: Result<u32, Error>)
        requires
            exec_all_fits(machine_new_spec(Part::One), input@),
        ensures
            r == Ok::<u32, Error>(exec_all_spec(machine_new_spec(Part::One), input@).count),
    {
        let m = Machine::new(Part::One);
        let m = m.execute_all(input.as_slice());
        Ok(m.count)
    }
}

pub struct P2;

impl P2 {
    /// Run the stream with `do()`/`don't()` gating the `mul`s.
    pub fn solve(input: &Vec<Instruction>) -> (r: Result<u32, Error>)
        requires
            exec_all_fits(machine_new_spec(Part::Two), input@),
        ensures
            r == Ok::<u32, Error>(exec_all_spec(machine_new_spec(Part::Two), input@).count),
    {
        let m = Machine::new(Part::Two);
        let m = m.execute_all(input.as_slice());
        Ok(m.count)
    }
}

/// The machine a part starts from.
pub open spec fn machine_new_spec(part: Part) -> Machine {
    Machine { part, resumed: true, count: 0 }
}

} // verus!
