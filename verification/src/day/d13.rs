//! Day 13: claw machines.
//!
//! Each machine block names the X/Y movement of buttons A and B and a
//! prize position. Pressing A costs three tokens and B one; the answer
//! is the total of the cheapest winning press counts, trying at most a
//! hundred presses per button and scanning A-presses first.

use vstd::prelude::*;

verus! {

use crate::harness::error::Error;
use crate::harness::input::InputError;
use crate::harness::iter::{is_ws, lines, split_lines};
use crate::parse::{lemma_digit_run_bounds, num_at, scan_u64};

pub struct D13;

impl D13 {
    /// The day this module solves.
    pub fn day() -> (d: u8)
        ensures
            d == 13,
    {
        13
    }
}

/// The highest number of presses tried per button.
pub const BTN_PRESS_LIMIT: u64 = 100;

/// One claw machine: the X/Y movement of each button, and the prize.
#[derive(Debug, Clone, Copy)]
pub struct Machine {
    pub move_a: (u64, u64),
    pub move_b: (u64, u64),
    pub prize_position: (u64, u64),
}

/// Whether `a` presses of A and `b` of B land exactly on the prize.
pub open spec fn hit(m: Machine, a: int, b: int) -> bool {
    &&& a * m.move_a.0 + b * m.move_b.0 == m.prize_position.0
    &&& a * m.move_a.1 + b * m.move_b.1 == m.prize_position.1
}

/// What `min_tokens` returns: the token cost of the first winning
/// pair in scan order (fewest A presses first, then fewest B), or
/// zero when no pair within the limit wins.
pub open spec fn is_min_tokens(m: Machine, r: u64) -> bool {
    if exists|a: int, b: int| 0 <= a <= 100 && 0 <= b <= 100 && #[trigger] hit(m, a, b) {
        exists|a: int, b: int|
            {
                &&& 0 <= a <= 100 && 0 <= b <= 100
                &&& #[trigger] hit(m, a, b)
                &&& r == 3 * a + b
                &&& forall|a2: int, b2: int|
                    0 <= a2 <= 100 && 0 <= b2 <= 100 && #[trigger] hit(m, a2, b2) ==> (a < a2 || (a
                        == a2 && b <= b2))
            }
    } else {
        r == 0
    }
}

/// The cheapest winning press combination, scanning A then B.
#[verifier::loop_isolation(false)]
pub fn min_tokens(machine: &Machine) -> (r: u64)
    ensures
        is_min_tokens(*machine, r),
        r <= 400,
{
    let m = *machine;
    let mut a: u64 = 0;
    while a <= BTN_PRESS_LIMIT
        invariant
            a <= 101,
            forall|a2: int, b2: int|
                0 <= a2 < a && 0 <= b2 <= 100 ==> !#[trigger] hit(m, a2, b2),
        decreases 101 - a,
    {
        let mut b: u64 = 0;
        while b <= BTN_PRESS_LIMIT
            invariant
                a <= 100,
                b <= 101,
                forall|a2: int, b2: int|
                    0 <= a2 < a && 0 <= b2 <= 100 ==> !#[trigger] hit(m, a2, b2),
                forall|b2: int| 0 <= b2 < b ==> !#[trigger] hit(m, a as int, b2),
            decreases 101 - b,
        {
            proof {
                assert((a as int) * (m.move_a.0 as int) <= 100 * (u64::MAX as int)
                    && (a as int) * (m.move_a.1 as int) <= 100 * (u64::MAX as int)
                    && (b as int) * (m.move_b.0 as int) <= 100 * (u64::MAX as int)
                    && (b as int) * (m.move_b.1 as int) <= 100 * (u64::MAX as int))
                    by (nonlinear_arith)
                    requires
                        a <= 100,
                        b <= 100,
                        m.move_a.0 <= u64::MAX,
                        m.move_a.1 <= u64::MAX,
                        m.move_b.0 <= u64::MAX,
                        m.move_b.1 <= u64::MAX,
                ;
            }
            let ax = (a as u128) * (m.move_a.0 as u128);
            let ay = (a as u128) * (m.move_a.1 as u128);
            let bx = (b as u128) * (m.move_b.0 as u128);
            let by = (b as u128) * (m.move_b.1 as u128);
            if ax + bx == m.prize_position.0 as u128 && ay + by == m.prize_position.1 as u128 {
                proof {
                    assert(hit(m, a as int, b as int));
                }
                return a * 3 + b;
            }
            proof {
                assert(!hit(m, a as int, b as int));
            }
            b += 1;
        }
        a += 1;
    }
    0
}

/// Whether `pat` occurs at offset `i` of `s`.
#[verifier::loop_isolation(false)]
fn has_prefix_at(s: &[u8], i: usize, pat: &Vec<u8>) -> (r: bool)
    requires
        i <= s@.len(),
    ensures
        r == pat@.is_prefix_of(s@.skip(i as int)),
{
    if pat.len() > s.len() - i {
        proof {
            assert(!pat@.is_prefix_of(s@.skip(i as int)));
        }
        return false;
    }
    let mut j: usize = 0;
    while j < pat.len()
        invariant
            j <= pat@.len(),
            pat@.len() <= s@.len() - i,
            forall|mm: int| 0 <= mm < j ==> s@[i + mm] == pat@[mm],
        decreases pat@.len() - j,
    {
        if s[i + j] != pat[j] {
            proof {
                assert(s@.skip(i as int)[j as int] == s@[i + j]);
                assert(!pat@.is_prefix_of(s@.skip(i as int)));
            }
            return false;
        }
        j += 1;
    }
    proof {
        assert(pat@ =~= s@.skip(i as int).subrange(0, pat@.len() as int));
    }
    true
}

/// Whether a full pattern starts at the very front of `s`: the
/// literal, an X number, the `", Y..."` separator, and a Y number.
pub open spec fn full_head(s: Seq<u8>, lit: Seq<u8>, ylit: Seq<u8>) -> bool {
    lit.is_prefix_of(s) && xy_after(s, lit.len() as int, ylit) is Some
}

/// Index of the first full match of the pattern in `s`, or `-1` when
/// there is none. A bare literal with no parsable numbers after it
/// does not count: the search keeps looking, as a pattern search
/// does.
pub open spec fn find_full(s: Seq<u8>, lit: Seq<u8>, ylit: Seq<u8>) -> int
    decreases s.len(),
{
    if s.len() < lit.len() || lit.len() == 0 {
        -1
    } else if full_head(s, lit, ylit) {
        0
    } else {
        let r = find_full(s.skip(1), lit, ylit);
        if r < 0 {
            -1
        } else {
            r + 1
        }
    }
}

proof fn lemma_find_full_bounds(s: Seq<u8>, lit: Seq<u8>, ylit: Seq<u8>)
    requires
        lit.len() >= 1,
    ensures
        find_full(s, lit, ylit) < 0 ==> forall|i: int|
            0 <= i <= s.len() - lit.len() ==> !full_head(#[trigger] s.skip(i), lit, ylit),
        find_full(s, lit, ylit) >= 0 ==> {
            &&& find_full(s, lit, ylit) <= s.len() - lit.len()
            &&& full_head(s.skip(find_full(s, lit, ylit)), lit, ylit)
            &&& forall|i: int|
                0 <= i < find_full(s, lit, ylit) ==> !full_head(#[trigger] s.skip(i), lit, ylit)
        },
    decreases s.len(),
{
    assert(s.skip(0) =~= s);
    if s.len() >= lit.len() && !full_head(s, lit, ylit) {
        lemma_find_full_bounds(s.skip(1), lit, ylit);
        assert forall|i: int| 1 <= i <= s.len() - lit.len() implies #[trigger] s.skip(i)
            =~= s.skip(1).skip(i - 1) by {}
        if find_full(s, lit, ylit) >= 0 {
            assert(s.skip(1).skip(find_full(s, lit, ylit) - 1) =~= s.skip(
                find_full(s, lit, ylit),
            ));
        }
    }
}

proof fn lemma_find_full_at(s: Seq<u8>, lit: Seq<u8>, ylit: Seq<u8>, k: int)
    requires
        lit.len() >= 1,
        0 <= k <= s.len() - lit.len(),
        full_head(s.skip(k), lit, ylit),
        forall|i: int| 0 <= i < k ==> !full_head(#[trigger] s.skip(i), lit, ylit),
    ensures
        find_full(s, lit, ylit) == k,
{
    lemma_find_full_bounds(s, lit, ylit);
    if find_full(s, lit, ylit) < 0 {
        assert(!full_head(s.skip(k), lit, ylit));
    } else if find_full(s, lit, ylit) < k {
        assert(!full_head(s.skip(find_full(s, lit, ylit)), lit, ylit));
    } else if find_full(s, lit, ylit) > k {
        assert(!full_head(s.skip(k), lit, ylit));
    }
}

/// The X/Y pair after an offset reads the same whether the buffer is
/// cut at the match first or indexed absolutely.
proof fn lemma_xy_after_skip(s: Seq<u8>, i: int, l: int, ylit: Seq<u8>)
    requires
        0 <= i,
        0 <= l,
        i + l <= s.len(),
    ensures
        xy_after(s, i + l, ylit) == xy_after(s.skip(i), l, ylit),
{
    assert(s.skip(i + l) =~= s.skip(i).skip(l));
    let d = crate::parse::digit_run(s.skip(i + l));
    lemma_digit_run_bounds(s.skip(i + l));
    if num_at(s, i + l) is Some {
        assert(s.skip(i + l + d) =~= s.skip(i).skip(l + d));
        if ylit.is_prefix_of(s.skip(i + l + d)) {
            assert(s.skip(i + l + d + ylit.len()) =~= s.skip(i).skip(l + d + ylit.len()));
        }
    }
}

/// Find the first full match of the pattern and read its numbers.
#[verifier::loop_isolation(false)]
#[verifier::rlimit(60)]
fn find_xy(s: &[u8], lit: &Vec<u8>, ylit: &Vec<u8>) -> (r: Option<(u64, u64)>)
    requires
        lit@.len() >= 1,
    ensures
        match r {
            Some(p) => find_full(s@, lit@, ylit@) >= 0 && xy_after(
                s@.skip(find_full(s@, lit@, ylit@)),
                lit@.len() as int,
                ylit@,
            ) == Some(p),
            None => find_full(s@, lit@, ylit@) < 0,
        },
{
    let n = s.len();
    if lit.len() > n {
        proof {
            lemma_find_full_bounds(s@, lit@, ylit@);
            if find_full(s@, lit@, ylit@) >= 0 {
                assert(lit@.is_prefix_of(s@.skip(find_full(s@, lit@, ylit@))));
            }
        }
        return None;
    }
    let mut i: usize = 0;
    while i <= n - lit.len()
        invariant
            i <= s@.len() - lit@.len() + 1,
            lit@.len() <= s@.len(),
            forall|m: int| 0 <= m < i ==> !full_head(#[trigger] s@.skip(m), lit@, ylit@),
        decreases s@.len() - lit@.len() + 1 - i,
    {
        if has_prefix_at(s, i, lit) {
            proof {
                lemma_xy_after_skip(s@, i as int, lit@.len() as int, ylit@);
            }
            match scan_xy(s, i + lit.len(), ylit) {
                Some(p) => {
                    proof {
                        assert(full_head(s@.skip(i as int), lit@, ylit@));
                        lemma_find_full_at(s@, lit@, ylit@, i as int);
                    }
                    return Some(p);
                },
                None => {
                    proof {
                        assert(!full_head(s@.skip(i as int), lit@, ylit@));
                    }
                },
            }
        } else {
            proof {
                assert(!full_head(s@.skip(i as int), lit@, ylit@));
            }
        }
        i += 1;
    }
    proof {
        lemma_find_full_bounds(s@, lit@, ylit@);
        if find_full(s@, lit@, ylit@) >= 0 {
            assert(!full_head(s@.skip(find_full(s@, lit@, ylit@)), lit@, ylit@));
        }
    }
    None
}

/// `"Button A: X+"`
pub open spec fn lit_btn_a() -> Seq<u8> {
    seq![66u8, 117u8, 116u8, 116u8, 111u8, 110u8, 32u8, 65u8, 58u8, 32u8, 88u8, 43u8]
}

/// `"Button B: X+"`
pub open spec fn lit_btn_b() -> Seq<u8> {
    seq![66u8, 117u8, 116u8, 116u8, 111u8, 110u8, 32u8, 66u8, 58u8, 32u8, 88u8, 43u8]
}

/// `"Prize: X="`
pub open spec fn lit_prize() -> Seq<u8> {
    seq![80u8, 114u8, 105u8, 122u8, 101u8, 58u8, 32u8, 88u8, 61u8]
}

/// `", Y+"`
pub open spec fn lit_yplus() -> Seq<u8> {
    seq![44u8, 32u8, 89u8, 43u8]
}

/// `", Y="`
pub open spec fn lit_yeq() -> Seq<u8> {
    seq![44u8, 32u8, 89u8, 61u8]
}

fn pat_btn_a() -> (r: Vec<u8>)
    ensures
        r@ == lit_btn_a(),
{
    let r = vec![66u8, 117u8, 116u8, 116u8, 111u8, 110u8, 32u8, 65u8, 58u8, 32u8, 88u8, 43u8];
    proof {
        assert(r@ =~= lit_btn_a());
    }
    r
}

fn pat_btn_b() -> (r: Vec<u8>)
    ensures
        r@ == lit_btn_b(),
{
    let r = vec![66u8, 117u8, 116u8, 116u8, 111u8, 110u8, 32u8, 66u8, 58u8, 32u8, 88u8, 43u8];
    proof {
        assert(r@ =~= lit_btn_b());
    }
    r
}

fn pat_prize() -> (r: Vec<u8>)
    ensures
        r@ == lit_prize(),
{
    let r = vec![80u8, 114u8, 105u8, 122u8, 101u8, 58u8, 32u8, 88u8, 61u8];
    proof {
        assert(r@ =~= lit_prize());
    }
    r
}

fn pat_yplus() -> (r: Vec<u8>)
    ensures
        r@ == lit_yplus(),
{
    let r = vec![44u8, 32u8, 89u8, 43u8];
    proof {
        assert(r@ =~= lit_yplus());
    }
    r
}

fn pat_yeq() -> (r: Vec<u8>)
    ensures
        r@ == lit_yeq(),
{
    let r = vec![44u8, 32u8, 89u8, 61u8];
    proof {
        assert(r@ =~= lit_yeq());
    }
    r
}

/// The X/Y pair written at `start`: a number, the given `", Y..."`
/// separator, and a second number.
pub open spec fn xy_after(s: Seq<u8>, start: int, ylit: Seq<u8>) -> Option<(u64, u64)> {
    match num_at(s, start) {
        Some((x, d)) => {
            let j = start + d;
            if ylit.is_prefix_of(s.skip(j)) {
                match num_at(s, j + ylit.len()) {
                    Some((y, _)) => Some((x, y)),
                    None => None,
                }
            } else {
                None
            }
        },
        None => None,
    }
}

#[verifier::loop_isolation(false)]
fn scan_xy(s: &[u8], start: usize, ylit: &Vec<u8>) -> (r: Option<(u64, u64)>)
    requires
        start <= s@.len(),
    ensures
        r == xy_after(s@, start as int, ylit@),
{
    let n = s.len();
    let (x, d) = match scan_u64(s, start) {
        Some(p) => p,
        None => {
            return None;
        },
    };
    proof {
        lemma_digit_run_bounds(s@.skip(start as int));
        assert(d as int == crate::parse::digit_run(s@.skip(start as int)));
        assert(start + d <= n);
    }
    let j = start + d;
    if !has_prefix_at(s, j, ylit) {
        return None;
    }
    proof {
        assert(ylit@.len() <= s@.skip(j as int).len());
    }
    proof {
        assert(ylit@.len() <= s@.skip(j as int).len());
        assert(j + ylit@.len() <= n);
    }
    let k = j + ylit.len();
    match scan_u64(s, k) {
        Some((y, _)) => Some((x, y)),
        None => None,
    }
}

/// The machine a block of text describes, with the three patterns
/// searched for anywhere in it.
pub open spec fn machine_of(s: Seq<u8>) -> Option<Machine> {
    let ia = find_full(s, lit_btn_a(), lit_yplus());
    let ib = find_full(s, lit_btn_b(), lit_yplus());
    let ip = find_full(s, lit_prize(), lit_yeq());
    if ia < 0 || ib < 0 || ip < 0 {
        None
    } else {
        Some(
            Machine {
                move_a: xy_after(s.skip(ia), 12, lit_yplus()).unwrap(),
                move_b: xy_after(s.skip(ib), 12, lit_yplus()).unwrap(),
                prize_position: xy_after(s.skip(ip), 9, lit_yeq()).unwrap(),
            },
        )
    }
}

impl Machine {
    /// Parse one machine description: for each of the three lines,
    /// the first place in the block where its pattern matches whole
    /// (numbers must fit in a `u64`) supplies the values.
    pub fn parse(s: &[u8]) -> (r: Result<Machine, InputError>)
        ensures
            match r {
                Ok(m) => machine_of(s@) == Some(m),
                Err(e) => machine_of(s@) is None && e is InvalidInput,
            },
    {
        let pa = pat_btn_a();
        let pb = pat_btn_b();
        let pp = pat_prize();
        let yplus = pat_yplus();
        let yeq = pat_yeq();
        proof {
            assert(lit_btn_a().len() == 12);
            assert(lit_btn_b().len() == 12);
            assert(lit_prize().len() == 9);
        }
        let a = match find_xy(s, &pa, &yplus) {
            Some(p) => p,
            None => {
                return Err(InputError::invalid("machine block has no button A movement"));
            },
        };
        let b = match find_xy(s, &pb, &yplus) {
            Some(p) => p,
            None => {
                return Err(InputError::invalid("machine block has no button B movement"));
            },
        };
        let p = match find_xy(s, &pp, &yeq) {
            Some(p) => p,
            None => {
                return Err(InputError::invalid("machine block has no prize position"));
            },
        };
        Ok(Machine { move_a: a, move_b: b, prize_position: p })
    }
}

/// A line with at least one non-whitespace byte.
pub open spec fn nonblank(l: Seq<u8>) -> bool {
    exists|i: int| 0 <= i < l.len() && !is_ws(#[trigger] l[i])
}

/// The lines that are not blank, in order.
pub open spec fn keep_nonblank(ls: Seq<Seq<u8>>) -> Seq<Seq<u8>>
    decreases ls.len(),
{
    if ls.len() == 0 {
        Seq::empty()
    } else if nonblank(ls[0]) {
        seq![ls[0]] + keep_nonblank(ls.skip(1))
    } else {
        keep_nonblank(ls.skip(1))
    }
}

/// The non-blank lines joined in groups of three (a short final group
/// is joined as it stands), one machine description each.
pub open spec fn chunks3(ls: Seq<Seq<u8>>) -> Seq<Seq<u8>>
    decreases ls.len(),
{
    if ls.len() == 0 {
        Seq::empty()
    } else if ls.len() == 1 {
        seq![ls[0]]
    } else if ls.len() == 2 {
        seq![ls[0] + ls[1]]
    } else {
        seq![ls[0] + ls[1] + ls[2]] + chunks3(ls.skip(3))
    }
}

/// The machines of a list of description blocks.
pub open spec fn machines_of(cs: Seq<Seq<u8>>) -> Option<Seq<Machine>>
    decreases cs.len(),
{
    if cs.len() == 0 {
        Some(Seq::empty())
    } else {
        match (machine_of(cs[0]), machines_of(cs.skip(1))) {
            (Some(m), Some(rest)) => Some(seq![m] + rest),
            _ => None,
        }
    }
}

#[verifier::loop_isolation(false)]
fn is_blank(l: &Vec<u8>) -> (r: bool)
    ensures
        r == !nonblank(l@),
{
    let mut i: usize = 0;
    while i < l.len()
        invariant
            i <= l@.len(),
            forall|m: int| 0 <= m < i ==> is_ws(#[trigger] l@[m]),
        decreases l@.len() - i,
    {
        let b = l[i];
        if !(b == 32 || b == 9 || b == 13 || b == 10) {
            return false;
        }
        i += 1;
    }
    true
}

fn append_bytes(dst: &mut Vec<u8>, src: &Vec<u8>)
    ensures
        final(dst)@ == old(dst)@ + src@,
{
    let mut i: usize = 0;
    while i < src.len()
        invariant
            i <= src@.len(),
            dst@ == old(dst)@ + src@.take(i as int),
        decreases src@.len() - i,
    {
        dst.push(src[i]);
        proof {
            assert(old(dst)@ + src@.take(i + 1) =~= (old(dst)@ + src@.take(i as int)).push(
                src@[i as int],
            ));
        }
        i += 1;
    }
    proof {
        assert(src@.take(src@.len() as int) =~= src@);
    }
}

/// Read every machine description: blank lines are dropped and the
/// rest are taken three at a time.
#[verifier::loop_isolation(false)]
#[verifier::rlimit(100)]
pub fn read_machines(input: &[u8]) -> (r: Result<Vec<Machine>, InputError>)
    ensures
        match r {
            Ok(ms) => machines_of(chunks3(keep_nonblank(split_lines(input@)))) == Some(ms@),
            Err(e) => machines_of(chunks3(keep_nonblank(split_lines(input@)))) is None
                && e is InvalidInput,
        },
{
    let ls = lines(input);
    let ghost lss = ls@.map_values(|l: Vec<u8>| l@);
    let mut kept: Vec<Vec<u8>> = Vec::new();
    let mut i: usize = 0;
    proof {
        assert(lss.skip(0) =~= lss);
        assert(kept@.map_values(|l: Vec<u8>| l@) + keep_nonblank(lss) =~= keep_nonblank(lss));
    }
    while i < ls.len()
        invariant
            i <= ls@.len(),
            keep_nonblank(lss) == kept@.map_values(|l: Vec<u8>| l@) + keep_nonblank(
                lss.skip(i as int),
            ),
        decreases ls@.len() - i,
    {
        proof {
            assert(lss.skip(i as int)[0] == lss[i as int]);
            assert(lss.skip(i as int).skip(1) =~= lss.skip(i as int + 1));
            assert(ls@[i as int]@ == lss[i as int]);
        }
        if !is_blank(&ls[i]) {
            let ghost old_map = kept@.map_values(|l: Vec<u8>| l@);
            let line = ls[i].clone();
            proof {
                vstd::std_specs::vec::vec_clone_deep_view_proof(ls@[i as int], line);
                assert(line@ =~= ls@[i as int]@);
            }
            kept.push(line);
            proof {
                assert(kept@.map_values(|l: Vec<u8>| l@) =~= old_map.push(lss[i as int]));
                assert(old_map.push(lss[i as int]) =~= old_map + seq![lss[i as int]]);
                assert((old_map + seq![lss[i as int]]) + keep_nonblank(lss.skip(i as int + 1)) =~= (
                old_map + (seq![lss[i as int]] + keep_nonblank(lss.skip(i as int + 1)))));
            }
        }
        i += 1;
    }
    proof {
        assert(keep_nonblank(lss.skip(ls@.len() as int)) =~= Seq::<Seq<u8>>::empty());
        assert(kept@.map_values(|l: Vec<u8>| l@) + Seq::<Seq<u8>>::empty() =~= kept@.map_values(
            |l: Vec<u8>| l@,
        ));
    }
    let ghost keptss = kept@.map_values(|l: Vec<u8>| l@);
    let mut machines: Vec<Machine> = Vec::new();
    let mut k: usize = 0;
    proof {
        assert(keptss.skip(0) =~= keptss);
    }
    while k < kept.len()
        invariant
            k <= kept@.len(),
            keptss == kept@.map_values(|l: Vec<u8>| l@),
            match machines_of(chunks3(keptss.skip(k as int))) {
                Some(rest) => machines_of(chunks3(keptss)) == Some(machines@ + rest),
                None => machines_of(chunks3(keptss)) is None,
            },
        decreases kept@.len() - k,
    {
        let mut block: Vec<u8> = Vec::new();
        append_bytes(&mut block, &kept[k]);
        let mut step: usize = 1;
        if k + 1 < kept.len() {
            append_bytes(&mut block, &kept[k + 1]);
            step = 2;
            if k + 2 < kept.len() {
                append_bytes(&mut block, &kept[k + 2]);
                step = 3;
            }
        }
        proof {
            let rest = keptss.skip(k as int);
            assert(rest[0] == keptss[k as int]);
            if rest.len() >= 2 {
                assert(rest[1] == keptss[k as int + 1]);
            }
            if rest.len() >= 3 {
                assert(rest[2] == keptss[k as int + 2]);
                assert(rest.skip(3) =~= keptss.skip(k as int + 3));
            }
            assert(block@ == chunks3(rest)[0]);
        }
        match Machine::parse(block.as_slice()) {
            Ok(m) => {
                let ghost old_ms = machines@;
                machines.push(m);
                proof {
                    let rest = keptss.skip(k as int);
                    let tail = chunks3(rest).skip(1);
                    assert(machines@ =~= old_ms.push(m));
                    if rest.len() >= 3 {
                        assert(tail =~= chunks3(keptss.skip(k as int + 3)));
                    } else {
                        assert(tail =~= Seq::<Seq<u8>>::empty());
                        assert(keptss.skip(kept@.len() as int) =~= Seq::<Seq<u8>>::empty());
                        assert(chunks3(keptss.skip(kept@.len() as int)) =~= Seq::<Seq<u8>>::empty());
                    }
                    if machines_of(tail) is Some {
                        assert(machines_of(chunks3(rest)) == Some(
                            seq![m] + machines_of(tail).unwrap(),
                        ));
                        assert(old_ms + (seq![m] + machines_of(tail).unwrap()) =~= (old_ms
                            + seq![m]) + machines_of(tail).unwrap());
                        assert(machines@ =~= old_ms + seq![m]);
                    }
                }
                k += step;
            },
            Err(e) => {
                proof {
                    let rest = keptss.skip(k as int);
                    assert(machines_of(chunks3(rest)) is None);
                }
                return Err(e);
            },
        }
    }
    proof {
        assert(keptss.skip(kept@.len() as int) =~= Seq::<Seq<u8>>::empty());
        assert(machines@ + Seq::<Machine>::empty() =~= machines@);
    }
    Ok(machines)
}

/// The sum of a list of per-machine token costs.
pub open spec fn sum_of(ts: Seq<u64>) -> int
    decreases ts.len(),
{
    if ts.len() == 0 {
        0
    } else {
        ts[0] + sum_of(ts.skip(1))
    }
}

pub struct P1;

impl P1 {
    /// Total token cost over all machines: each machine contributes
    /// its cheapest winning combination, or nothing when it cannot be
    /// won within the press limit.
    #[verifier::loop_isolation(false)]
    pub fn solve(input: &Vec<Machine>) -> (r: Result<u64, Error>)
        requires
            input@.len() <= 0xffff_ffff,
        ensures
            match r {
                Ok(total) => exists|ts: Seq<u64>|
                    {
                        &&& ts.len() == input@.len()
                        &&& forall|i: int|
                            0 <= i < ts.len() ==> is_min_tokens(input@[i], #[trigger] ts[i])
                        &&& total == sum_of(ts)
                    },
                Err(_) => false,
            },
    {
        let mut sum: u64 = 0;
        let mut i: usize = 0;
        let ghost mut ts: Seq<u64> = Seq::empty();
        while i < input.len()
            invariant
                i <= input@.len(),
                ts.len() == i,
                forall|m: int| 0 <= m < i ==> is_min_tokens(input@[m], #[trigger] ts[m]),
                sum == sum_of(ts),
                sum <= 400 * i,
            decreases input@.len() - i,
        {
            let t = min_tokens(&input[i]);
            proof {
                lemma_sum_push(ts, t);
                ts = ts.push(t);
            }
            sum = sum + t;
            i += 1;
        }
        Ok(sum)
    }
}

proof fn lemma_sum_push(ts: Seq<u64>, t: u64)
    ensures
        sum_of(ts.push(t)) == sum_of(ts) + t,
    decreases ts.len(),
{
    if ts.len() == 0 {
        assert(ts.push(t)[0] == t);
        assert(ts.push(t).skip(1) =~= Seq::<u64>::empty());
        assert(sum_of(Seq::<u64>::empty()) == 0);
    } else {
        assert(ts.push(t)[0] == ts[0]);
        assert(ts.push(t).skip(1) =~= ts.skip(1).push(t));
        lemma_sum_push(ts.skip(1), t);
    }
}

} // verus!
