//! Day 11: blinking stones.
//!
//! Each blink rewrites every stone: a `0` becomes a `1`, a stone with
//! an even number of digits splits into its two halves, and anything
//! else is multiplied by 2024. Only the number of stones matters, so
//! the count is computed per stone with a memo table.

use vstd::prelude::*;

verus! {

use std::collections::HashMap;

use crate::day::d7::{
    lemma_num_digits_u64,
    lemma_pow10_grows,
    lemma_pow10_values,
    num_digits,
    width_of,
};
use crate::harness::error::Error;
use crate::harness::input::InputError;
use crate::harness::iter::{split_ws, tokens};
use crate::parse::{parse_tokens_u64, pow10, token_nums};

pub struct D11;

impl D11 {
    /// The day this module solves.
    pub fn day() -> (d: u8)
        ensures
            d == 11,
    {
        11
    }
}

/// The two halves of a stone with an even number of digits.
pub open spec fn split_spec(n: nat) -> Option<(nat, nat)> {
    if n == 0 {
        None
    } else if num_digits(n) % 2 == 1 {
        None
    } else {
        let p = pow10((num_digits(n) / 2) as nat);
        Some((n / p, n % p))
    }
}

/// How many stones one stone becomes after the given number of
/// blinks.
pub open spec fn count_stones(stone: nat, blinks: nat) -> nat
    decreases blinks,
{
    if blinks == 0 {
        1
    } else if stone == 0 {
        count_stones(1, (blinks - 1) as nat)
    } else if split_spec(stone) is Some {
        count_stones(split_spec(stone).unwrap().0, (blinks - 1) as nat) + count_stones(
            split_spec(stone).unwrap().1,
            (blinks - 1) as nat,
        )
    } else {
        count_stones(stone * 2024, (blinks - 1) as nat)
    }
}

/// Whether every stone value met along the way fits in a `u64`.
pub open spec fn blink_fits(stone: nat, blinks: nat) -> bool
    decreases blinks,
{
    if blinks == 0 {
        true
    } else if stone == 0 {
        blink_fits(1, (blinks - 1) as nat)
    } else if split_spec(stone) is Some {
        blink_fits(split_spec(stone).unwrap().0, (blinks - 1) as nat) && blink_fits(
            split_spec(stone).unwrap().1,
            (blinks - 1) as nat,
        )
    } else {
        stone * 2024 <= u64::MAX && blink_fits(stone * 2024, (blinks - 1) as nat)
    }
}

/// Split a stone into its two digit halves, when its digit count is
/// even.
pub fn split_digits(n: u64) -> (r: Option<(u64, u64)>)
    ensures
        match r {
            Some(p) => split_spec(n as nat) == Some((p.0 as nat, p.1 as nat)),
            None => split_spec(n as nat) is None,
        },
{
    if n == 0 {
        return None;
    }
    let d = width_of(n);
    if d % 2 == 1 {
        return None;
    }
    proof {
        lemma_num_digits_u64(n as nat);
        lemma_pow10_values();
        lemma_pow10_grows((d / 2) as nat, 10);
    }
    let mut p: u64 = 1;
    let mut k: u64 = 0;
    while k < d / 2
        invariant
            k <= d / 2,
            d == num_digits(n as nat),
            d <= 20,
            p == pow10(k as nat),
        decreases d / 2 - k,
    {
        proof {
            assert(pow10(k as nat + 1) == 10 * pow10(k as nat));
            lemma_pow10_grows(k as nat + 1, 10);
            lemma_pow10_values();
        }
        p = p * 10;
        k += 1;
    }
    proof {
        crate::parse::lemma_pow10_pos((d / 2) as nat);
    }
    Some((n / p, n % p))
}

/// Everything the memo table holds is a true count: the key packs the
/// stone and the blink count.
pub open spec fn cache_ok(m: Map<u128, u64>) -> bool {
    forall|k: u128|
        m.dom().contains(k) ==> (#[trigger] m[k]) as nat == count_stones(
            (k / 256) as nat,
            (k % 256) as nat,
        )
}

/// Count the stones one stone becomes, memoizing each `(stone,
/// blinks)` pair.
pub fn dfs_count(stone: u64, blinks: usize, cache: &mut HashMap<u128, u64>) -> (r: u64)
    requires
        blinks < 256,
        blink_fits(stone as nat, blinks as nat),
        count_stones(stone as nat, blinks as nat) <= u64::MAX,
        cache_ok(old(cache)@),
    ensures
        cache_ok(final(cache)@),
        r == count_stones(stone as nat, blinks as nat),
    decreases blinks,
{
    broadcast use vstd::std_specs::hash::group_hash_axioms;

    if blinks == 0 {
        return 1;
    }
    let key: u128 = (stone as u128) * 256 + (blinks as u128);
    proof {
        assert(key / 256 == stone && key % 256 == blinks) by (nonlinear_arith)
            requires
                key == (stone as u128) * 256 + (blinks as u128),
                0 < blinks < 256,
                stone <= u64::MAX,
        ;
    }
    match cache.get(&key) {
        Some(v) => {
            return *v;
        },
        None => {},
    }
    let num = if stone == 0 {
        dfs_count(1, blinks - 1, cache)
    } else {
        match split_digits(stone) {
            Some((left, right)) => {
                let a = dfs_count(left, blinks - 1, cache);
                let b = dfs_count(right, blinks - 1, cache);
                a + b
            },
            None => dfs_count(stone * 2024, blinks - 1, cache),
        }
    };
    cache.insert(key, num);
    num
}

/// The stones named on the input's single line.
pub open spec fn stones_of(input: Seq<u8>) -> Option<Seq<u64>> {
    token_nums(split_ws(input))
}

/// Read the initial stones: every whitespace-separated token of the
/// input is one.
pub fn read_stones(input: &[u8]) -> (r: Result<Vec<u64>, InputError>)
    ensures
        match r {
            Ok(v) => stones_of(input@) == Some(v@),
            Err(e) => stones_of(input@) is None && e is InvalidInput,
        },
{
    let ts = tokens(input);
    parse_tokens_u64(&ts)
}

/// The total stone count for a list of starting stones.
pub open spec fn total_stones(stones: Seq<u64>, blinks: nat) -> int
    decreases stones.len(),
{
    if stones.len() == 0 {
        0
    } else {
        count_stones(stones[0] as nat, blinks) + total_stones(stones.skip(1), blinks)
    }
}

/// Whether every starting stone keeps its values inside `u64` for the
/// given number of blinks.
pub open spec fn all_fit(stones: Seq<u64>, blinks: nat) -> bool {
    forall|i: int| 0 <= i < stones.len() ==> blink_fits((#[trigger] stones[i]) as nat, blinks)
}

proof fn lemma_total_stones_nonneg(stones: Seq<u64>, blinks: nat)
    ensures
        total_stones(stones, blinks) >= 0,
    decreases stones.len(),
{
    if stones.len() != 0 {
        lemma_total_stones_nonneg(stones.skip(1), blinks);
    }
}

#[verifier::loop_isolation(false)]
fn sum_counts(stones: &Vec<u64>, blinks: usize) -> (r: u64)
    requires
        blinks < 256,
        all_fit(stones@, blinks as nat),
        total_stones(stones@, blinks as nat) <= u64::MAX,
    ensures
        r == total_stones(stones@, blinks as nat),
{
    let mut cache: HashMap<u128, u64> = HashMap::new();
    let mut sum: u64 = 0;
    let mut i: usize = 0;
    proof {
        assert(stones@.skip(0) =~= stones@);
    }
    while i < stones.len()
        invariant
            i <= stones@.len(),
            cache_ok(cache@),
            sum + total_stones(stones@.skip(i as int), blinks as nat) == total_stones(
                stones@,
                blinks as nat,
            ),
            sum >= 0,
        decreases stones@.len() - i,
    {
        proof {
            assert(stones@.skip(i as int)[0] == stones@[i as int]);
            assert(stones@.skip(i as int).skip(1) =~= stones@.skip(i as int + 1));
            lemma_total_stones_nonneg(stones@.skip(i as int + 1), blinks as nat);
        }
        let c = dfs_count(stones[i], blinks, &mut cache);
        sum = sum + c;
        i += 1;
    }
    sum
}

pub struct P1;

impl P1 {
    /// The stone count after 25 blinks.
    pub fn solve(input: &Vec<u64>) -> (r: Result<u64, Error>)
        requires
            all_fit(input@, 25),
            total_stones(input@, 25) <= u64::MAX,
        ensures
            r == Ok::<u64, Error>(total_stones(input@, 25) as u64),
    {
        Ok(sum_counts(input, 25))
    }
}

pub struct P2;

impl P2 {
    /// The stone count after 75 blinks.
    pub fn solve(input: &Vec<u64>) -> (r: Result<u64, Error>)
        requires
            all_fit(input@, 75),
            total_stones(input@, 75) <= u64::MAX,
        ensures
            r == Ok::<u64, Error>(total_stones(input@, 75) as u64),
    {
        Ok(sum_counts(input, 75))
    }
}


/// Everything the overflow-checked memo table holds is a true count
/// whose whole chain stays inside `u64`.
pub open spec fn checked_entry_ok(m: Map<u128, u64>, k: u128) -> bool {
    &&& blink_fits((k / 256) as nat, (k % 256) as nat)
    &&& count_stones((k / 256) as nat, (k % 256) as nat) <= u64::MAX
    &&& m[k] as nat == count_stones((k / 256) as nat, (k % 256) as nat)
}

pub open spec fn checked_cache_ok(m: Map<u128, u64>) -> bool {
    forall|k: u128| m.dom().contains(k) ==> #[trigger] checked_entry_ok(m, k)
}

/// As [`dfs_count`], but with every multiplication and addition
/// checked: `None` exactly when a stone value or the count itself
/// would leave `u64`.
pub fn try_dfs_count(stone: u64, blinks: usize, cache: &mut HashMap<u128, u64>) -> (r: Option<u64>)
    requires
        blinks < 256,
        checked_cache_ok(old(cache)@),
    ensures
        checked_cache_ok(final(cache)@),
        match r {
            Some(v) => {
                &&& blink_fits(stone as nat, blinks as nat)
                &&& count_stones(stone as nat, blinks as nat) <= u64::MAX
                &&& v == count_stones(stone as nat, blinks as nat)
            },
            None => !(blink_fits(stone as nat, blinks as nat) && count_stones(
                stone as nat,
                blinks as nat,
            ) <= u64::MAX),
        },
    decreases blinks,
{
    broadcast use vstd::std_specs::hash::group_hash_axioms;

    if blinks == 0 {
        return Some(1);
    }
    let key: u128 = (stone as u128) * 256 + (blinks as u128);
    proof {
        assert(key / 256 == stone && key % 256 == blinks) by (nonlinear_arith)
            requires
                key == (stone as u128) * 256 + (blinks as u128),
                0 < blinks < 256,
                stone <= u64::MAX,
        ;
    }
    match cache.get(&key) {
        Some(v) => {
            proof {
                assert(cache@.dom().contains(key));
                assert(checked_entry_ok(cache@, key));
            }
            return Some(*v);
        },
        None => {},
    }
    let num = if stone == 0 {
        match try_dfs_count(1, blinks - 1, cache) {
            Some(v) => v,
            None => {
                return None;
            },
        }
    } else {
        match split_digits(stone) {
            Some((left, right)) => {
                let a = match try_dfs_count(left, blinks - 1, cache) {
                    Some(v) => v,
                    None => {
                        return None;
                    },
                };
                let b = match try_dfs_count(right, blinks - 1, cache) {
                    Some(v) => v,
                    None => {
                        return None;
                    },
                };
                if a > u64::MAX - b {
                    return None;
                }
                a + b
            },
            None => {
                if stone > u64::MAX / 2024 {
                    proof {
                        assert((stone as nat) * 2024 > u64::MAX) by (nonlinear_arith)
                            requires
                                stone > u64::MAX / 2024,
                                u64::MAX / 2024 == (u64::MAX as int) / 2024,
                        ;
                    }
                    return None;
                }
                proof {
                    assert((stone as nat) * 2024 <= u64::MAX) by (nonlinear_arith)
                        requires
                            stone <= u64::MAX / 2024,
                            u64::MAX / 2024 == (u64::MAX as int) / 2024,
                    ;
                }
                match try_dfs_count(stone * 2024, blinks - 1, cache) {
                    Some(v) => v,
                    None => {
                        return None;
                    },
                }
            },
        }
    };
    proof {
        assert(num as nat == count_stones(stone as nat, blinks as nat));
        assert(blink_fits(stone as nat, blinks as nat));
        assert(count_stones(stone as nat, blinks as nat) <= u64::MAX);
    }
    let ghost pre = cache@;
    cache.insert(key, num);
    proof {
        lemma_checked_cache_insert(pre, key, num, stone, blinks);
        assert(cache@ == pre.insert(key, num));
    }
    Some(num)
}

/// Recording one freshly computed count keeps the checked memo table
/// truthful.
proof fn lemma_checked_cache_insert(pre: Map<u128, u64>, key: u128, num: u64, stone: u64, blinks: usize)
    requires
        checked_cache_ok(pre),
        key / 256 == stone,
        key % 256 == blinks,
        blink_fits(stone as nat, blinks as nat),
        count_stones(stone as nat, blinks as nat) <= u64::MAX,
        num as nat == count_stones(stone as nat, blinks as nat),
    ensures
        checked_cache_ok(pre.insert(key, num)),
{
    let m = pre.insert(key, num);
    assert forall|k: u128| m.dom().contains(k) implies #[trigger] checked_entry_ok(m, k) by {
        if k == key {
            assert(m[k] == num);
        } else {
            assert(pre.dom().contains(k));
            assert(checked_entry_ok(pre, k));
            assert(m[k] == pre[k]);
        }
    }
}

proof fn lemma_total_stones_push(stones: Seq<u64>, x: u64, blinks: nat)
    ensures
        total_stones(stones.push(x), blinks) == total_stones(stones, blinks) + count_stones(
            x as nat,
            blinks,
        ),
    decreases stones.len(),
{
    if stones.len() == 0 {
        assert(stones.push(x)[0] == x);
        assert(stones.push(x).skip(1) =~= Seq::<u64>::empty());
        assert(total_stones(Seq::<u64>::empty(), blinks) == 0);
        assert(total_stones(stones.push(x), blinks) == count_stones(x as nat, blinks) + 0);
    } else {
        assert(stones.push(x)[0] == stones[0]);
        assert(stones.push(x).skip(1) =~= stones.skip(1).push(x));
        lemma_total_stones_push(stones.skip(1), x, blinks);
        assert(total_stones(stones.push(x), blinks) == count_stones(stones[0] as nat, blinks)
            + total_stones(stones.skip(1).push(x), blinks));
        assert(total_stones(stones, blinks) == count_stones(stones[0] as nat, blinks)
            + total_stones(stones.skip(1), blinks));
    }
}

/// A longer prefix never counts fewer stones.
proof fn lemma_total_stones_take_mono(stones: Seq<u64>, blinks: nat, i: int, j: int)
    requires
        0 <= i <= j <= stones.len(),
    ensures
        total_stones(stones.take(i), blinks) <= total_stones(stones.take(j), blinks),
    decreases j - i,
{
    if i < j {
        lemma_total_stones_take_mono(stones, blinks, i + 1, j);
        assert(stones.take(i + 1) =~= stones.take(i).push(stones[i]));
        lemma_total_stones_push(stones.take(i), stones[i], blinks);
    }
}

/// The total stone count for a list of starting stones, or `None`
/// when any chain or the total leaves `u64` — the check the solvers'
/// preconditions ask for, made runnable.
#[verifier::loop_isolation(false)]
pub fn try_total(stones: &Vec<u64>, blinks: usize) -> (r: Option<u64>)
    requires
        blinks < 256,
    ensures
        match r {
            Some(v) => {
                &&& all_fit(stones@, blinks as nat)
                &&& total_stones(stones@, blinks as nat) <= u64::MAX
                &&& v == total_stones(stones@, blinks as nat)
            },
            None => !(all_fit(stones@, blinks as nat) && total_stones(stones@, blinks as nat)
                <= u64::MAX),
        },
{
    let mut cache: HashMap<u128, u64> = HashMap::new();
    let mut sum: u64 = 0;
    let mut i: usize = 0;
    proof {
        assert(stones@.take(0) =~= Seq::<u64>::empty());
    }
    while i < stones.len()
        invariant
            i <= stones@.len(),
            checked_cache_ok(cache@),
            sum == total_stones(stones@.take(i as int), blinks as nat),
            forall|m: int|
                0 <= m < i ==> blink_fits((#[trigger] stones@[m]) as nat, blinks as nat),
        decreases stones@.len() - i,
    {
        let c = match try_dfs_count(stones[i], blinks, &mut cache) {
            Some(v) => v,
            None => {
                proof {
                    if blink_fits(stones@[i as int] as nat, blinks as nat) {
                        // this stone's count alone exceeds the limit, so
                        // the total does too
                        lemma_total_stones_push(
                            stones@.take(i as int),
                            stones@[i as int],
                            blinks as nat,
                        );
                        assert(stones@.take(i as int + 1) =~= stones@.take(i as int).push(
                            stones@[i as int],
                        ));
                        lemma_total_stones_take_mono(
                            stones@,
                            blinks as nat,
                            i as int + 1,
                            stones@.len() as int,
                        );
                        assert(stones@.take(stones@.len() as int) =~= stones@);
                        lemma_total_stones_nonneg(stones@.take(i as int), blinks as nat);
                    }
                }
                return None;
            },
        };
        proof {
            lemma_total_stones_push(stones@.take(i as int), stones@[i as int], blinks as nat);
            assert(stones@.take(i as int + 1) =~= stones@.take(i as int).push(stones@[i as int]));
            lemma_total_stones_nonneg(stones@.take(i as int), blinks as nat);
        }
        if sum > u64::MAX - c {
            proof {
                lemma_total_stones_take_mono(
                    stones@,
                    blinks as nat,
                    i as int + 1,
                    stones@.len() as int,
                );
                assert(stones@.take(stones@.len() as int) =~= stones@);
            }
            return None;
        }
        sum = sum + c;
        i += 1;
    }
    proof {
        assert(stones@.take(stones@.len() as int) =~= stones@);
    }
    Some(sum)
}

} // verus!
