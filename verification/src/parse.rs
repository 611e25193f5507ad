//! Parsing of unsigned decimal numbers out of text, shared by the daily
//! input readers.

use vstd::prelude::*;

verus! {

use vstd::string::StringSliceAdditionalSpecFns;

use crate::harness::input::InputError;

/// A decimal digit byte, `'0'` through `'9'`.
pub open spec fn is_digit(b: u8) -> bool {
    48 <= b && b <= 57
}

pub open spec fn all_digits(s: Seq<u8>) -> bool {
    forall|i: int| 0 <= i < s.len() ==> is_digit(#[trigger] s[i])
}

/// The value of a run of decimal digits, most significant first.
pub open spec fn digits_val(s: Seq<u8>) -> nat
    decreases s.len(),
{
    if s.len() == 0 {
        0
    } else {
        digits_val(s.drop_last()) * 10 + (s.last() - 48) as nat
    }
}

/// Powers of ten, the radix every number in the inputs is written in.
pub open spec fn pow10(n: nat) -> nat
    decreases n,
{
    if n == 0 {
        1
    } else {
        10 * pow10((n - 1) as nat)
    }
}

pub proof fn lemma_pow10_pos(n: nat)
    ensures
        pow10(n) >= 1,
    decreases n,
{
    if n > 0 {
        lemma_pow10_pos((n - 1) as nat);
    }
}

/// A run of digits is worth less than ten to its length.
pub proof fn lemma_digits_val_lt_pow10(s: Seq<u8>)
    requires
        all_digits(s),
    ensures
        digits_val(s) < pow10(s.len()),
    decreases s.len(),
{
    if s.len() > 0 {
        assert(all_digits(s.drop_last())) by {
            assert(forall|i: int| 0 <= i < s.len() - 1 ==> s.drop_last()[i] == s[i]);
        }
        lemma_digits_val_lt_pow10(s.drop_last());
        assert(is_digit(s.last()));
    }
}

/// Length of the run of digits at the front of `s`.
pub open spec fn digit_run(s: Seq<u8>) -> int
    decreases s.len(),
{
    if s.len() > 0 && is_digit(s[0]) {
        1 + digit_run(s.skip(1))
    } else {
        0
    }
}

pub proof fn lemma_digit_run_bounds(s: Seq<u8>)
    ensures
        0 <= digit_run(s) <= s.len(),
        forall|m: int| 0 <= m < digit_run(s) ==> is_digit(#[trigger] s[m]),
        digit_run(s) < s.len() ==> !is_digit(s[digit_run(s)]),
    decreases s.len(),
{
    if s.len() > 0 && is_digit(s[0]) {
        lemma_digit_run_bounds(s.skip(1));
        assert forall|m: int| 0 <= m < digit_run(s) implies is_digit(#[trigger] s[m]) by {
            if m > 0 {
                assert(s.skip(1)[m - 1] == s[m]);
            }
        }
        if digit_run(s) < s.len() {
            assert(s.skip(1)[digit_run(s) - 1] == s[digit_run(s)]);
        }
    }
}

/// The number written at position `i` of `s`: the value of the digit
/// run there (`None` when there is no digit, or the value overflows a
/// `u64`), with the run's length.
pub open spec fn num_at(s: Seq<u8>, i: int) -> Option<(u64, int)> {
    let d = digit_run(s.skip(i));
    if d >= 1 && digits_val(s.skip(i).take(d)) <= u64::MAX {
        Some(((digits_val(s.skip(i).take(d)) as u64), d))
    } else {
        None
    }
}

/// Read the digit run at `s[i..]` as a `u64`, returning the value and
/// the run length.
#[verifier::loop_isolation(false)]
pub fn scan_u64(s: &[u8], i: usize) -> (r: Option<(u64, usize)>)
    requires
        i <= s@.len(),
    ensures
        match r {
            Some(p) => num_at(s@, i as int) == Some((p.0, p.1 as int)),
            None => num_at(s@, i as int) is None,
        },
{
    let ghost t = s@.skip(i as int);
    proof {
        lemma_digit_run_bounds(t);
    }
    let mut v: u64 = 0;
    let mut j: usize = 0;
    while j < s.len() - i && s[i + j] >= 48 && s[i + j] <= 57
        invariant
            i + j <= s@.len(),
            j <= digit_run(t),
            all_digits(t.take(j as int)),
            v == digits_val(t.take(j as int)),
        decreases s@.len() - i - j,
    {
        proof {
            assert(t[j as int] == s@[i + j]);
            assert(t.take(j + 1).drop_last() =~= t.take(j as int));
            assert(t.take(j + 1).last() == t[j as int]);
        }
        let c = s[i + j];
        let d = (c - 48) as u64;
        if v > u64::MAX / 10 || (v == u64::MAX / 10 && d > u64::MAX % 10) {
            proof {
                // the full run's value is at least this prefix's
                let run = t.take(digit_run(t));
                lemma_digits_val_prefix(run, j + 1);
                assert(run.take(j + 1) =~= t.take(j + 1));
                assert(j + 1 <= digit_run(t)) by {
                    if j + 1 > digit_run(t) {
                        assert(!is_digit(t[digit_run(t)]));
                    }
                }
            }
            return None;
        }
        v = v * 10 + d;
        j += 1;
        proof {
            if j > digit_run(t) {
                assert(!is_digit(t[digit_run(t)]));
                assert(false);
            }
        }
    }
    proof {
        if j < digit_run(t) {
            assert(is_digit(t[j as int]));
            assert(s@[i + j] == t[j as int]);
            assert(false);
        }
        assert(j == digit_run(t));
    }
    if j == 0 {
        return None;
    }
    Some((v, j))
}

/// The number a token parses to: an optional leading `'+'`, then at
/// least one digit; `None` when the token has any other shape.
pub open spec fn str_num(s: Seq<u8>) -> Option<nat> {
    let t = if s.len() > 0 && s[0] == 43 {
        s.skip(1)
    } else {
        s
    };
    if t.len() > 0 && all_digits(t) {
        Some(digits_val(t))
    } else {
        None
    }
}

/// A longer digit run never has a smaller value than one of its prefixes.
pub proof fn lemma_digits_val_prefix(s: Seq<u8>, j: int)
    requires
        0 <= j <= s.len(),
    ensures
        digits_val(s) >= digits_val(s.take(j)),
    decreases s.len(),
{
    if j < s.len() {
        lemma_digits_val_prefix(s.drop_last(), j);
        assert(s.drop_last().take(j) =~= s.take(j));
    } else {
        assert(s.take(j) =~= s);
    }
}

/// Parse an unsigned decimal number that must fit in a `u64`.
///
/// Mirrors the standard library's unsigned parsing: an optional leading
/// `'+'`, then one or more digits, with any other shape (or a value over
/// the maximum) rejected.
pub fn parse_u64(s: &str) -> (r: Result<u64, InputError>)
    ensures
        match r {
            Ok(v) => str_num(s.spec_bytes()) == Some(v as nat),
            Err(e) => {
                &&& (str_num(s.spec_bytes()) is None || str_num(
                    s.spec_bytes(),
                ).unwrap() > u64::MAX)
                &&& e is InvalidInput
            },
        },
{
    parse_u64_bytes(s.as_bytes())
}

/// As [`parse_u64`], on a raw byte token (the shape the input readers
/// hold their tokens in).
pub fn parse_u64_bytes(b: &[u8]) -> (r: Result<u64, InputError>)
    ensures
        match r {
            Ok(v) => str_num(b@) == Some(v as nat),
            Err(e) => {
                &&& (str_num(b@) is None || str_num(b@).unwrap() > u64::MAX)
                &&& e is InvalidInput
            },
        },
{
    let start: usize = if b.len() > 0 && b[0] == 43 {
        1
    } else {
        0
    };
    let ghost t = if b@.len() > 0 && b@[0] == 43 {
        b@.skip(1)
    } else {
        b@
    };
    assert(t =~= b@.subrange(start as int, b@.len() as int));
    if start >= b.len() {
        return Err(InputError::invalid("empty number token"));
    }
    let mut acc: u64 = 0;
    let mut i: usize = start;
    while i < b.len()
        invariant
            start <= i <= b@.len(),
            t == b@.subrange(start as int, b@.len() as int),
            t == (if b@.len() > 0 && b@[0] == 43 {
                b@.skip(1)
            } else {
                b@
            }),
            all_digits(t.take(i - start)),
            acc == digits_val(t.take(i - start)),
        decreases b@.len() - i,
    {
        let c = b[i];
        if !(48 <= c && c <= 57) {
            assert(!is_digit(t[i - start]));
            return Err(InputError::invalid("unexpected non-digit in number token"));
        }
        let d = (c - 48) as u64;
        proof {
            assert(t.take(i - start + 1).drop_last() =~= t.take(i - start));
            assert(t.take(i - start + 1).last() == t[i - start]);
        }
        if acc > u64::MAX / 10 || (acc == u64::MAX / 10 && d > u64::MAX % 10) {
            proof {
                lemma_digits_val_prefix(t, i - start + 1);
                assert(digits_val(t.take(i - start + 1)) == acc * 10 + d);
                assert(acc * 10 + d > u64::MAX);
            }
            return Err(InputError::invalid("number token does not fit"));
        }
        acc = acc * 10 + d;
        i += 1;
    }
    proof {
        assert(t.take(i - start) =~= t);
    }
    Ok(acc)
}

/// Parse an unsigned decimal number that must fit in a `u32`.
pub fn parse_u32(s: &str) -> (r: Result<u32, InputError>)
    ensures
        match r {
            Ok(v) => str_num(s.spec_bytes()) == Some(v as nat),
            Err(e) => {
                &&& (str_num(s.spec_bytes()) is None || str_num(
                    s.spec_bytes(),
                ).unwrap() > u32::MAX)
                &&& e is InvalidInput
            },
        },
{
    parse_u32_bytes(s.as_bytes())
}

/// The numbers a token list carries, when every token is a `u64`.
pub open spec fn nums_from(ts: Seq<Seq<u8>>, k: nat) -> Option<Seq<u64>>
    decreases ts.len() - k,
{
    if k >= ts.len() {
        Some(Seq::empty())
    } else if str_num(ts[k as int]) is Some && str_num(ts[k as int]).unwrap() <= u64::MAX {
        match nums_from(ts, (k + 1) as nat) {
            Some(rest) => Some(seq![(str_num(ts[k as int]).unwrap() as u64)] + rest),
            None => None,
        }
    } else {
        None
    }
}

pub open spec fn token_nums(ts: Seq<Seq<u8>>) -> Option<Seq<u64>> {
    nums_from(ts, 0)
}

pub proof fn lemma_nums_from_none(ts: Seq<Seq<u8>>, j: nat, k: nat)
    requires
        j <= k,
        nums_from(ts, k) is None,
    ensures
        nums_from(ts, j) is None,
    decreases k - j,
{
    if j < k {
        lemma_nums_from_none(ts, (j + 1) as nat, k);
    }
}

/// Parse every token of a list as a `u64`.
#[verifier::loop_isolation(false)]
pub fn parse_tokens_u64(ts: &Vec<Vec<u8>>) -> (r: Result<Vec<u64>, InputError>)
    ensures
        match r {
            Ok(v) => token_nums(ts@.map_values(|t: Vec<u8>| t@)) == Some(v@),
            Err(e) => token_nums(ts@.map_values(|t: Vec<u8>| t@)) is None && e is InvalidInput,
        },
{
    let ghost tss = ts@.map_values(|t: Vec<u8>| t@);
    let mut v: Vec<u64> = Vec::new();
    let mut k: usize = ts.len();
    proof {
        assert(nums_from(tss, k as nat) == Some(v@));
    }
    while k > 0
        invariant
            k <= ts@.len(),
            nums_from(tss, k as nat) == Some(v@),
        decreases k,
    {
        k -= 1;
        proof {
            assert(tss[k as int] == ts@[k as int]@);
        }
        match parse_u64_bytes(ts[k].as_slice()) {
            Ok(n) => {
                let ghost old_v = v@;
                v.insert(0, n);
                proof {
                    assert(v@ =~= seq![n] + old_v);
                }
            },
            Err(e) => {
                proof {
                    lemma_nums_from_none(tss, 0, k as nat);
                }
                return Err(e);
            },
        }
    }
    Ok(v)
}

/// As [`parse_u32`], on a raw byte token.
pub fn parse_u32_bytes(b: &[u8]) -> (r: Result<u32, InputError>)
    ensures
        match r {
            Ok(v) => str_num(b@) == Some(v as nat),
            Err(e) => {
                &&& (str_num(b@) is None || str_num(b@).unwrap() > u32::MAX)
                &&& e is InvalidInput
            },
        },
{
    match parse_u64_bytes(b) {
        Ok(v) => if v <= u32::MAX as u64 {
            Ok(v as u32)
        } else {
            Err(InputError::invalid("number token does not fit"))
        },
        Err(e) => Err(e),
    }
}

/// Parse an unsigned decimal number that must fit in a `u8`.
pub fn parse_u8(s: &str) -> (r: Result<u8, InputError>)
    ensures
        match r {
            Ok(v) => str_num(s.spec_bytes()) == Some(v as nat),
            Err(e) => {
                &&& (str_num(s.spec_bytes()) is None || str_num(
                    s.spec_bytes(),
                ).unwrap() > u8::MAX)
                &&& e is InvalidInput
            },
        },
{
    parse_u8_bytes(s.as_bytes())
}

/// As [`parse_u8`], on a raw byte token.
pub fn parse_u8_bytes(b: &[u8]) -> (r: Result<u8, InputError>)
    ensures
        match r {
            Ok(v) => str_num(b@) == Some(v as nat),
            Err(e) => {
                &&& (str_num(b@) is None || str_num(b@).unwrap() > u8::MAX)
                &&& e is InvalidInput
            },
        },
{
    match parse_u64_bytes(b) {
        Ok(v) => if v <= u8::MAX as u64 {
            Ok(v as u8)
        } else {
            Err(InputError::invalid("number token does not fit"))
        },
        Err(e) => Err(e),
    }
}

} // verus!
