//! Day 9: compacting a fragmented disk map.
//!
//! The input is a single run-length string: digits alternately give the
//! size of a file and of a gap. Compaction moves blocks one at a time
//! from the end of the disk into the leftmost gaps, and the answer is
//! the checksum, the sum of `position * file id` over occupied blocks.

use vstd::prelude::*;

verus! {

use vstd::seq_lib::group_to_multiset_ensures;

use crate::harness::error::Error;
use crate::harness::input::InputError;
use crate::harness::iter::is_ws;
use crate::parse::is_digit;

pub struct D9;

impl D9 {
    /// The day this module solves.
    pub fn day() -> (d: u8)
        ensures
            d == 9,
    {
        9
    }
}

/// The disk, block by block: a file id or a gap.
pub type Disk = Vec<Option<usize>>;

/// Length of the run of whitespace at the front of `s`.
pub open spec fn leading_ws(s: Seq<u8>) -> int
    decreases s.len(),
{
    if s.len() > 0 && is_ws(s[0]) {
        1 + leading_ws(s.skip(1))
    } else {
        0
    }
}

/// Length of the run of whitespace at the back of `s`.
pub open spec fn trailing_ws(s: Seq<u8>) -> int
    decreases s.len(),
{
    if s.len() > 0 && is_ws(s.last()) {
        1 + trailing_ws(s.drop_last())
    } else {
        0
    }
}

/// The input with surrounding whitespace dropped, as the reader trims
/// it before parsing.
pub open spec fn trim_spec(s: Seq<u8>) -> Seq<u8> {
    let t = s.skip(leading_ws(s));
    t.take(t.len() - trailing_ws(t))
}

proof fn lemma_leading_ws_bounds(s: Seq<u8>)
    ensures
        0 <= leading_ws(s) <= s.len(),
        forall|i: int| 0 <= i < leading_ws(s) ==> is_ws(#[trigger] s[i]),
        leading_ws(s) < s.len() ==> !is_ws(s[leading_ws(s)]),
    decreases s.len(),
{
    if s.len() > 0 && is_ws(s[0]) {
        lemma_leading_ws_bounds(s.skip(1));
        assert forall|i: int| 0 <= i < leading_ws(s) implies is_ws(#[trigger] s[i]) by {
            if i > 0 {
                assert(s.skip(1)[i - 1] == s[i]);
            }
        }
        if leading_ws(s) < s.len() {
            assert(s.skip(1)[leading_ws(s) - 1] == s[leading_ws(s)]);
        }
    }
}

proof fn lemma_trailing_ws_bounds(s: Seq<u8>)
    ensures
        0 <= trailing_ws(s) <= s.len(),
        forall|i: int| s.len() - trailing_ws(s) <= i < s.len() ==> is_ws(#[trigger] s[i]),
        trailing_ws(s) < s.len() ==> !is_ws(s[s.len() - trailing_ws(s) - 1]),
    decreases s.len(),
{
    if s.len() > 0 && is_ws(s.last()) {
        lemma_trailing_ws_bounds(s.drop_last());
        assert forall|i: int| s.len() - trailing_ws(s) <= i < s.len() implies is_ws(
            #[trigger] s[i],
        ) by {
            if i < s.len() - 1 {
                assert(s.drop_last()[i] == s[i]);
            }
        }
        if trailing_ws(s) < s.len() {
            assert(s.drop_last()[s.len() - trailing_ws(s) - 1] == s[s.len() - trailing_ws(s) - 1]);
        }
    }
}

/// The block written for position `i` of the run-length string: files
/// and gaps alternate, and the file id is the file's ordinal.
pub open spec fn block_of(i: int) -> Option<usize> {
    if i % 2 == 0 {
        Some((i / 2) as usize)
    } else {
        None
    }
}

/// The disk described by `t[i..]`, or `None` on any non-digit.
pub open spec fn disk_of(t: Seq<u8>, i: int) -> Option<Seq<Option<usize>>>
    decreases t.len() - i,
{
    if i < 0 || i >= t.len() {
        Some(Seq::empty())
    } else if !is_digit(t[i]) {
        None
    } else {
        match disk_of(t, i + 1) {
            Some(rest) => Some(Seq::new((t[i] - 48) as nat, |m: int| block_of(i)) + rest),
            None => None,
        }
    }
}

proof fn lemma_trim_is(s: Seq<u8>, a: int, b: int)
    requires
        0 <= a <= b <= s.len(),
        forall|m: int| 0 <= m < a ==> is_ws(#[trigger] s[m]),
        a < s.len() ==> !is_ws(s[a]),
        a == s.len() ==> b == a,
        forall|m: int| b <= m < s.len() ==> is_ws(#[trigger] s[m]),
        b > a ==> !is_ws(s[b - 1]),
    ensures
        trim_spec(s) == s.subrange(a, b),
{
    lemma_leading_ws_bounds(s);
    let lead = leading_ws(s);
    if a < s.len() {
        assert(!is_ws(s[a]));
        if lead < a {
            assert(is_ws(s[lead]));
            assert(false);
        }
        if lead > a {
            assert(is_ws(s[a]));
            assert(false);
        }
    } else {
        if lead < s.len() {
            assert(is_ws(s[lead]));
            assert(false);
        }
    }
    assert(lead == a);
    let u = s.skip(a);
    lemma_trailing_ws_bounds(u);
    let tr = trailing_ws(u);
    assert forall|m: int| b - a <= m < u.len() implies is_ws(#[trigger] u[m]) by {
        assert(u[m] == s[a + m]);
    }
    if b > a {
        assert(u[b - a - 1] == s[b - 1]);
        if tr > u.len() - (b - a) {
            assert(is_ws(u[u.len() - tr]));
            assert(false);
        }
        if tr < u.len() - (b - a) {
            assert(!is_ws(u[u.len() - tr - 1]));
            assert(is_ws(u[u.len() - tr - 1]));
            assert(false);
        }
    } else {
        if tr < u.len() {
            assert(!is_ws(u[u.len() - tr - 1]));
            assert(u[u.len() - tr - 1] == s[a + u.len() - tr - 1]);
            assert(false);
        }
    }
    assert(u.take(u.len() - tr) =~= s.subrange(a, b));
}

/// Read the disk map: the trimmed input must be all digits.
#[verifier::loop_isolation(false)]
#[verifier::rlimit(30)]
pub fn read_disk(input: &[u8]) -> (r: Result<Disk, InputError>)
    ensures
        match r {
            Ok(d) => disk_of(trim_spec(input@), 0) == Some(d@),
            Err(e) => disk_of(trim_spec(input@), 0) is None && e is InvalidInput,
        },
{
    let n = input.len();
    let mut a: usize = 0;
    while a < n && (input[a] == 32 || input[a] == 9 || input[a] == 13 || input[a] == 10)
        invariant
            a <= n,
            forall|m: int| 0 <= m < a ==> is_ws(#[trigger] input@[m]),
        decreases n - a,
    {
        a += 1;
    }
    let mut b: usize = n;
    while b > a && (input[b - 1] == 32 || input[b - 1] == 9 || input[b - 1] == 13 || input[b - 1]
        == 10)
        invariant
            a <= b <= n,
            forall|m: int| b <= m < n ==> is_ws(#[trigger] input@[m]),
        decreases b,
    {
        b -= 1;
    }
    let ghost t = trim_spec(input@);
    proof {
        lemma_trim_is(input@, a as int, b as int);
    }
    let mut disk: Vec<Option<usize>> = Vec::new();
    let mut i: usize = a;
    let mut file: usize = 0;  // index into the run-length string, from 0
    while i < b
        invariant
            a <= i <= b <= n,
            file == i - a,
            t == input@.subrange(a as int, b as int),
            forall|m: int| 0 <= m < file ==> is_digit(#[trigger] t[m]),
            match disk_of(t, file as int) {
                Some(rest) => disk_of(t, 0) == Some(disk@ + rest),
                None => disk_of(t, 0) is None,
            },
        decreases b - i,
    {
        let c = input[i];
        proof {
            assert(t[file as int] == input@[i as int]);
        }
        if !(48 <= c && c <= 57) {
            return Err(InputError::invalid("non-digit in disk map"));
        }
        let cnt = (c - 48) as usize;
        let ghost old_disk = disk@;
        let block = if file % 2 == 0 {
            Some(file / 2)
        } else {
            None
        };
        let mut k: usize = 0;
        while k < cnt
            invariant
                k <= cnt,
                disk@ == old_disk + Seq::new(k as nat, |m: int| block_of(file as int)),
                block == block_of(file as int),
            decreases cnt - k,
        {
            disk.push(block);
            proof {
                assert(disk@ =~= old_disk + Seq::new((k + 1) as nat, |m: int| block_of(file as int)));
            }
            k += 1;
        }
        proof {
            let rest = disk_of(t, file as int).unwrap();
            let rest2 = disk_of(t, file + 1);
            assert(rest2 is Some ==> old_disk + rest =~= disk@ + rest2.unwrap());
        }
        i += 1;
        file += 1;
    }
    proof {
        assert(disk_of(t, file as int) == Some(Seq::<Option<usize>>::empty()));
        assert(disk@ + Seq::<Option<usize>>::empty() =~= disk@);
    }
    Ok(disk)
}

/// The two-pointer compaction, step by step: skip a filled slot on
/// the left, skip a gap on the right, or move the rightmost remaining
/// block into the leftmost gap, until the pointers meet.
pub open spec fn compact_rec(d: Seq<Option<usize>>, l: int, r: int) -> Seq<Option<usize>>
    decreases r + 1 - l,
{
    if l < 0 || r >= d.len() || l >= r {
        d
    } else if d[l] is Some {
        compact_rec(d, l + 1, r)
    } else if d[r] is None {
        compact_rec(d, l, r - 1)
    } else {
        compact_rec(d.update(l, d[r]).update(r, None), l + 1, r - 1)
    }
}

/// The compacted disk: every block of the input, with each gap before
/// the crossing point filled by the rightmost block that remained.
pub open spec fn compact_spec(d: Seq<Option<usize>>) -> Seq<Option<usize>> {
    if d.len() == 0 {
        d
    } else {
        compact_rec(d, 0, d.len() - 1)
    }
}

/// Move blocks from the back of the disk into the leftmost gaps until
/// no gap sits before a file block: afterwards the disk is exactly
/// the compacted arrangement, so it holds the same blocks with none
/// after a gap.
#[verifier::loop_isolation(false)]
pub fn fragment_disk(disk: &mut Vec<Option<usize>>)
    ensures
        final(disk)@ == compact_spec(old(disk)@),
        final(disk)@.to_multiset() == old(disk)@.to_multiset(),
        final(disk)@.len() == old(disk)@.len(),
        forall|i: int, j: int|
            0 <= i < j < final(disk)@.len() && (#[trigger] final(disk)@[i]) is None ==> (
            #[trigger] final(disk)@[j]) is None,
{
    broadcast use group_to_multiset_ensures;
    broadcast use vstd::seq_lib::to_multiset_update;

    if disk.len() == 0 {
        return ;
    }
    let mut l: usize = 0;
    let mut r: usize = disk.len() - 1;
    while l < r
        invariant
            l <= r + 1,
            r < disk@.len(),
            disk@.len() == old(disk)@.len(),
            disk@.to_multiset() == old(disk)@.to_multiset(),
            compact_rec(disk@, l as int, r as int) == compact_spec(old(disk)@),
            forall|i: int| 0 <= i < l ==> (#[trigger] disk@[i]) is Some,
            forall|j: int| r < j < disk@.len() ==> (#[trigger] disk@[j]) is None,
        decreases r + 1 - l,
    {
        if disk[l].is_some() {
            l += 1;
        } else if disk[r].is_none() {
            r -= 1;
        } else {
            let ghost before = disk@;
            let moved = disk[r];
            disk.set(l, moved);
            disk.set(r, None);
            proof {
                assert(disk@ == before.update(l as int, before[r as int]).update(r as int, None));
                assert(disk@.to_multiset() =~= before.to_multiset());
            }
            l += 1;
            r -= 1;
        }
    }
    proof {
        assert(compact_rec(disk@, l as int, r as int) == disk@);
    }
    proof {
        assert forall|i: int, j: int|
            0 <= i < j < disk@.len() && (#[trigger] disk@[i]) is None implies (#[trigger] disk@[j])
            is None by {
            assert(i >= l);
            assert(j > r);
        }
    }
}

/// The checksum of the blocks from position `i` on.
pub open spec fn checksum_from(d: Seq<Option<usize>>, i: int) -> int
    decreases d.len() - i,
{
    if i < 0 || i >= d.len() {
        0
    } else {
        (match d[i] {
            Some(id) => i * id,
            None => 0,
        }) + checksum_from(d, i + 1)
    }
}

proof fn lemma_checksum_nonneg(d: Seq<Option<usize>>, i: int)
    requires
        i >= 0,
    ensures
        checksum_from(d, i) >= 0,
    decreases d.len() - i,
{
    if i < d.len() {
        lemma_checksum_nonneg(d, i + 1);
        if d[i] is Some {
            assert(i * d[i].unwrap() >= 0) by (nonlinear_arith)
                requires
                    i >= 0,
                    d[i].unwrap() >= 0,
            ;
        }
    }
}

/// Sum of `position * file id` over the occupied blocks.
#[verifier::loop_isolation(false)]
pub fn compute_checksum(disk: &Disk) -> (r: usize)
    requires
        checksum_from(disk@, 0) <= usize::MAX,
    ensures
        r == checksum_from(disk@, 0),
{
    let mut sum: usize = 0;
    let mut i: usize = 0;
    while i < disk.len()
        invariant
            i <= disk@.len(),
            sum + checksum_from(disk@, i as int) == checksum_from(disk@, 0),
            sum >= 0,
        decreases disk@.len() - i,
    {
        proof {
            lemma_checksum_nonneg(disk@, i as int + 1);
            if disk@[i as int] is Some {
                assert((i as int) * disk@[i as int].unwrap() >= 0) by (nonlinear_arith)
                    requires
                        i >= 0,
                        disk@[i as int].unwrap() >= 0,
                ;
            }
        }
        match disk[i] {
            Some(id) => {
                sum = sum + i * id;
            },
            None => {},
        }
        i += 1;
    }
    sum
}

pub struct P1;

impl P1 {
    /// Compact the disk and return its checksum.
    pub fn solve(input: Disk) -> (r: Result<usize, Error>)
        requires
            checksum_from(compact_spec(input@), 0) <= usize::MAX,
        ensures
            r == Ok::<usize, Error>(checksum_from(compact_spec(input@), 0) as usize),
    {
        let mut disk = input;
        fragment_disk(&mut disk);
        let c = compute_checksum(&disk);
        Ok(c)
    }
}

} // verus!
