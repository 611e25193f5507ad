//! Splitting a raw input buffer into lines, as every day's reader does.

use vstd::prelude::*;

verus! {

/// A line terminated by `'\n'` also loses one trailing `'\r'`, so that
/// inputs with CRLF endings read the same as ones with bare newlines.
pub open spec fn chomp_cr(s: Seq<u8>) -> Seq<u8> {
    if s.len() > 0 && s.last() == 13 {
        s.drop_last()
    } else {
        s
    }
}

/// Index of the first `'\n'` in `s`, or `-1` when there is none.
pub open spec fn first_newline(s: Seq<u8>) -> int
    decreases s.len(),
{
    if s.len() == 0 {
        -1
    } else if s[0] == 10 {
        0
    } else {
        let r = first_newline(s.skip(1));
        if r < 0 {
            -1
        } else {
            r + 1
        }
    }
}

proof fn lemma_first_newline_bounds(s: Seq<u8>)
    ensures
        first_newline(s) < 0 ==> forall|i: int| 0 <= i < s.len() ==> s[i] != 10,
        first_newline(s) >= 0 ==> {
            &&& first_newline(s) < s.len()
            &&& s[first_newline(s)] == 10
            &&& forall|i: int| 0 <= i < first_newline(s) ==> s[i] != 10
        },
    decreases s.len(),
{
    if s.len() > 0 && s[0] != 10 {
        lemma_first_newline_bounds(s.skip(1));
        assert forall|i: int| 0 <= i < s.len() && first_newline(s) < 0 implies s[i] != 10 by {
            if i > 0 {
                assert(s.skip(1)[i - 1] == s[i]);
            }
        }
        if first_newline(s) >= 0 {
            assert(s.skip(1)[first_newline(s) - 1] == s[first_newline(s)]);
            assert forall|i: int| 0 <= i < first_newline(s) implies s[i] != 10 by {
                if i > 0 {
                    assert(s.skip(1)[i - 1] == s[i]);
                }
            }
        }
    }
}

/// If the first `k` bytes hold no newline and `s[k]` is one, the first
/// newline sits exactly at `k`.
proof fn lemma_first_newline_at(s: Seq<u8>, k: int)
    requires
        0 <= k < s.len(),
        s[k] == 10,
        forall|i: int| 0 <= i < k ==> s[i] != 10,
    ensures
        first_newline(s) == k,
{
    lemma_first_newline_bounds(s);
    if first_newline(s) < 0 {
        assert(false);
    } else if first_newline(s) < k {
        assert(s[first_newline(s)] != 10);
    } else if first_newline(s) > k {
        assert(s[k] != 10);
    }
}

/// The lines of a buffer: split on `'\n'`, with a `'\r'` before each
/// split point dropped, and a final unterminated fragment kept as it is.
/// A buffer ending in `'\n'` yields no extra empty line.
pub open spec fn split_lines(s: Seq<u8>) -> Seq<Seq<u8>>
    decreases s.len(),
    via split_lines_decreases
{
    if s.len() == 0 {
        Seq::empty()
    } else {
        let i = first_newline(s);
        if i < 0 {
            seq![s]
        } else {
            seq![chomp_cr(s.take(i))] + split_lines(s.skip(i + 1))
        }
    }
}

#[via_fn]
proof fn split_lines_decreases(s: Seq<u8>) {
    if s.len() != 0 {
        lemma_first_newline_bounds(s);
    }
}

/// An ASCII whitespace byte: space, tab, carriage return or newline.
pub open spec fn is_ws(b: u8) -> bool {
    b == 32 || b == 9 || b == 13 || b == 10
}

/// Length of the run of non-whitespace bytes at the front of `s`.
pub open spec fn first_ws(s: Seq<u8>) -> int
    decreases s.len(),
{
    if s.len() == 0 {
        0
    } else if is_ws(s[0]) {
        0
    } else {
        1 + first_ws(s.skip(1))
    }
}

proof fn lemma_first_ws_bounds(s: Seq<u8>)
    ensures
        0 <= first_ws(s) <= s.len(),
        first_ws(s) < s.len() ==> is_ws(s[first_ws(s)]),
        forall|i: int| 0 <= i < first_ws(s) ==> !is_ws(#[trigger] s[i]),
    decreases s.len(),
{
    if s.len() > 0 && !is_ws(s[0]) {
        lemma_first_ws_bounds(s.skip(1));
        if first_ws(s) < s.len() {
            assert(s.skip(1)[first_ws(s) - 1] == s[first_ws(s)]);
        }
        assert forall|i: int| 0 <= i < first_ws(s) implies !is_ws(s[i]) by {
            if i > 0 {
                assert(s.skip(1)[i - 1] == s[i]);
            }
        }
    }
}

/// If the first `k` bytes of `s` are not whitespace and byte `k` (when
/// present) is, the leading non-whitespace run has length exactly `k`.
proof fn lemma_first_ws_at(s: Seq<u8>, k: int)
    requires
        0 <= k <= s.len(),
        k < s.len() ==> is_ws(s[k]),
        forall|i: int| 0 <= i < k ==> !is_ws(#[trigger] s[i]),
    ensures
        first_ws(s) == k,
{
    lemma_first_ws_bounds(s);
    if first_ws(s) < k {
        assert(!is_ws(s[first_ws(s)]));
    } else if first_ws(s) > k {
        assert(!is_ws(s[k]));
    }
}

/// The whitespace-separated tokens of a buffer, in order, with no empty
/// tokens.
pub open spec fn split_ws(s: Seq<u8>) -> Seq<Seq<u8>>
    decreases s.len(),
    via split_ws_decreases
{
    if s.len() == 0 {
        Seq::empty()
    } else if is_ws(s[0]) {
        split_ws(s.skip(1))
    } else {
        seq![s.take(first_ws(s))] + split_ws(s.skip(first_ws(s)))
    }
}

#[via_fn]
proof fn split_ws_decreases(s: Seq<u8>) {
    if s.len() != 0 {
        lemma_first_ws_bounds(s);
    }
}

/// Split a buffer into its whitespace-separated tokens.
pub fn tokens(input: &[u8]) -> (r: Vec<Vec<u8>>)
    ensures
        r@.map_values(|t: Vec<u8>| t@) == split_ws(input@),
{
    let mut r: Vec<Vec<u8>> = Vec::new();
    let mut cur: Vec<u8> = Vec::new();
    let mut k: usize = 0;  // start of the token being built
    let mut i: usize = 0;
    proof {
        assert(input@.skip(0) =~= input@);
        assert(r@.map_values(|t: Vec<u8>| t@) =~= Seq::<Seq<u8>>::empty());
    }
    while i < input.len()
        invariant
            k <= i <= input@.len(),
            cur@ == input@.subrange(k as int, i as int),
            forall|m: int| k <= m < i ==> !is_ws(#[trigger] input@[m]),
            split_ws(input@) == r@.map_values(|t: Vec<u8>| t@) + split_ws(input@.skip(k as int)),
        decreases input@.len() - i,
    {
        let b = input[i];
        if b == 32 || b == 9 || b == 13 || b == 10 {
            let ghost old_map = r@.map_values(|t: Vec<u8>| t@);
            let ghost rest = input@.skip(k as int);
            proof {
                assert forall|m: int| 0 <= m < i - k implies !is_ws(#[trigger] rest[m]) by {
                    assert(rest[m] == input@[k + m]);
                }
                assert(rest[i - k] == input@[i as int]);
                lemma_first_ws_at(rest, i - k);
                assert(input@.skip(i as int)[0] == input@[i as int]);
                assert(input@.skip(i as int).skip(1) =~= input@.skip(i + 1));
                assert(split_ws(input@.skip(i as int)) == split_ws(input@.skip(i + 1)));
            }
            if cur.len() > 0 {
                proof {
                    assert(rest.take(i - k) =~= input@.subrange(k as int, i as int));
                    assert(rest.skip(i - k) =~= input@.skip(i as int));
                    assert(split_ws(rest) == seq![cur@] + split_ws(input@.skip(i + 1)));
                }
                r.push(cur);
                cur = Vec::new();
                proof {
                    assert(r@.map_values(|t: Vec<u8>| t@) =~= old_map.push(r@.last()@));
                    assert(old_map.push(r@.last()@) =~= old_map + seq![r@.last()@]);
                    assert(old_map + (seq![r@.last()@] + split_ws(input@.skip(i + 1))) =~= (
                    old_map + seq![r@.last()@]) + split_ws(input@.skip(i + 1)));
                }
            } else {
                proof {
                    assert(rest =~= input@.skip(i as int));
                }
            }
            k = i + 1;
            proof {
                assert(cur@ =~= input@.subrange(k as int, k as int));
            }
        } else {
            cur.push(b);
            proof {
                assert(cur@ =~= input@.subrange(k as int, i + 1));
            }
        }
        i += 1;
    }
    if cur.len() > 0 {
        proof {
            let rest = input@.skip(k as int);
            assert(rest =~= input@.subrange(k as int, i as int));
            assert forall|m: int| 0 <= m < rest.len() implies !is_ws(#[trigger] rest[m]) by {
                assert(rest[m] == input@[k + m]);
            }
            lemma_first_ws_at(rest, rest.len() as int);
            assert(rest[0] == input@[k as int]);
            assert(rest.take(rest.len() as int) =~= rest);
            assert(rest.skip(rest.len() as int) =~= Seq::<u8>::empty());
            assert(split_ws(Seq::<u8>::empty()) =~= Seq::<Seq<u8>>::empty());
            assert(split_ws(rest) =~= seq![cur@]);
        }
        let ghost old_map = r@.map_values(|t: Vec<u8>| t@);
        r.push(cur);
        proof {
            assert(r@.map_values(|t: Vec<u8>| t@) =~= old_map.push(r@.last()@));
            assert(old_map.push(r@.last()@) =~= old_map + seq![r@.last()@]);
        }
    } else {
        proof {
            assert(input@.skip(k as int) =~= Seq::<u8>::empty());
            assert(r@.map_values(|t: Vec<u8>| t@) + split_ws(Seq::<u8>::empty()) =~= r@.map_values(
                |t: Vec<u8>| t@,
            ));
        }
    }
    r
}

/// Split a raw input buffer into its lines.
pub fn lines(input: &[u8]) -> (r: Vec<Vec<u8>>)
    ensures
        r@.map_values(|l: Vec<u8>| l@) == split_lines(input@),
{
    let mut r: Vec<Vec<u8>> = Vec::new();
    let mut cur: Vec<u8> = Vec::new();
    let mut j: usize = 0;  // start of the line being built
    let mut i: usize = 0;
    proof {
        assert(input@.skip(0) =~= input@);
        assert(r@.map_values(|l: Vec<u8>| l@) =~= Seq::<Seq<u8>>::empty());
    }
    while i < input.len()
        invariant
            j <= i <= input@.len(),
            cur@ == input@.subrange(j as int, i as int),
            forall|m: int| j <= m < i ==> input@[m] != 10,
            split_lines(input@) == r@.map_values(|l: Vec<u8>| l@) + split_lines(
                input@.skip(j as int),
            ),
        decreases input@.len() - i,
    {
        let b = input[i];
        if b == 10 {
            proof {
                let rest = input@.skip(j as int);
                assert forall|m: int| 0 <= m < i - j implies rest[m] != 10 by {
                    assert(rest[m] == input@[j + m]);
                }
                assert(rest[i - j] == input@[i as int]);
                lemma_first_newline_at(rest, i - j);
                assert(rest.take(i - j) =~= input@.subrange(j as int, i as int));
                assert(rest.skip(i - j + 1) =~= input@.skip(i + 1));
            }
            if cur.len() > 0 && cur[cur.len() - 1] == 13 {
                cur.pop();
            }
            assert(cur@ == chomp_cr(input@.subrange(j as int, i as int)));
            r.push(cur);
            cur = Vec::new();
            j = i + 1;
            proof {
                assert(r@.map_values(|l: Vec<u8>| l@) =~= r@.drop_last().map_values(
                    |l: Vec<u8>| l@,
                ).push(r@.last()@));
                assert(cur@ =~= input@.subrange(j as int, j as int));
            }
        } else {
            cur.push(b);
            proof {
                assert(cur@ =~= input@.subrange(j as int, i + 1));
            }
        }
        i += 1;
    }
    if cur.len() > 0 {
        proof {
            let rest = input@.skip(j as int);
            assert(rest =~= input@.subrange(j as int, i as int));
            assert forall|m: int| 0 <= m < rest.len() implies rest[m] != 10 by {
                assert(rest[m] == input@[j + m]);
            }
            lemma_first_newline_bounds(rest);
            assert(split_lines(rest) =~= seq![rest]);
        }
        r.push(cur);
        proof {
            assert(r@.map_values(|l: Vec<u8>| l@) =~= r@.drop_last().map_values(
                |l: Vec<u8>| l@,
            ).push(r@.last()@));
        }
    } else {
        proof {
            assert(input@.skip(j as int) =~= Seq::<u8>::empty());
        }
    }
    r
}

} // verus!
