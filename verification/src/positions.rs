//! Reinitialization of the rank range.
//!
//! Ranks count downward from the top of the 16-bit range; when the low end
//! is exhausted the caller fetches every tracked channel's live rank and
//! this module redistributes them: sorted ascending by live rank, the
//! channels receive the consecutive ranks ending at the largest 16-bit
//! value, so their relative order is kept and the whole low end becomes
//! free again.

use vstd::prelude::*;

use crate::assoc::{
    has_key, lemma_key_at_unique, lemma_push_new, lemma_remove_at, unique_keys, value_of,
};

verus! {

/// The position of an entry with the least rank.
fn min_rank_index(work: &Vec<(u64, u16)>) -> (r: usize)
    requires
        work@.len() > 0,
    ensures
        r < work@.len(),
        forall|j: int| 0 <= j < work@.len() ==> work@[r as int].1 <= (#[trigger] work@[j]).1,
{
    let n = work.len();
    let mut r: usize = 0;
    for i in 1..n
        invariant
            n == work@.len(),
            r < i,
            forall|j: int| 0 <= j < i ==> work@[r as int].1 <= (#[trigger] work@[j]).1,
    {
        if work[i].1 < work[r].1 {
            r = i;
        }
    }
    r
}

/// The entries sorted ascending by rank; same channels, same ranks.
fn sort_by_rank(live: &Vec<(u64, u16)>) -> (out: Vec<(u64, u16)>)
    requires
        unique_keys(live@),
    ensures
        out@.len() == live@.len(),
        unique_keys(out@),
        forall|c: u64| #[trigger] has_key(out@, c) == has_key(live@, c),
        forall|i: int|
            0 <= i < out@.len() ==> has_key(live@, (#[trigger] out@[i]).0) && value_of(
                live@,
                out@[i].0,
            ) == out@[i].1,
        forall|i: int, j: int|
            0 <= i < j < out@.len() ==> (#[trigger] out@[i]).1 <= (#[trigger] out@[j]).1,
{
    let n = live.len();
    let mut work: Vec<(u64, u16)> = Vec::new();
    for i in 0..n
        invariant
            n == live@.len(),
            work@ == live@.take(i as int),
    {
        work.push(live[i]);
        proof {
            assert(live@.take(i + 1) =~= live@.take(i as int).push(live@[i as int]));
        }
    }
    proof {
        assert(live@.take(n as int) =~= live@);
    }
    let mut out: Vec<(u64, u16)> = Vec::new();
    for round in 0..n
        invariant
            n == live@.len(),
            out@.len() == round,
            work@.len() == n - round,
            unique_keys(work@),
            unique_keys(out@),
            forall|c: u64|
                #[trigger] has_key(live@, c) == (has_key(out@, c) || has_key(work@, c)),
            forall|c: u64| #[trigger] has_key(out@, c) ==> !has_key(work@, c),
            forall|c: u64|
                #[trigger] has_key(work@, c) ==> has_key(live@, c) && value_of(work@, c)
                    == value_of(live@, c),
            forall|i: int|
                0 <= i < out@.len() ==> has_key(live@, (#[trigger] out@[i]).0) && value_of(
                    live@,
                    out@[i].0,
                ) == out@[i].1,
            forall|i: int, j: int|
                0 <= i < j < out@.len() ==> (#[trigger] out@[i]).1 <= (#[trigger] out@[j]).1,
            forall|i: int, j: int|
                0 <= i < out@.len() && 0 <= j < work@.len() ==> (#[trigger] out@[i]).1 <= (
                #[trigger] work@[j]).1,
    {
        let k = min_rank_index(&work);
        let ghost old_work = work@;
        let ghost old_out = out@;
        let pair = work[k];
        proof {
            lemma_key_at_unique(old_work, pair.0, k as int);
            lemma_remove_at(old_work, k as int);
            assert(has_key(old_work, pair.0));
            assert(!has_key(old_out, pair.0));
            lemma_push_new(old_out, pair.0, pair.1);
        }
        let removed = work.remove(k);
        out.push(removed);
        proof {
            assert(out@ =~= old_out.push(pair));
            assert forall|j: int| 0 <= j < work@.len() implies (#[trigger] work@[j]) == (if j
                < k as int {
                old_work[j]
            } else {
                old_work[j + 1]
            }) by {}
            assert forall|c: u64| #[trigger] has_key(out@, c) implies !has_key(work@, c) by {
                if c != pair.0 {
                    let w = choose|w: int| 0 <= w < out@.len() && (#[trigger] out@[w]).0 == c;
                    assert(w < old_out.len());
                    assert(old_out[w].0 == c);
                    assert(has_key(old_out, c));
                    assert(!has_key(old_work, c));
                }
            }
            assert forall|c: u64| #[trigger] has_key(live@, c) == (has_key(out@, c) || has_key(
                work@,
                c,
            )) by {
                if has_key(out@, c) && c != pair.0 {
                    let w = choose|w: int| 0 <= w < out@.len() && (#[trigger] out@[w]).0 == c;
                    assert(old_out[w].0 == c);
                }
                if has_key(old_out, c) {
                    let w = choose|w: int| 0 <= w < old_out.len() && (#[trigger] old_out[w]).0 == c;
                    assert(out@[w].0 == c);
                }
                assert(out@[out@.len() - 1].0 == pair.0);
            }
            assert forall|i: int|
                0 <= i < out@.len() implies has_key(live@, (#[trigger] out@[i]).0) && value_of(
                live@,
                out@[i].0,
            ) == out@[i].1 by {
                if i < old_out.len() {
                    assert(out@[i] == old_out[i]);
                } else {
                    assert(out@[i] == pair);
                }
            }
            assert forall|i: int, j: int|
                0 <= i < j < out@.len() implies (#[trigger] out@[i]).1 <= (
            #[trigger] out@[j]).1 by {
                if j < old_out.len() {
                    assert(out@[i] == old_out[i] && out@[j] == old_out[j]);
                } else {
                    assert(out@[j] == pair);
                    if i < old_out.len() {
                        assert(out@[i] == old_out[i]);
                        assert(old_out[i].1 <= old_work[k as int].1);
                    }
                }
            }
            assert forall|i: int, j: int|
                0 <= i < out@.len() && 0 <= j < work@.len() implies (#[trigger] out@[i]).1 <= (
            #[trigger] work@[j]).1 by {
                let j0 = if j < k as int { j } else { j + 1 };
                assert(work@[j] == old_work[j0]);
                if i < old_out.len() {
                    assert(out@[i] == old_out[i]);
                } else {
                    assert(out@[i] == pair);
                    assert(old_work[k as int].1 <= old_work[j0].1);
                }
            }
        }
    }
    proof {
        assert(work@.len() == 0);
        assert forall|c: u64| #[trigger] has_key(out@, c) == has_key(live@, c) by {
            assert(!has_key(work@, c));
        }
    }
    out
}

/// Law: reinitialization hands the tracked channels fresh, pairwise
/// distinct ranks, consecutive up to the largest 16-bit value, in the
/// relative order of their live ranks: a channel whose live rank was lower
/// receives the lower fresh rank.
pub fn reassign_positions(live: &Vec<(u64, u16)>) -> (out: Vec<(u64, u16)>)
    requires
        unique_keys(live@),
        live@.len() <= 0x10000,
    ensures
        out@.len() == live@.len(),
        forall|i: int|
            0 <= i < out@.len() ==> (#[trigger] out@[i]).1 == 0xffff - (out@.len() - 1 - i),
        forall|i: int| 0 <= i < out@.len() ==> has_key(live@, (#[trigger] out@[i]).0),
        forall|c: u64|
            #[trigger] has_key(live@, c) ==> exists|i: int|
                0 <= i < out@.len() && (#[trigger] out@[i]).0 == c,
        forall|i: int, j: int|
            0 <= i < j < out@.len() ==> (#[trigger] out@[i]).0 != (#[trigger] out@[j]).0
                && value_of(live@, out@[i].0) <= value_of(live@, out@[j].0) && out@[i].1
                < out@[j].1,
{
    let sorted = sort_by_rank(live);
    let n = sorted.len();
    let mut out: Vec<(u64, u16)> = Vec::new();
    let base: u32 = if n == 0 {
        0xffff
    } else {
        0xffff - (n as u32 - 1)
    };
    for i in 0..n
        invariant
            n == sorted@.len(),
            n <= 0x10000,
            base == if n == 0 {
                0xffff
            } else {
                0xffff - (n - 1)
            },
            unique_keys(live@),
            unique_keys(sorted@),
            forall|c: u64| #[trigger] has_key(sorted@, c) == has_key(live@, c),
            forall|j: int|
                0 <= j < sorted@.len() ==> has_key(live@, (#[trigger] sorted@[j]).0) && value_of(
                    live@,
                    sorted@[j].0,
                ) == sorted@[j].1,
            forall|a: int, b: int|
                0 <= a < b < sorted@.len() ==> (#[trigger] sorted@[a]).1 <= (
                #[trigger] sorted@[b]).1,
            out@.len() == i,
            forall|j: int|
                0 <= j < i ==> (#[trigger] out@[j]) == (
                    sorted@[j].0,
                    (0xffff - (n - 1 - j)) as u16,
                ),
    {
        let rank: u16 = (base + i as u32) as u16;
        out.push((sorted[i].0, rank));
    }
    proof {
        assert(out@.len() == n);
        assert forall|i: int, j: int|
            0 <= i < j < out@.len() implies (#[trigger] out@[i]).0 != (#[trigger] out@[j]).0
            && value_of(live@, out@[i].0) <= value_of(live@, out@[j].0) && out@[i].1
            < out@[j].1 by {
            assert(sorted@[i].0 != sorted@[j].0);
            assert(value_of(live@, sorted@[i].0) == sorted@[i].1);
            assert(value_of(live@, sorted@[j].0) == sorted@[j].1);
        }
        assert forall|c: u64| #[trigger] has_key(live@, c) implies exists|i: int|
            0 <= i < out@.len() && (#[trigger] out@[i]).0 == c by {
            assert(has_key(sorted@, c));
            let w = choose|w: int| 0 <= w < sorted@.len() && (#[trigger] sorted@[w]).0 == c;
            assert(out@[w].0 == c);
        }
        assert forall|i: int| 0 <= i < out@.len() implies has_key(
            live@,
            (#[trigger] out@[i]).0,
        ) by {
            assert(out@[i].0 == sorted@[i].0);
        }
    }
    out
}

} // verus!
