//! Flattening the per-channel histories into one position space.
//!
//! Sampling draws a position uniformly and maps it to a `(channel, message)`
//! pair. The specs here define that flattened view, optionally restricted to
//! messages created at or after a timestamp, and the lemmas decompose it
//! block by block so the sampling loops can walk it.

use vstd::prelude::*;

use crate::assoc::has_key;
use crate::snowflake_ms;

verus! {

/// The identifiers of `v` created at or after `ts`, in order.
pub open spec fn since_ids(v: Seq<u64>, ts: u64) -> Seq<u64>
    decreases v.len(),
{
    if v.len() == 0 {
        Seq::empty()
    } else if snowflake_ms(v.last()) >= ts {
        since_ids(v.drop_last(), ts).push(v.last())
    } else {
        since_ids(v.drop_last(), ts)
    }
}

/// One channel's contribution to the flattened view: its identifiers, each
/// tagged with the channel, restricted by the filter when one is given.
pub open spec fn blk(p: (u64, Vec<u64>), filt: Option<u64>) -> Seq<(u64, u64)> {
    match filt {
        None => p.1@.map(|i: int, m: u64| (p.0, m)),
        Some(ts) => since_ids(p.1@, ts).map(|i: int, m: u64| (p.0, m)),
    }
}

/// The flattened view: every channel's block, in entry order.
pub open spec fn blocks_of(s: Seq<(u64, Vec<u64>)>, filt: Option<u64>) -> Seq<(u64, u64)>
    decreases s.len(),
{
    if s.len() == 0 {
        Seq::empty()
    } else {
        blocks_of(s.drop_last(), filt) + blk(s.last(), filt)
    }
}

/// The unfiltered flattened view.
pub open spec fn flat_of(s: Seq<(u64, Vec<u64>)>) -> Seq<(u64, u64)> {
    blocks_of(s, None)
}

/// The flattened view restricted to messages created at or after `ts`.
pub open spec fn flat_since_of(s: Seq<(u64, Vec<u64>)>, ts: u64) -> Seq<(u64, u64)> {
    blocks_of(s, Some(ts))
}

/// Every element of a block carries the block's channel.
pub proof fn lemma_blk_channel(p: (u64, Vec<u64>), filt: Option<u64>)
    ensures
        forall|j: int| 0 <= j < blk(p, filt).len() ==> (#[trigger] blk(p, filt)[j]).0 == p.0,
{
}

/// Appending an entry appends its block.
pub proof fn lemma_blocks_push(s: Seq<(u64, Vec<u64>)>, filt: Option<u64>, p: (u64, Vec<u64>))
    ensures
        blocks_of(s.push(p), filt) == blocks_of(s, filt) + blk(p, filt),
{
    assert(s.push(p).drop_last() =~= s);
    assert(s.push(p).last() == p);
}

/// The flattened view starts with the first entry's block.
pub proof fn lemma_blocks_first(s: Seq<(u64, Vec<u64>)>, filt: Option<u64>)
    requires
        s.len() > 0,
    ensures
        blocks_of(s, filt) == blk(s.first(), filt) + blocks_of(s.drop_first(), filt),
    decreases s.len(),
{
    if s.len() == 1 {
        assert(s.drop_last() =~= Seq::<(u64, Vec<u64>)>::empty());
        assert(s.drop_first() =~= Seq::<(u64, Vec<u64>)>::empty());
        assert(blocks_of(s, filt) =~= blk(s.first(), filt) + blocks_of(s.drop_first(), filt));
    } else {
        let dl = s.drop_last();
        lemma_blocks_first(dl, filt);
        assert(s.drop_first().drop_last() =~= dl.drop_first());
        assert(s.drop_first().last() == s.last());
        assert(blocks_of(s.drop_first(), filt) == blocks_of(dl.drop_first(), filt) + blk(
            s.last(),
            filt,
        ));
        assert(blocks_of(s, filt) =~= blk(s.first(), filt) + blocks_of(s.drop_first(), filt));
    }
}

/// Dropping `i` entries then one more drops that entry's block.
pub proof fn lemma_blocks_skip_one(s: Seq<(u64, Vec<u64>)>, filt: Option<u64>, i: int)
    requires
        0 <= i < s.len(),
    ensures
        blocks_of(s.skip(i), filt) == blk(s[i], filt) + blocks_of(s.skip(i + 1), filt),
{
    lemma_blocks_first(s.skip(i), filt);
    assert(s.skip(i).first() == s[i]);
    assert(s.skip(i).drop_first() =~= s.skip(i + 1));
}

/// Extending a prefix by one entry appends that entry's block.
pub proof fn lemma_blocks_take_step(s: Seq<(u64, Vec<u64>)>, filt: Option<u64>, i: int)
    requires
        0 <= i < s.len(),
    ensures
        blocks_of(s.take(i + 1), filt) == blocks_of(s.take(i), filt) + blk(s[i], filt),
{
    assert(s.take(i + 1) =~= s.take(i).push(s[i]));
    lemma_blocks_push(s.take(i), filt, s[i]);
}

/// The flattened view splits at any entry boundary.
pub proof fn lemma_blocks_split(s: Seq<(u64, Vec<u64>)>, filt: Option<u64>, i: int)
    requires
        0 <= i <= s.len(),
    ensures
        blocks_of(s, filt) == blocks_of(s.take(i), filt) + blocks_of(s.skip(i), filt),
    decreases i,
{
    if i == 0 {
        assert(s.take(0) =~= Seq::<(u64, Vec<u64>)>::empty());
        assert(s.skip(0) =~= s);
        assert(blocks_of(s, filt) =~= blocks_of(s.take(0), filt) + blocks_of(s.skip(0), filt));
    } else {
        lemma_blocks_split(s, filt, i - 1);
        lemma_blocks_skip_one(s, filt, i - 1);
        lemma_blocks_take_step(s, filt, i - 1);
        assert(blocks_of(s, filt) =~= blocks_of(s.take(i), filt) + blocks_of(s.skip(i), filt));
    }
}

/// Block prefixes only grow.
pub proof fn lemma_blocks_take_mono(s: Seq<(u64, Vec<u64>)>, filt: Option<u64>, a: int, b: int)
    requires
        0 <= a <= b <= s.len(),
    ensures
        blocks_of(s.take(a), filt).len() <= blocks_of(s.take(b), filt).len(),
    decreases b - a,
{
    if a < b {
        lemma_blocks_take_mono(s, filt, a, b - 1);
        lemma_blocks_take_step(s, filt, b - 1);
    }
}

/// A channel absent from the entries contributes nothing to the view.
pub proof fn lemma_blocks_no_key(s: Seq<(u64, Vec<u64>)>, filt: Option<u64>, c: u64)
    requires
        !has_key(s, c),
    ensures
        forall|k: int| 0 <= k < blocks_of(s, filt).len() ==> (#[trigger] blocks_of(s, filt)[k]).0
            != c,
    decreases s.len(),
{
    if s.len() > 0 {
        let dl = s.drop_last();
        assert forall|i: int| 0 <= i < dl.len() implies (#[trigger] dl[i]).0 != c by {
            assert(s[i] == dl[i]);
        }
        lemma_blocks_no_key(dl, filt, c);
        assert(s.last().0 != c) by {
            assert(s[s.len() - 1] == s.last());
        }
        lemma_blk_channel(s.last(), filt);
        assert forall|k: int| 0 <= k < blocks_of(s, filt).len() implies (#[trigger] blocks_of(
            s,
            filt,
        )[k]).0 != c by {
            if k < blocks_of(dl, filt).len() {
                assert(blocks_of(s, filt)[k] == blocks_of(dl, filt)[k]);
            } else {
                assert(blocks_of(s, filt)[k] == blk(s.last(), filt)[k - blocks_of(dl, filt).len()]);
            }
        }
    }
}

/// Every position of the flattened view falls inside exactly one entry's
/// block: position `k` decomposes as the length of the blocks before entry
/// `j` plus an offset into entry `j`'s block.
pub proof fn lemma_blocks_partition(s: Seq<(u64, Vec<u64>)>, filt: Option<u64>, k: int)
    requires
        0 <= k < blocks_of(s, filt).len(),
    ensures
        exists|j: int|
            0 <= j < s.len() && blocks_of(s.take(j), filt).len() <= k < blocks_of(s.take(j), filt).len()
                + blk(#[trigger] s[j], filt).len() && blocks_of(s, filt)[k] == blk(s[j], filt)[k
                - blocks_of(s.take(j), filt).len()],
    decreases s.len(),
{
    let dl = s.drop_last();
    if k < blocks_of(dl, filt).len() {
        lemma_blocks_partition(dl, filt, k);
        let j = choose|j: int|
            0 <= j < dl.len() && blocks_of(dl.take(j), filt).len() <= k < blocks_of(
                dl.take(j),
                filt,
            ).len() + blk(#[trigger] dl[j], filt).len() && blocks_of(dl, filt)[k] == blk(
                dl[j],
                filt,
            )[k - blocks_of(dl.take(j), filt).len()];
        assert(dl.take(j) =~= s.take(j));
        assert(dl[j] == s[j]);
        assert(blocks_of(s, filt)[k] == blocks_of(dl, filt)[k]);
    } else {
        let j = s.len() - 1;
        assert(s.take(j) =~= dl);
        assert(s[j] == s.last());
    }
}

/// Stepping a prefix of the identifiers by one extends the filtered
/// sequence exactly when the next identifier passes the filter.
pub proof fn lemma_since_take_step(v: Seq<u64>, ts: u64, j: int)
    requires
        0 <= j < v.len(),
    ensures
        since_ids(v.take(j + 1), ts) == if snowflake_ms(v[j]) >= ts {
            since_ids(v.take(j), ts).push(v[j])
        } else {
            since_ids(v.take(j), ts)
        },
{
    assert(v.take(j + 1).drop_last() =~= v.take(j));
    assert(v.take(j + 1).last() == v[j]);
}

/// The filtered view of a prefix is a prefix of the filtered view.
pub proof fn lemma_since_prefix(v: Seq<u64>, ts: u64, j: int)
    requires
        0 <= j <= v.len(),
    ensures
        since_ids(v.take(j), ts).len() <= since_ids(v, ts).len(),
        forall|i: int|
            0 <= i < since_ids(v.take(j), ts).len() ==> #[trigger] since_ids(v, ts)[i] == since_ids(
                v.take(j),
                ts,
            )[i],
    decreases v.len() - j,
{
    if j == v.len() {
        assert(v.take(j) =~= v);
    } else {
        lemma_since_prefix(v, ts, j + 1);
        lemma_since_take_step(v, ts, j);
    }
}

/// Everything the filter keeps is an identifier of `v` that passes it.
pub proof fn lemma_since_members(v: Seq<u64>, ts: u64)
    ensures
        forall|i: int|
            0 <= i < since_ids(v, ts).len() ==> v.contains(#[trigger] since_ids(v, ts)[i])
                && snowflake_ms(since_ids(v, ts)[i]) >= ts,
    decreases v.len(),
{
    if v.len() > 0 {
        let dl = v.drop_last();
        lemma_since_members(dl, ts);
        assert forall|i: int| 0 <= i < since_ids(v, ts).len() implies v.contains(
            #[trigger] since_ids(v, ts)[i],
        ) && snowflake_ms(since_ids(v, ts)[i]) >= ts by {
            if i < since_ids(dl, ts).len() {
                assert(since_ids(v, ts)[i] == since_ids(dl, ts)[i]);
                let w = choose|w: int| 0 <= w < dl.len() && dl[w] == since_ids(dl, ts)[i];
                assert(v[w] == since_ids(v, ts)[i]);
            } else {
                assert(snowflake_ms(v.last()) >= ts && since_ids(v, ts)[i] == v.last());
                assert(v[v.len() - 1] == v.last());
            }
        }
    }
}

/// A filter that every identifier passes keeps the whole sequence.
pub proof fn lemma_since_all(v: Seq<u64>, ts: u64)
    requires
        forall|i: int| 0 <= i < v.len() ==> snowflake_ms(#[trigger] v[i]) >= ts,
    ensures
        since_ids(v, ts) == v,
    decreases v.len(),
{
    if v.len() == 0 {
        assert(since_ids(v, ts) =~= v);
    } else {
        let dl = v.drop_last();
        assert forall|i: int| 0 <= i < dl.len() implies snowflake_ms(#[trigger] dl[i]) >= ts by {
            assert(dl[i] == v[i]);
        }
        lemma_since_all(dl, ts);
        assert(v[v.len() - 1] == v.last());
        assert(since_ids(v, ts) =~= v);
    }
}

/// A bound that every identifier of every entry meets does not restrict the
/// flattened view.
pub proof fn lemma_blocks_since_all(s: Seq<(u64, Vec<u64>)>, ts: u64)
    requires
        forall|j: int, i: int|
            0 <= j < s.len() && 0 <= i < (#[trigger] s[j]).1@.len() ==> snowflake_ms(
                #[trigger] s[j].1@[i],
            ) >= ts,
    ensures
        blocks_of(s, Some(ts)) == blocks_of(s, None),
    decreases s.len(),
{
    if s.len() > 0 {
        let dl = s.drop_last();
        assert forall|j: int, i: int|
            0 <= j < dl.len() && 0 <= i < (#[trigger] dl[j]).1@.len() implies snowflake_ms(
            #[trigger] dl[j].1@[i]) >= ts by {
            assert(dl[j] == s[j]);
        }
        lemma_blocks_since_all(dl, ts);
        let p = s.last();
        assert(s[s.len() - 1] == p);
        assert forall|i: int| 0 <= i < p.1@.len() implies snowflake_ms(#[trigger] p.1@[i])
            >= ts by {
            assert(s[s.len() - 1].1@[i] == p.1@[i]);
        }
        lemma_since_all(p.1@, ts);
        assert(blk(p, Some(ts)) =~= blk(p, None));
        assert(blocks_of(s, Some(ts)) =~= blocks_of(s, None));
    }
}

/// The filter keeps nothing exactly when nothing passes it.
pub proof fn lemma_since_empty(v: Seq<u64>, ts: u64)
    ensures
        since_ids(v, ts).len() == 0 <==> forall|i: int|
            0 <= i < v.len() ==> snowflake_ms(#[trigger] v[i]) < ts,
    decreases v.len(),
{
    if v.len() > 0 {
        let dl = v.drop_last();
        lemma_since_empty(dl, ts);
        assert(v[v.len() - 1] == v.last());
        assert forall|i: int| 0 <= i < dl.len() implies dl[i] == v[i] by {}
    }
}

} // verus!
