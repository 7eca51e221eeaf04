//! The message index: per-channel message histories, per-channel indexing
//! cursors, and uniform random sampling over them.

use vstd::prelude::*;

use crate::assoc::{
    check_unique_keys, find_key, has_key, key_at, lemma_key_at_unique, lemma_push_new,
    lemma_update_value, map_of, remove_key, set_key, unique_keys, value_of,
};
use crate::flatten::{
    blk, blocks_of, flat_of, flat_since_of, lemma_blocks_no_key, lemma_blocks_partition,
    lemma_blocks_since_all, lemma_blocks_skip_one, lemma_blocks_split, lemma_blocks_take_mono,
    lemma_blocks_take_step, lemma_since_members, lemma_since_prefix, lemma_since_take_step,
    since_ids,
};
use crate::message::{spec_is_valid, MessageRecord};
use crate::rng::random_below;
use crate::snowflake_ms;

verus! {

/// `v` with every occurrence of `id` removed, order otherwise kept.
pub open spec fn without(v: Seq<u64>, id: u64) -> Seq<u64>
    decreases v.len(),
{
    if v.len() == 0 {
        Seq::empty()
    } else if v.last() == id {
        without(v.drop_last(), id)
    } else {
        without(v.drop_last(), id).push(v.last())
    }
}

/// A copy of a vector of identifiers.
fn copy_ids(v: &Vec<u64>) -> (r: Vec<u64>)
    ensures
        r@ == v@,
{
    let n = v.len();
    let mut r: Vec<u64> = Vec::new();
    for i in 0..n
        invariant
            n == v@.len(),
            r@ == v@.take(i as int),
    {
        r.push(v[i]);
        proof {
            assert(v@.take(i + 1) =~= v@.take(i as int).push(v@[i as int]));
        }
    }
    proof {
        assert(v@.take(n as int) =~= v@);
    }
    r
}

/// The per-channel histories a pair vector holds, as a map from channel to
/// the sequence of archived message identifiers.
pub open spec fn seq_map_of(s: Seq<(u64, Vec<u64>)>) -> Map<u64, Seq<u64>> {
    Map::new(|c: u64| has_key(s, c), |c: u64| value_of(s, c)@)
}

/// Rebinding a key at the pair level rebinds it in the sequence-valued view.
proof fn lemma_seq_map_insert(s1: Seq<(u64, Vec<u64>)>, s2: Seq<(u64, Vec<u64>)>, k: u64, v: Vec<u64>)
    requires
        map_of(s2) == map_of(s1).insert(k, v),
    ensures
        seq_map_of(s2) == seq_map_of(s1).insert(k, v@),
{
    assert forall|c: u64| #[trigger] has_key(s2, c) == (c == k || has_key(s1, c)) by {
        assert(map_of(s2).dom().contains(c) == has_key(s2, c));
        assert(map_of(s1).dom().contains(c) == has_key(s1, c));
        assert(map_of(s1).insert(k, v).dom().contains(c) == (c == k || map_of(s1).dom().contains(
            c,
        )));
        assert(map_of(s2).dom().contains(c) == map_of(s1).insert(k, v).dom().contains(c));
    }
    assert forall|c: u64| has_key(s2, c) implies #[trigger] value_of(s2, c) == (if c == k {
        v
    } else {
        value_of(s1, c)
    }) by {
        assert(map_of(s2)[c] == value_of(s2, c));
        if c == k {
            assert(map_of(s1).insert(k, v)[c] == v);
        } else {
            assert(map_of(s1).insert(k, v)[c] == map_of(s1)[c]);
            assert(map_of(s1)[c] == value_of(s1, c));
        }
        assert(map_of(s2)[c] == map_of(s1).insert(k, v)[c]);
    }
    assert(seq_map_of(s2) =~= seq_map_of(s1).insert(k, v@));
}

/// Removing a key at the pair level removes it from the sequence-valued view.
proof fn lemma_seq_map_remove(s1: Seq<(u64, Vec<u64>)>, s2: Seq<(u64, Vec<u64>)>, k: u64)
    requires
        map_of(s2) == map_of(s1).remove(k),
    ensures
        seq_map_of(s2) == seq_map_of(s1).remove(k),
{
    assert forall|c: u64| #[trigger] has_key(s2, c) == (c != k && has_key(s1, c)) by {
        assert(map_of(s2).dom().contains(c) == has_key(s2, c));
        assert(map_of(s1).dom().contains(c) == has_key(s1, c));
        assert(map_of(s1).remove(k).dom().contains(c) == (c != k && map_of(s1).dom().contains(c)));
        assert(map_of(s2).dom().contains(c) == map_of(s1).remove(k).dom().contains(c));
    }
    assert forall|c: u64| has_key(s2, c) implies #[trigger] value_of(s2, c) == value_of(s1, c) by {
        assert(map_of(s2)[c] == value_of(s2, c));
        assert(c != k);
        assert(map_of(s1).remove(k)[c] == map_of(s1)[c]);
        assert(map_of(s1)[c] == value_of(s1, c));
        assert(map_of(s2)[c] == map_of(s1).remove(k)[c]);
    }
    assert(seq_map_of(s2) =~= seq_map_of(s1).remove(k));
}

/// The message index. Mutations keep the two maps consistent with the
/// indexing protocol; sampling reads them.
pub struct Index {
    /// Per-channel message identifiers, in insertion order.
    messages: Vec<(u64, Vec<u64>)>,
    /// Per-channel indexing cursor: the newest identifier known to be fully
    /// indexed.
    last_indexed: Vec<(u64, u64)>,
}

impl Index {
    /// Both association vectors have unique keys.
    pub closed spec fn wf(&self) -> bool {
        unique_keys(self.messages@) && unique_keys(self.last_indexed@)
    }

    /// The per-channel histories, as a map from channel to the sequence of
    /// archived message identifiers.
    pub closed spec fn msgs(&self) -> Map<u64, Seq<u64>> {
        seq_map_of(self.messages@)
    }

    /// The per-channel cursors.
    pub closed spec fn cursors(&self) -> Map<u64, u64> {
        map_of(self.last_indexed@)
    }

    /// An empty index: no histories, no cursors.
    pub fn new() -> (r: Index)
        ensures
            r.wf(),
            r.msgs() == Map::<u64, Seq<u64>>::empty(),
            r.cursors() == Map::<u64, u64>::empty(),
    {
        let r = Index { messages: Vec::new(), last_indexed: Vec::new() };
        proof {
            assert(r.msgs() =~= Map::<u64, Seq<u64>>::empty());
            assert(r.cursors() =~= Map::<u64, u64>::empty());
        }
        r
    }

    /// Rebuild an index from snapshot entries. Returns `None` when either
    /// entry list binds a channel twice, which a well-formed snapshot never
    /// does.
    pub fn from_entries(last_indexed: Vec<(u64, u64)>, messages: Vec<(u64, Vec<u64>)>) -> (r: Option<
        Index,
    >)
        ensures
            match r {
                Some(ix) => {
                    &&& unique_keys(last_indexed@)
                    &&& unique_keys(messages@)
                    &&& ix.wf()
                    &&& ix.cursors() == map_of(last_indexed@)
                    &&& ix.msgs() == seq_map_of(messages@)
                },
                None => !unique_keys(last_indexed@) || !unique_keys(messages@),
            },
    {
        if !check_unique_keys(&last_indexed) {
            return None;
        }
        if !check_unique_keys(&messages) {
            return None;
        }
        Some(Index { messages, last_indexed })
    }

    /// The cursor entries, for writing a snapshot.
    pub fn cursor_entries(&self) -> (r: &Vec<(u64, u64)>)
        requires
            self.wf(),
        ensures
            unique_keys(r@),
            map_of(r@) == self.cursors(),
    {
        &self.last_indexed
    }

    /// The history entries, for writing a snapshot.
    pub fn message_entries(&self) -> (r: &Vec<(u64, Vec<u64>)>)
        requires
            self.wf(),
        ensures
            unique_keys(r@),
            seq_map_of(r@) == self.msgs(),
    {
        &self.messages
    }

    /// The indexing cursor for a channel, if one is recorded.
    pub fn last_indexed(&self, channel_id: u64) -> (r: Option<u64>)
        requires
            self.wf(),
        ensures
            r == if self.cursors().dom().contains(channel_id) {
                Some(self.cursors()[channel_id])
            } else {
                None::<u64>
            },
    {
        let found = find_key(&self.last_indexed, channel_id);
        match found {
            Some(i) => {
                proof {
                    lemma_key_at_unique(self.last_indexed@, channel_id, i as int);
                }
                Some(self.last_indexed[i].1)
            }
            None => None,
        }
    }

    /// Record that everything up to `message_id` is indexed for the channel.
    pub fn just_indexed(&mut self, channel_id: u64, message_id: u64)
        requires
            old(self).wf(),
        ensures
            final(self).wf(),
            final(self).cursors() == old(self).cursors().insert(channel_id, message_id),
            final(self).msgs() == old(self).msgs(),
    {
        set_key(&mut self.last_indexed, channel_id, message_id);
    }

    /// The archived history of a channel, if the channel is known.
    pub fn get_messages(&self, channel_id: u64) -> (r: Option<Vec<u64>>)
        requires
            self.wf(),
        ensures
            match r {
                Some(v) => self.msgs().dom().contains(channel_id) && v@ == self.msgs()[channel_id],
                None => !self.msgs().dom().contains(channel_id),
            },
    {
        let found = find_key(&self.messages, channel_id);
        match found {
            Some(i) => {
                proof {
                    lemma_key_at_unique(self.messages@, channel_id, i as int);
                }
                Some(copy_ids(&self.messages[i].1))
            }
            None => None,
        }
    }

    /// Whether a channel has a history entry.
    pub(crate) fn has_channel(&self, channel_id: u64) -> (r: bool)
        requires
            self.wf(),
        ensures
            r == self.msgs().dom().contains(channel_id),
    {
        let found = find_key(&self.messages, channel_id);
        found.is_some()
    }

    /// Install a history entry for a channel that has none.
    pub(crate) fn put_channel_entry(&mut self, channel_id: u64, v: Vec<u64>)
        requires
            old(self).wf(),
            !old(self).msgs().dom().contains(channel_id),
        ensures
            final(self).wf(),
            final(self).cursors() == old(self).cursors(),
            final(self).msgs() == old(self).msgs().insert(channel_id, v@),
    {
        proof {
            lemma_push_new(self.messages@, channel_id, v);
        }
        let ghost old_pairs = self.messages@;
        self.messages.push((channel_id, v));
        proof {
            lemma_seq_map_insert(old_pairs, self.messages@, channel_id, self.messages@.last().1);
        }
    }

    /// Append `id` to a channel's history, creating the history if the
    /// channel is new.
    pub(crate) fn append_message(&mut self, channel_id: u64, id: u64)
        requires
            old(self).wf(),
        ensures
            final(self).wf(),
            final(self).cursors() == old(self).cursors(),
            final(self).msgs() == old(self).msgs().insert(
                channel_id,
                (if old(self).msgs().dom().contains(channel_id) {
                    old(self).msgs()[channel_id]
                } else {
                    Seq::<u64>::empty()
                }).push(id),
            ),
    {
        let ghost old_pairs = self.messages@;
        let found = find_key(&self.messages, channel_id);
        match found {
            Some(i) => {
                proof {
                    lemma_key_at_unique(old_pairs, channel_id, i as int);
                }
                self.messages[i].1.push(id);
                proof {
                    lemma_update_value(
                        old_pairs,
                        i as int,
                        channel_id,
                        self.messages@[i as int].1,
                    );
                    assert(self.messages@ =~= old_pairs.update(
                        i as int,
                        (channel_id, self.messages@[i as int].1),
                    ));
                    lemma_seq_map_insert(
                        old_pairs,
                        self.messages@,
                        channel_id,
                        self.messages@[i as int].1,
                    );
                    assert(self.messages@[i as int].1@ == old(self).msgs()[channel_id].push(id));
                }
            }
            None => {
                let mut v: Vec<u64> = Vec::new();
                v.push(id);
                proof {
                    lemma_push_new(old_pairs, channel_id, v);
                }
                let ghost pushed = v@;
                self.messages.push((channel_id, v));
                proof {
                    lemma_seq_map_insert(old_pairs, self.messages@, channel_id, self.messages@.last().1);
                    assert(pushed =~= Seq::<u64>::empty().push(id));
                }
            }
        }
    }

    /// The validity filter: whether a message is archived at all.
    pub fn is_message_valid(message: &MessageRecord) -> (b: bool)
        ensures
            b == spec_is_valid(*message),
    {
        message.is_valid()
    }

    /// Archive a message if the validity filter accepts it, advancing the
    /// channel's cursor to it; otherwise do nothing.
    pub fn save_message(&mut self, message: &MessageRecord)
        requires
            old(self).wf(),
        ensures
            final(self).wf(),
            !spec_is_valid(*message) ==> final(self).msgs() == old(self).msgs()
                && final(self).cursors() == old(self).cursors(),
            spec_is_valid(*message) ==> final(self).msgs() == old(self).msgs().insert(
                message.channel_id,
                (if old(self).msgs().dom().contains(message.channel_id) {
                    old(self).msgs()[message.channel_id]
                } else {
                    Seq::<u64>::empty()
                }).push(message.id),
            ) && final(self).cursors() == old(self).cursors().insert(
                message.channel_id,
                message.id,
            ),
    {
        if !message.is_valid() {
            return ;
        }
        self.append_message(message.channel_id, message.id);
        self.just_indexed(message.channel_id, message.id);
    }

    /// Remove every occurrence of a message from a channel's history. If the
    /// removed identifier was the channel's cursor, the cursor moves to the
    /// last remaining element, or is cleared when the history becomes empty.
    /// Doing nothing when the channel is unknown is not an error.
    pub fn remove_message(&mut self, channel_id: u64, message_id: u64)
        requires
            old(self).wf(),
        ensures
            final(self).wf(),
            !old(self).msgs().dom().contains(channel_id) ==> final(self).msgs() == old(self).msgs()
                && final(self).cursors() == old(self).cursors(),
            old(self).msgs().dom().contains(channel_id) ==> {
                let kept = without(old(self).msgs()[channel_id], message_id);
                &&& final(self).msgs() == old(self).msgs().insert(channel_id, kept)
                &&& final(self).cursors() == (if old(self).cursors().dom().contains(channel_id)
                    && old(self).cursors()[channel_id] == message_id {
                    if kept.len() > 0 {
                        old(self).cursors().insert(channel_id, kept.last())
                    } else {
                        old(self).cursors().remove(channel_id)
                    }
                } else {
                    old(self).cursors()
                })
            },
    {
        let ghost old_pairs = self.messages@;
        let found = find_key(&self.messages, channel_id);
        let i = match found {
            Some(i) => i,
            None => {
                return ;
            }
        };
        proof {
            lemma_key_at_unique(old_pairs, channel_id, i as int);
        }
        let ghost old_seq = old(self).msgs()[channel_id];
        let held = copy_ids(&self.messages[i].1);
        proof {
            assert(held@ == old_seq);
        }
        let n = held.len();
        let mut kept: Vec<u64> = Vec::new();
        for j in 0..n
            invariant
                n == held@.len(),
                held@ == old_seq,
                kept@ == without(old_seq.take(j as int), message_id),
        {
            let id = held[j];
            proof {
                assert(old_seq.take(j + 1).drop_last() =~= old_seq.take(j as int));
                assert(old_seq.take(j + 1).last() == old_seq[j as int]);
            }
            if id != message_id {
                kept.push(id);
            }
        }
        proof {
            assert(old_seq.take(n as int) =~= old_seq);
        }
        let kept_len = kept.len();
        proof {
            lemma_update_value(old_pairs, i as int, channel_id, kept);
        }
        self.messages[i] = (channel_id, kept);
        proof {
            lemma_seq_map_insert(
                old_pairs,
                self.messages@,
                channel_id,
                self.messages@[i as int].1,
            );
        }
        let cursor = self.last_indexed_inner(channel_id);
        if cursor == Some(message_id) {
            if kept_len > 0 {
                let last = self.messages[i].1[kept_len - 1];
                set_key(&mut self.last_indexed, channel_id, last);
            } else {
                let _ = remove_key(&mut self.last_indexed, channel_id);
            }
        }
    }

    /// `last_indexed`, usable mid-mutation (the histories may already have
    /// changed, the cursor map has not).
    fn last_indexed_inner(&self, channel_id: u64) -> (r: Option<u64>)
        requires
            unique_keys(self.last_indexed@),
        ensures
            r == if self.cursors().dom().contains(channel_id) {
                Some(self.cursors()[channel_id])
            } else {
                None::<u64>
            },
    {
        let found = find_key(&self.last_indexed, channel_id);
        match found {
            Some(i) => {
                proof {
                    lemma_key_at_unique(self.last_indexed@, channel_id, i as int);
                }
                Some(self.last_indexed[i].1)
            }
            None => None,
        }
    }

    /// Drop a channel's history and cursor entirely. Doing nothing when the
    /// channel is unknown is not an error.
    pub fn remove_channel(&mut self, channel_id: u64)
        requires
            old(self).wf(),
        ensures
            final(self).wf(),
            final(self).msgs() == old(self).msgs().remove(channel_id),
            final(self).cursors() == old(self).cursors().remove(channel_id),
    {
        let ghost old_pairs = self.messages@;
        let found = find_key(&self.messages, channel_id);
        match found {
            Some(i) => {
                proof {
                    lemma_key_at_unique(old_pairs, channel_id, i as int);
                    crate::assoc::lemma_remove_at(old_pairs, i as int);
                }
                let _ = self.messages.remove(i);
                proof {
                    lemma_seq_map_remove(old_pairs, self.messages@, channel_id);
                }
            }
            None => {
                proof {
                    assert(!seq_map_of(old_pairs).dom().contains(channel_id));
                    assert(self.msgs() =~= old(self).msgs().remove(channel_id));
                }
            }
        }
        let _ = remove_key(&mut self.last_indexed, channel_id);
    }
}


impl Index {
    /// The whole archive flattened into one position space: channel by
    /// channel, each channel's messages in order.
    pub closed spec fn flat(&self) -> Seq<(u64, u64)> {
        flat_of(self.messages@)
    }

    /// The flattened archive restricted to messages created at or after `ts`.
    pub closed spec fn flat_since(&self, ts: u64) -> Seq<(u64, u64)> {
        flat_since_of(self.messages@, ts)
    }

    /// The position of a channel's `i`-th message in the flattened archive.
    pub closed spec fn flat_pos(&self, c: u64, i: int) -> int {
        blocks_of(self.messages@.take(key_at(self.messages@, c)), None).len() + i
    }

    /// The channel and in-channel offset that own position `k` of the
    /// flattened archive (meaningful for positions in range, see
    /// `lemma_uniform_positions`).
    pub closed spec fn pos_entry(&self, k: int) -> (u64, int) {
        choose|e: (u64, int)|
            self.msgs().dom().contains(#[trigger] e.0) && 0 <= e.1 < self.msgs()[e.0].len()
                && self.flat()[k] == (e.0, self.msgs()[e.0][e.1]) && self.flat_pos(e.0, e.1) == k
    }

    /// How many messages the archive holds, over all channels.
    pub fn total_indexed(&self) -> (n: u128)
        ensures
            n == self.flat().len(),
    {
        let s = &self.messages;
        let m = s.len();
        let mut n: u128 = 0;
        proof {
            assert(s@.take(0) =~= Seq::<(u64, Vec<u64>)>::empty());
        }
        for i in 0..m
            invariant
                m == s@.len(),
                n == blocks_of(s@.take(i as int), None).len(),
                n <= (i as int) * 0xffff_ffff_ffff_ffff,
        {
            let len_i = s[i].1.len();
            proof {
                lemma_blocks_take_step(s@, None, i as int);
                assert(blk(s@[i as int], None).len() == s@[i as int].1@.len());
                assert(n + len_i <= (i as int + 1) * 0xffff_ffff_ffff_ffff) by (nonlinear_arith)
                    requires
                        n <= (i as int) * 0xffff_ffff_ffff_ffff,
                        len_i <= 0xffff_ffff_ffff_ffff,
                        i as int >= 0,
                ;
                assert((i as int + 1) * 0xffff_ffff_ffff_ffff <= 0xffff_ffff_ffff_ffff
                    * 0xffff_ffff_ffff_ffff) by (nonlinear_arith)
                    requires
                        i as int + 1 <= 0xffff_ffff_ffff_ffff,
                ;
            }
            n = n + len_i as u128;
        }
        proof {
            assert(s@.take(m as int) =~= s@);
        }
        n
    }

    /// The `(channel, message)` pair at position `k` of the flattened
    /// archive.
    pub fn select_at(&self, k: u128) -> (p: (u64, u64))
        requires
            k < self.flat().len(),
        ensures
            p == self.flat()[k as int],
    {
        let s = &self.messages;
        let m = s.len();
        let mut rem: u128 = k;
        let mut i: usize = 0;
        proof {
            assert(s@.skip(0) =~= s@);
        }
        while i < m
            invariant
                m == s@.len(),
                i <= m,
                rem < blocks_of(s@.skip(i as int), None).len(),
                blocks_of(s@.skip(i as int), None)[rem as int] == self.flat()[k as int],
            decreases m - i,
        {
            let len_i = s[i].1.len();
            proof {
                lemma_blocks_skip_one(s@, None, i as int);
                assert(blk(s@[i as int], None).len() == s@[i as int].1@.len());
            }
            if rem < len_i as u128 {
                let j = rem as usize;
                proof {
                    assert(blocks_of(s@.skip(i as int), None)[rem as int] == blk(
                        s@[i as int],
                        None,
                    )[rem as int]);
                }
                return (s[i].0, s[i].1[j]);
            }
            rem = rem - len_i as u128;
            i = i + 1;
        }
        proof {
            assert(s@.skip(m as int) =~= Seq::<(u64, Vec<u64>)>::empty());
            assert(false);
        }
        (0, 0)
    }

    /// Draw one message uniformly at random over the union of all channels'
    /// histories: a channel with more history is proportionally more likely.
    /// Returns nothing exactly when the archive is empty.
    pub fn random_message(&self) -> (r: Option<(u64, u64)>)
        ensures
            match r {
                None => self.flat().len() == 0,
                Some(p) => self.flat().len() > 0 && self.flat().contains(p),
            },
    {
        let n = self.total_indexed();
        if n == 0 {
            return None;
        }
        let k = random_below(n);
        let p = self.select_at(k);
        proof {
            assert(self.flat().contains(p)) by {
                assert(self.flat()[k as int] == p);
            }
        }
        Some(p)
    }

    /// Draw one message uniformly at random from one channel's history.
    /// Returns nothing exactly when the channel is unknown or empty.
    pub fn random_message_from(&self, channel_id: u64) -> (r: Option<u64>)
        requires
            self.wf(),
        ensures
            match r {
                Some(mid) => self.msgs().dom().contains(channel_id)
                    && self.msgs()[channel_id].contains(mid),
                None => !self.msgs().dom().contains(channel_id) || self.msgs()[channel_id].len()
                    == 0,
            },
    {
        let found = find_key(&self.messages, channel_id);
        match found {
            Some(i) => {
                proof {
                    lemma_key_at_unique(self.messages@, channel_id, i as int);
                }
                let len_i = self.messages[i].1.len();
                if len_i == 0 {
                    return None;
                }
                let k = random_below(len_i as u128);
                let j = k as usize;
                let mid = self.messages[i].1[j];
                proof {
                    assert(self.msgs()[channel_id].contains(mid)) by {
                        assert(self.msgs()[channel_id][j as int] == mid);
                    }
                }
                Some(mid)
            }
            None => None,
        }
    }

    /// How many messages over all channels were created at or after `ts`.
    pub fn total_since(&self, ts: u64) -> (n: u128)
        ensures
            n == self.flat_since(ts).len(),
    {
        let s = &self.messages;
        let m = s.len();
        let mut n: u128 = 0;
        proof {
            assert(s@.take(0) =~= Seq::<(u64, Vec<u64>)>::empty());
        }
        for i in 0..m
            invariant
                s@ == self.messages@,
                m == s@.len(),
                n == blocks_of(s@.take(i as int), Some(ts)).len(),
                n <= (i as int) * 0xffff_ffff_ffff_ffff,
        {
            let cnt = self.count_since_in(i, ts);
            proof {
                lemma_blocks_take_step(s@, Some(ts), i as int);
                assert(blk(s@[i as int], Some(ts)).len() == since_ids(s@[i as int].1@, ts).len());
                assert(n + cnt <= (i as int + 1) * 0xffff_ffff_ffff_ffff) by (nonlinear_arith)
                    requires
                        n <= (i as int) * 0xffff_ffff_ffff_ffff,
                        cnt <= 0xffff_ffff_ffff_ffff,
                        i as int >= 0,
                ;
                assert((i as int + 1) * 0xffff_ffff_ffff_ffff <= 0xffff_ffff_ffff_ffff
                    * 0xffff_ffff_ffff_ffff) by (nonlinear_arith)
                    requires
                        i as int + 1 <= 0xffff_ffff_ffff_ffff,
                ;
            }
            n = n + cnt as u128;
        }
        proof {
            assert(s@.take(m as int) =~= s@);
        }
        n
    }

    /// How many messages of entry `i`'s channel were created at or after
    /// `ts`.
    fn count_since_in(&self, i: usize, ts: u64) -> (cnt: usize)
        requires
            i < self.messages@.len(),
        ensures
            cnt == since_ids(self.messages@[i as int].1@, ts).len(),
    {
        let v = &self.messages[i].1;
        let len = v.len();
        let mut cnt: usize = 0;
        proof {
            assert(v@.take(0) =~= Seq::<u64>::empty());
        }
        for j in 0..len
            invariant
                len == v@.len(),
                cnt == since_ids(v@.take(j as int), ts).len(),
                cnt <= j,
        {
            proof {
                lemma_since_take_step(v@, ts, j as int);
            }
            if crate::created_at_ms(v[j]) >= ts {
                cnt = cnt + 1;
            }
        }
        proof {
            assert(v@.take(len as int) =~= v@);
        }
        cnt
    }

    /// The `(channel, message)` pair at position `k` of the flattened
    /// archive restricted to messages created at or after `ts`.
    pub fn select_since_at(&self, ts: u64, k: u128) -> (p: (u64, u64))
        requires
            k < self.flat_since(ts).len(),
        ensures
            p == self.flat_since(ts)[k as int],
    {
        let s = &self.messages;
        let m = s.len();
        let mut rem: u128 = k;
        let mut i: usize = 0;
        proof {
            assert(s@.skip(0) =~= s@);
        }
        while i < m
            invariant
                s@ == self.messages@,
                m == s@.len(),
                i <= m,
                rem < blocks_of(s@.skip(i as int), Some(ts)).len(),
                blocks_of(s@.skip(i as int), Some(ts))[rem as int] == self.flat_since(ts)[k as int],
            decreases m - i,
        {
            let cnt = self.count_since_in(i, ts);
            proof {
                lemma_blocks_skip_one(s@, Some(ts), i as int);
                assert(blk(s@[i as int], Some(ts)).len() == since_ids(s@[i as int].1@, ts).len());
            }
            if rem < cnt as u128 {
                let mid = self.pick_since_in(i, ts, rem as usize);
                proof {
                    assert(blocks_of(s@.skip(i as int), Some(ts))[rem as int] == blk(
                        s@[i as int],
                        Some(ts),
                    )[rem as int]);
                }
                return (s[i].0, mid);
            }
            rem = rem - cnt as u128;
            i = i + 1;
        }
        proof {
            assert(s@.skip(m as int) =~= Seq::<(u64, Vec<u64>)>::empty());
            assert(false);
        }
        (0, 0)
    }

    /// The `r`-th identifier of entry `i`'s channel among those created at
    /// or after `ts`.
    fn pick_since_in(&self, i: usize, ts: u64, r: usize) -> (mid: u64)
        requires
            i < self.messages@.len(),
            r < since_ids(self.messages@[i as int].1@, ts).len(),
        ensures
            mid == since_ids(self.messages@[i as int].1@, ts)[r as int],
    {
        let v = &self.messages[i].1;
        let len = v.len();
        let mut cnt: usize = 0;
        let mut j: usize = 0;
        proof {
            assert(v@.take(0) =~= Seq::<u64>::empty());
        }
        while j < len
            invariant
                i < self.messages@.len(),
                v@ == self.messages@[i as int].1@,
                len == v@.len(),
                j <= len,
                cnt == since_ids(v@.take(j as int), ts).len(),
                cnt <= r,
                r < since_ids(v@, ts).len(),
            decreases len - j,
        {
            proof {
                lemma_since_take_step(v@, ts, j as int);
            }
            if crate::created_at_ms(v[j]) >= ts {
                if cnt == r {
                    proof {
                        lemma_since_prefix(v@, ts, j as int + 1);
                        assert(since_ids(v@.take(j as int + 1), ts)[r as int] == v@[j as int]);
                    }
                    return v[j];
                }
                cnt = cnt + 1;
            }
            j = j + 1;
        }
        proof {
            assert(v@.take(len as int) =~= v@);
            assert(false);
        }
        0
    }

    /// Draw one message uniformly at random over all messages, in any
    /// channel, created at or after `ts`. Returns nothing exactly when no
    /// such message is archived.
    pub fn random_message_since(&self, ts: u64) -> (r: Option<(u64, u64)>)
        ensures
            match r {
                None => self.flat_since(ts).len() == 0,
                Some(p) => self.flat_since(ts).len() > 0 && self.flat_since(ts).contains(p),
            },
    {
        let n = self.total_since(ts);
        if n == 0 {
            return None;
        }
        let k = random_below(n);
        let p = self.select_since_at(ts, k);
        proof {
            assert(self.flat_since(ts).contains(p)) by {
                assert(self.flat_since(ts)[k as int] == p);
            }
        }
        Some(p)
    }
}


impl Index {
    /// Law: every archived message owns exactly one position of the
    /// flattened archive, and every position belongs to exactly one archived
    /// message. A draw that is uniform over positions is therefore uniform
    /// over the archived messages, each with weight one.
    pub proof fn lemma_uniform_positions(&self)
        requires
            self.wf(),
        ensures
            forall|c: u64, i: int|
                self.msgs().dom().contains(c) && 0 <= i < self.msgs()[c].len() ==> 0 <= #[trigger] self.flat_pos(c, i)
                    < self.flat().len() && self.flat()[self.flat_pos(c, i)] == (c, self.msgs()[c][i]),
            forall|k: int|
                0 <= k < self.flat().len() ==> {
                    let e = #[trigger] self.pos_entry(k);
                    &&& self.msgs().dom().contains(e.0)
                    &&& 0 <= e.1 < self.msgs()[e.0].len()
                    &&& self.flat()[k] == (e.0, self.msgs()[e.0][e.1])
                    &&& self.flat_pos(e.0, e.1) == k
                },
            forall|c1: u64, i1: int, c2: u64, i2: int|
                self.msgs().dom().contains(c1) && 0 <= i1 < self.msgs()[c1].len()
                    && self.msgs().dom().contains(c2) && 0 <= i2 < self.msgs()[c2].len()
                    && #[trigger] self.flat_pos(c1, i1) == #[trigger] self.flat_pos(c2, i2) ==> c1
                    == c2 && i1 == i2,
    {
        let s = self.messages@;
        assert forall|c: u64, i: int|
            self.msgs().dom().contains(c) && 0 <= i < self.msgs()[c].len() implies 0
            <= #[trigger] self.flat_pos(c, i) < self.flat().len() && self.flat()[self.flat_pos(
            c,
            i,
        )] == (c, self.msgs()[c][i]) by {
            let j = key_at(s, c);
            assert(0 <= j < s.len() && s[j].0 == c);
            lemma_blocks_split(s, None, j);
            lemma_blocks_skip_one(s, None, j);
            lemma_blocks_take_step(s, None, j);
            lemma_blocks_take_mono(s, None, j + 1, s.len() as int);
            assert(s.take(s.len() as int) =~= s);
            assert(blk(s[j], None)[i] == (c, s[j].1@[i]));
        }
        assert forall|k: int| 0 <= k < self.flat().len() implies {
            let e = #[trigger] self.pos_entry(k);
            &&& self.msgs().dom().contains(e.0)
            &&& 0 <= e.1 < self.msgs()[e.0].len()
            &&& self.flat()[k] == (e.0, self.msgs()[e.0][e.1])
            &&& self.flat_pos(e.0, e.1) == k
        } by {
            lemma_blocks_partition(s, None, k);
            let j = choose|j: int|
                0 <= j < s.len() && blocks_of(s.take(j), None).len() <= k < blocks_of(
                    s.take(j),
                    None,
                ).len() + blk(#[trigger] s[j], None).len() && blocks_of(s, None)[k] == blk(
                    s[j],
                    None,
                )[k - blocks_of(s.take(j), None).len()];
            let c = s[j].0;
            let i = k - blocks_of(s.take(j), None).len();
            lemma_key_at_unique(s, c, j);
            assert(blk(s[j], None)[i] == (c, s[j].1@[i]));
            assert(self.msgs().dom().contains(c) && 0 <= i < self.msgs()[c].len() && self.flat()[k]
                == (c, self.msgs()[c][i]) && k == self.flat_pos(c, i));
            assert(exists|e: (u64, int)|
                self.msgs().dom().contains(#[trigger] e.0) && 0 <= e.1 < self.msgs()[e.0].len()
                    && self.flat()[k] == (e.0, self.msgs()[e.0][e.1]) && self.flat_pos(e.0, e.1)
                    == k) by {
                let w = (c, i);
                assert(self.msgs().dom().contains(w.0) && 0 <= w.1 < self.msgs()[w.0].len()
                    && self.flat()[k] == (w.0, self.msgs()[w.0][w.1]) && self.flat_pos(w.0, w.1)
                    == k);
            }
        }
        assert forall|c1: u64, i1: int, c2: u64, i2: int|
            self.msgs().dom().contains(c1) && 0 <= i1 < self.msgs()[c1].len()
                && self.msgs().dom().contains(c2) && 0 <= i2 < self.msgs()[c2].len()
                && #[trigger] self.flat_pos(c1, i1) == #[trigger] self.flat_pos(c2, i2) implies c1
            == c2 && i1 == i2 by {
            let j1 = key_at(s, c1);
            let j2 = key_at(s, c2);
            assert(0 <= j1 < s.len() && s[j1].0 == c1);
            assert(0 <= j2 < s.len() && s[j2].0 == c2);
            if c1 == c2 {
                assert(i1 == i2);
            } else {
                assert(j1 != j2);
                if j1 < j2 {
                    lemma_blocks_take_step(s, None, j1);
                    lemma_blocks_take_mono(s, None, j1 + 1, j2);
                    assert(blk(s[j1], None).len() == s[j1].1@.len());
                    assert(false);
                } else {
                    lemma_blocks_take_step(s, None, j2);
                    lemma_blocks_take_mono(s, None, j2 + 1, j1);
                    assert(blk(s[j2], None).len() == s[j2].1@.len());
                    assert(false);
                }
            }
        }
    }

    /// Law: a channel absent from the archive contributes no position to
    /// the flattened archive, so it carries no weight in a uniform draw.
    pub proof fn lemma_channel_unsampled(&self, channel_id: u64)
        requires
            self.wf(),
            !self.msgs().dom().contains(channel_id),
        ensures
            forall|k: int|
                0 <= k < self.flat().len() ==> (#[trigger] self.flat()[k]).0 != channel_id,
    {
        assert(!has_key(self.messages@, channel_id));
        lemma_blocks_no_key(self.messages@, None, channel_id);
    }

    /// Law: once a channel is removed, a draw restricted to it comes back
    /// empty (its channel is unknown to the archive) and it carries no
    /// weight in the uniform draw: no position of the flattened archive
    /// belongs to it. `remove_channel` establishes the premise.
    pub proof fn lemma_removed_channel(pre: &Index, post: &Index, channel_id: u64)
        requires
            pre.wf(),
            post.wf(),
            post.msgs() == pre.msgs().remove(channel_id),
        ensures
            !post.msgs().dom().contains(channel_id),
            forall|k: int|
                0 <= k < post.flat().len() ==> (#[trigger] post.flat()[k]).0 != channel_id,
    {
        post.lemma_channel_unsampled(channel_id);
    }

    /// Law: a time bound at or below the creation time of every archived
    /// message does not restrict the archive: the time-restricted flattened
    /// view is the whole flattened view, position for position, so a
    /// bounded draw with such a bound ranges over exactly the positions of
    /// the unbounded one.
    pub proof fn lemma_since_unrestricted(&self, ts: u64)
        requires
            self.wf(),
            forall|c: u64, i: int|
                self.msgs().dom().contains(c) && 0 <= i < self.msgs()[c].len() ==> snowflake_ms(
                    #[trigger] self.msgs()[c][i],
                ) >= ts,
        ensures
            self.flat_since(ts) == self.flat(),
    {
        let s = self.messages@;
        assert forall|j: int, i: int|
            0 <= j < s.len() && 0 <= i < (#[trigger] s[j]).1@.len() implies snowflake_ms(
            #[trigger] s[j].1@[i]) >= ts by {
            let c = s[j].0;
            lemma_key_at_unique(s, c, j);
            assert(self.msgs().dom().contains(c));
            assert(self.msgs()[c] == s[j].1@);
            assert(snowflake_ms(self.msgs()[c][i]) >= ts);
        }
        lemma_blocks_since_all(s, ts);
    }

    /// Law: the time-restricted archive holds exactly the archived messages
    /// created at or after `ts`: each of its entries is an archived message
    /// passing the filter, and it is empty exactly when no archived message
    /// passes.
    pub proof fn lemma_since_view(&self, ts: u64)
        requires
            self.wf(),
        ensures
            forall|k: int|
                0 <= k < self.flat_since(ts).len() ==> self.msgs().dom().contains(
                    (#[trigger] self.flat_since(ts)[k]).0,
                ) && self.msgs()[self.flat_since(ts)[k].0].contains(self.flat_since(ts)[k].1)
                    && snowflake_ms(self.flat_since(ts)[k].1) >= ts,
            (self.flat_since(ts).len() == 0 <==> forall|c: u64, i: int|
                self.msgs().dom().contains(c) && 0 <= i < self.msgs()[c].len()
                    ==> snowflake_ms(#[trigger] self.msgs()[c][i]) < ts),
    {
        let s = self.messages@;
        assert forall|k: int| 0 <= k < self.flat_since(ts).len() implies self.msgs().dom().contains(
            (#[trigger] self.flat_since(ts)[k]).0,
        ) && self.msgs()[self.flat_since(ts)[k].0].contains(self.flat_since(ts)[k].1)
            && snowflake_ms(self.flat_since(ts)[k].1) >= ts by {
            lemma_blocks_partition(s, Some(ts), k);
            let j = choose|j: int|
                0 <= j < s.len() && blocks_of(s.take(j), Some(ts)).len() <= k < blocks_of(
                    s.take(j),
                    Some(ts),
                ).len() + blk(#[trigger] s[j], Some(ts)).len() && blocks_of(s, Some(ts))[k] == blk(
                    s[j],
                    Some(ts),
                )[k - blocks_of(s.take(j), Some(ts)).len()];
            let c = s[j].0;
            let off = k - blocks_of(s.take(j), Some(ts)).len();
            lemma_key_at_unique(s, c, j);
            lemma_since_members(s[j].1@, ts);
            assert(blk(s[j], Some(ts))[off] == (c, since_ids(s[j].1@, ts)[off]));
            assert(self.msgs()[c].contains(since_ids(s[j].1@, ts)[off]));
        }
        lemma_blocks_since_all_late(s, ts);
        if self.flat_since(ts).len() == 0 {
            assert forall|c: u64, i: int|
                self.msgs().dom().contains(c) && 0 <= i < self.msgs()[c].len() implies snowflake_ms(
                #[trigger] self.msgs()[c][i]) < ts by {
                let j = key_at(s, c);
                assert(0 <= j < s.len() && s[j].0 == c);
                assert(snowflake_ms(s[j].1@[i]) < ts);
            }
        } else {
            assert(!(forall|j: int, i: int|
                0 <= j < s.len() && 0 <= i < (#[trigger] s[j]).1@.len() ==> snowflake_ms(
                    #[trigger] s[j].1@[i],
                ) < ts));
            let (j, i) = choose|j: int, i: int|
                !(0 <= j < s.len() && 0 <= i < (#[trigger] s[j]).1@.len() ==> snowflake_ms(
                    #[trigger] s[j].1@[i],
                ) < ts);
            let c = s[j].0;
            lemma_key_at_unique(s, c, j);
            assert(self.msgs().dom().contains(c) && 0 <= i < self.msgs()[c].len() && !(snowflake_ms(
                self.msgs()[c][i],
            ) < ts));
        }
    }
}

/// The time-restricted view of the entries is empty exactly when every
/// identifier of every entry fails the filter.
proof fn lemma_blocks_since_all_late(s: Seq<(u64, Vec<u64>)>, ts: u64)
    ensures
        blocks_of(s, Some(ts)).len() == 0 <==> forall|j: int, i: int|
            0 <= j < s.len() && 0 <= i < (#[trigger] s[j]).1@.len() ==> snowflake_ms(
                #[trigger] s[j].1@[i],
            ) < ts,
    decreases s.len(),
{
    if s.len() > 0 {
        let dl = s.drop_last();
        lemma_blocks_since_all_late(dl, ts);
        crate::flatten::lemma_since_empty(s.last().1@, ts);
        assert(s[s.len() - 1] == s.last());
        assert forall|j: int| 0 <= j < dl.len() implies dl[j] == s[j] by {}
        if blocks_of(s, Some(ts)).len() == 0 {
            assert(blocks_of(dl, Some(ts)).len() == 0);
            assert(blk(s.last(), Some(ts)).len() == 0);
            assert(since_ids(s.last().1@, ts).len() == 0);
            assert forall|j: int, i: int|
                0 <= j < s.len() && 0 <= i < (#[trigger] s[j]).1@.len() implies snowflake_ms(
                #[trigger] s[j].1@[i]) < ts by {
                if j < dl.len() {
                    assert(s[j] == dl[j]);
                } else {
                    assert(s[j] == s.last());
                }
            }
        } else {
        }
        if forall|j: int, i: int|
            0 <= j < s.len() && 0 <= i < (#[trigger] s[j]).1@.len() ==> snowflake_ms(
                #[trigger] s[j].1@[i],
            ) < ts {
            assert forall|j: int, i: int|
                0 <= j < dl.len() && 0 <= i < (#[trigger] dl[j]).1@.len() implies snowflake_ms(
                #[trigger] dl[j].1@[i]) < ts by {
                assert(s[j] == dl[j]);
                assert(s[j].1@[i] == dl[j].1@[i]);
            }
            assert forall|i: int| 0 <= i < s.last().1@.len() implies snowflake_ms(
                #[trigger] s.last().1@[i]) < ts by {
                assert(s[s.len() - 1].1@[i] == s.last().1@[i]);
            }
            assert(since_ids(s.last().1@, ts).len() == 0);
            assert(blocks_of(s, Some(ts)).len() == 0);
        }
    }
}

} // verus!
