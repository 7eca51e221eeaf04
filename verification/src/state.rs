//! The tracked-channel state and the activity-ordering cache: which user
//! owns which monologue channel, when the last scheduled draw ran, and the
//! cached rank last written for each channel.

use vstd::prelude::*;

use crate::assoc::{
    check_unique_keys, find_key, lemma_key_at_unique, map_of, remove_key, set_key, unique_keys,
};

verus! {

/// The least cached rank among the pairs (zero when there are none).
pub open spec fn min_val(s: Seq<(u64, u16)>) -> u16
    decreases s.len(),
{
    if s.len() == 0 {
        0
    } else if s.len() == 1 {
        s[0].1
    } else if s.last().1 < min_val(s.drop_last()) {
        s.last().1
    } else {
        min_val(s.drop_last())
    }
}

/// The minimum is attained and bounds every cached rank.
proof fn lemma_min_val(s: Seq<(u64, u16)>)
    requires
        s.len() > 0,
    ensures
        exists|j: int| 0 <= j < s.len() && (#[trigger] s[j]).1 == min_val(s),
        forall|j: int| 0 <= j < s.len() ==> (#[trigger] s[j]).1 >= min_val(s),
    decreases s.len(),
{
    if s.len() == 1 {
        assert(s[0].1 == min_val(s));
    } else {
        let dl = s.drop_last();
        lemma_min_val(dl);
        let w = choose|j: int| 0 <= j < dl.len() && (#[trigger] dl[j]).1 == min_val(dl);
        assert(s[w] == dl[w]);
        assert(s[s.len() - 1] == s.last());
        if s.last().1 < min_val(dl) {
            assert(s[s.len() - 1].1 == min_val(s));
        } else {
            assert(s[w].1 == min_val(s));
        }
        assert forall|j: int| 0 <= j < s.len() implies (#[trigger] s[j]).1 >= min_val(s) by {
            if j < s.len() - 1 {
                assert(s[j] == dl[j]);
            }
        }
    }
}

/// What the caller of `plan_move` should do to bring a channel to the top
/// of the ordering.
#[derive(Clone, Copy, Debug, PartialEq, Eq, Structural)]
pub enum MoveAction {
    /// The channel already sorts first; write nothing.
    AlreadyTop,
    /// The low end of the rank range is exhausted; reinitialize all ranks,
    /// then plan again.
    NeedsReset,
    /// Write this rank for the channel, externally and into the cache.
    Assign(u16),
}

/// Tracked channels, the last scheduled-draw instant, and the cached ranks.
pub struct State {
    /// Each user's monologue channel.
    channels: Vec<(u64, u64)>,
    /// When the scheduled draw last ran, as milliseconds since the Unix
    /// epoch.
    last_trigger: Option<u64>,
    /// The rank last written to the channel service for each channel. Lower
    /// ranks sort first; the cache only serves to hand out the next lower
    /// rank without refetching every channel.
    positions: Vec<(u64, u16)>,
}

impl State {
    /// Both association vectors have unique keys.
    pub closed spec fn wf(&self) -> bool {
        unique_keys(self.channels@) && unique_keys(self.positions@)
    }

    /// The user-to-channel association.
    pub closed spec fn channels_map(&self) -> Map<u64, u64> {
        map_of(self.channels@)
    }

    /// The user-to-channel pairs in their stored order.
    pub closed spec fn channel_pairs(&self) -> Seq<(u64, u64)> {
        self.channels@
    }

    /// Whether some user tracks the channel.
    pub open spec fn tracks_channel(&self, channel_id: u64) -> bool {
        exists|u: u64|
            #[trigger] self.channels_map().dom().contains(u) && self.channels_map()[u] == channel_id
    }

    /// The cached channel ranks.
    pub closed spec fn positions_map(&self) -> Map<u64, u16> {
        map_of(self.positions@)
    }

    /// The last scheduled-draw instant.
    pub closed spec fn last_trigger_spec(&self) -> Option<u64> {
        self.last_trigger
    }

    /// The least cached rank (zero when the cache is empty).
    pub closed spec fn min_position(&self) -> u16 {
        min_val(self.positions@)
    }

    /// What `next_position` returns: one below the least cached rank, or
    /// zero when the cache is empty or the least rank is already zero.
    pub open spec fn next_position_spec(&self) -> u16 {
        if self.min_position() == 0 {
            0
        } else {
            (self.min_position() - 1) as u16
        }
    }

    /// A state with nothing tracked.
    pub fn new() -> (r: State)
        ensures
            r.wf(),
            r.channels_map() == Map::<u64, u64>::empty(),
            r.positions_map() == Map::<u64, u16>::empty(),
            r.last_trigger_spec() is None,
    {
        let r = State { channels: Vec::new(), last_trigger: None, positions: Vec::new() };
        proof {
            assert(r.channels_map() =~= Map::<u64, u64>::empty());
            assert(r.positions_map() =~= Map::<u64, u16>::empty());
        }
        r
    }

    /// Rebuild a state from snapshot entries. Returns `None` when either
    /// entry list binds a key twice, which a well-formed snapshot never
    /// does.
    pub fn from_entries(
        channels: Vec<(u64, u64)>,
        last_trigger: Option<u64>,
        positions: Vec<(u64, u16)>,
    ) -> (r: Option<State>)
        ensures
            match r {
                Some(st) => {
                    &&& unique_keys(channels@)
                    &&& unique_keys(positions@)
                    &&& st.wf()
                    &&& st.channels_map() == map_of(channels@)
                    &&& st.positions_map() == map_of(positions@)
                    &&& st.last_trigger_spec() == last_trigger
                },
                None => !unique_keys(channels@) || !unique_keys(positions@),
            },
    {
        if !check_unique_keys(&channels) {
            return None;
        }
        if !check_unique_keys(&positions) {
            return None;
        }
        Some(State { channels, last_trigger, positions })
    }

    /// The channel entries, for writing a snapshot.
    pub fn channel_entries(&self) -> (r: &Vec<(u64, u64)>)
        requires
            self.wf(),
        ensures
            r@ == self.channel_pairs(),
            unique_keys(r@),
            map_of(r@) == self.channels_map(),
    {
        &self.channels
    }

    /// The rank entries, for writing a snapshot.
    pub fn position_entries(&self) -> (r: &Vec<(u64, u16)>)
        requires
            self.wf(),
        ensures
            unique_keys(r@),
            map_of(r@) == self.positions_map(),
    {
        &self.positions
    }

    /// Every tracked channel, one per tracking user: the channel of each
    /// stored pair, in stored order.
    pub fn get_channels(&self) -> (r: Vec<u64>)
        requires
            self.wf(),
        ensures
            r@ == self.channel_pairs().map(|i: int, p: (u64, u64)| p.1),
            forall|i: int| 0 <= i < r@.len() ==> self.tracks_channel(#[trigger] r@[i]),
            forall|u: u64|
                self.channels_map().dom().contains(u) ==> r@.contains(
                    #[trigger] self.channels_map()[u],
                ),
    {
        let n = self.channels.len();
        let mut r: Vec<u64> = Vec::new();
        for i in 0..n
            invariant
                self.wf(),
                n == self.channels@.len(),
                r@.len() == i,
                forall|j: int| 0 <= j < i ==> #[trigger] r@[j] == self.channels@[j].1,
        {
            r.push(self.channels[i].1);
        }
        proof {
            assert(r@ =~= self.channel_pairs().map(|i: int, p: (u64, u64)| p.1));
            assert forall|i: int| 0 <= i < r@.len() implies self.tracks_channel(
                #[trigger] r@[i],
            ) by {
                lemma_key_at_unique(self.channels@, self.channels@[i].0, i);
                let u = self.channels@[i].0;
                assert(self.channels_map().dom().contains(u) && r@[i] == self.channels_map()[u]);
            }
            assert forall|u: u64| self.channels_map().dom().contains(u) implies r@.contains(
                #[trigger] self.channels_map()[u],
            ) by {
                let j = choose|j: int|
                    0 <= j < self.channels@.len() && (#[trigger] self.channels@[j]).0 == u;
                lemma_key_at_unique(self.channels@, u, j);
                assert(r@[j] == self.channels_map()[u]);
            }
        }
        r
    }

    /// The tracked channel of a user, if one exists.
    pub fn get_channel(&self, user_id: u64) -> (r: Option<u64>)
        requires
            self.wf(),
        ensures
            r == if self.channels_map().dom().contains(user_id) {
                Some(self.channels_map()[user_id])
            } else {
                None::<u64>
            },
    {
        let found = find_key(&self.channels, user_id);
        match found {
            Some(i) => {
                proof {
                    lemma_key_at_unique(self.channels@, user_id, i as int);
                }
                Some(self.channels[i].1)
            }
            None => None,
        }
    }

    /// Whether a channel is some user's tracked channel.
    pub fn should_track(&self, channel_id: u64) -> (b: bool)
        requires
            self.wf(),
        ensures
            b == self.tracks_channel(channel_id),
    {
        let n = self.channels.len();
        for i in 0..n
            invariant
                self.wf(),
                n == self.channels@.len(),
                forall|j: int| 0 <= j < i ==> (#[trigger] self.channels@[j]).1 != channel_id,
        {
            if self.channels[i].1 == channel_id {
                proof {
                    lemma_key_at_unique(self.channels@, self.channels@[i as int].0, i as int);
                    let u = self.channels@[i as int].0;
                    assert(self.channels_map().dom().contains(u) && self.channels_map()[u]
                        == channel_id);
                    assert(self.tracks_channel(channel_id));
                }
                return true;
            }
        }
        proof {
            if self.tracks_channel(channel_id) {
                let u = choose|u: u64|
                    #[trigger] self.channels_map().dom().contains(u) && self.channels_map()[u]
                        == channel_id;
                let j = choose|j: int|
                    0 <= j < self.channels@.len() && (#[trigger] self.channels@[j]).0 == u;
                lemma_key_at_unique(self.channels@, u, j);
                assert(false);
            }
        }
        false
    }

    /// Track a channel as a user's monologue channel. Ranks are not touched:
    /// the caller assigns one separately when ordering is enabled.
    pub fn set_channel(&mut self, user_id: u64, channel_id: u64)
        requires
            old(self).wf(),
        ensures
            final(self).wf(),
            final(self).channels_map() == old(self).channels_map().insert(user_id, channel_id),
            final(self).positions_map() == old(self).positions_map(),
            final(self).last_trigger_spec() == old(self).last_trigger_spec(),
    {
        set_key(&mut self.channels, user_id, channel_id);
    }

    /// Stop tracking a channel: the first user found owning it is dropped,
    /// together with the channel's cached rank. Returns the user, or nothing
    /// (and changes nothing) when no user owns the channel.
    pub fn remove_channel(&mut self, channel_id: u64) -> (r: Option<u64>)
        requires
            old(self).wf(),
        ensures
            final(self).wf(),
            final(self).last_trigger_spec() == old(self).last_trigger_spec(),
            match r {
                Some(u) => {
                    &&& old(self).channels_map().dom().contains(u)
                    &&& old(self).channels_map()[u] == channel_id
                    &&& final(self).channels_map() == old(self).channels_map().remove(u)
                    &&& final(self).positions_map() == old(self).positions_map().remove(channel_id)
                },
                None => {
                    &&& !old(self).tracks_channel(channel_id)
                    &&& final(self).channels_map() == old(self).channels_map()
                    &&& final(self).positions_map() == old(self).positions_map()
                },
            },
    {
        let owner = self.find_owner(channel_id);
        match owner {
            Some(u) => {
                let _ = remove_key(&mut self.channels, u);
                let _ = remove_key(&mut self.positions, channel_id);
                Some(u)
            }
            None => None,
        }
    }

    /// The first user found tracking the channel.
    fn find_owner(&self, channel_id: u64) -> (r: Option<u64>)
        requires
            self.wf(),
        ensures
            match r {
                Some(u) => self.channels_map().dom().contains(u) && self.channels_map()[u]
                    == channel_id,
                None => !self.tracks_channel(channel_id),
            },
    {
        let n = self.channels.len();
        for i in 0..n
            invariant
                self.wf(),
                n == self.channels@.len(),
                forall|j: int| 0 <= j < i ==> (#[trigger] self.channels@[j]).1 != channel_id,
        {
            if self.channels[i].1 == channel_id {
                proof {
                    lemma_key_at_unique(self.channels@, self.channels@[i as int].0, i as int);
                }
                return Some(self.channels[i].0);
            }
        }
        proof {
            if self.tracks_channel(channel_id) {
                let u = choose|u: u64|
                    #[trigger] self.channels_map().dom().contains(u) && self.channels_map()[u]
                        == channel_id;
                let j = choose|j: int|
                    0 <= j < self.channels@.len() && (#[trigger] self.channels@[j]).0 == u;
                lemma_key_at_unique(self.channels@, u, j);
                assert(false);
            }
        }
        None
    }

    /// Stop tracking a user's channel, dropping its cached rank as well.
    /// Returns the channel, or nothing (and changes nothing) when the user
    /// tracks none.
    pub fn remove_channel_for(&mut self, user_id: u64) -> (r: Option<u64>)
        requires
            old(self).wf(),
        ensures
            final(self).wf(),
            final(self).last_trigger_spec() == old(self).last_trigger_spec(),
            match r {
                Some(c) => {
                    &&& old(self).channels_map().dom().contains(user_id)
                    &&& old(self).channels_map()[user_id] == c
                    &&& final(self).channels_map() == old(self).channels_map().remove(user_id)
                    &&& final(self).positions_map() == old(self).positions_map().remove(c)
                },
                None => {
                    &&& !old(self).channels_map().dom().contains(user_id)
                    &&& final(self).channels_map() == old(self).channels_map()
                    &&& final(self).positions_map() == old(self).positions_map()
                },
            },
    {
        let removed = remove_key(&mut self.channels, user_id);
        match removed {
            Some(c) => {
                let _ = remove_key(&mut self.positions, c);
                Some(c)
            }
            None => None,
        }
    }

    /// When the scheduled draw last ran.
    pub fn last_trigger(&self) -> (r: Option<u64>)
        ensures
            r == self.last_trigger_spec(),
    {
        self.last_trigger
    }

    /// Record that the scheduled draw just ran, at `now_ms`.
    pub fn just_triggered(&mut self, now_ms: u64)
        requires
            old(self).wf(),
        ensures
            final(self).wf(),
            final(self).last_trigger_spec() == Some(now_ms),
            final(self).channels_map() == old(self).channels_map(),
            final(self).positions_map() == old(self).positions_map(),
    {
        self.last_trigger = Some(now_ms);
    }

    /// The cached rank of a channel, if one is cached.
    pub fn channel_position(&self, channel_id: u64) -> (r: Option<u16>)
        requires
            self.wf(),
        ensures
            r == if self.positions_map().dom().contains(channel_id) {
                Some(self.positions_map()[channel_id])
            } else {
                None::<u16>
            },
    {
        let found = find_key(&self.positions, channel_id);
        match found {
            Some(i) => {
                proof {
                    lemma_key_at_unique(self.positions@, channel_id, i as int);
                }
                Some(self.positions[i].1)
            }
            None => None,
        }
    }

    /// Cache the rank last written for a channel.
    pub fn set_channel_position(&mut self, channel_id: u64, position: u16)
        requires
            old(self).wf(),
        ensures
            final(self).wf(),
            final(self).positions_map() == old(self).positions_map().insert(channel_id, position),
            final(self).channels_map() == old(self).channels_map(),
            final(self).last_trigger_spec() == old(self).last_trigger_spec(),
    {
        set_key(&mut self.positions, channel_id, position);
    }

    /// The next rank to hand out: one below the least cached rank. Zero
    /// signals that the caller must reinitialize the ranks first; it is
    /// returned when the cache is empty or the least cached rank is zero
    /// (zero minus one cannot be represented), and also when the least
    /// cached rank is one.
    pub fn next_position(&self) -> (r: u16)
        requires
            self.wf(),
        ensures
            r == self.next_position_spec(),
    {
        let n = self.positions.len();
        if n == 0 {
            return 0;
        }
        let mut m: u16 = self.positions[0].1;
        proof {
            assert(self.positions@.take(1) =~= seq![self.positions@[0]]);
        }
        for i in 1..n
            invariant
                self.wf(),
                n == self.positions@.len(),
                1 <= i <= n,
                m == min_val(self.positions@.take(i as int)),
        {
            proof {
                assert(self.positions@.take(i + 1).drop_last() =~= self.positions@.take(i as int));
                assert(self.positions@.take(i + 1).last() == self.positions@[i as int]);
            }
            if self.positions[i].1 < m {
                m = self.positions[i].1;
            }
        }
        proof {
            assert(self.positions@.take(n as int) =~= self.positions@);
        }
        if m == 0 {
            0
        } else {
            m - 1
        }
    }

    /// Law: the least cached rank is attained and bounds every cached rank,
    /// and `next_position` returns zero exactly when the cache is empty or
    /// that least rank is zero or one.
    pub proof fn lemma_next_position(&self)
        requires
            self.wf(),
        ensures
            (forall|c: u64| !(#[trigger] self.positions_map().dom().contains(c)))
                ==> self.next_position_spec() == 0,
            (exists|c: u64| #[trigger] self.positions_map().dom().contains(c)) ==> {
                &&& exists|c: u64|
                    #[trigger] self.positions_map().dom().contains(c) && self.positions_map()[c]
                        == self.min_position()
                &&& forall|c: u64|
                    #[trigger] self.positions_map().dom().contains(c) ==> self.positions_map()[c]
                        >= self.min_position()
                &&& (self.next_position_spec() == 0 <==> self.min_position() <= 1)
            },
    {
        let s = self.positions@;
        if exists|c: u64| #[trigger] self.positions_map().dom().contains(c) {
            let c0 = choose|c: u64| #[trigger] self.positions_map().dom().contains(c);
            let j0 = choose|j: int| 0 <= j < s.len() && (#[trigger] s[j]).0 == c0;
            lemma_min_val(s);
            let w = choose|j: int| 0 <= j < s.len() && (#[trigger] s[j]).1 == min_val(s);
            lemma_key_at_unique(s, s[w].0, w);
            assert(self.positions_map().dom().contains(s[w].0) && self.positions_map()[s[w].0]
                == self.min_position());
            assert forall|c: u64|
                #[trigger] self.positions_map().dom().contains(c) implies self.positions_map()[c]
                >= self.min_position() by {
                let j = choose|j: int| 0 <= j < s.len() && (#[trigger] s[j]).0 == c;
                lemma_key_at_unique(s, c, j);
            }
        } else {
            if s.len() > 0 {
                lemma_key_at_unique(s, s[0].0, 0);
                assert(self.positions_map().dom().contains(s[0].0));
                assert(false);
            }
        }
    }

    /// Law: ranks handed out between resets strictly decrease. Recording the
    /// positive rank that `next_position` returned, for any channel, makes
    /// the next call return exactly one less.
    pub proof fn lemma_next_position_decreases(pre: &State, post: &State, channel_id: u64)
        requires
            pre.wf(),
            post.wf(),
            pre.next_position_spec() > 0,
            post.positions_map() == pre.positions_map().insert(
                channel_id,
                pre.next_position_spec(),
            ),
        ensures
            post.next_position_spec() == pre.next_position_spec() - 1,
    {
        let p = pre.next_position_spec();
        pre.lemma_next_position();
        post.lemma_next_position();
        assert(pre.positions_map().dom().contains(
            choose|c: u64| #[trigger] pre.positions_map().dom().contains(c) && pre.positions_map()[c]
                == pre.min_position(),
        )) by {
            if pre.positions@.len() == 0 {
                assert(pre.min_position() == 0);
                assert(false);
            } else {
                lemma_key_at_unique(pre.positions@, pre.positions@[0].0, 0);
                assert(exists|c: u64| #[trigger] pre.positions_map().dom().contains(c));
            }
        }
        assert(post.positions_map().dom().contains(channel_id));
        assert(exists|c: u64| #[trigger] post.positions_map().dom().contains(c));
        assert(post.positions_map()[channel_id] == p);
        assert(post.min_position() <= p) by {
            assert(post.positions_map()[channel_id] >= post.min_position());
        }
        assert(post.min_position() >= p) by {
            let cm = choose|c: u64|
                #[trigger] post.positions_map().dom().contains(c) && post.positions_map()[c]
                    == post.min_position();
            if cm == channel_id {
            } else {
                assert(pre.positions_map().dom().contains(cm));
                assert(pre.positions_map()[cm] >= pre.min_position());
                assert(post.positions_map()[cm] == pre.positions_map()[cm]);
            }
        }
        assert(post.min_position() == p);
    }

    /// Decide how to bring a channel whose live rank is `live_pos` to the
    /// top of the ordering: nothing if it already sorts first, a rank
    /// reinitialization if the low end of the range is exhausted, else the
    /// rank to write.
    pub fn plan_move(&self, live_pos: u16) -> (a: MoveAction)
        requires
            self.wf(),
        ensures
            a == (if live_pos > 0 && self.next_position_spec() == live_pos - 1 {
                MoveAction::AlreadyTop
            } else if self.next_position_spec() == 0 {
                MoveAction::NeedsReset
            } else {
                MoveAction::Assign(self.next_position_spec())
            }),
    {
        let np = self.next_position();
        if live_pos > 0 && np == live_pos - 1 {
            MoveAction::AlreadyTop
        } else if np == 0 {
            MoveAction::NeedsReset
        } else {
            MoveAction::Assign(np)
        }
    }
}

} // verus!
