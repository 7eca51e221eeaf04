//! The paginated indexing protocol: one session per channel, driven a page
//! at a time by a caller that fetches pages from the channel service.
//!
//! A channel with no recorded cursor is walked backward from its newest page
//! (backfill); a channel with a cursor is walked forward from it. Every page
//! is filtered and appended to the channel's history; when the empty page
//! ends the run, the pending "latest" identifier becomes the channel's new
//! cursor.

use vstd::prelude::*;

use crate::index::Index;
use crate::message::{spec_is_valid, MessageRecord};

verus! {

/// What the caller should fetch next: the newest page, the page strictly
/// older than a message, or the page strictly newer than one.
#[derive(Clone, Copy, Debug, PartialEq, Eq, Structural)]
pub enum PageRequest {
    Newest,
    Before(u64),
    After(u64),
}

/// One channel's indexing run.
pub struct IndexSession {
    channel_id: u64,
    forward: bool,
    latest: Option<u64>,
    done: bool,
}

impl IndexSession {
    /// The channel this session indexes.
    pub closed spec fn channel(&self) -> u64 {
        self.channel_id
    }

    /// Whether the session walks forward from a cursor (else it backfills
    /// backward from the newest page).
    pub closed spec fn is_forward(&self) -> bool {
        self.forward
    }

    /// The identifier that will become the cursor when the run completes.
    pub closed spec fn latest_spec(&self) -> Option<u64> {
        self.latest
    }

    /// Whether the run has completed.
    pub closed spec fn is_done(&self) -> bool {
        self.done
    }
}

/// The identifiers of the messages of a page that pass the validity filter,
/// in page order.
pub open spec fn valid_ids(page: Seq<MessageRecord>) -> Seq<u64>
    decreases page.len(),
{
    if page.len() == 0 {
        Seq::empty()
    } else if spec_is_valid(page.last()) {
        valid_ids(page.drop_last()).push(page.last().id)
    } else {
        valid_ids(page.drop_last())
    }
}

/// How one non-empty page moves the pending cursor: forward runs track the
/// first (newest) message of every page; a backfill records the first
/// message of its very first page and then holds it.
pub open spec fn step_latest(latest: Option<u64>, forward: bool, page: Seq<MessageRecord>) -> Option<
    u64,
> {
    if forward {
        Some(page.first().id)
    } else if latest is None {
        Some(page.first().id)
    } else {
        latest
    }
}

/// The pending cursor after feeding a whole run of non-empty pages.
pub open spec fn latest_after(
    latest0: Option<u64>,
    forward: bool,
    pages: Seq<Seq<MessageRecord>>,
) -> Option<u64>
    decreases pages.len(),
{
    if pages.len() == 0 {
        latest0
    } else {
        step_latest(latest_after(latest0, forward, pages.drop_last()), forward, pages.last())
    }
}

/// Law: a backfill (no prior cursor) pends the identifier of the first
/// message of its very first page, however many non-empty pages follow; the
/// empty page that ends the run then commits exactly that identifier as the
/// channel's cursor (see `Index::feed_page`).
pub proof fn lemma_backfill_latest(pages: Seq<Seq<MessageRecord>>)
    requires
        pages.len() > 0,
        forall|i: int| 0 <= i < pages.len() ==> (#[trigger] pages[i]).len() > 0,
    ensures
        latest_after(None, false, pages) == Some(pages[0].first().id),
    decreases pages.len(),
{
    if pages.len() == 1 {
        assert(pages.drop_last() =~= Seq::<Seq<MessageRecord>>::empty());
        assert(pages.last() == pages[0]);
    } else {
        let dl = pages.drop_last();
        assert forall|i: int| 0 <= i < dl.len() implies (#[trigger] dl[i]).len() > 0 by {
            assert(dl[i] == pages[i]);
        }
        lemma_backfill_latest(dl);
        assert(dl[0] == pages[0]);
    }
}

/// Law: a forward run pends the identifier of the first (newest) message of
/// the last page it fetched.
pub proof fn lemma_forward_latest(latest0: Option<u64>, pages: Seq<Seq<MessageRecord>>)
    requires
        pages.len() > 0,
    ensures
        latest_after(latest0, true, pages) == Some(pages.last().first().id),
{
}

impl Index {
    /// Make sure a channel has a history entry, empty if it had none.
    fn ensure_channel(&mut self, channel_id: u64)
        requires
            old(self).wf(),
        ensures
            final(self).wf(),
            final(self).cursors() == old(self).cursors(),
            final(self).msgs() == old(self).msgs().insert(
                channel_id,
                if old(self).msgs().dom().contains(channel_id) {
                    old(self).msgs()[channel_id]
                } else {
                    Seq::<u64>::empty()
                },
            ),
    {
        let known = self.has_channel(channel_id);
        if !known {
            let empty: Vec<u64> = Vec::new();
            self.put_channel_entry(channel_id, empty);
        } else {
            proof {
                assert(self.msgs() =~= self.msgs().insert(channel_id, self.msgs()[channel_id]));
            }
        }
    }

    /// Start an indexing run for a channel: forward from the recorded
    /// cursor, or a backward backfill from the newest page when none is
    /// recorded.
    pub fn begin_index(&self, channel_id: u64) -> (r: (IndexSession, PageRequest))
        requires
            self.wf(),
        ensures
            r.0.channel() == channel_id,
            !r.0.is_done(),
            r.0.latest_spec() is None,
            r.0.is_forward() == self.cursors().dom().contains(channel_id),
            r.1 == if self.cursors().dom().contains(channel_id) {
                PageRequest::After(self.cursors()[channel_id])
            } else {
                PageRequest::Newest
            },
    {
        let cursor = self.last_indexed(channel_id);
        match cursor {
            Some(c) => (
                IndexSession { channel_id, forward: true, latest: None, done: false },
                PageRequest::After(c),
            ),
            None => (
                IndexSession { channel_id, forward: false, latest: None, done: false },
                PageRequest::Newest,
            ),
        }
    }

    /// Feed the next fetched page (newest message first) into a run. A
    /// non-empty page is filtered and appended to the channel's history and
    /// the next request is returned; the empty page ends the run, commits
    /// the pending cursor if one was recorded, and returns nothing.
    pub fn feed_page(&mut self, session: &mut IndexSession, page: &Vec<MessageRecord>) -> (r:
        Option<PageRequest>)
        requires
            old(self).wf(),
            !old(session).is_done(),
            forall|i: int|
                0 <= i < page@.len() ==> (#[trigger] page@[i]).channel_id == old(session).channel(),
        ensures
            final(self).wf(),
            final(session).channel() == old(session).channel(),
            final(session).is_forward() == old(session).is_forward(),
            page@.len() == 0 ==> {
                &&& final(session).is_done()
                &&& final(session).latest_spec() == old(session).latest_spec()
                &&& final(self).msgs() == old(self).msgs()
                &&& final(self).cursors() == (match old(session).latest_spec() {
                    Some(l) => old(self).cursors().insert(old(session).channel(), l),
                    None => old(self).cursors(),
                })
                &&& r is None
            },
            page@.len() > 0 ==> {
                &&& !final(session).is_done()
                &&& final(session).latest_spec() == step_latest(
                    old(session).latest_spec(),
                    old(session).is_forward(),
                    page@,
                )
                &&& final(self).cursors() == old(self).cursors()
                &&& final(self).msgs() == old(self).msgs().insert(
                    old(session).channel(),
                    (if old(self).msgs().dom().contains(old(session).channel()) {
                        old(self).msgs()[old(session).channel()]
                    } else {
                        Seq::<u64>::empty()
                    }) + valid_ids(page@),
                )
                &&& r == Some(
                    if old(session).is_forward() {
                        PageRequest::After(page@.first().id)
                    } else {
                        PageRequest::Before(page@.last().id)
                    },
                )
            },
    {
        let ch = session.channel_id;
        if page.len() == 0 {
            session.done = true;
            match session.latest {
                Some(l) => {
                    self.just_indexed(ch, l);
                }
                None => {}
            }
            return None;
        }
        let first_id = page[0].id;
        let last_id = page[page.len() - 1].id;
        self.extend_valid(ch, page);
        if session.forward {
            session.latest = Some(first_id);
            Some(PageRequest::After(first_id))
        } else {
            if session.latest.is_none() {
                session.latest = Some(first_id);
            }
            proof {
                assert(page@[page@.len() - 1] == page@.last());
            }
            Some(PageRequest::Before(last_id))
        }
    }

    /// Append the valid messages of a page, in page order, to a channel's
    /// history, creating the history if the channel is new.
    fn extend_valid(&mut self, channel_id: u64, page: &Vec<MessageRecord>)
        requires
            old(self).wf(),
        ensures
            final(self).wf(),
            final(self).cursors() == old(self).cursors(),
            final(self).msgs() == old(self).msgs().insert(
                channel_id,
                (if old(self).msgs().dom().contains(channel_id) {
                    old(self).msgs()[channel_id]
                } else {
                    Seq::<u64>::empty()
                }) + valid_ids(page@),
            ),
    {
        self.ensure_channel(channel_id);
        let ghost m0 = self.msgs();
        let ghost c0 = self.cursors();
        let ghost base = m0[channel_id];
        let n = page.len();
        proof {
            assert(valid_ids(page@.take(0)) =~= Seq::<u64>::empty());
            assert(base + valid_ids(page@.take(0)) =~= base);
            assert(self.msgs() =~= m0.insert(channel_id, base + valid_ids(page@.take(0))));
        }
        for j in 0..n
            invariant
                n == page@.len(),
                self.wf(),
                self.cursors() == c0,
                self.msgs() == m0.insert(channel_id, base + valid_ids(page@.take(j as int))),
        {
            proof {
                assert(page@.take(j + 1).drop_last() =~= page@.take(j as int));
                assert(page@.take(j + 1).last() == page@[j as int]);
            }
            let m = &page[j];
            if m.is_valid() {
                self.append_message(channel_id, m.id);
                proof {
                    assert((base + valid_ids(page@.take(j as int))).push(page@[j as int].id) =~= base
                        + valid_ids(page@.take(j + 1)));
                    assert(self.msgs() =~= m0.insert(
                        channel_id,
                        base + valid_ids(page@.take(j + 1)),
                    ));
                }
            }
        }
        proof {
            assert(page@.take(n as int) =~= page@);
        }
    }
}

} // verus!
