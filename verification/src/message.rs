//! The fields of an inbound message that the index reads, and the validity
//! filter that decides whether a message is archived.

use vstd::prelude::*;

verus! {

/// The kind of a message, as far as the index cares: ordinary messages and
/// inline replies are archived, every other (system) kind is not.
#[derive(Clone, Copy, Debug, PartialEq, Eq, Structural)]
pub enum MessageKind {
    Regular,
    InlineReply,
    Other,
}

/// What the index reads of a message.
#[derive(Clone, Copy, Debug, PartialEq, Eq, Structural)]
pub struct MessageRecord {
    /// The message's snowflake identifier.
    pub id: u64,
    /// The channel the message was posted in.
    pub channel_id: u64,
    /// Whether the author is an automated account.
    pub author_is_bot: bool,
    /// Whether the message carries a poll.
    pub has_poll: bool,
    pub kind: MessageKind,
}

/// A message is archived iff its author is not an automated account, it is
/// not a poll, and it is an ordinary message or an inline reply.
pub open spec fn spec_is_valid(m: MessageRecord) -> bool {
    &&& !m.author_is_bot
    &&& !m.has_poll
    &&& (m.kind is Regular || m.kind is InlineReply)
}

impl MessageRecord {
    /// The validity filter.
    pub fn is_valid(&self) -> (b: bool)
        ensures
            b == spec_is_valid(*self),
    {
        !self.author_is_bot && !self.has_poll && matches!(self.kind, MessageKind::Regular
            | MessageKind::InlineReply)
    }
}

} // verus!
