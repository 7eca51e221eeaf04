use mawnolaug::index::Index;
use mawnolaug::indexer::PageRequest;
use mawnolaug::message::{MessageKind, MessageRecord};

fn msg(channel_id: u64, id: u64) -> MessageRecord {
    MessageRecord { id, channel_id, author_is_bot: false, has_poll: false, kind: MessageKind::Regular }
}

fn bot(channel_id: u64, id: u64) -> MessageRecord {
    MessageRecord { id, channel_id, author_is_bot: true, has_poll: false, kind: MessageKind::Regular }
}

#[test]
fn backfill_walks_backward_and_commits_first_page_head() {
    let mut ix = Index::new();
    let (mut session, first) = ix.begin_index(5);
    assert_eq!(first, PageRequest::Newest);

    // pages arrive newest message first
    let page1 = vec![msg(5, 300), msg(5, 200)];
    let next = ix.feed_page(&mut session, &page1);
    assert_eq!(next, Some(PageRequest::Before(200)));

    let page2 = vec![msg(5, 100)];
    let next = ix.feed_page(&mut session, &page2);
    assert_eq!(next, Some(PageRequest::Before(100)));

    let empty: Vec<MessageRecord> = Vec::new();
    let next = ix.feed_page(&mut session, &empty);
    assert_eq!(next, None);

    // the cursor is the newest message of the very first page
    assert_eq!(ix.last_indexed(5), Some(300));
    assert_eq!(ix.get_messages(5), Some(vec![300, 200, 100]));
}

#[test]
fn forward_run_resumes_from_the_cursor() {
    let mut ix = Index::new();
    ix.save_message(&msg(5, 100));
    let (mut session, first) = ix.begin_index(5);
    assert_eq!(first, PageRequest::After(100));

    let page = vec![msg(5, 300), msg(5, 200)];
    let next = ix.feed_page(&mut session, &page);
    assert_eq!(next, Some(PageRequest::After(300)));

    let empty: Vec<MessageRecord> = Vec::new();
    let next = ix.feed_page(&mut session, &empty);
    assert_eq!(next, None);

    assert_eq!(ix.last_indexed(5), Some(300));
    assert_eq!(ix.get_messages(5), Some(vec![100, 300, 200]));
}

#[test]
fn empty_channel_leaves_no_cursor() {
    let mut ix = Index::new();
    let (mut session, first) = ix.begin_index(5);
    assert_eq!(first, PageRequest::Newest);
    let empty: Vec<MessageRecord> = Vec::new();
    let next = ix.feed_page(&mut session, &empty);
    assert_eq!(next, None);
    assert_eq!(ix.last_indexed(5), None);
    assert_eq!(ix.get_messages(5), None);
}

#[test]
fn invalid_messages_are_filtered_but_still_anchor_the_cursor() {
    let mut ix = Index::new();
    let (mut session, _) = ix.begin_index(5);

    // the page's newest message is from an automated account: it is not
    // archived, but the cursor still records it
    let page = vec![bot(5, 400), msg(5, 300)];
    let next = ix.feed_page(&mut session, &page);
    assert_eq!(next, Some(PageRequest::Before(300)));

    let empty: Vec<MessageRecord> = Vec::new();
    ix.feed_page(&mut session, &empty);
    assert_eq!(ix.last_indexed(5), Some(400));
    assert_eq!(ix.get_messages(5), Some(vec![300]));
}

#[test]
fn all_filtered_page_still_creates_the_history() {
    let mut ix = Index::new();
    let (mut session, _) = ix.begin_index(5);
    let page = vec![bot(5, 400)];
    ix.feed_page(&mut session, &page);
    let empty: Vec<MessageRecord> = Vec::new();
    ix.feed_page(&mut session, &empty);
    assert_eq!(ix.last_indexed(5), Some(400));
    assert_eq!(ix.get_messages(5), Some(vec![]));
}
