use mawnolaug::index::Index;
use mawnolaug::message::{MessageKind, MessageRecord};
use mawnolaug::{created_at_ms, SNOWFLAKE_EPOCH_MS};

fn msg(channel_id: u64, id: u64) -> MessageRecord {
    MessageRecord { id, channel_id, author_is_bot: false, has_poll: false, kind: MessageKind::Regular }
}

fn reply(channel_id: u64, id: u64) -> MessageRecord {
    MessageRecord {
        id,
        channel_id,
        author_is_bot: false,
        has_poll: false,
        kind: MessageKind::InlineReply,
    }
}

/// A snowflake whose derived creation time is `ms` (milliseconds since the
/// Unix epoch).
fn id_at(ms: u64) -> u64 {
    (ms - SNOWFLAKE_EPOCH_MS) << 22
}

#[test]
fn empty_index_samples_nothing() {
    let ix = Index::new();
    assert_eq!(ix.random_message(), None);
    assert_eq!(ix.total_indexed(), 0);
    assert_eq!(ix.random_message_from(7), None);
    assert_eq!(ix.random_message_since(0), None);
}

#[test]
fn save_message_records_and_advances_cursor() {
    let mut ix = Index::new();
    ix.save_message(&msg(1, 100));
    ix.save_message(&reply(1, 200));
    assert_eq!(ix.get_messages(1), Some(vec![100, 200]));
    assert_eq!(ix.last_indexed(1), Some(200));
    assert_eq!(ix.total_indexed(), 2);
}

#[test]
fn bot_author_is_not_recorded() {
    let mut ix = Index::new();
    ix.save_message(&msg(1, 100));
    let mut bot = msg(1, 200);
    bot.author_is_bot = true;
    ix.save_message(&bot);
    assert_eq!(ix.get_messages(1), Some(vec![100]));
    assert_eq!(ix.last_indexed(1), Some(100));
}

#[test]
fn poll_is_not_recorded() {
    let mut ix = Index::new();
    let mut poll = msg(1, 100);
    poll.has_poll = true;
    ix.save_message(&poll);
    assert_eq!(ix.get_messages(1), None);
}

#[test]
fn system_message_is_not_recorded() {
    let mut ix = Index::new();
    let mut sys = msg(1, 100);
    sys.kind = MessageKind::Other;
    ix.save_message(&sys);
    assert_eq!(ix.get_messages(1), None);
    assert!(Index::is_message_valid(&msg(1, 1)));
    assert!(!Index::is_message_valid(&sys));
}

#[test]
fn remove_message_replaces_cursor_with_last_remaining() {
    let mut ix = Index::new();
    ix.save_message(&msg(1, 100));
    ix.save_message(&msg(1, 200));
    ix.save_message(&msg(1, 300));
    assert_eq!(ix.last_indexed(1), Some(300));
    ix.remove_message(1, 300);
    assert_eq!(ix.get_messages(1), Some(vec![100, 200]));
    assert_eq!(ix.last_indexed(1), Some(200));
}

#[test]
fn remove_last_message_clears_cursor() {
    let mut ix = Index::new();
    ix.save_message(&msg(1, 100));
    ix.remove_message(1, 100);
    assert_eq!(ix.get_messages(1), Some(vec![]));
    assert_eq!(ix.last_indexed(1), None);
}

#[test]
fn remove_non_cursor_message_keeps_cursor() {
    let mut ix = Index::new();
    ix.save_message(&msg(1, 100));
    ix.save_message(&msg(1, 300));
    ix.remove_message(1, 100);
    assert_eq!(ix.get_messages(1), Some(vec![300]));
    assert_eq!(ix.last_indexed(1), Some(300));
}

#[test]
fn remove_message_in_unknown_channel_is_a_no_op() {
    let mut ix = Index::new();
    ix.save_message(&msg(1, 100));
    ix.remove_message(2, 100);
    assert_eq!(ix.get_messages(1), Some(vec![100]));
    assert_eq!(ix.last_indexed(1), Some(100));
}

#[test]
fn removed_channel_is_never_sampled() {
    let mut ix = Index::new();
    ix.save_message(&msg(1, 100));
    ix.save_message(&msg(2, 200));
    ix.save_message(&msg(2, 300));
    ix.remove_channel(1);
    assert_eq!(ix.random_message_from(1), None);
    assert_eq!(ix.get_messages(1), None);
    assert_eq!(ix.last_indexed(1), None);
    assert_eq!(ix.total_indexed(), 2);
    for _ in 0..500 {
        let (c, _) = ix.random_message().unwrap();
        assert_ne!(c, 1);
    }
}

#[test]
fn select_at_walks_positions_in_order() {
    let mut ix = Index::new();
    ix.save_message(&msg(1, 100));
    ix.save_message(&msg(1, 200));
    ix.save_message(&msg(2, 300));
    assert_eq!(ix.total_indexed(), 3);
    assert_eq!(ix.select_at(0), (1, 100));
    assert_eq!(ix.select_at(1), (1, 200));
    assert_eq!(ix.select_at(2), (2, 300));
}

#[test]
fn single_message_is_always_drawn() {
    let mut ix = Index::new();
    ix.save_message(&msg(1, 100));
    for _ in 0..50 {
        assert_eq!(ix.random_message(), Some((1, 100)));
        assert_eq!(ix.random_message_from(1), Some(100));
    }
}

#[test]
fn per_channel_draw_is_roughly_uniform() {
    let mut ix = Index::new();
    ix.save_message(&msg(1, 100));
    ix.save_message(&msg(1, 200));
    ix.save_message(&msg(1, 300));
    let mut counts = [0u32; 3];
    for _ in 0..3000 {
        match ix.random_message_from(1) {
            Some(100) => counts[0] += 1,
            Some(200) => counts[1] += 1,
            Some(300) => counts[2] += 1,
            other => panic!("unexpected draw: {:?}", other),
        }
    }
    for c in counts {
        assert!(c > 800 && c < 1200, "draw counts far from uniform: {:?}", counts);
    }
}

#[test]
fn global_draw_weights_channels_by_history() {
    let mut ix = Index::new();
    ix.save_message(&msg(1, 100));
    ix.save_message(&msg(2, 200));
    ix.save_message(&msg(2, 300));
    let mut from_two = 0u32;
    for _ in 0..3000 {
        let (c, _) = ix.random_message().unwrap();
        if c == 2 {
            from_two += 1;
        }
    }
    assert!(from_two > 1750 && from_two < 2250, "channel weight off: {}", from_two);
}

#[test]
fn created_at_derives_time_from_the_identifier() {
    assert_eq!(created_at_ms(0), SNOWFLAKE_EPOCH_MS);
    assert_eq!(created_at_ms(1 << 22), SNOWFLAKE_EPOCH_MS + 1);
    let ms = 1_700_000_000_000u64;
    assert_eq!(created_at_ms(id_at(ms)), ms);
}

#[test]
fn sampling_since_sees_only_newer_messages() {
    let mut ix = Index::new();
    let old_id = id_at(1_600_000_000_000);
    let new_id = id_at(1_700_000_000_000);
    ix.save_message(&msg(1, old_id));
    ix.save_message(&msg(2, new_id));
    assert_eq!(ix.total_since(1_650_000_000_000), 1);
    assert_eq!(ix.select_since_at(1_650_000_000_000, 0), (2, new_id));
    for _ in 0..50 {
        assert_eq!(ix.random_message_since(1_650_000_000_000), Some((2, new_id)));
    }
    assert_eq!(ix.random_message_since(1_750_000_000_000), None);
    assert_eq!(ix.total_since(0), 2);
    // the bound is inclusive
    assert_eq!(ix.random_message_since(1_700_000_000_000), Some((2, new_id)));
}

#[test]
fn snapshot_entries_round_trip() {
    let mut ix = Index::new();
    ix.save_message(&msg(1, 100));
    ix.save_message(&msg(2, 200));
    ix.remove_message(2, 200);
    let cursors = ix.cursor_entries().clone();
    let histories = ix.message_entries().clone();
    let back = Index::from_entries(cursors, histories).unwrap();
    assert_eq!(back.last_indexed(1), Some(100));
    assert_eq!(back.last_indexed(2), None);
    assert_eq!(back.get_messages(1), Some(vec![100]));
    assert_eq!(back.get_messages(2), Some(vec![]));
}

#[test]
fn duplicate_snapshot_keys_are_rejected() {
    let bad = Index::from_entries(vec![(1, 100), (1, 200)], Vec::new());
    assert!(bad.is_none());
    let bad = Index::from_entries(Vec::new(), vec![(1, vec![100]), (1, vec![200])]);
    assert!(bad.is_none());
    let good = Index::from_entries(vec![(1, 100)], vec![(1, vec![100])]);
    assert!(good.is_some());
}

#[test]
fn an_early_bound_does_not_restrict_the_draw() {
    let mut ix = Index::new();
    let a = id_at(1_650_000_000_000);
    let b = id_at(1_700_000_000_000);
    ix.save_message(&msg(1, a));
    ix.save_message(&msg(2, b));
    // a bound at or below every creation time leaves the whole archive eligible
    let early = 1_600_000_000_000u64;
    assert_eq!(ix.total_since(early), ix.total_indexed());
    for k in 0..2 {
        assert_eq!(ix.select_since_at(early, k), ix.select_at(k));
    }
    let mut seen = [false; 2];
    for _ in 0..200 {
        match ix.random_message_since(early) {
            Some(p) if p == (1, a) => seen[0] = true,
            Some(p) if p == (2, b) => seen[1] = true,
            other => panic!("unexpected draw: {:?}", other),
        }
    }
    assert!(seen[0] && seen[1], "early-bounded draw missed part of the archive");
}
