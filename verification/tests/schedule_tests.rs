use mawnolaug::index::Index;
use mawnolaug::message::{MessageKind, MessageRecord};
use mawnolaug::schedule::{draw_for_cycle, next_wake, wake_from, DAY_MS};
use mawnolaug::SNOWFLAKE_EPOCH_MS;

fn msg(channel_id: u64, id: u64) -> MessageRecord {
    MessageRecord { id, channel_id, author_is_bot: false, has_poll: false, kind: MessageKind::Regular }
}

fn id_at(ms: u64) -> u64 {
    (ms - SNOWFLAKE_EPOCH_MS) << 22
}

#[test]
fn wake_falls_back_to_one_day() {
    assert_eq!(wake_from(1_700_000_000_000, None), 1_700_000_000_000 + DAY_MS);
}

#[test]
fn wake_takes_a_future_occurrence_and_clamps_a_past_one() {
    assert_eq!(wake_from(1000, Some(1005)), 1005);
    assert_eq!(wake_from(1000, Some(1000)), 1000);
    assert_eq!(wake_from(1000, Some(995)), 1000);
}

#[test]
fn next_wake_finds_the_next_midnight() {
    // every day at midnight, UTC
    let now_ms = 1_700_000_000_000u64;
    let next_midnight = (now_ms / DAY_MS + 1) * DAY_MS;
    assert_eq!(next_wake("0 0 0 * * *", "UTC", now_ms), next_midnight);
}

#[test]
fn next_wake_respects_the_timezone() {
    // every day at noon, in a fixed-offset zone twelve hours ahead of UTC:
    // local noon is UTC midnight
    let now_ms = 1_700_000_000_000u64;
    let next_utc_midnight = (now_ms / DAY_MS + 1) * DAY_MS;
    assert_eq!(next_wake("0 0 12 * * *", "Etc/GMT-12", now_ms), next_utc_midnight);
}

#[test]
fn next_wake_falls_back_on_a_bad_expression_or_zone() {
    let now_ms = 1_700_000_000_000u64;
    assert_eq!(next_wake("not a schedule", "UTC", now_ms), now_ms + DAY_MS);
    assert_eq!(next_wake("0 0 0 * * *", "Nowhere/Nowhere", now_ms), now_ms + DAY_MS);
}

#[test]
fn draw_cycle_uses_the_last_trigger_as_lower_bound() {
    let mut ix = Index::new();
    let old_id = id_at(1_600_000_000_000);
    let new_id = id_at(1_700_000_000_000);
    ix.save_message(&msg(1, old_id));
    ix.save_message(&msg(2, new_id));
    for _ in 0..50 {
        assert_eq!(draw_for_cycle(&ix, Some(1_650_000_000_000)), Some((2, new_id)));
    }
    assert_eq!(draw_for_cycle(&ix, Some(1_750_000_000_000)), None);
    let unbounded = draw_for_cycle(&ix, None).unwrap();
    assert!(unbounded == (1, old_id) || unbounded == (2, new_id));
}

#[test]
fn draw_cycle_on_an_empty_index_yields_nothing() {
    let ix = Index::new();
    assert_eq!(draw_for_cycle(&ix, None), None);
    assert_eq!(draw_for_cycle(&ix, Some(0)), None);
}
