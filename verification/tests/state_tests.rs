use mawnolaug::state::{MoveAction, State};

#[test]
fn channels_are_tracked_per_user() {
    let mut st = State::new();
    assert_eq!(st.get_channel(10), None);
    st.set_channel(10, 1);
    st.set_channel(20, 2);
    assert_eq!(st.get_channel(10), Some(1));
    assert_eq!(st.get_channel(20), Some(2));
    assert!(st.should_track(1));
    assert!(st.should_track(2));
    assert!(!st.should_track(3));
    let mut channels = st.get_channels();
    channels.sort();
    assert_eq!(channels, vec![1, 2]);
}

#[test]
fn removing_a_channel_drops_its_owner_and_rank() {
    let mut st = State::new();
    st.set_channel(10, 1);
    st.set_channel_position(1, 7);
    assert_eq!(st.remove_channel(1), Some(10));
    assert_eq!(st.get_channel(10), None);
    assert_eq!(st.channel_position(1), None);
    assert!(!st.should_track(1));
    assert_eq!(st.remove_channel(1), None);
}

#[test]
fn removing_by_user_returns_the_channel() {
    let mut st = State::new();
    st.set_channel(10, 1);
    st.set_channel_position(1, 7);
    assert_eq!(st.remove_channel_for(10), Some(1));
    assert_eq!(st.channel_position(1), None);
    assert_eq!(st.remove_channel_for(10), None);
}

#[test]
fn last_trigger_records_the_given_instant() {
    let mut st = State::new();
    assert_eq!(st.last_trigger(), None);
    st.just_triggered(1_700_000_000_000);
    assert_eq!(st.last_trigger(), Some(1_700_000_000_000));
}

#[test]
fn next_position_is_zero_on_an_empty_cache() {
    let st = State::new();
    assert_eq!(st.next_position(), 0);
}

#[test]
fn next_position_counts_down_from_the_minimum() {
    let mut st = State::new();
    st.set_channel_position(1, 10);
    st.set_channel_position(2, 12);
    assert_eq!(st.next_position(), 9);
}

#[test]
fn recorded_positions_strictly_decrease() {
    let mut st = State::new();
    st.set_channel_position(1, 5);
    let mut last = st.next_position();
    assert_eq!(last, 4);
    for c in 2..6u64 {
        st.set_channel_position(c, last);
        let next = st.next_position();
        assert!(next < last, "positions did not decrease: {} then {}", last, next);
        assert_eq!(next, last - 1);
        last = next;
    }
    assert_eq!(last, 0);
}

#[test]
fn next_position_is_zero_when_the_minimum_is_zero() {
    let mut st = State::new();
    st.set_channel_position(1, 0);
    st.set_channel_position(2, 50);
    assert_eq!(st.next_position(), 0);
}

#[test]
fn next_position_is_zero_when_the_minimum_is_one() {
    let mut st = State::new();
    st.set_channel_position(1, 1);
    assert_eq!(st.next_position(), 0);
}

#[test]
fn plan_move_distinguishes_the_three_cases() {
    let mut st = State::new();
    st.set_channel_position(1, 10);
    // next rank would be 9: a channel whose live position is 10 already tops
    assert_eq!(st.plan_move(10), MoveAction::AlreadyTop);
    assert_eq!(st.plan_move(3), MoveAction::Assign(9));
    let mut low = State::new();
    low.set_channel_position(1, 0);
    assert_eq!(low.plan_move(3), MoveAction::NeedsReset);
    // an empty cache also asks for a reset first
    let empty = State::new();
    assert_eq!(empty.plan_move(3), MoveAction::NeedsReset);
}

#[test]
fn state_snapshot_entries_round_trip() {
    let mut st = State::new();
    st.set_channel(10, 1);
    st.set_channel_position(1, 7);
    st.just_triggered(123);
    let channels = st.channel_entries().clone();
    let positions = st.position_entries().clone();
    let back = State::from_entries(channels, st.last_trigger(), positions).unwrap();
    assert_eq!(back.get_channel(10), Some(1));
    assert_eq!(back.channel_position(1), Some(7));
    assert_eq!(back.last_trigger(), Some(123));
}

#[test]
fn state_duplicate_snapshot_keys_are_rejected() {
    assert!(State::from_entries(vec![(10, 1), (10, 2)], None, Vec::new()).is_none());
    assert!(State::from_entries(Vec::new(), None, vec![(1, 5), (1, 6)]).is_none());
    assert!(State::from_entries(vec![(10, 1)], None, vec![(1, 5)]).is_some());
}
