use mawnolaug::positions::reassign_positions;

#[test]
fn reassignment_keeps_the_order_and_ends_at_the_top() {
    let live = vec![(101, 1u16), (102, 2u16), (103, 3u16)];
    let out = reassign_positions(&live);
    assert_eq!(out, vec![(101, 0xfffd), (102, 0xfffe), (103, 0xffff)]);
}

#[test]
fn reassignment_sorts_by_live_rank_first() {
    let live = vec![(103, 30u16), (101, 10u16), (102, 20u16)];
    let out = reassign_positions(&live);
    assert_eq!(out, vec![(101, 0xfffd), (102, 0xfffe), (103, 0xffff)]);
}

#[test]
fn reassigned_ranks_are_distinct_and_complete() {
    let live = vec![(1, 5u16), (2, 5u16), (3, 0u16), (4, 0xffffu16)];
    let out = reassign_positions(&live);
    assert_eq!(out.len(), 4);
    let mut channels: Vec<u64> = out.iter().map(|p| p.0).collect();
    channels.sort();
    assert_eq!(channels, vec![1, 2, 3, 4]);
    for w in out.windows(2) {
        assert!(w[0].1 < w[1].1);
    }
    assert_eq!(out[3].1, 0xffff);
    assert_eq!(out[0].0, 3, "the lowest live rank stays first");
    assert_eq!(out[3].0, 4, "the highest live rank stays last");
}

#[test]
fn reassignment_of_nothing_is_nothing() {
    let out = reassign_positions(&Vec::new());
    assert!(out.is_empty());
}

#[test]
fn a_single_channel_gets_the_top_rank() {
    let out = reassign_positions(&vec![(9, 42u16)]);
    assert_eq!(out, vec![(9, 0xffff)]);
}
