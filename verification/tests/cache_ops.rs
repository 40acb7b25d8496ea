use kv_session::cache::Cache;

#[test]
fn extend_then_commit_scenario() {
    let mut c = Cache::new(Vec::new(), 64);
    c.extend(&[1, 2, 3]);
    assert_eq!(c.query(), &[1, 2, 3]);
    c.push(4);
    assert_eq!(c.query(), &[4]);
    assert_eq!(c.cached_len(), 3);
    assert_eq!(c.cached_end(), 3);
}

#[test]
fn query_length_tracks_pending_tokens() {
    let mut c = Cache::new(vec![9, 8], 64);
    assert_eq!(c.query().len(), 2);
    c.extend(&[7]);
    assert_eq!(c.query().len(), 3);
    c.push(6);
    // after a commit exactly the sampled token is pending
    assert_eq!(c.query().len(), 1);
    assert_eq!(c.cached_end(), 3);
}

#[test]
fn windowing_trims_head_and_anchors_tail() {
    let mut c = Cache::new(Vec::new(), 64);
    c.extend(&[0, 1, 2, 3, 4, 5, 6, 7, 8]);
    c.push(9);
    // compacted logical length is now 9 cached + 1 pending = 10
    c.reset_within_start_and_end_range(2, 2, 10);
    // first cached range trimmed to [0, 2), marker anchored at 10 - 2
    assert_eq!(c.cached_len(), 2);
    assert_eq!(c.cached_end(), 8);
    assert_eq!(c.get_last_cached_range_len(), 0);
    assert_eq!(c.query(), &[8, 9]);
}

#[test]
fn windowing_below_max_changes_nothing() {
    let mut c = Cache::new(Vec::new(), 64);
    c.extend(&[0, 1, 2]);
    c.push(3);
    let snapshot = c.duplicate();
    c.reset_within_start_and_end_range(2, 2, 10);
    assert!(c == snapshot);
}

#[test]
fn single_range_window_reset() {
    let mut c = Cache::new(Vec::new(), 64);
    c.extend(&[0, 1, 2, 3, 4, 5, 6, 7, 8]);
    c.push(9);
    c.reset_within_one_range(3, 10);
    // the whole cached set is replaced by one empty marker near the tail
    assert_eq!(c.cached_len(), 0);
    assert_eq!(c.cached_end(), 7);
    assert_eq!(c.get_last_cached_range_len(), 0);
}

#[test]
fn compact_advances_origin_and_keeps_end() {
    let mut c = Cache::new(Vec::new(), 64);
    c.extend(&[0, 1, 2, 3, 4, 5, 6, 7, 8]);
    c.push(9);
    // window anchors the cached set at position 7, evicting the head
    c.reset_within_one_range(3, 10);
    assert_eq!(c.end(), 10);
    c.cleanup_before_start();
    // the discarded prefix left the history; absolute positions are kept
    assert_eq!(c.end(), 10);
    assert_eq!(c.query(), &[7, 8, 9]);
    assert_eq!(c.slice_tail(7), &[7, 8, 9]);
}

#[test]
fn compact_twice_second_is_noop() {
    let mut c = Cache::new(Vec::new(), 64);
    c.extend(&[0, 1, 2, 3, 4, 5, 6, 7, 8]);
    c.push(9);
    // move the cached window away from the origin, then compact
    c.reset_within_one_range(3, 10);
    let end_before = c.end();
    c.cleanup_before_start();
    assert_eq!(c.end(), end_before);
    let snapshot = c.duplicate();
    c.cleanup_before_start();
    assert!(c == snapshot);
}

#[test]
fn revert_before_origin_is_not_possible() {
    let mut c = Cache::new(Vec::new(), 64);
    c.extend(&[0, 1, 2, 3, 4, 5, 6, 7, 8]);
    c.push(9);
    c.reset_within_one_range(3, 10);
    c.cleanup_before_start();
    // the recorded origin advanced past position 3
    let snapshot = c.duplicate();
    assert_eq!(c.revert(3), None);
    assert!(c == snapshot);
}

#[test]
fn revert_into_evicted_gap_is_not_possible() {
    let mut c = Cache::new(Vec::new(), 64);
    c.extend(&[0, 1, 2, 3, 4, 5, 6, 7, 8]);
    c.push(9);
    c.reset_within_start_and_end_range(2, 2, 10);
    // positions 2..8 are no longer covered
    let snapshot = c.duplicate();
    assert_eq!(c.revert(5), None);
    assert!(c == snapshot);
}

#[test]
fn revert_to_covered_position_truncates() {
    let mut c = Cache::new(Vec::new(), 64);
    c.extend(&[10, 11, 12]);
    c.push(13);
    assert_eq!(c.revert(2), Some(2));
    assert_eq!(c.end(), 2);
    assert_eq!(c.cached_len(), 2);
    assert_eq!(c.query(), &[] as &[u32]);
}

#[test]
fn duplicate_is_an_equal_independent_copy() {
    let mut c = Cache::new(Vec::new(), 64);
    c.extend(&[1, 2]);
    c.push(3);
    let mut d = c.duplicate();
    assert!(c == d);
    d.push(4);
    assert!(c != d);
    assert_eq!(c.query(), &[3]);
}

#[test]
fn slice_tail_returns_suffix_from_absolute_position() {
    let mut c = Cache::new(Vec::new(), 64);
    c.extend(&[5, 6, 7, 8]);
    assert_eq!(c.slice_tail(0), &[5, 6, 7, 8]);
    assert_eq!(c.slice_tail(2), &[7, 8]);
    assert_eq!(c.slice_tail(4), &[] as &[u32]);
}

#[test]
fn reset_with_starts_over() {
    let mut c = Cache::new(Vec::new(), 64);
    c.extend(&[1, 2, 3]);
    c.push(4);
    c.reset_with(vec![7, 7], 5);
    assert_eq!(c.end(), 7);
    assert_eq!(c.cached_len(), 0);
    assert_eq!(c.query(), &[7, 7]);
}

#[test]
fn build_query_context_gives_compacted_destination() {
    let mut c = Cache::new(Vec::new(), 64);
    c.extend(&[0, 1, 2, 3, 4, 5, 6, 7, 8]);
    c.push(9);
    c.reset_within_start_and_end_range(2, 2, 10);
    // 2 cached entries, 2 pending: physical slots 2..4, gap ignored
    let span = c.build_query_context();
    assert_eq!(span.start, 2);
    assert_eq!(span.end, 4);
    assert_eq!(c.storage().capacity, 64);
}
