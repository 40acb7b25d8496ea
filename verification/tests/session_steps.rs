use kv_session::session::SessionContext;

#[test]
fn request_appends_and_returns_query_start() {
    let mut s = SessionContext::new(3, 100);
    assert_eq!(s.id, 3);
    let pos = s.request(&[1, 2, 3], 2, 2, 10);
    assert_eq!(pos, 0);
    assert_eq!(s.cache.query(), &[1, 2, 3]);
    let pos = s.request(&[4], 2, 2, 10);
    // nothing was committed yet, the query grows instead
    assert_eq!(pos, 0);
    assert_eq!(s.cache.query(), &[1, 2, 3, 4]);
}

#[test]
fn request_windows_when_capacity_reached() {
    let mut s = SessionContext::new(0, 100);
    let pos = s.request(&[0, 1, 2, 3, 4, 5, 6, 7, 8, 9], 2, 2, 10);
    // ten pending tokens reach the window limit: the tail anchor marks
    // where recomputation starts
    assert_eq!(pos, 8);
    assert_eq!(s.cache.query(), &[8, 9]);
    assert_eq!(s.cache.cached_len(), 0);
    assert_eq!(s.cache.cached_end(), 8);
}
