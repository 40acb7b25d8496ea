use kv_session::worker::{Command, Device, Worker};

#[test]
fn drop_queued_behind_infer_applies_after_generation() {
    let eos: u32 = 0;
    let mut w = Worker::new(eos, 100, 2, 2);
    // the drop for id 1 arrives while the inference for id 1 is queued in
    // front of it; the worker applies commands strictly in order, so the
    // whole generation finishes before the session is discarded
    let queue = vec![
        Command::Infer { id: 1, prompt: vec![5, 6] },
        Command::DropSession { id: 1 },
    ];
    // deterministic stand-in for the forward-pass capability
    let mut samples = vec![7u32, 8u32, eos].into_iter();
    let mut streamed: Vec<u32> = Vec::new();
    for cmd in queue {
        match cmd {
            Command::Infer { id, prompt } => {
                w.ensure_session(id);
                let _pos = w.step(id, &prompt);
                loop {
                    let token = samples.next().unwrap();
                    if w.accept_token(id, token) {
                        break;
                    }
                    streamed.push(token);
                    let _pos = w.step(id, &[]);
                }
                // the generation ran to completion with the session alive
                assert!(w.find_session(id).is_some());
            }
            Command::DropSession { id } => {
                w.drop_session(id);
            }
        }
    }
    assert_eq!(streamed, vec![7, 8]);
    assert_eq!(w.session_count(), 0);
    assert!(w.find_session(1).is_none());
}

#[test]
fn infer_streams_tokens_through_the_cache() {
    let eos: u32 = 99;
    let mut w = Worker::new(eos, 100, 2, 2);
    w.ensure_session(4);
    let pos = w.step(4, &[10, 11, 12]);
    assert_eq!(pos, 0);
    assert_eq!(w.query_tokens(4), &[10, 11, 12]);
    assert!(!w.accept_token(4, 13));
    // the sampled token is committed and becomes the next one-token query
    assert_eq!(w.query_tokens(4), &[13]);
    let pos = w.step(4, &[]);
    assert_eq!(pos, 3);
    assert!(w.accept_token(4, eos));
    // the end-of-sequence token is never committed
    assert_eq!(w.query_tokens(4), &[13]);
}

#[test]
fn sessions_are_created_lazily_and_kept_unique() {
    let mut w = Worker::new(0, 100, 2, 2);
    assert_eq!(w.session_count(), 0);
    w.ensure_session(7);
    w.ensure_session(9);
    w.ensure_session(7);
    assert_eq!(w.session_count(), 2);
    assert!(w.find_session(7).is_some());
    assert!(w.find_session(9).is_some());
    assert!(w.find_session(8).is_none());
    w.drop_session(7);
    assert_eq!(w.session_count(), 1);
    assert!(w.find_session(7).is_none());
    assert!(w.find_session(9).is_some());
}

#[test]
fn dropping_an_unknown_session_is_ignored() {
    let mut w = Worker::new(0, 100, 2, 2);
    w.ensure_session(1);
    w.drop_session(2);
    assert_eq!(w.session_count(), 1);
}

#[test]
fn long_generation_stays_within_the_window() {
    let eos: u32 = 1_000_000;
    let max: usize = 10;
    let mut w = Worker::new(eos, max, 2, 2);
    w.ensure_session(1);
    let mut pos = w.step(1, &[1, 2, 3]);
    for t in 4u32..20u32 {
        assert!(!w.accept_token(1, t));
        pos = w.step(1, &[]);
        // the physical destination never exceeds the cache capacity
        let sess = &w.sessions[0];
        let span = sess.cache.build_query_context();
        assert!(span.end <= max);
        // the query suffix always starts at the cached end
        assert_eq!(pos, sess.cache.cached_end());
    }
}

#[test]
fn device_identifies_the_compute_target() {
    let d = Device::Cpu;
    let g = Device::NvidiaGpu(0);
    assert!(d != g);
    assert_eq!(g, Device::NvidiaGpu(0));
}
