//! One conversation bound to an externally visible id. The session context
//! owns the conversation cache and derives, for each generation step, the
//! query suffix and its destination in the physical buffer, applying window
//! eviction before the step so the model never writes past capacity.

use vstd::prelude::*;
use crate::cache::{Cache, CacheModel};

use crate::ranges::{lemma_spans_ordered, lemma_sum_lens_bound, sum_lens, Span};

verus! {

/// A conversation's generation state, owned by one device worker.
#[derive(Debug)]
pub struct SessionContext {
    /// Externally visible conversation id.
    pub id: usize,
    /// The conversation's token history and cache tracking.
    pub cache: Cache,
}

/// The model transition of one prepared step: the history extended by
/// `tokens`, then window eviction applied when the compacted logical length
/// has reached `max`.
pub open spec fn request_model(
    m: CacheModel,
    tokens: Seq<u32>,
    start_size: int,
    end_size: int,
    max: int,
) -> CacheModel {
    let extended = CacheModel { tokens: m.tokens + tokens, ..m };
    if extended.compacted_len() >= max {
        CacheModel {
            cached: Cache::window_spans(
                extended.cached[0],
                start_size,
                extended.tokens.len() as int,
                end_size,
            ),
            ..extended
        }
    } else {
        extended
    }
}

/// Law: a prepared step never overruns the physical cache. After the
/// request transition with eviction windows summing to at most `max`, the
/// compacted logical length — one past the physical destination of the
/// coming step — stays within `max`.
pub proof fn lemma_request_respects_capacity(
    m: CacheModel,
    tokens: Seq<u32>,
    start_size: int,
    end_size: int,
    max: int,
)
    requires
        m.wf(),
        m.cached.len() > 0,
        m.cached[0].start == 0,
        m.end_pos() + tokens.len() <= usize::MAX,
        0 <= start_size,
        0 <= end_size,
        start_size + end_size <= max,
    ensures
        request_model(m, tokens, start_size, end_size, max).compacted_len() <= max,
{
    let extended = CacheModel { tokens: m.tokens + tokens, ..m };
    if extended.compacted_len() >= max {
        let w = request_model(m, tokens, start_size, end_size, max);
        let first = extended.cached[0];
        let head_end = if first.end <= start_size {
            first.end as int
        } else {
            start_size
        };
        lemma_sum_lens_bound(extended.cached);
        lemma_spans_ordered(extended.cached, 0, extended.cached.len() - 1);
        let len = extended.tokens.len() as int;
        assert(end_size <= len);
        let head = (Span { start: first.start, end: head_end as usize });
        let marker = (Span { start: (len - end_size) as usize, end: (len - end_size) as usize });
        let pair = seq![head, marker];
        assert(w.cached =~= pair);
        assert(pair.drop_last() =~= seq![head]);
        assert(pair.last() == marker);
        assert(seq![head].drop_last() =~= Seq::<Span>::empty());
        assert(seq![head].last() == head);
        assert(sum_lens(Seq::<Span>::empty()) == 0);
        assert(sum_lens(seq![head]) == head.spec_len());
        assert(sum_lens(pair) == head.spec_len() + marker.spec_len());
        assert(w.cached_len() == head.spec_len());
        assert(w.pending_len() == end_size);
    }
}

impl SessionContext {
    /// What the worker flow preserves: the cache invariant, a never-empty
    /// tracked set, and a first span anchored at the logical origin.
    pub open spec fn wf(self) -> bool {
        &&& self.cache@.wf()
        &&& self.cache@.cached.len() > 0
        &&& self.cache@.cached[0].start == 0
    }

    /// A fresh session: empty history, nothing cached, storage sized to the
    /// device's capacity.
    pub fn new(id: usize, capacity: usize) -> (r: Self)
        ensures
            r.wf(),
            r.id == id,
            r.cache@ == (CacheModel {
                tokens: Seq::<u32>::empty(),
                pos: 0,
                cached: seq![(Span { start: 0, end: 0 })],
                capacity: capacity as int,
            }),
    {
        SessionContext { id, cache: Cache::new(Vec::new(), capacity) }
    }

    /// Prepares one generation step: appends `tokens` to the history,
    /// applies window eviction against `max_seq_len` with the configured
    /// sink and tail sizes, and returns the index where this step's query
    /// suffix begins in the history.
    pub fn request(
        &mut self,
        tokens: &[u32],
        start_size: usize,
        end_size: usize,
        max_seq_len: usize,
    ) -> (pos: usize)
        requires
            old(self).wf(),
            start_size + end_size <= max_seq_len,
            old(self).cache@.end_pos() + tokens@.len() <= usize::MAX,
        ensures
            final(self).wf(),
            final(self).id == old(self).id,
            final(self).cache@ == request_model(
                old(self).cache@,
                tokens@,
                start_size as int,
                end_size as int,
                max_seq_len as int,
            ),
            pos == final(self).cache@.cached_end(),
            final(self).cache@.compacted_len() <= max_seq_len,
    {
        self.cache.extend(tokens);
        proof {
            let m = self.cache@;
            if m.compacted_len() >= max_seq_len {
                lemma_sum_lens_bound(m.cached);
                lemma_spans_ordered(m.cached, 0, m.cached.len() - 1);
            }
        }
        self.cache.reset_within_start_and_end_range(start_size, end_size, max_seq_len);
        proof {
            lemma_request_respects_capacity(
                old(self).cache@,
                tokens@,
                start_size as int,
                end_size as int,
                max_seq_len as int,
            );
        }
        self.cache.cached_end()
    }
}

} // verus!
