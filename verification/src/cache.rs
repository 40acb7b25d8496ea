//! Per-conversation cache state: the growable token history, the interval
//! tracker over it, the absolute position offset, and the handle to the
//! physical cache buffer.
//!
//! The physical buffer is opaque to this core: slot `i` always corresponds to
//! the `i`-th logically cached position, so gaps in the tracked set never
//! create gaps in physical storage. This module only decides which positions
//! are cached and where pending entries must be written.

use vstd::prelude::*;
use crate::ranges::{
    find_cover, lemma_find_cover, lemma_shift_down_wf, lemma_spans_ordered, lemma_sum_lens_bound,
    shift_down_spans, shrink_spans, spans_wf, sum_lens, Span, VecSliceRange,
};

verus! {

/// Handle to the physical key/value buffer of one conversation. The buffer's
/// contents belong to the compute device; this core tracks only its size
/// convention.
#[derive(Clone, Copy, Debug, PartialEq, Eq, Structural)]
pub struct KvStorage {
    pub capacity: usize,
}

impl KvStorage {
    /// A freshly allocated buffer sized to the device's cache capacity.
    pub fn new(capacity: usize) -> (r: Self)
        ensures
            r.capacity == capacity,
    {
        KvStorage { capacity }
    }
}

/// Mathematical state of a conversation cache.
#[verifier::ext_equal]
pub struct CacheModel {
    /// Token ids accumulated for the conversation, cached and pending alike.
    pub tokens: Seq<u32>,
    /// Absolute position, in the full conversation, of `tokens[0]`.
    pub pos: int,
    /// Which indices of `tokens` already have physical cache entries.
    pub cached: Seq<Span>,
    /// Size of the physical buffer.
    pub capacity: int,
}

impl CacheModel {
    /// The invariant every operation preserves: the tracker is ordered, its
    /// spans index into `tokens`, and the absolute end position fits a
    /// machine word.
    pub open spec fn wf(self) -> bool {
        &&& spans_wf(self.cached)
        &&& self.cached.len() > 0 ==> self.cached.last().end <= self.tokens.len()
        &&& 0 <= self.pos
        &&& self.pos + self.tokens.len() <= usize::MAX
        &&& 0 <= self.capacity
    }

    /// First cached index.
    pub open spec fn cached_start(self) -> int {
        self.cached[0].start as int
    }

    /// One past the last cached index.
    pub open spec fn cached_end(self) -> int {
        self.cached.last().end as int
    }

    /// Number of logically cached positions.
    pub open spec fn cached_len(self) -> int {
        sum_lens(self.cached)
    }

    /// Tokens never yet submitted to the model.
    pub open spec fn query_seq(self) -> Seq<u32> {
        self.tokens.skip(self.cached_end())
    }

    /// How many tokens are pending.
    pub open spec fn pending_len(self) -> int {
        self.tokens.len() - self.cached_end()
    }

    /// Absolute position of the next token to be produced.
    pub open spec fn end_pos(self) -> int {
        self.pos + self.tokens.len()
    }

    /// Length the conversation occupies in the compacted physical buffer
    /// once the pending tokens are written: cached entries plus pending.
    pub open spec fn compacted_len(self) -> int {
        self.cached_len() + self.pending_len()
    }
}

/// The model after committing a step: every pending token becomes cached
/// (the last span now ends at the old history length) and the newly sampled
/// `token` is appended as the next pending query.
pub open spec fn push_model(m: CacheModel, token: u32) -> CacheModel {
    CacheModel {
        tokens: m.tokens.push(token),
        cached: m.cached.update(m.cached.len() - 1, (Span {
            start: m.cached.last().start,
            end: m.tokens.len() as usize,
        })),
        ..m
    }
}

/// The model after discarding the already-evicted prefix: everything before
/// the first cached index leaves `tokens`, the offset advances by the same
/// amount, and the tracker is renumbered down.
pub open spec fn compact_model(m: CacheModel) -> CacheModel {
    let k = m.cached_start();
    CacheModel {
        tokens: m.tokens.skip(k),
        pos: m.pos + k,
        cached: shift_down_spans(m.cached, k),
        ..m
    }
}

/// Law: the pending query is always the token suffix after the cached end,
/// so its length is exactly the history length minus the cached end —
/// before and after every operation that preserves well-formedness.
pub proof fn lemma_query_is_pending_suffix(m: CacheModel)
    requires
        m.wf(),
        m.cached.len() > 0,
    ensures
        m.query_seq().len() == m.tokens.len() - m.cached_end(),
        m.query_seq() == m.tokens.skip(m.cached_end()),
{
}

/// Law: compaction is idempotent. One compaction leaves the cached set
/// starting at index zero, so a second one changes nothing.
pub proof fn lemma_compact_idempotent(m: CacheModel)
    requires
        m.wf(),
        m.cached.len() > 0,
    ensures
        compact_model(compact_model(m)) == compact_model(m),
{
    let k = m.cached_start();
    lemma_spans_ordered(m.cached, 0, m.cached.len() - 1);
    lemma_shift_down_wf(m.cached, k as usize);
    let c = compact_model(m);
    assert(c.cached_start() == 0);
    assert(c.tokens.skip(0) =~= c.tokens);
    assert(shift_down_spans(c.cached, 0) =~= c.cached);
    assert(compact_model(c) =~= c);
}

/// One conversation's cache: token history, tracked cached set, absolute
/// offset, and the physical buffer handle.
#[derive(Debug, PartialEq, Eq)]
pub struct Cache {
    tokens: Vec<u32>,
    pos: usize,
    cached: VecSliceRange,
    storage: KvStorage,
}

impl View for Cache {
    type V = CacheModel;

    closed spec fn view(&self) -> CacheModel {
        CacheModel {
            tokens: self.tokens@,
            pos: self.pos as int,
            cached: self.cached@,
            capacity: self.storage.capacity as int,
        }
    }
}

impl Cache {
    /// A blank cache ready to have `tokens` filled in: nothing is cached yet
    /// and the conversation starts at absolute position zero.
    pub fn new(tokens: Vec<u32>, capacity: usize) -> (r: Self)
        ensures
            r@ == (CacheModel {
                tokens: tokens@,
                pos: 0,
                cached: seq![(Span { start: 0, end: 0 })],
                capacity: capacity as int,
            }),
            r@.wf(),
    {
        proof {
            vstd::std_specs::vec::axiom_spec_len(&tokens);
        }
        Cache {
            tokens,
            pos: 0,
            cached: VecSliceRange::from_span(Span { start: 0, end: 0 }),
            storage: KvStorage::new(capacity),
        }
    }

    /// The physical buffer handle.
    pub fn storage(&self) -> (r: &KvStorage)
        ensures
            r.capacity == self@.capacity,
    {
        &self.storage
    }

    /// One past the last cached index of `tokens`.
    pub fn cached_end(&self) -> (r: usize)
        requires
            self@.cached.len() > 0,
        ensures
            r == self@.cached_end(),
    {
        self.cached.end()
    }

    /// Appends tokens still to be processed, such as the remaining prompt.
    pub fn extend(&mut self, tokens: &[u32])
        requires
            old(self)@.wf(),
            old(self)@.end_pos() + tokens@.len() <= usize::MAX,
        ensures
            final(self)@ == (CacheModel { tokens: old(self)@.tokens + tokens@, ..old(self)@ }),
            final(self)@.wf(),
    {
        let ghost t0 = self.tokens@;
        let mut i: usize = 0;
        while i < tokens.len()
            invariant
                i <= tokens@.len(),
                self.tokens@ == t0 + tokens@.take(i as int),
                self.pos == old(self).pos,
                self.cached == old(self).cached,
                self.storage == old(self).storage,
            decreases tokens@.len() - i,
        {
            proof {
                assert(t0 + tokens@.take(i + 1) =~= (t0 + tokens@.take(i as int)).push(
                    tokens@[i as int],
                ));
            }
            let tok = *vstd::slice::slice_index_get(tokens, i);
            self.tokens.push(tok);
            i = i + 1;
        }
        proof {
            assert(t0 + tokens@.take(tokens@.len() as int) =~= t0 + tokens@);
            assert(final(self)@ =~= (CacheModel { tokens: t0 + tokens@, ..old(self)@ }));
        }
    }

    /// The part of the tokens not yet in the cache: exactly this step's
    /// query for the model.
    pub fn query(&self) -> (r: &[u32])
        requires
            self@.wf(),
            self@.cached.len() > 0,
        ensures
            r@ == self@.query_seq(),
            r@.len() == self@.pending_len(),
    {
        let e = self.cached.end();
        vstd::slice::slice_subrange(self.tokens.as_slice(), e, self.tokens.len())
    }

    /// Absolute position of the next token to be produced.
    pub fn end(&self) -> (r: usize)
        requires
            self@.wf(),
        ensures
            r == self@.end_pos(),
    {
        self.pos + self.tokens.len()
    }

    /// The token suffix beginning at absolute position `pos`. Asking for a
    /// position before the recorded origin, or past the history, is a
    /// contract violation.
    pub fn slice_tail(&self, pos: usize) -> (r: &[u32])
        requires
            self@.wf(),
            self@.pos <= pos,
            pos - self@.pos <= self@.tokens.len(),
        ensures
            r@ == self@.tokens.skip(pos - self@.pos),
    {
        let known = pos - self.pos;
        vstd::slice::slice_subrange(self.tokens.as_slice(), known, self.tokens.len())
    }

    /// Commits every pending token as cached and appends the newly sampled
    /// `token` as the next pending query. After the call the cached set ends
    /// exactly one short of the history, and the pending suffix is `[token]`.
    pub fn push(&mut self, token: u32)
        requires
            old(self)@.wf(),
            old(self)@.cached.len() > 0,
            old(self)@.end_pos() + 1 <= usize::MAX,
        ensures
            final(self)@ == push_model(old(self)@, token),
            final(self)@.wf(),
            final(self)@.cached_end() == final(self)@.tokens.len() - 1,
            final(self)@.query_seq() == seq![token],
    {
        proof {
            lemma_spans_ordered(old(self)@.cached, 0, old(self)@.cached.len() - 1);
        }
        let n = self.tokens.len();
        self.cached.extend_to(n);
        self.tokens.push(token);
        proof {
            assert(final(self)@.query_seq() =~= seq![token]);
        }
    }

    /// An independent copy of the whole conversation state: token history
    /// and tracker cloned, physical storage deep-copied. Only a cache that
    /// is clean from its logical origin (first cached index zero) may be
    /// forked; anything else is a contract violation.
    pub fn duplicate(&self) -> (r: Self)
        requires
            self@.wf(),
            self@.cached.len() > 0,
            self@.cached_start() == 0,
        ensures
            r@ == self@,
    {
        let mut tokens: Vec<u32> = Vec::new();
        let mut i: usize = 0;
        while i < self.tokens.len()
            invariant
                i <= self@.tokens.len(),
                tokens@ == self@.tokens.take(i as int),
            decreases self@.tokens.len() - i,
        {
            proof {
                assert(self@.tokens.take(i + 1) =~= self@.tokens.take(i as int).push(
                    self@.tokens[i as int],
                ));
            }
            tokens.push(self.tokens[i]);
            i = i + 1;
        }
        proof {
            assert(self@.tokens.take(self@.tokens.len() as int) =~= self@.tokens);
        }
        let r = Cache {
            tokens,
            pos: self.pos,
            cached: self.cached.duplicate(),
            storage: self.storage,
        };
        proof {
            assert(r@ =~= self@);
        }
        r
    }

    /// Rolls the cache back to absolute position `pos`, for use only
    /// between generation steps of a clean cache. Returns the remaining
    /// cached length, or `None`, with nothing changed, when `pos` predates
    /// the recorded origin or falls in an already-evicted gap.
    #[verifier::rlimit(100)]
    pub fn revert(&mut self, pos: usize) -> (r: Option<usize>)
        requires
            old(self)@.wf(),
            old(self)@.cached.len() > 0,
            old(self)@.cached_start() == 0,
        ensures
            final(self)@.wf(),
            pos < old(self)@.pos ==> r is None && final(self)@ == old(self)@,
            pos >= old(self)@.pos && find_cover(old(self)@.cached, pos - old(self)@.pos) < 0 ==> r
                is None && final(self)@ == old(self)@,
            pos >= old(self)@.pos && find_cover(old(self)@.cached, pos - old(self)@.pos) >= 0 ==> {
                &&& final(self)@ == (CacheModel {
                    tokens: old(self)@.tokens.take(pos - old(self)@.pos),
                    cached: shrink_spans(old(self)@.cached, pos - old(self)@.pos),
                    ..old(self)@
                })
                &&& r == Some(sum_lens(final(self)@.cached) as usize)
            },
    {
        if pos < self.pos {
            return None;
        }
        let len = pos - self.pos;
        proof {
            lemma_find_cover(old(self)@.cached, len as int);
            lemma_spans_ordered(old(self)@.cached, 0, old(self)@.cached.len() - 1);
        }
        if !self.cached.try_shrink_end(len) {
            return None;
        }
        proof {
            let s = old(self)@.cached;
            let fc = find_cover(s, len as int);
            lemma_spans_ordered(s, fc, s.len() - 1);
            assert(len <= old(self)@.tokens.len());
            let t = shrink_spans(s, len as int);
            // every span left ends at or before `len`
            if t.len() > 0 {
                if s[fc].start == len {
                    lemma_spans_ordered(s, t.len() - 1, fc);
                    assert(t.last() == s[t.len() - 1]);
                } else {
                    assert(t.last().end == len);
                }
            }
        }
        self.tokens.truncate(len);
        let remaining = self.cached.len();
        proof {
            assert(self.tokens@ =~= old(self)@.tokens.take(pos - old(self)@.pos));
        }
        Some(remaining)
    }

    /// Where the pending tokens go in the compacted physical buffer: the
    /// slots starting right after the logically cached entries. The range
    /// deliberately ignores gaps in the tracked set, because physical
    /// storage has none.
    pub fn build_query_context(&self) -> (r: Span)
        requires
            self@.wf(),
            self@.cached.len() > 0,
        ensures
            r.start == self@.cached_len(),
            r.end == self@.compacted_len(),
            r.wf(),
    {
        proof {
            lemma_sum_lens_bound(self@.cached);
            lemma_spans_ordered(self@.cached, 0, self@.cached.len() - 1);
        }
        let cached_len = self.cached.len();
        let pending = self.tokens.len() - self.cached.end();
        Span { start: cached_len, end: cached_len + pending }
    }

    /// Number of logically cached positions.
    pub fn cached_len(&self) -> (r: usize)
        requires
            self@.wf(),
        ensures
            r == self@.cached_len(),
    {
        self.cached.len()
    }

    /// Resets the cache window once the compacted logical length reaches
    /// `max`: everything is dropped from the tracked set, and a single empty
    /// marker span is anchored `min_size` positions before the end of the
    /// history. Below `max` nothing changes.
    pub fn reset_within_one_range(&mut self, min_size: usize, max: usize)
        requires
            old(self)@.wf(),
            old(self)@.cached.len() > 0,
            old(self)@.compacted_len() >= max ==> min_size <= old(self)@.tokens.len(),
        ensures
            final(self)@.wf(),
            old(self)@.compacted_len() >= max ==> final(self)@ == (CacheModel {
                cached: seq![
                    (Span {
                        start: (old(self)@.tokens.len() - min_size) as usize,
                        end: (old(self)@.tokens.len() - min_size) as usize,
                    }),
                ],
                ..old(self)@
            }),
            old(self)@.compacted_len() < max ==> final(self)@ == old(self)@,
            final(self)@.cached.len() > 0,
    {
        proof {
            lemma_sum_lens_bound(self@.cached);
            lemma_spans_ordered(self@.cached, 0, self@.cached.len() - 1);
        }
        let t = self.tokens.len();
        let e = self.cached.end();
        let l = self.cached.len();
        if t - e + l >= max {
            let anchor = t - min_size;
            self.cached = VecSliceRange::from_span(Span { start: anchor, end: anchor });
        }
    }

    /// The tracked set after window eviction: the first span trimmed to at
    /// most `start_size` entries, and an empty marker span anchored
    /// `end_size` positions before the end of the history.
    pub open spec fn window_spans(
        first: Span,
        start_size: int,
        tokens_len: int,
        end_size: int,
    ) -> Seq<Span> {
        let head_end = if first.end <= start_size {
            first.end as int
        } else {
            start_size
        };
        seq![
            (Span { start: first.start, end: head_end as usize }),
            (Span { start: (tokens_len - end_size) as usize, end: (tokens_len - end_size) as usize }),
        ]
    }

    /// Window eviction with an attention sink: once the compacted logical
    /// length reaches `max`, keep at most `start_size` entries of the first
    /// cached span and anchor an empty marker span `end_size` positions
    /// before the end of the history. Positions between the two are no
    /// longer marked cached and will be recomputed; their token ids stay in
    /// the history until the next compaction. Below `max` nothing changes.
    #[verifier::rlimit(50)]
    pub fn reset_within_start_and_end_range(
        &mut self,
        start_size: usize,
        end_size: usize,
        max: usize,
    )
        requires
            old(self)@.wf(),
            old(self)@.cached.len() > 0,
            old(self)@.compacted_len() >= max ==> {
                &&& old(self)@.cached[0].start <= start_size
                &&& end_size <= old(self)@.tokens.len()
                &&& (if old(self)@.cached[0].end <= start_size {
                    old(self)@.cached[0].end as int
                } else {
                    start_size as int
                }) <= old(self)@.tokens.len() - end_size
            },
        ensures
            final(self)@.wf(),
            old(self)@.compacted_len() >= max ==> final(self)@ == (CacheModel {
                cached: Self::window_spans(
                    old(self)@.cached[0],
                    start_size as int,
                    old(self)@.tokens.len() as int,
                    end_size as int,
                ),
                ..old(self)@
            }),
            old(self)@.compacted_len() < max ==> final(self)@ == old(self)@,
            final(self)@.cached.len() > 0,
            old(self)@.compacted_len() >= max ==> final(self)@.cached[0].start == old(
                self,
            )@.cached[0].start,
    {
        proof {
            lemma_sum_lens_bound(self@.cached);
            lemma_spans_ordered(self@.cached, 0, self@.cached.len() - 1);
        }
        let t = self.tokens.len();
        let e = self.cached.end();
        let l = self.cached.len();
        if t - e + l >= max {
            let first = self.cached.range_at(0);
            let head_end = if first.end <= start_size {
                first.end
            } else {
                start_size
            };
            let anchor = t - end_size;
            let mut v: Vec<Span> = Vec::new();
            v.push(Span { start: first.start, end: head_end });
            v.push(Span { start: anchor, end: anchor });
            self.cached = VecSliceRange::try_from(v);
        }
    }

    /// Starts the cache over with a new token history and absolute offset;
    /// nothing is cached afterwards.
    pub fn reset_with(&mut self, tokens: Vec<u32>, pos: usize)
        requires
            pos + tokens@.len() <= usize::MAX,
        ensures
            final(self)@ == (CacheModel {
                tokens: tokens@,
                pos: pos as int,
                cached: seq![(Span { start: 0, end: 0 })],
                capacity: old(self)@.capacity,
            }),
            final(self)@.wf(),
    {
        self.tokens = tokens;
        self.pos = pos;
        self.cached = VecSliceRange::from_span(Span { start: 0, end: 0 });
    }

    /// Compaction: removes the discarded prefix (everything before the
    /// first cached index) from the token history, advances the absolute
    /// offset by the removed count, and renumbers the tracked set down by
    /// the same amount. Afterwards the cached set starts at index zero.
    pub fn cleanup_before_start(&mut self)
        requires
            old(self)@.wf(),
            old(self)@.cached.len() > 0,
        ensures
            final(self)@ == compact_model(old(self)@),
            final(self)@.wf(),
            final(self)@.cached.len() == old(self)@.cached.len(),
            final(self)@.cached_start() == 0,
    {
        proof {
            lemma_spans_ordered(self@.cached, 0, self@.cached.len() - 1);
        }
        let to_remove = self.cached.start();
        if to_remove > 0 {
            let ghost t0 = self.tokens@;
            let mut kept: Vec<u32> = Vec::new();
            let mut i: usize = to_remove;
            while i < self.tokens.len()
                invariant
                    to_remove <= i <= self.tokens@.len(),
                    self.tokens@ == t0,
                    kept@ == t0.subrange(to_remove as int, i as int),
                decreases self.tokens@.len() - i,
            {
                proof {
                    assert(t0.subrange(to_remove as int, i + 1) =~= t0.subrange(
                        to_remove as int,
                        i as int,
                    ).push(t0[i as int]));
                }
                kept.push(self.tokens[i]);
                i = i + 1;
            }
            self.tokens = kept;
            self.pos = self.pos + to_remove;
            self.cached.sub_overall(to_remove);
            proof {
                assert(self.tokens@ =~= t0.skip(to_remove as int));
                assert(self@ =~= compact_model(old(self)@));
                lemma_shift_down_wf(old(self)@.cached, to_remove);
            }
        } else {
            proof {
                assert(old(self)@.tokens.skip(0) =~= old(self)@.tokens);
                assert(shift_down_spans(old(self)@.cached, 0) =~= old(self)@.cached);
                assert(self@ =~= compact_model(old(self)@));
            }
        }
    }

    /// Length of the final contiguous cached run, used to decide how much
    /// trailing cache is reusable when duplicating or resuming a context.
    /// Asking an empty tracker is a contract violation.
    pub fn get_last_cached_range_len(&self) -> (r: usize)
        requires
            self@.wf(),
            self@.cached.len() > 0,
        ensures
            r == self@.cached.last().spec_len(),
    {
        let k = self.cached.get_ranges().len();
        let last = self.cached.range_at(k - 1);
        last.len()
    }
}

} // verus!
