//! A gapped set of half-open position ranges, kept ordered and
//! non-overlapping. It records which positions of a logical token buffer
//! already have entries in a physical cache buffer.

use vstd::prelude::*;

verus! {

/// Half-open range of positions `[start, end)`.
#[derive(Clone, Copy, Debug, PartialEq, Eq, Structural)]
pub struct Span {
    pub start: usize,
    pub end: usize,
}

impl Span {
    /// A span never runs backwards.
    pub open spec fn wf(self) -> bool {
        self.start <= self.end
    }

    /// Number of positions the span covers.
    pub open spec fn spec_len(self) -> int {
        self.end - self.start
    }

    /// `e` lies on the span, both endpoints included.
    pub open spec fn covers(self, e: int) -> bool {
        self.start <= e <= self.end
    }

    pub fn len(&self) -> (r: usize)
        requires
            self.wf(),
        ensures
            r == self.spec_len(),
    {
        self.end - self.start
    }
}

/// The ordering invariant: every span is well formed and consecutive spans
/// do not overlap (`a.end <= b.start`).
pub open spec fn spans_wf(s: Seq<Span>) -> bool {
    &&& forall|i: int| 0 <= i < s.len() ==> (#[trigger] s[i]).wf()
    &&& forall|i: int| 0 < i < s.len() ==> (#[trigger] s[i]).start >= s[i - 1].end
}

/// Total number of covered positions, summed over the spans.
pub open spec fn sum_lens(s: Seq<Span>) -> int
    decreases s.len(),
{
    if s.len() == 0 {
        0
    } else {
        sum_lens(s.drop_last()) + s.last().spec_len()
    }
}

/// In an ordered span sequence, bounds grow with the index.
pub proof fn lemma_spans_ordered(s: Seq<Span>, i: int, j: int)
    requires
        spans_wf(s),
        0 <= i <= j < s.len(),
    ensures
        s[i].start <= s[j].start,
        s[i].end <= s[j].end,
        s[i].start <= s[j].end,
        i < j ==> s[i].end <= s[j].start,
    decreases j - i,
{
    if i < j {
        lemma_spans_ordered(s, i, j - 1);
    }
}

/// A prefix of an ordered span sequence is ordered.
pub proof fn lemma_spans_wf_take(s: Seq<Span>, n: int)
    requires
        spans_wf(s),
        0 <= n <= s.len(),
    ensures
        spans_wf(s.take(n)),
{
    assert forall|i: int| 0 <= i < n implies (#[trigger] s.take(n)[i]).wf() by {
        assert(s.take(n)[i] == s[i]);
    }
    assert forall|i: int| 0 < i < n implies (#[trigger] s.take(n)[i]).start >= s.take(n)[i
        - 1].end by {
        assert(s.take(n)[i] == s[i]);
        assert(s.take(n)[i - 1] == s[i - 1]);
    }
}

/// The covered positions of an ordered, non-empty span sequence all fit
/// between the first start and the last end.
pub proof fn lemma_sum_lens_bound(s: Seq<Span>)
    requires
        spans_wf(s),
        s.len() > 0,
    ensures
        0 <= sum_lens(s) <= s.last().end - s[0].start,
    decreases s.len(),
{
    if s.len() == 1 {
        assert(s.drop_last() =~= Seq::<Span>::empty());
        assert(sum_lens(Seq::<Span>::empty()) == 0);
        assert(sum_lens(s) == s[0].spec_len());
    } else {
        lemma_spans_wf_take(s, s.len() - 1);
        assert(s.drop_last() =~= s.take(s.len() - 1));
        lemma_sum_lens_bound(s.drop_last());
        assert(s.drop_last()[0] == s[0]);
        assert(s.drop_last().last() == s[s.len() - 2]);
        lemma_spans_ordered(s, s.len() - 2, s.len() - 1);
    }
}

/// Every bound moved down by `n`. Meaningful only when `n` is at most the
/// first start, so that no bound goes negative.
pub open spec fn shift_down_spans(s: Seq<Span>, n: int) -> Seq<Span> {
    Seq::new(s.len(), |i: int| (Span { start: (s[i].start - n) as usize, end: (s[i].end - n) as usize }))
}

/// Every bound moved up by `n`.
pub open spec fn shift_up_spans(s: Seq<Span>, n: int) -> Seq<Span> {
    Seq::new(s.len(), |i: int| (Span { start: (s[i].start + n) as usize, end: (s[i].end + n) as usize }))
}

/// Shifting down keeps the ordering invariant.
pub proof fn lemma_shift_down_wf(s: Seq<Span>, n: usize)
    requires
        spans_wf(s),
        s.len() > 0,
        n <= s[0].start,
    ensures
        spans_wf(shift_down_spans(s, n as int)),
        shift_down_spans(s, n as int).len() == s.len(),
        forall|i: int|
            0 <= i < s.len() ==> (#[trigger] shift_down_spans(s, n as int)[i]) == (Span {
                start: (s[i].start - n) as usize,
                end: (s[i].end - n) as usize,
            }),
{
    assert forall|i: int| 0 <= i < s.len() implies n <= s[i].start && n <= s[i].end by {
        lemma_spans_ordered(s, 0, i);
    }
}

/// Law: shifting every bound down by `n` and then re-adding `n` to every
/// bound reproduces the original spans, for any `n` up to the first start.
pub proof fn lemma_shift_round_trip(s: Seq<Span>, n: usize)
    requires
        spans_wf(s),
        s.len() > 0,
        n <= s[0].start,
    ensures
        shift_up_spans(shift_down_spans(s, n as int), n as int) == s,
{
    lemma_shift_down_wf(s, n);
    let d = shift_down_spans(s, n as int);
    let u = shift_up_spans(d, n as int);
    assert forall|i: int| 0 <= i < s.len() implies u[i] == s[i] by {
        lemma_spans_ordered(s, 0, i);
        assert(d[i].start == s[i].start - n);
        assert(d[i].end == s[i].end - n);
    }
    assert(u =~= s);
}

/// Index of the first span covering `e`, or `-1` when none does.
pub open spec fn find_cover(s: Seq<Span>, e: int) -> int
    decreases s.len(),
{
    if s.len() == 0 {
        -1
    } else if s[0].covers(e) {
        0
    } else {
        let r = find_cover(s.subrange(1, s.len() as int), e);
        if r < 0 {
            -1
        } else {
            r + 1
        }
    }
}

/// What `find_cover` returns: a covering index with no earlier one, or `-1`
/// exactly when no span covers `e`.
pub proof fn lemma_find_cover(s: Seq<Span>, e: int)
    ensures
        -1 <= find_cover(s, e) < s.len(),
        find_cover(s, e) >= 0 ==> (#[trigger] s[find_cover(s, e)]).covers(e),
        find_cover(s, e) >= 0 ==> forall|i: int|
            0 <= i < find_cover(s, e) ==> !(#[trigger] s[i]).covers(e),
        find_cover(s, e) == -1 ==> forall|i: int| 0 <= i < s.len() ==> !(#[trigger] s[i]).covers(e),
    decreases s.len(),
{
    if s.len() == 0 {
    } else if s[0].covers(e) {
    } else {
        let tail = s.subrange(1, s.len() as int);
        lemma_find_cover(tail, e);
        assert forall|i: int| 1 <= i < s.len() implies s[i] == tail[i - 1] by {}
    }
}

/// The spans left after shrinking to `e`: everything after the first span
/// covering `e` is dropped, and that span is trimmed to end at `e`, or
/// removed when it would become empty at its own start.
pub open spec fn shrink_spans(s: Seq<Span>, e: int) -> Seq<Span> {
    let i = find_cover(s, e);
    if s[i].start == e {
        s.take(i)
    } else {
        s.take(i).push((Span { start: s[i].start, end: e as usize }))
    }
}

/// Ordered, non-overlapping spans over a logical token buffer. An empty
/// tracker is the valid range set `{}`.
#[derive(Clone, Debug, PartialEq, Eq)]
pub struct VecSliceRange {
    ranges: Vec<Span>,
}

impl View for VecSliceRange {
    type V = Seq<Span>;

    closed spec fn view(&self) -> Seq<Span> {
        self.ranges@
    }
}

impl VecSliceRange {
    /// Start of the first span. Callers must know the tracker is non-empty.
    pub open spec fn spec_start(self) -> int {
        self@[0].start as int
    }

    /// End of the last span. Callers must know the tracker is non-empty.
    pub open spec fn spec_end(self) -> int {
        self@.last().end as int
    }

    /// Wraps a list of spans whose ordering invariant the caller has
    /// already established; handing over anything else is a contract
    /// violation. `replace` is the validating counterpart.
    pub fn try_from(v: Vec<Span>) -> (r: Self)
        requires
            spans_wf(v@),
        ensures
            r@ == v@,
    {
        Self { ranges: v }
    }

    /// Wholesale replacement with validation: accepts the spans only when
    /// they are ordered and non-overlapping, so a malformed set never
    /// enters the tracked state.
    pub fn replace(v: Vec<Span>) -> (r: Option<Self>)
        ensures
            r is Some <==> spans_wf(v@),
            match r {
                Some(t) => t@ == v@,
                None => true,
            },
    {
        let mut i: usize = 0;
        while i < v.len()
            invariant
                i <= v@.len(),
                forall|j: int| 0 <= j < i ==> (#[trigger] v@[j]).wf(),
                forall|j: int| 0 < j < i ==> (#[trigger] v@[j]).start >= v@[j - 1].end,
            decreases v@.len() - i,
        {
            if v[i].start > v[i].end {
                return None;
            }
            if i > 0 && v[i].start < v[i - 1].end {
                return None;
            }
            i = i + 1;
        }
        Some(Self { ranges: v })
    }

    /// A tracker holding the single span `r`.
    pub fn from_span(r: Span) -> (v: Self)
        ensures
            v@ == seq![r],
    {
        let mut ranges: Vec<Span> = Vec::new();
        ranges.push(r);
        Self { ranges }
    }

    /// First covered position.
    pub fn start(&self) -> (r: usize)
        requires
            self@.len() > 0,
        ensures
            r == self.spec_start(),
    {
        self.ranges[0].start
    }

    /// One past the last covered position.
    pub fn end(&self) -> (r: usize)
        requires
            self@.len() > 0,
        ensures
            r == self.spec_end(),
    {
        self.ranges[self.ranges.len() - 1].end
    }

    /// Total number of covered positions, which is less than
    /// `end() - start()` when the set has an internal gap.
    #[verifier::rlimit(50)]
    pub fn len(&self) -> (r: usize)
        requires
            spans_wf(self@),
        ensures
            r == sum_lens(self@),
    {
        let ghost s = self@;
        let mut total: usize = 0;
        let mut i: usize = 0;
        while i < self.ranges.len()
            invariant
                spans_wf(s),
                self@ == s,
                i <= s.len(),
                total == sum_lens(s.take(i as int)),
            decreases s.len() - i,
        {
            proof {
                lemma_spans_wf_take(s, i + 1);
                assert(s.take(i + 1).drop_last() =~= s.take(i as int));
                assert(s.take(i + 1).last() == s[i as int]);
                lemma_sum_lens_bound(s.take(i + 1));
                assert(s.take(i + 1)[0] == s[0]);
            }
            total = total + (self.ranges[i].end - self.ranges[i].start);
            i = i + 1;
        }
        proof {
            assert(s.take(s.len() as int) =~= s);
        }
        total
    }

    /// Whether no span is tracked at all.
    pub fn is_empty(&self) -> (r: bool)
        ensures
            r == (self@.len() == 0),
    {
        self.ranges.len() == 0
    }

    /// The tracked spans, in order.
    pub fn get_ranges(&self) -> (r: &[Span])
        ensures
            r@ == self@,
    {
        self.ranges.as_slice()
    }

    /// An independent copy of the tracker with the same spans.
    pub fn duplicate(&self) -> (r: Self)
        ensures
            r@ == self@,
    {
        let mut ranges: Vec<Span> = Vec::new();
        let mut i: usize = 0;
        while i < self.ranges.len()
            invariant
                i <= self@.len(),
                ranges@ == self@.take(i as int),
            decreases self@.len() - i,
        {
            proof {
                assert(self@.take(i + 1) =~= self@.take(i as int).push(self@[i as int]));
            }
            ranges.push(self.ranges[i]);
            i = i + 1;
        }
        proof {
            assert(self@.take(self@.len() as int) =~= self@);
        }
        Self { ranges }
    }

    /// The span at index `i`.
    pub fn range_at(&self, i: usize) -> (r: Span)
        requires
            i < self@.len(),
        ensures
            r == self@[i as int],
    {
        self.ranges[i]
    }

    /// Moves the last span's end forward to `end`. The tracker only grows
    /// forward: asking it to shrink through this path is a contract
    /// violation, excluded by the precondition.
    pub fn extend_to(&mut self, end: usize)
        requires
            spans_wf(old(self)@),
            old(self)@.len() > 0,
            end >= old(self).spec_end(),
        ensures
            final(self)@ == old(self)@.update(old(self)@.len() - 1, (Span {
                start: old(self)@.last().start,
                end,
            })),
            final(self)@.len() == old(self)@.len(),
            final(self).spec_end() == end,
            final(self).spec_end() >= old(self).spec_end(),
            final(self).spec_start() == old(self).spec_start(),
            spans_wf(final(self)@),
    {
        let n = self.ranges.len();
        let start = self.ranges[n - 1].start;
        self.ranges[n - 1] = Span { start, end };
        proof {
            let s = old(self)@;
            let t = self@;
            assert forall|i: int| 0 <= i < t.len() implies (#[trigger] t[i]).wf() by {
                if i < t.len() - 1 {
                    assert(t[i] == s[i]);
                }
            }
            assert forall|i: int| 0 < i < t.len() implies (#[trigger] t[i]).start >= t[i
                - 1].end by {
                if i < t.len() - 1 {
                    assert(t[i] == s[i]);
                    assert(t[i - 1] == s[i - 1]);
                } else {
                    assert(t[i - 1] == s[i - 1]);
                }
            }
        }
    }

    /// Renumbers every span down by `n`, after a prefix of `n` positions was
    /// discarded from the buffer the spans index into.
    #[verifier::rlimit(50)]
    pub fn sub_overall(&mut self, n: usize)
        requires
            spans_wf(old(self)@),
            old(self)@.len() > 0,
            n <= old(self).spec_start(),
        ensures
            final(self)@ == shift_down_spans(old(self)@, n as int),
            final(self)@.len() == old(self)@.len(),
            spans_wf(final(self)@),
            final(self).spec_start() == old(self).spec_start() - n,
            final(self).spec_end() == old(self).spec_end() - n,
    {
        let ghost s = self@;
        let mut shifted: Vec<Span> = Vec::new();
        let mut i: usize = 0;
        while i < self.ranges.len()
            invariant
                spans_wf(s),
                self@ == s,
                n <= s[0].start,
                i <= s.len(),
                s.len() > 0,
                shifted@.len() == i,
                forall|j: int|
                    0 <= j < i ==> (#[trigger] shifted@[j]) == (Span {
                        start: (s[j].start - n) as usize,
                        end: (s[j].end - n) as usize,
                    }),
            decreases s.len() - i,
        {
            proof {
                lemma_spans_ordered(s, 0, i as int);
            }
            let r = self.ranges[i];
            shifted.push(Span { start: r.start - n, end: r.end - n });
            i = i + 1;
        }
        proof {
            lemma_shift_down_wf(s, n);
            assert(shifted@ =~= shift_down_spans(s, n as int));
            lemma_spans_ordered(s, 0, s.len() - 1);
        }
        self.ranges = shifted;
    }

    /// Shrinks the tracked set so that it ends at `new_end`. When some span
    /// covers `new_end`, all later spans are dropped, the covering span is
    /// trimmed (or removed if it would become empty at its own start), and
    /// the call returns `true`. When `new_end` falls in a gap or beyond the
    /// spans, nothing changes and the call returns `false`.
    pub fn try_shrink_end(&mut self, new_end: usize) -> (r: bool)
        requires
            spans_wf(old(self)@),
        ensures
            r == (find_cover(old(self)@, new_end as int) >= 0),
            !r ==> final(self)@ == old(self)@,
            r ==> final(self)@ == shrink_spans(old(self)@, new_end as int),
            spans_wf(final(self)@),
            final(self)@.len() <= old(self)@.len(),
    {
        let ghost s = self@;
        let e = new_end;
        proof {
            lemma_find_cover(s, e as int);
        }
        let mut idx: usize = 0;
        let mut found = false;
        while idx < self.ranges.len() && !found
            invariant
                spans_wf(s),
                self@ == s,
                idx <= s.len(),
                !found ==> forall|j: int| 0 <= j < idx ==> !(#[trigger] s[j]).covers(e as int),
                found ==> idx < s.len() && s[idx as int].covers(e as int) && forall|j: int|
                    0 <= j < idx ==> !(#[trigger] s[j]).covers(e as int),
            decreases s.len() - idx + (if found { 0int } else { 1int }),
        {
            let range = self.ranges[idx];
            if range.start <= e && e <= range.end {
                found = true;
            } else {
                idx = idx + 1;
            }
        }
        if found {
            proof {
                let fc = find_cover(s, e as int);
                assert(fc >= 0) by {
                    if fc == -1 {
                        assert(!s[idx as int].covers(e as int));
                    }
                }
                assert(fc == idx) by {
                    if fc < idx {
                        assert(!s[fc].covers(e as int));
                    }
                    if fc > idx {
                        assert(!s[idx as int].covers(e as int));
                    }
                }
                lemma_spans_wf_take(s, idx as int);
            }
            let range = self.ranges[idx];
            if range.start == e {
                self.ranges.truncate(idx);
                proof {
                    assert(self@ =~= s.take(idx as int));
                }
            } else {
                self.ranges.truncate(idx + 1);
                self.ranges[idx] = Span { start: range.start, end: e };
                proof {
                    assert(self@ =~= s.take(idx as int).push(
                        (Span { start: s[idx as int].start, end: e }),
                    ));
                    let t = self@;
                    assert forall|i: int| 0 <= i < t.len() implies (#[trigger] t[i]).wf() by {
                        if i < t.len() - 1 {
                            assert(t[i] == s[i]);
                        }
                    }
                    assert forall|i: int| 0 < i < t.len() implies (#[trigger] t[i]).start >= t[i
                        - 1].end by {
                        assert(t[i - 1] == s[i - 1]);
                        if i < t.len() - 1 {
                            assert(t[i] == s[i]);
                        } else {
                            assert(t[i].start == s[i].start);
                        }
                    }
                }
            }
            true
        } else {
            proof {
                let fc = find_cover(s, e as int);
                assert(fc < 0) by {
                    if fc >= 0 {
                        assert(s[fc].covers(e as int));
                    }
                }
            }
            false
        }
    }
}

} // verus!
