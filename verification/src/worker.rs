//! The per-device command processor. One worker owns every active session
//! of its device and applies inference and teardown commands strictly in
//! arrival order; an inference occupies the worker for its whole generation.
//!
//! The worker decides; the surrounding runtime performs the outside work: it
//! receives commands from a channel, invokes the forward-pass capability on
//! the query each `step` derives, and feeds every sampled token back through
//! `accept_token` until the end-of-sequence token arrives.

use vstd::prelude::*;
use crate::cache::{push_model, CacheModel};
use crate::ranges::Span;
use crate::session::{request_model, SessionContext};

verus! {

/// Which compute device a service runs on.
#[derive(Clone, Copy, PartialEq, Eq, Hash, Debug)]
#[non_exhaustive]
pub enum Device {
    Cpu,
    NvidiaGpu(i32),
}

/// A command submitted through a session handle, applied by the worker in
/// arrival order.
#[derive(Clone, Debug)]
pub enum Command {
    /// Run one generation over `prompt` for the session `id`, streaming
    /// sampled tokens back until the end-of-sequence token.
    Infer { id: usize, prompt: Vec<u32> },
    /// Discard the session `id` and release its physical cache storage.
    DropSession { id: usize },
}

/// The single-threaded scheduler of one device: its sessions, the
/// end-of-sequence token id, and the eviction configuration.
#[derive(Debug)]
pub struct Worker {
    /// The sessions this worker owns, in creation order.
    pub sessions: Vec<SessionContext>,
    /// Token id that ends a generation without being emitted.
    pub eos: u32,
    /// Maximum sequence length the physical cache can hold.
    pub max_seq_len: usize,
    /// Sink window size kept at the head on eviction.
    pub start_size: usize,
    /// Tail window size kept near the end on eviction.
    pub end_size: usize,
}

impl Worker {
    /// The sessions the worker currently owns, in creation order.
    pub open spec fn sessions_seq(self) -> Seq<SessionContext> {
        self.sessions@
    }

    /// Worker invariant: session ids are unique, every session is well
    /// formed, and the eviction windows fit the capacity.
    pub open spec fn wf(self) -> bool {
        &&& forall|i: int, j: int|
            #![trigger self.sessions_seq()[i], self.sessions_seq()[j]]
            0 <= i < j < self.sessions_seq().len() ==> self.sessions_seq()[i].id
                != self.sessions_seq()[j].id
        &&& forall|i: int|
            0 <= i < self.sessions_seq().len() ==> (#[trigger] self.sessions_seq()[i]).wf()
        &&& self.start_size + self.end_size <= self.max_seq_len
    }

    /// Whether a session with this id exists.
    pub open spec fn has_session(self, id: usize) -> bool {
        exists|i: int|
            0 <= i < self.sessions_seq().len() && (#[trigger] self.sessions_seq()[i]).id == id
    }

    /// Position of the session with this id; meaningful only when it
    /// exists, and then unique.
    pub open spec fn session_index(self, id: usize) -> int {
        choose|i: int|
            0 <= i < self.sessions_seq().len() && (#[trigger] self.sessions_seq()[i]).id == id
    }

    /// The session with this id; meaningful only when it exists.
    pub open spec fn session_for(self, id: usize) -> SessionContext {
        self.sessions_seq()[self.session_index(id)]
    }

    /// The configuration fields, unchanged by every session operation.
    pub open spec fn same_config(self, other: Worker) -> bool {
        &&& self.eos == other.eos
        &&& self.max_seq_len == other.max_seq_len
        &&& self.start_size == other.start_size
        &&& self.end_size == other.end_size
    }

    /// With unique ids, any position holding `id` is the session index.
    pub proof fn lemma_index_of_id(self, id: usize, idx: int)
        requires
            self.wf(),
            0 <= idx < self.sessions_seq().len(),
            self.sessions_seq()[idx].id == id,
        ensures
            self.has_session(id),
            self.session_index(id) == idx,
    {
        assert(self.has_session(id));
        let k = self.session_index(id);
        if k != idx {
            if k < idx {
                assert(self.sessions_seq()[k].id != self.sessions_seq()[idx].id);
            } else {
                assert(self.sessions_seq()[idx].id != self.sessions_seq()[k].id);
            }
        }
    }

    /// A worker for one device with no sessions yet.
    pub fn new(eos: u32, max_seq_len: usize, start_size: usize, end_size: usize) -> (r: Self)
        requires
            start_size + end_size <= max_seq_len,
        ensures
            r.wf(),
            r.sessions_seq() == Seq::<SessionContext>::empty(),
            r.eos == eos,
            r.max_seq_len == max_seq_len,
            r.start_size == start_size,
            r.end_size == end_size,
    {
        Worker { sessions: Vec::new(), eos, max_seq_len, start_size, end_size }
    }

    /// Position of the session with this id, or `None` when the id is
    /// unknown to this worker.
    pub fn find_session(&self, id: usize) -> (r: Option<usize>)
        ensures
            match r {
                Some(i) => i < self.sessions_seq().len() && self.sessions_seq()[i as int].id == id,
                None => !self.has_session(id),
            },
    {
        let mut i: usize = 0;
        while i < self.sessions.len()
            invariant
                i <= self.sessions_seq().len(),
                forall|j: int| 0 <= j < i ==> (#[trigger] self.sessions_seq()[j]).id != id,
            decreases self.sessions_seq().len() - i,
        {
            if self.sessions[i].id == id {
                return Some(i);
            }
            i = i + 1;
        }
        None
    }

    /// Looks the session up, creating it lazily — with an empty history and
    /// a cache sized to the device's maximum sequence length — when the id
    /// is new.
    pub fn ensure_session(&mut self, id: usize)
        requires
            old(self).wf(),
        ensures
            final(self).wf(),
            final(self).has_session(id),
            final(self).same_config(*old(self)),
            old(self).has_session(id) ==> final(self).sessions_seq() == old(self).sessions_seq(),
            !old(self).has_session(id) ==> {
                &&& final(self).sessions_seq().len() == old(self).sessions_seq().len() + 1
                &&& final(self).sessions_seq().take(old(self).sessions_seq().len() as int) == old(
                    self,
                ).sessions_seq()
                &&& final(self).sessions_seq().last().id == id
                &&& final(self).sessions_seq().last().cache@ == (CacheModel {
                    tokens: Seq::<u32>::empty(),
                    pos: 0,
                    cached: seq![(Span { start: 0, end: 0 })],
                    capacity: old(self).max_seq_len as int,
                })
            },
    {
        match self.find_session(id) {
            Some(_) => {},
            None => {
                let fresh = SessionContext::new(id, self.max_seq_len);
                self.sessions.push(fresh);
                proof {
                    let s0 = old(self).sessions_seq();
                    let s1 = self.sessions_seq();
                    assert(s1.take(s0.len() as int) =~= s0);
                    assert(s1.last().id == id);
                    assert forall|i: int, j: int|
                        #![trigger s1[i], s1[j]]
                        0 <= i < j < s1.len() implies s1[i].id != s1[j].id by {
                        if j < s0.len() {
                            assert(s1[i] == s0[i] && s1[j] == s0[j]);
                        } else {
                            assert(s1[i] == s0[i]);
                            assert(s1[j].id == id);
                        }
                    }
                    assert forall|i: int| 0 <= i < s1.len() implies (#[trigger] s1[i]).wf() by {
                        if i < s0.len() {
                            assert(s1[i] == s0[i]);
                        }
                    }
                }
            },
        }
    }

    /// Prepares one generation step of session `id`: appends `tokens` to
    /// its history, applies window eviction, and returns the index where
    /// the query suffix begins. The session must exist.
    pub fn step(&mut self, id: usize, tokens: &[u32]) -> (pos: usize)
        requires
            old(self).wf(),
            old(self).has_session(id),
            old(self).session_for(id).cache@.end_pos() + tokens@.len() <= usize::MAX,
        ensures
            final(self).wf(),
            final(self).has_session(id),
            final(self).same_config(*old(self)),
            final(self).sessions_seq().len() == old(self).sessions_seq().len(),
            final(self).session_index(id) == old(self).session_index(id),
            forall|i: int|
                0 <= i < old(self).sessions_seq().len() && i != old(self).session_index(id)
                    ==> final(self).sessions_seq()[i] == old(self).sessions_seq()[i],
            final(self).session_for(id).id == id,
            final(self).session_for(id).cache@ == request_model(
                old(self).session_for(id).cache@,
                tokens@,
                old(self).start_size as int,
                old(self).end_size as int,
                old(self).max_seq_len as int,
            ),
            pos == final(self).session_for(id).cache@.cached_end(),
            final(self).session_for(id).cache@.compacted_len() <= old(self).max_seq_len,
    {
        let idx = match self.find_session(id) {
            Some(i) => i,
            None => {
                proof {
                    assert(false);
                }
                0
            },
        };
        proof {
            old(self).lemma_index_of_id(id, idx as int);
        }
        let mut s = self.sessions.remove(idx);
        let pos = s.request(tokens, self.start_size, self.end_size, self.max_seq_len);
        self.sessions.insert(idx, s);
        proof {
            let s0 = old(self).sessions_seq();
            let s1 = self.sessions_seq();
            assert(s1 =~= s0.update(idx as int, s));
            assert forall|i: int| 0 <= i < s1.len() implies (#[trigger] s1[i]).wf() by {
                if i != idx {
                    assert(s1[i] == s0[i]);
                }
            }
            assert forall|i: int, j: int|
                #![trigger s1[i], s1[j]]
                0 <= i < j < s1.len() implies s1[i].id != s1[j].id by {
                assert(s1[i].id == s0[i].id && s1[j].id == s0[j].id);
            }
            self.lemma_index_of_id(id, idx as int);
        }
        pos
    }

    /// Applies one sampled token to session `id`. The end-of-sequence token
    /// finishes the generation and leaves every session untouched; any
    /// other token is committed into the cache, becoming the next
    /// single-token query. The session must exist.
    pub fn accept_token(&mut self, id: usize, token: u32) -> (done: bool)
        requires
            old(self).wf(),
            old(self).has_session(id),
            old(self).session_for(id).cache@.end_pos() + 1 <= usize::MAX,
        ensures
            final(self).wf(),
            final(self).has_session(id),
            final(self).same_config(*old(self)),
            done == (token == old(self).eos),
            done ==> final(self).sessions_seq() == old(self).sessions_seq(),
            !done ==> {
                &&& final(self).sessions_seq().len() == old(self).sessions_seq().len()
                &&& final(self).session_index(id) == old(self).session_index(id)
                &&& forall|i: int|
                    0 <= i < old(self).sessions_seq().len() && i != old(self).session_index(id)
                        ==> final(self).sessions_seq()[i] == old(self).sessions_seq()[i]
                &&& final(self).session_for(id).id == id
                &&& final(self).session_for(id).cache@ == push_model(
                    old(self).session_for(id).cache@,
                    token,
                )
            },
    {
        if token == self.eos {
            return true;
        }
        let idx = match self.find_session(id) {
            Some(i) => i,
            None => {
                proof {
                    assert(false);
                }
                0
            },
        };
        proof {
            old(self).lemma_index_of_id(id, idx as int);
        }
        let mut s = self.sessions.remove(idx);
        s.cache.push(token);
        self.sessions.insert(idx, s);
        proof {
            let s0 = old(self).sessions_seq();
            let s1 = self.sessions_seq();
            assert(s1 =~= s0.update(idx as int, s));
            assert forall|i: int| 0 <= i < s1.len() implies (#[trigger] s1[i]).wf() by {
                if i != idx {
                    assert(s1[i] == s0[i]);
                }
            }
            assert forall|i: int, j: int|
                #![trigger s1[i], s1[j]]
                0 <= i < j < s1.len() implies s1[i].id != s1[j].id by {
                assert(s1[i].id == s0[i].id && s1[j].id == s0[j].id);
            }
            self.lemma_index_of_id(id, idx as int);
        }
        false
    }

    /// This step's query suffix of session `id`: every token not yet
    /// submitted to the model.
    pub fn query_tokens(&self, id: usize) -> (r: &[u32])
        requires
            self.wf(),
            self.has_session(id),
        ensures
            r@ == self.session_for(id).cache@.query_seq(),
    {
        let idx = match self.find_session(id) {
            Some(i) => i,
            None => {
                proof {
                    assert(false);
                }
                0
            },
        };
        proof {
            self.lemma_index_of_id(id, idx as int);
        }
        self.sessions[idx].cache.query()
    }

    /// Removes and discards the session `id`, releasing its cache storage.
    /// Unknown ids are ignored. A teardown queued behind an inference only
    /// runs here after that inference has finished: the worker applies
    /// commands strictly in order.
    pub fn drop_session(&mut self, id: usize)
        requires
            old(self).wf(),
        ensures
            final(self).wf(),
            !final(self).has_session(id),
            final(self).same_config(*old(self)),
            old(self).has_session(id) ==> final(self).sessions_seq() == old(
                self,
            ).sessions_seq().remove(old(self).session_index(id)),
            !old(self).has_session(id) ==> final(self).sessions_seq() == old(self).sessions_seq(),
    {
        match self.find_session(id) {
            Some(idx) => {
                proof {
                    old(self).lemma_index_of_id(id, idx as int);
                }
                let _ = self.sessions.remove(idx);
                proof {
                    let s0 = old(self).sessions_seq();
                    let s1 = self.sessions_seq();
                    assert forall|i: int| 0 <= i < s1.len() implies (#[trigger] s1[i]).wf() by {
                        if i < idx {
                            assert(s1[i] == s0[i]);
                        } else {
                            assert(s1[i] == s0[i + 1]);
                        }
                    }
                    assert forall|i: int, j: int|
                        #![trigger s1[i], s1[j]]
                        0 <= i < j < s1.len() implies s1[i].id != s1[j].id by {
                        let i0 = if i < idx { i } else { i + 1 };
                        let j0 = if j < idx { j } else { j + 1 };
                        assert(s1[i] == s0[i0] && s1[j] == s0[j0]);
                    }
                    assert forall|i: int| 0 <= i < s1.len() implies (#[trigger] s1[i]).id != id by {
                        let i0 = if i < idx { i } else { i + 1 };
                        assert(s1[i] == s0[i0]);
                        if s0[i0].id == id {
                            if i0 < idx {
                                assert(s0[i0].id != s0[idx as int].id);
                            } else {
                                assert(s0[idx as int].id != s0[i0].id);
                            }
                        }
                    }
                }
            },
            None => {},
        }
    }

    /// How many sessions the worker currently owns.
    pub fn session_count(&self) -> (r: usize)
        ensures
            r == self.sessions_seq().len(),
    {
        self.sessions.len()
    }
}

} // verus!
