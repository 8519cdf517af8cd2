//! The relay's state and its event decisions: a registry of live connections
//! keyed by an opaque integer id, and the handling of one readiness event —
//! removal on close or failure, and line framing plus broadcast fan-out on
//! delivered bytes. The surrounding I/O layer performs the reads and writes;
//! this module decides what they mean.
use vstd::prelude::*;

verus! {

use crate::BUFFER_SIZE;
use crate::buffer::ClientBuffer;
use crate::framing::{has_newline, step_line, step_pending};

/// What one readiness-driven, non-blocking read of a connection observed;
/// the I/O layer reports it here for the relay to act on.
pub enum ReadOutcome {
    /// The read delivered these bytes.
    Data(Vec<u8>),
    /// The read returned zero bytes: the peer closed its end cleanly.
    Closed,
    /// The read would have blocked: nothing to do until the next readiness
    /// event.
    Blocked,
    /// The read failed for good: the connection is unusable.
    Failed,
}

/// A broadcast decision: a chunk of newline-terminated lines and every
/// connection owed exactly one best-effort write of it.
pub struct Delivery {
    /// The completed lines, each ending in a newline, in arrival order.
    pub message: Vec<u8>,
    /// Every live connection other than the sender, each exactly once, in no
    /// promised order.
    pub recipients: Vec<i32>,
}

/// The relay's state: every live connection's id and its buffered bytes.
/// Ids are unique; iteration order is immaterial.
pub struct ChatServer {
    ids: Vec<i32>,
    bufs: Vec<ClientBuffer>,
}

impl ChatServer {
    /// True iff `id` names a live connection.
    pub closed spec fn connected(&self, id: i32) -> bool {
        self.ids@.contains(id)
    }

    /// Number of live connections.
    pub closed spec fn count(&self) -> nat {
        self.ids@.len()
    }

    /// Index of `id` in the registry (meaningful only when connected).
    spec fn idx_of(&self, id: i32) -> int {
        choose|j: int| 0 <= j < self.ids@.len() && self.ids@[j] == id
    }

    /// The bytes held for connection `id` since its last dispatched line
    /// (meaningful only when connected).
    pub closed spec fn pending_of(&self, id: i32) -> Seq<u8> {
        self.bufs@[self.idx_of(id)].contents()
    }

    /// Registry invariant: ids are unique, each connection's buffer is well
    /// formed, fully scanned and compacted, and never full — so every live
    /// connection can accept at least one more byte.
    pub closed spec fn wf(&self) -> bool {
        &&& self.ids@.len() == self.bufs@.len()
        &&& forall|i: int, j: int|
            0 <= i < j < self.ids@.len() ==> self.ids@[i] != self.ids@[j]
        &&& forall|i: int|
            0 <= i < self.bufs@.len() ==> (#[trigger] self.bufs@[i]).wf()
        &&& forall|i: int|
            0 <= i < self.bufs@.len() ==> (#[trigger] self.bufs@[i]).line_end() == 0
        &&& forall|i: int|
            0 <= i < self.bufs@.len() ==> !has_newline((#[trigger] self.bufs@[i]).contents())
        &&& forall|i: int|
            0 <= i < self.bufs@.len() ==> (#[trigger] self.bufs@[i]).contents().len()
                < BUFFER_SIZE
    }

    /// Each position of the registry is the home of its id: `idx_of` inverts
    /// indexing wherever the invariant holds.
    proof fn lemma_idx(&self, j: int)
        requires
            self.wf(),
            0 <= j < self.ids@.len(),
        ensures
            self.connected(self.ids@[j]),
            self.idx_of(self.ids@[j]) == j,
    {
        let id = self.ids@[j];
        assert(self.ids@.contains(id));
        let k = self.idx_of(id);
        assert(0 <= k < self.ids@.len() && self.ids@[k] == id);
        if k != j {
            if k < j {
                assert(self.ids@[k] != self.ids@[j]);
            } else {
                assert(self.ids@[j] != self.ids@[k]);
            }
        }
    }

    /// An empty relay: no connections at all.
    pub fn new() -> (s: ChatServer)
        ensures
            s.wf(),
            s.count() == 0,
            forall|x: i32| !s.connected(x),
    {
        ChatServer { ids: Vec::new(), bufs: Vec::new() }
    }

    /// Number of live connections.
    pub fn client_count(&self) -> (n: usize)
        requires
            self.wf(),
        ensures
            n == self.count(),
    {
        self.ids.len()
    }

    /// Look up the registry position of `id`.
    fn find(&self, id: i32) -> (r: Option<usize>)
        requires
            self.wf(),
        ensures
            match r {
                Some(j) => j < self.ids@.len() && self.ids@[j as int] == id
                    && self.connected(id) && self.idx_of(id) == j,
                None => !self.connected(id),
            },
    {
        let n: usize = self.ids.len();
        let mut k: usize = 0;
        while k < n
            invariant
                k <= n,
                n == self.ids@.len(),
                self.wf(),
                forall|i: int| 0 <= i < k ==> self.ids@[i] != id,
            decreases n - k,
        {
            if self.ids[k] == id {
                proof {
                    self.lemma_idx(k as int);
                }
                return Some(k);
            }
            k += 1;
        }
        proof {
            if self.ids@.contains(id) {
                let i = choose|i: int| 0 <= i < self.ids@.len() && self.ids@[i] == id;
                assert(self.ids@[i] != id);
            }
        }
        None
    }

    /// True iff `id` names a live connection.
    pub fn contains_client(&self, id: i32) -> (r: bool)
        requires
            self.wf(),
        ensures
            r <==> self.connected(id),
    {
        match self.find(id) {
            Some(_) => true,
            None => false,
        }
    }

    /// How many bytes a read may deliver for `id` right now: the free room in
    /// its buffer — always positive for a live connection — or 0 for an
    /// absent id.
    pub fn read_capacity(&self, id: i32) -> (n: usize)
        requires
            self.wf(),
        ensures
            self.connected(id) ==> n == BUFFER_SIZE - self.pending_of(id).len() && n > 0,
            !self.connected(id) ==> n == 0,
    {
        match self.find(id) {
            Some(j) => self.bufs[j].capacity_left(),
            None => 0,
        }
    }

    /// Register a newly accepted connection with an empty buffer. An id
    /// reused by the platform replaces its stale entry.
    pub fn add_client(&mut self, id: i32)
        requires
            old(self).wf(),
        ensures
            final(self).wf(),
            final(self).connected(id),
            final(self).pending_of(id) == Seq::<u8>::empty(),
            final(self).count() == if old(self).connected(id) {
                old(self).count()
            } else {
                old(self).count() + 1
            },
            forall|x: i32|
                x != id ==> (final(self).connected(x) <==> old(self).connected(x)),
            forall|x: i32|
                x != id && old(self).connected(x) ==> final(self).pending_of(x) == old(
                    self,
                ).pending_of(x),
    {
        let fresh = ClientBuffer::new();
        match self.find(id) {
            Some(j) => {
                self.bufs[j] = fresh;
                proof {
                    assert(self.ids@ == old(self).ids@);
                    assert(self.bufs@ == old(self).bufs@.update(j as int, self.bufs@[j as int]));
                    self.lemma_idx(j as int);
                    assert(self.pending_of(id) =~= Seq::<u8>::empty());
                    assert forall|x: i32| x != id && old(self).connected(x) implies self
                        .pending_of(x) == old(self).pending_of(x) by {
                        let i = choose|i: int|
                            0 <= i < old(self).ids@.len() && old(self).ids@[i] == x;
                        old(self).lemma_idx(i);
                        self.lemma_idx(i);
                        assert(i != j);
                    }
                }
            },
            None => {
                self.ids.push(id);
                self.bufs.push(fresh);
                proof {
                    assert(self.ids@ == old(self).ids@.push(id));
                    let n = old(self).ids@.len() as int;
                    assert(self.ids@[n] == id);
                    assert forall|i: int, j: int|
                        0 <= i < j < self.ids@.len() implies self.ids@[i] != self.ids@[j] by {
                        if j < n {
                            assert(old(self).ids@[i] != old(self).ids@[j]);
                        } else {
                            assert(self.ids@[j] == id);
                            if old(self).ids@[i] == id {
                                assert(old(self).ids@.contains(id));
                            }
                        }
                    }
                    assert(self.wf());
                    self.lemma_idx(n);
                    assert(self.pending_of(id) =~= Seq::<u8>::empty());
                    assert forall|x: i32|
                        x != id && old(self).connected(x) implies self.pending_of(x) == old(
                        self,
                    ).pending_of(x) by {
                        let i = choose|i: int|
                            0 <= i < old(self).ids@.len() && old(self).ids@[i] == x;
                        old(self).lemma_idx(i);
                        assert(self.ids@[i] == x);
                        self.lemma_idx(i);
                    }
                    assert forall|x: i32|
                        x != id && self.connected(x) implies old(self).connected(x) by {
                        let i = choose|i: int| 0 <= i < self.ids@.len() && self.ids@[i] == x;
                        assert(i != n);
                        assert(old(self).ids@[i] == x);
                        assert(old(self).ids@.contains(x));
                    }
                    assert forall|x: i32|
                        x != id && old(self).connected(x) implies self.connected(x) by {
                        let i = choose|i: int|
                            0 <= i < old(self).ids@.len() && old(self).ids@[i] == x;
                        assert(self.ids@[i] == x);
                        assert(self.ids@.contains(x));
                    }
                }
            },
        }
    }

    /// Remove a connection. Removing an id that is not present changes
    /// nothing: a stale readiness event for an already-removed connection is
    /// harmless, never an error.
    pub fn remove_client(&mut self, id: i32)
        requires
            old(self).wf(),
        ensures
            final(self).wf(),
            !final(self).connected(id),
            !old(self).connected(id) ==> *final(self) == *old(self),
            final(self).count() == if old(self).connected(id) {
                old(self).count() - 1
            } else {
                old(self).count() as int
            },
            forall|x: i32|
                x != id ==> (final(self).connected(x) <==> old(self).connected(x)),
            forall|x: i32|
                x != id && old(self).connected(x) ==> final(self).pending_of(x) == old(
                    self,
                ).pending_of(x),
    {
        match self.find(id) {
            Some(j) => {
                self.ids.remove(j);
                self.bufs.remove(j);
                proof {
                    let jj = j as int;
                    assert(self.ids@ == old(self).ids@.remove(jj));
                    assert(self.bufs@ == old(self).bufs@.remove(jj));
                    assert forall|i: int|
                        0 <= i < self.ids@.len() implies self.ids@[i] == if i < jj {
                        old(self).ids@[i]
                    } else {
                        old(self).ids@[i + 1]
                    } by {}
                    assert(self.wf());
                    if self.ids@.contains(id) {
                        let i = choose|i: int| 0 <= i < self.ids@.len() && self.ids@[i] == id;
                        if i < jj {
                            assert(old(self).ids@[i] == id && old(self).ids@[jj] == id);
                        } else {
                            assert(old(self).ids@[i + 1] == id && old(self).ids@[jj] == id);
                        }
                    }
                    assert forall|x: i32|
                        x != id && old(self).connected(x) implies self.connected(x) && self
                        .pending_of(x) == old(self).pending_of(x) by {
                        let i = choose|i: int|
                            0 <= i < old(self).ids@.len() && old(self).ids@[i] == x;
                        old(self).lemma_idx(i);
                        assert(i != jj);
                        if i < jj {
                            assert(self.ids@[i] == x);
                            self.lemma_idx(i);
                        } else {
                            assert(self.ids@[i - 1] == x);
                            self.lemma_idx(i - 1);
                        }
                    }
                    assert forall|x: i32|
                        x != id && self.connected(x) implies old(self).connected(x) by {
                        let i = choose|i: int| 0 <= i < self.ids@.len() && self.ids@[i] == x;
                        if i < jj {
                            assert(old(self).ids@[i] == x);
                        } else {
                            assert(old(self).ids@[i + 1] == x);
                        }
                        assert(old(self).ids@.contains(x));
                    }
                }
            },
            None => {},
        }
    }

    /// Every live connection except `sender`, each exactly once: the
    /// fan-out set of a broadcast. It is fixed before any write is
    /// attempted, so no peer's failure can narrow it.
    fn recipients_except(&self, sender: i32) -> (r: Vec<i32>)
        requires
            self.wf(),
        ensures
            forall|x: i32| #[trigger] r@.contains(x) <==> (self.connected(x) && x != sender),
            forall|i: int, j: int| 0 <= i < j < r@.len() ==> r@[i] != r@[j],
            r@.len() == self.count() - (if self.connected(sender) {
                1int
            } else {
                0int
            }),
    {
        let n: usize = self.ids.len();
        let mut r: Vec<i32> = Vec::new();
        let mut k: usize = 0;
        while k < n
            invariant
                k <= n,
                n == self.ids@.len(),
                self.wf(),
                forall|m: int|
                    0 <= m < r@.len() ==> exists|i: int|
                        0 <= i < k && self.ids@[i] == #[trigger] r@[m] && r@[m] != sender,
                forall|i: int|
                    0 <= i < k && self.ids@[i] != sender ==> r@.contains(#[trigger] self.ids@[i]),
                forall|i: int, j: int| 0 <= i < j < r@.len() ==> r@[i] != r@[j],
                r@.len() == k - (if exists|i: int|
                    0 <= i < k && self.ids@[i] == sender {
                    1int
                } else {
                    0int
                }),
            decreases n - k,
        {
            let cur: i32 = self.ids[k];
            if cur != sender {
                let ghost r0 = r@;
                proof {
                    if r0.contains(cur) {
                        let m = choose|m: int| 0 <= m < r0.len() && r0[m] == cur;
                        let i = choose|i: int|
                            0 <= i < k && self.ids@[i] == r0[m] && r0[m] != sender;
                        assert(self.ids@[i] == self.ids@[k as int]);
                        assert(false);
                    }
                }
                r.push(cur);
                proof {
                    assert forall|m: int|
                        0 <= m < r@.len() implies exists|i: int|
                        0 <= i < k + 1 && self.ids@[i] == #[trigger] r@[m] && r@[m] != sender by {
                        if m < r0.len() {
                            assert(r@[m] == r0[m]);
                            let i = choose|i: int|
                                0 <= i < k && self.ids@[i] == r0[m] && r0[m] != sender;
                            assert(0 <= i < k + 1 && self.ids@[i] == r@[m] && r@[m] != sender);
                        } else {
                            assert(r@[m] == cur && self.ids@[k as int] == cur);
                        }
                    }
                    assert forall|i: int|
                        0 <= i < k + 1 && self.ids@[i] != sender implies r@.contains(
                        #[trigger] self.ids@[i]) by {
                        if i < k {
                            let x = self.ids@[i];
                            assert(r0.contains(x));
                            let m = choose|m: int| 0 <= m < r0.len() && r0[m] == x;
                            assert(r@[m] == x);
                        } else {
                            assert(r@[r@.len() - 1] == cur);
                        }
                    }
                    assert forall|i: int, j: int|
                        0 <= i < j < r@.len() implies r@[i] != r@[j] by {
                        if j == r@.len() - 1 {
                            if r0[i] == cur {
                                assert(r0.contains(cur));
                            }
                        } else {
                            assert(r@[i] == r0[i] && r@[j] == r0[j]);
                        }
                    }
                    if exists|i: int| 0 <= i < k + 1 && self.ids@[i] == sender {
                        let i = choose|i: int| 0 <= i < k + 1 && self.ids@[i] == sender;
                        assert(i != k);
                        assert(0 <= i < k && self.ids@[i] == sender);
                    }
                }
            } else {
                proof {
                    assert forall|i: int|
                        0 <= i < k + 1 && self.ids@[i] != sender implies r@.contains(
                        #[trigger] self.ids@[i]) by {}
                    assert(self.ids@[k as int] == sender);
                    if exists|i: int| 0 <= i < k && self.ids@[i] == sender {
                        let i = choose|i: int| 0 <= i < k && self.ids@[i] == sender;
                        assert(self.ids@[i] == self.ids@[k as int]);
                        assert(false);
                    }
                }
            }
            k += 1;
        }
        proof {
            if self.ids@.contains(sender) {
                let i = choose|i: int| 0 <= i < self.ids@.len() && self.ids@[i] == sender;
                assert(0 <= i < n && self.ids@[i] == sender);
            }
            if exists|i: int| 0 <= i < n && self.ids@[i] == sender {
                let i = choose|i: int| 0 <= i < n && self.ids@[i] == sender;
                assert(self.ids@.contains(sender));
            }
        }
        proof {
            assert forall|x: i32| #[trigger] r@.contains(x) implies (self.connected(x) && x
                != sender) by {
                let m = choose|m: int| 0 <= m < r@.len() && r@[m] == x;
                let i = choose|i: int| 0 <= i < n && self.ids@[i] == r@[m] && r@[m] != sender;
                assert(self.ids@.contains(x));
            }
            assert forall|x: i32| (self.connected(x) && x != sender) implies #[trigger] r@
                .contains(x) by {
                let i = choose|i: int| 0 <= i < self.ids@.len() && self.ids@[i] == x;
                assert(r@.contains(self.ids@[i]));
            }
        }
        r
    }

    /// Act on one readiness event for connection `id`, as the I/O layer
    /// observed it. A clean close or a failed read removes the connection; a
    /// would-block read changes nothing; delivered bytes run the line framer
    /// on `id`'s buffer alone, and a completed chunk of lines yields a
    /// delivery to every other live connection — never back to the sender.
    /// An event for an id no longer registered is a no-op, not an error.
    pub fn handle_read_event(&mut self, id: i32, outcome: ReadOutcome) -> (r: Option<Delivery>)
        requires
            old(self).wf(),
            outcome matches ReadOutcome::Data(d) ==> (old(self).connected(id) ==> d@.len() + old(
                self,
            ).pending_of(id).len() <= BUFFER_SIZE),
        ensures
            final(self).wf(),
            !old(self).connected(id) ==> *final(self) == *old(self) && r is None,
            outcome is Blocked ==> *final(self) == *old(self) && r is None,
            (outcome is Closed || outcome is Failed) ==> {
                &&& !final(self).connected(id)
                &&& r is None
                &&& forall|x: i32|
                    x != id ==> (final(self).connected(x) <==> old(self).connected(x))
                &&& forall|x: i32|
                    x != id && old(self).connected(x) ==> final(self).pending_of(x) == old(
                        self,
                    ).pending_of(x)
            },
            outcome matches ReadOutcome::Data(d) ==> (old(self).connected(id) ==> {
                &&& final(self).connected(id)
                &&& final(self).pending_of(id) == step_pending(old(self).pending_of(id), d@)
                &&& forall|x: i32| final(self).connected(x) <==> old(self).connected(x)
                &&& forall|x: i32|
                    x != id && old(self).connected(x) ==> final(self).pending_of(x) == old(
                        self,
                    ).pending_of(x)
                &&& match r {
                    Some(delivery) => {
                        &&& has_newline(old(self).pending_of(id) + d@)
                        &&& delivery.message@ == step_line(old(self).pending_of(id), d@)
                        &&& !delivery.recipients@.contains(id)
                        &&& forall|x: i32| #[trigger]
                            delivery.recipients@.contains(x) <==> (old(self).connected(x) && x
                                != id)
                        &&& forall|i: int, j: int|
                            0 <= i < j < delivery.recipients@.len()
                                ==> delivery.recipients@[i] != delivery.recipients@[j]
                        &&& delivery.recipients@.len() == old(self).count() - 1
                    },
                    None => !has_newline(old(self).pending_of(id) + d@),
                }
            }),
    {
        match outcome {
            ReadOutcome::Blocked => None,
            ReadOutcome::Closed => {
                self.remove_client(id);
                None
            },
            ReadOutcome::Failed => {
                self.remove_client(id);
                None
            },
            ReadOutcome::Data(d) => {
                match self.find(id) {
                    None => None,
                    Some(j) => {
                        proof {
                            assert(old(self).pending_of(id) == old(self).bufs@[j as int]
                                .contents());
                        }
                        let line_opt = {
                            let b = &mut self.bufs[j];
                            b.receive(d.as_slice())
                        };
                        proof {
                            assert(self.ids@ == old(self).ids@);
                            assert(self.bufs@ =~= old(self).bufs@.update(
                                j as int,
                                self.bufs@[j as int],
                            ));
                            assert(self.wf());
                            self.lemma_idx(j as int);
                            assert(self.pending_of(id) == step_pending(
                                old(self).pending_of(id),
                                d@,
                            ));
                            assert forall|x: i32|
                                x != id && old(self).connected(x) implies self.pending_of(x)
                                == old(self).pending_of(x) by {
                                let i = choose|i: int|
                                    0 <= i < old(self).ids@.len() && old(self).ids@[i] == x;
                                old(self).lemma_idx(i);
                                self.lemma_idx(i);
                                assert(i != j);
                            }
                        }
                        match line_opt {
                            None => None,
                            Some(msg) => {
                                let recips = self.recipients_except(id);
                                proof {
                                    assert forall|x: i32| #[trigger]
                                        recips@.contains(x) <==> (old(self).connected(x) && x
                                            != id) by {}
                                }
                                Some(Delivery { message: msg, recipients: recips })
                            },
                        }
                    },
                }
            },
        }
    }
}

} // verus!
