//! Batch accumulation: buffers admitted events into one open batch per
//! destination key, sealing a batch when it reaches the size bound or the
//! age bound, whichever comes first.
//!
//! The accumulator carries a ghost history of everything ever added and
//! everything ever sealed, per key; its invariant is the conservation law:
//! sealed events followed by the open batch are exactly the added events, in
//! arrival order.

use vstd::prelude::*;
use vstd::seq_lib::*;

use crate::codec::Event;
use crate::config::Config;

verus! {

/// The synthetic identifier stamped on an event at admission time: a
/// process-unique serial joined with a random token.  Serials strictly
/// increase as identifiers are issued, so none is ever reused within a
/// process; the token makes the rendered identifier hard to guess.
#[derive(Clone, Debug, PartialEq, Eq)]
pub struct EventId {
    /// Position in this process's admission order; never reused.
    pub serial: u64,
    /// Random component, 36 characters.
    pub token: String,
}

/// An event stamped with the identifier issued at admission time.
#[derive(Clone, Debug, PartialEq, Eq)]
pub struct AdmittedEvent {
    pub id: EventId,
    pub event: Event,
}

/// Where a batch stands in its lifecycle.
#[derive(Clone, Copy, Debug, PartialEq, Eq, Structural)]
pub enum BatchStatus {
    Open,
    Sealed,
    Dispatching,
    Acknowledged,
    Failed,
}

/// An ordered group of events bound for one destination key.
#[derive(Clone, Debug, PartialEq, Eq)]
pub struct Batch {
    /// Monotonically rising creation number.
    pub seq_no: u64,
    /// The destination key all events in this batch share.
    pub key: String,
    /// When the batch was opened, for the age bound.
    pub created_at: u64,
    pub events: Vec<AdmittedEvent>,
    pub status: BatchStatus,
}

impl Batch {
    /// Every event in the batch belongs to the batch's destination key.
    pub open spec fn keyed(self) -> bool {
        forall|i: int|
            0 <= i < self.events@.len() ==> (#[trigger] self.events@[i]).event.event_type@
                == self.key@
    }

    /// Whether the age bound has passed for this batch at time `now`.
    pub open spec fn due(self, now: u64, age: u64) -> bool {
        now >= self.created_at + age
    }
}

/// The events of those batches bound for key `k`, concatenated in batch
/// order.
pub open spec fn events_for_key(batches: Seq<Batch>, k: Seq<char>) -> Seq<AdmittedEvent>
    decreases batches.len(),
{
    if batches.len() == 0 {
        Seq::empty()
    } else {
        let rest = events_for_key(batches.drop_last(), k);
        if batches.last().key@ == k {
            rest + batches.last().events@
        } else {
            rest
        }
    }
}

/// No two batches in the sequence share a destination key.
pub open spec fn keys_distinct(s: Seq<Batch>) -> bool {
    forall|i: int, j: int|
        0 <= i < j < s.len() ==> (#[trigger] s[i]).key@ != (#[trigger] s[j]).key@
}

/// Some batch in the sequence carries key `k`.
pub open spec fn seq_has_open(s: Seq<Batch>, k: Seq<char>) -> bool {
    exists|i: int| 0 <= i < s.len() && (#[trigger] s[i]).key@ == k
}

/// The index of the batch carrying key `k` (meaningful under
/// `keys_distinct` when `seq_has_open` holds).
pub open spec fn seq_open_idx(s: Seq<Batch>, k: Seq<char>) -> int {
    choose|i: int| 0 <= i < s.len() && (#[trigger] s[i]).key@ == k
}

/// The events buffered for key `k`, empty when no batch is open for it.
pub open spec fn seq_open_events(s: Seq<Batch>, k: Seq<char>) -> Seq<AdmittedEvent> {
    if seq_has_open(s, k) {
        s[seq_open_idx(s, k)].events@
    } else {
        Seq::empty()
    }
}

/// Under distinct keys, any index holding `k` is the index `seq_open_idx`
/// picks.
pub proof fn lemma_seq_open_idx(s: Seq<Batch>, k: Seq<char>, i: int)
    requires
        keys_distinct(s),
        0 <= i < s.len(),
        s[i].key@ == k,
    ensures
        seq_has_open(s, k),
        seq_open_idx(s, k) == i,
{
    assert(seq_has_open(s, k));
    let j = seq_open_idx(s, k);
    assert(0 <= j < s.len() && s[j].key@ == k);
    if j < i {
        assert(s[j].key@ != s[i].key@);
    } else if i < j {
        assert(s[i].key@ != s[j].key@);
    }
}

/// Removing the batch at `i` removes exactly its key: distinctness is kept,
/// the removed key has no open batch any more, and every other key keeps its
/// open batch and buffered events.
pub proof fn lemma_remove_open(s: Seq<Batch>, i: int)
    requires
        keys_distinct(s),
        0 <= i < s.len(),
    ensures
        keys_distinct(s.remove(i)),
        !seq_has_open(s.remove(i), s[i].key@),
        forall|k: Seq<char>|
            k != s[i].key@ ==> #[trigger] seq_has_open(s.remove(i), k) == seq_has_open(s, k),
        forall|k: Seq<char>|
            k != s[i].key@ ==> #[trigger] seq_open_events(s.remove(i), k) == seq_open_events(
                s,
                k,
            ),
{
    let t = s.remove(i);
    s.remove_ensures(i);
    assert forall|l: int, m: int| 0 <= l < m < t.len() implies (#[trigger] t[l]).key@ != (
    #[trigger] t[m]).key@ by {
        let l0 = if l < i {
            l
        } else {
            l + 1
        };
        let m0 = if m < i {
            m
        } else {
            m + 1
        };
        assert(t[l] == s[l0]);
        assert(t[m] == s[m0]);
    }
    if seq_has_open(t, s[i].key@) {
        let j = seq_open_idx(t, s[i].key@);
        assert(0 <= j < t.len() && t[j].key@ == s[i].key@);
        let j0 = if j < i {
            j
        } else {
            j + 1
        };
        assert(t[j] == s[j0]);
        if j0 < i {
            assert(s[j0].key@ != s[i].key@);
        } else {
            assert(s[i].key@ != s[j0].key@);
        }
        assert(false);
    }
    assert forall|k: Seq<char>| k != s[i].key@ implies #[trigger] seq_has_open(t, k)
        == seq_has_open(s, k) && seq_open_events(t, k) == seq_open_events(s, k) by {
        if seq_has_open(s, k) {
            let j = seq_open_idx(s, k);
            assert(0 <= j < s.len() && s[j].key@ == k);
            assert(j != i);
            let j2 = if j < i {
                j
            } else {
                j - 1
            };
            assert(t[j2] == s[j]);
            lemma_seq_open_idx(t, k, j2);
            lemma_seq_open_idx(s, k, j);
        } else {
            if seq_has_open(t, k) {
                let j = seq_open_idx(t, k);
                assert(0 <= j < t.len() && t[j].key@ == k);
                let j0 = if j < i {
                    j
                } else {
                    j + 1
                };
                assert(t[j] == s[j0]);
                assert(seq_has_open(s, k));
            }
        }
    }
}

/// Appending a batch with a fresh key keeps distinctness, opens exactly that
/// key with exactly that batch's events, and leaves every other key's open
/// batch unchanged.
pub proof fn lemma_push_open(s: Seq<Batch>, b: Batch)
    requires
        keys_distinct(s),
        !seq_has_open(s, b.key@),
    ensures
        keys_distinct(s.push(b)),
        seq_has_open(s.push(b), b.key@),
        seq_open_events(s.push(b), b.key@) == b.events@,
        forall|k: Seq<char>|
            k != b.key@ ==> #[trigger] seq_has_open(s.push(b), k) == seq_has_open(s, k),
        forall|k: Seq<char>|
            k != b.key@ ==> #[trigger] seq_open_events(s.push(b), k) == seq_open_events(s, k),
{
    let t = s.push(b);
    assert forall|l: int, m: int| 0 <= l < m < t.len() implies (#[trigger] t[l]).key@ != (
    #[trigger] t[m]).key@ by {
        if m < t.len() - 1 {
            assert(t[l] == s[l]);
            assert(t[m] == s[m]);
        } else {
            assert(t[m] == b);
            assert(t[l] == s[l]);
            if s[l].key@ == b.key@ {
                assert(seq_has_open(s, b.key@));
            }
        }
    }
    lemma_seq_open_idx(t, b.key@, t.len() - 1);
    assert forall|k: Seq<char>| k != b.key@ implies #[trigger] seq_has_open(t, k) == seq_has_open(
        s,
        k,
    ) && seq_open_events(t, k) == seq_open_events(s, k) by {
        if seq_has_open(s, k) {
            let j = seq_open_idx(s, k);
            assert(0 <= j < s.len() && s[j].key@ == k);
            assert(t[j] == s[j]);
            lemma_seq_open_idx(t, k, j);
            lemma_seq_open_idx(s, k, j);
        } else {
            if seq_has_open(t, k) {
                let j = seq_open_idx(t, k);
                assert(0 <= j < t.len() && t[j].key@ == k);
                assert(j < t.len() - 1);
                assert(t[j] == s[j]);
                assert(seq_has_open(s, k));
            }
        }
    }
}

/// Buffers one open batch per destination key and remembers, as ghost
/// state, what was added and what was sealed.
pub struct Accumulator {
    /// Seal a batch as soon as it holds this many events.
    pub max_batch_size: usize,
    /// Seal a batch once it has been open this long.
    pub max_batch_age: u64,
    /// The next batch sequence number to hand out.
    pub next_seq: u64,
    /// The open batches, at most one per destination key.
    pub open_batches: Vec<Batch>,
    /// Everything ever added, per destination key, in arrival order.
    pub history: Ghost<Map<Seq<char>, Seq<AdmittedEvent>>>,
    /// Everything handed out in sealed batches, per key, in sealing order.
    pub sealed: Ghost<Map<Seq<char>, Seq<AdmittedEvent>>>,
}

impl Accumulator {
    /// All events ever added for key `k`, in arrival order.
    pub open spec fn hist_of(self, k: Seq<char>) -> Seq<AdmittedEvent> {
        if self.history@.dom().contains(k) {
            self.history@[k]
        } else {
            Seq::empty()
        }
    }

    /// All events sealed so far for key `k`, in the order they left.
    pub open spec fn sealed_of(self, k: Seq<char>) -> Seq<AdmittedEvent> {
        if self.sealed@.dom().contains(k) {
            self.sealed@[k]
        } else {
            Seq::empty()
        }
    }

    /// Whether a batch is currently open for key `k`.
    pub open spec fn has_open(self, k: Seq<char>) -> bool {
        seq_has_open(self.open_batches@, k)
    }

    /// The events currently buffered for key `k`.
    pub open spec fn open_events(self, k: Seq<char>) -> Seq<AdmittedEvent> {
        seq_open_events(self.open_batches@, k)
    }

    /// What every open batch satisfies.
    pub open spec fn batch_ok(self, b: Batch) -> bool {
        &&& b.status is Open
        &&& b.keyed()
        &&& 1 <= b.events@.len() < self.max_batch_size
        &&& b.seq_no <= self.next_seq
    }

    /// Internal invariant: positive bounds, well-formed open batches with
    /// distinct keys, and the conservation law — for every key, what was
    /// sealed followed by what is open is exactly what was added.
    pub open spec fn wf(self) -> bool {
        &&& self.max_batch_size >= 1
        &&& self.max_batch_age >= 1
        &&& keys_distinct(self.open_batches@)
        &&& (forall|i: int|
            0 <= i < self.open_batches@.len() ==> self.batch_ok(
                #[trigger] self.open_batches@[i],
            ))
        &&& (forall|k: Seq<char>|
            #[trigger] self.hist_of(k) == self.sealed_of(k) + self.open_events(k))
    }

    /// A fresh accumulator for the configured bounds: nothing buffered,
    /// nothing sealed.
    pub fn new(cfg: &Config) -> (acc: Accumulator)
        requires
            cfg.valid(),
        ensures
            acc.wf(),
            acc.max_batch_size == cfg.max_batch_size,
            acc.max_batch_age == cfg.max_batch_age,
            acc.next_seq == 0,
            forall|k: Seq<char>| #[trigger] acc.hist_of(k) == Seq::<AdmittedEvent>::empty(),
            forall|k: Seq<char>| #[trigger] acc.sealed_of(k) == Seq::<AdmittedEvent>::empty(),
            forall|k: Seq<char>| !(#[trigger] acc.has_open(k)),
    {
        let acc = Accumulator {
            max_batch_size: cfg.max_batch_size,
            max_batch_age: cfg.max_batch_age,
            next_seq: 0,
            open_batches: Vec::new(),
            history: Ghost(Map::empty()),
            sealed: Ghost(Map::empty()),
        };
        proof {
            assert forall|k: Seq<char>| #[trigger] acc.hist_of(k) == acc.sealed_of(k)
                + acc.open_events(k) by {
                assert(acc.sealed_of(k) + acc.open_events(k) =~= Seq::<AdmittedEvent>::empty());
            }
        }
        acc
    }

    /// Find the position of the open batch for `key`, if any.
    fn find_open(&self, key: &String) -> (r: Option<usize>)
        requires
            self.wf(),
        ensures
            match r {
                Some(i) => {
                    &&& i < self.open_batches@.len()
                    &&& self.open_batches@[i as int].key@ == key@
                    &&& self.has_open(key@)
                    &&& seq_open_idx(self.open_batches@, key@) == i
                },
                None => !self.has_open(key@),
            },
    {
        let mut i: usize = 0;
        while i < self.open_batches.len()
            invariant
                i <= self.open_batches@.len(),
                self.wf(),
                forall|j: int| 0 <= j < i ==> (#[trigger] self.open_batches@[j]).key@ != key@,
            decreases self.open_batches@.len() - i,
        {
            if self.open_batches[i].key == *key {
                proof {
                    lemma_seq_open_idx(self.open_batches@, key@, i as int);
                }
                return Some(i);
            }
            i = i + 1;
        }
        None
    }

    /// Add one admitted event to the open batch of its destination key
    /// (opening one at time `now` when none is open).  Returns the sealed
    /// batch exactly when the addition makes the batch reach
    /// `max_batch_size`; the batch leaves with every buffered event for that
    /// key, in arrival order.
    pub fn add(&mut self, e: AdmittedEvent, now: u64) -> (r: Option<Batch>)
        requires
            old(self).wf(),
        ensures
            final(self).wf(),
            final(self).max_batch_size == old(self).max_batch_size,
            final(self).max_batch_age == old(self).max_batch_age,
            final(self).hist_of(e.event.event_type@) == old(self).hist_of(
                e.event.event_type@,
            ).push(e),
            forall|k: Seq<char>|
                k != e.event.event_type@ ==> {
                    &&& #[trigger] final(self).hist_of(k) == old(self).hist_of(k)
                    &&& final(self).sealed_of(k) == old(self).sealed_of(k)
                    &&& final(self).open_events(k) == old(self).open_events(k)
                },
            match r {
                Some(b) => {
                    &&& old(self).open_events(e.event.event_type@).len() + 1 == old(self).max_batch_size
                    &&& b.status is Sealed
                    &&& b.key@ == e.event.event_type@
                    &&& b.events@ == old(self).open_events(e.event.event_type@).push(e)
                    &&& b.events@.len() == old(self).max_batch_size
                    &&& final(self).sealed_of(e.event.event_type@) == old(self).sealed_of(
                        e.event.event_type@,
                    ) + b.events@
                    &&& !final(self).has_open(e.event.event_type@)
                },
                None => {
                    &&& old(self).open_events(e.event.event_type@).len() + 1 < old(self).max_batch_size
                    &&& final(self).sealed_of(e.event.event_type@) == old(self).sealed_of(
                        e.event.event_type@,
                    )
                    &&& final(self).open_events(e.event.event_type@) == old(self).open_events(
                        e.event.event_type@,
                    ).push(e)
                    &&& final(self).has_open(e.event.event_type@)
                },
            },
    {
        let key = e.event.event_type.clone();
        let ghost k = key@;
        let found = self.find_open(&key);
        match found {
            Some(i) => {
                let ghost pre = *self;
                let mut b = self.open_batches.remove(i);
                proof {
                    lemma_remove_open(pre.open_batches@, i as int);
                }
                b.events.push(e);
                let ghost grown = b.events@;
                assert(grown == pre.open_events(k).push(e));
                self.history = Ghost(self.history@.insert(k, pre.hist_of(k).push(e)));
                if b.events.len() == self.max_batch_size {
                    b.status = BatchStatus::Sealed;
                    self.sealed = Ghost(self.sealed@.insert(k, pre.sealed_of(k) + grown));
                    proof {
                        assert forall|k2: Seq<char>| #[trigger] self.hist_of(k2) == self.sealed_of(
                            k2,
                        ) + self.open_events(k2) by {
                            if k2 == k {
                                assert(pre.hist_of(k) == pre.sealed_of(k) + pre.open_events(k));
                                assert(!self.has_open(k));
                                assert(self.hist_of(k) == pre.hist_of(k).push(e));
                                assert(self.sealed_of(k) + self.open_events(k) =~= pre.sealed_of(k)
                                    + pre.open_events(k).push(e));
                                assert(pre.sealed_of(k) + pre.open_events(k).push(e)
                                    =~= (pre.sealed_of(k) + pre.open_events(k)).push(e));
                            } else {
                                assert(pre.hist_of(k2) == pre.sealed_of(k2) + pre.open_events(k2));
                            }
                        }
                    }
                    Some(b)
                } else {
                    proof {
                        lemma_push_open(pre.open_batches@.remove(i as int), b);
                    }
                    self.open_batches.push(b);
                    proof {
                        assert forall|k2: Seq<char>| #[trigger] self.hist_of(k2) == self.sealed_of(
                            k2,
                        ) + self.open_events(k2) by {
                            if k2 == k {
                                assert(pre.hist_of(k) == pre.sealed_of(k) + pre.open_events(k));
                                assert(self.open_events(k) == grown);
                                assert(self.hist_of(k) == pre.hist_of(k).push(e));
                                assert(pre.sealed_of(k) + pre.open_events(k).push(e)
                                    =~= (pre.sealed_of(k) + pre.open_events(k)).push(e));
                            } else {
                                assert(pre.hist_of(k2) == pre.sealed_of(k2) + pre.open_events(k2));
                            }
                        }
                        assert forall|j: int|
                            0 <= j < self.open_batches@.len() implies self.batch_ok(
                            #[trigger] self.open_batches@[j],
                        ) by {
                            if j < self.open_batches@.len() - 1 {
                                pre.open_batches@.remove_ensures(i as int);
                                let j0 = if j < i {
                                    j
                                } else {
                                    j + 1
                                };
                                assert(self.open_batches@[j] == pre.open_batches@[j0]);
                                assert(pre.batch_ok(pre.open_batches@[j0]));
                            } else {
                                assert(self.open_batches@[j] == b);
                            }
                        }
                    }
                    None
                }
            },
            None => {
                let ghost pre = *self;
                let mut events: Vec<AdmittedEvent> = Vec::new();
                events.push(e);
                let b = Batch {
                    seq_no: self.next_seq,
                    key,
                    created_at: now,
                    events,
                    status: BatchStatus::Open,
                };
                self.next_seq = self.next_seq.saturating_add(1);
                self.history = Ghost(self.history@.insert(k, pre.hist_of(k).push(e)));
                assert(b.events@ =~= pre.open_events(k).push(e));
                if self.max_batch_size == 1 {
                    let mut b = b;
                    b.status = BatchStatus::Sealed;
                    self.sealed = Ghost(self.sealed@.insert(k, pre.sealed_of(k) + b.events@));
                    proof {
                        assert forall|k2: Seq<char>| #[trigger] self.hist_of(k2) == self.sealed_of(
                            k2,
                        ) + self.open_events(k2) by {
                            if k2 == k {
                                assert(pre.hist_of(k) == pre.sealed_of(k) + pre.open_events(k));
                                assert(self.sealed_of(k) + self.open_events(k) =~= pre.sealed_of(k)
                                    + pre.open_events(k).push(e));
                                assert(pre.sealed_of(k) + pre.open_events(k).push(e)
                                    =~= (pre.sealed_of(k) + pre.open_events(k)).push(e));
                            } else {
                                assert(pre.hist_of(k2) == pre.sealed_of(k2) + pre.open_events(k2));
                            }
                        }
                    }
                    Some(b)
                } else {
                    proof {
                        lemma_push_open(pre.open_batches@, b);
                    }
                    self.open_batches.push(b);
                    proof {
                        assert forall|k2: Seq<char>| #[trigger] self.hist_of(k2) == self.sealed_of(
                            k2,
                        ) + self.open_events(k2) by {
                            if k2 == k {
                                assert(pre.hist_of(k) == pre.sealed_of(k) + pre.open_events(k));
                                assert(pre.open_events(k) =~= Seq::<AdmittedEvent>::empty());
                                assert(self.open_events(k) == b.events@);
                                assert(pre.sealed_of(k) + pre.open_events(k).push(e)
                                    =~= (pre.sealed_of(k) + pre.open_events(k)).push(e));
                            } else {
                                assert(pre.hist_of(k2) == pre.sealed_of(k2) + pre.open_events(k2));
                            }
                        }
                        assert forall|j: int|
                            0 <= j < self.open_batches@.len() implies self.batch_ok(
                            #[trigger] self.open_batches@[j],
                        ) by {
                            if j < self.open_batches@.len() - 1 {
                                assert(self.open_batches@[j] == pre.open_batches@[j]);
                                assert(pre.batch_ok(pre.open_batches@[j]));
                            } else {
                                assert(self.open_batches@[j] == b);
                            }
                        }
                    }
                    None
                }
            },
        }
    }

    /// Find the position of some open batch whose age bound has passed.
    fn find_due(&self, now: u64) -> (r: Option<usize>)
        requires
            self.wf(),
        ensures
            match r {
                Some(i) => {
                    &&& i < self.open_batches@.len()
                    &&& self.open_batches@[i as int].due(now, self.max_batch_age)
                },
                None => forall|i: int|
                    0 <= i < self.open_batches@.len() ==> !(#[trigger] self.open_batches@[i]).due(
                        now,
                        self.max_batch_age,
                    ),
            },
    {
        let mut i: usize = 0;
        while i < self.open_batches.len()
            invariant
                i <= self.open_batches@.len(),
                self.wf(),
                forall|j: int|
                    0 <= j < i ==> !(#[trigger] self.open_batches@[j]).due(
                        now,
                        self.max_batch_age,
                    ),
            decreases self.open_batches@.len() - i,
        {
            if now.saturating_sub(self.open_batches[i].created_at) >= self.max_batch_age {
                return Some(i);
            }
            i = i + 1;
        }
        None
    }

    /// Seal and hand out one open batch whose age bound has passed, if any.
    /// `None` guarantees the latency ceiling: after the call, no open batch
    /// is as old as `max_batch_age`.  A returned batch carries every
    /// buffered event for its key, in arrival order.
    pub fn seal_due(&mut self, now: u64) -> (r: Option<Batch>)
        requires
            old(self).wf(),
        ensures
            final(self).wf(),
            final(self).max_batch_size == old(self).max_batch_size,
            final(self).max_batch_age == old(self).max_batch_age,
            forall|k: Seq<char>| #[trigger] final(self).hist_of(k) == old(self).hist_of(k),
            match r {
                Some(b) => {
                    &&& b.status is Sealed
                    &&& b.due(now, old(self).max_batch_age)
                    &&& old(self).has_open(b.key@)
                    &&& b.events@ == old(self).open_events(b.key@)
                    &&& 1 <= b.events@.len() < old(self).max_batch_size
                    &&& final(self).sealed_of(b.key@) == old(self).sealed_of(b.key@) + b.events@
                    &&& !final(self).has_open(b.key@)
                    &&& final(self).open_batches@.len() == old(self).open_batches@.len() - 1
                    &&& forall|k: Seq<char>|
                        k != b.key@ ==> #[trigger] final(self).sealed_of(k) == old(self).sealed_of(
                            k,
                        ) && final(self).open_events(k) == old(self).open_events(k) && final(self).has_open(k) == old(self).has_open(k)
                },
                None => {
                    &&& *final(self) == *old(self)
                    &&& forall|i: int|
                        0 <= i < final(self).open_batches@.len() ==> !(
                        #[trigger] final(self).open_batches@[i]).due(now, final(self).max_batch_age)
                },
            },
    {
        let found = self.find_due(now);
        match found {
            Some(i) => {
                let ghost pre = *self;
                let mut b = self.open_batches.remove(i);
                let ghost k = b.key@;
                proof {
                    lemma_seq_open_idx(pre.open_batches@, k, i as int);
                    lemma_remove_open(pre.open_batches@, i as int);
                }
                b.status = BatchStatus::Sealed;
                self.sealed = Ghost(self.sealed@.insert(k, pre.sealed_of(k) + b.events@));
                proof {
                    assert forall|k2: Seq<char>| #[trigger] self.hist_of(k2) == self.sealed_of(k2)
                        + self.open_events(k2) by {
                        if k2 == k {
                            assert(pre.hist_of(k) == pre.sealed_of(k) + pre.open_events(k));
                            assert(!self.has_open(k));
                            assert(self.sealed_of(k) + self.open_events(k) =~= pre.sealed_of(k)
                                + pre.open_events(k));
                        } else {
                            assert(pre.hist_of(k2) == pre.sealed_of(k2) + pre.open_events(k2));
                        }
                    }
                    assert forall|j: int|
                        0 <= j < self.open_batches@.len() implies self.batch_ok(
                        #[trigger] self.open_batches@[j],
                    ) by {
                        pre.open_batches@.remove_ensures(i as int);
                        let j0 = if j < i {
                            j
                        } else {
                            j + 1
                        };
                        assert(self.open_batches@[j] == pre.open_batches@[j0]);
                        assert(pre.batch_ok(pre.open_batches@[j0]));
                    }
                }
                Some(b)
            },
            None => None,
        }
    }
}

/// Conservation law: for every destination key, the events sealed so far
/// followed by the still-open batch are exactly the events ever added — in
/// arrival order, with no duplication and no loss.
pub proof fn lemma_conservation(acc: Accumulator, k: Seq<char>)
    requires
        acc.wf(),
    ensures
        acc.hist_of(k) == acc.sealed_of(k) + acc.open_events(k),
{
}

/// Size law: under the accumulator invariant no open batch holds
/// `max_batch_size` events or more, so a batch only ever leaves `add` with
/// exactly `max_batch_size` events, never one more.
pub proof fn lemma_size_bound(acc: Accumulator, k: Seq<char>)
    requires
        acc.wf(),
    ensures
        acc.open_events(k).len() < acc.max_batch_size,
{
    if acc.has_open(k) {
        let i = seq_open_idx(acc.open_batches@, k);
        assert(0 <= i < acc.open_batches@.len() && acc.open_batches@[i].key@ == k);
        assert(acc.batch_ok(acc.open_batches@[i]));
    }
}

} // verus!
