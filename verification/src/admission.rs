//! Who gets in: the budgets that everything runs under before and after a
//! client has authenticated.

use vstd::prelude::*;

use crate::crypto::Fingerprint;
use crate::text::{decimal, decimal_text};

verus! {

/// Connections being served at once. Reached only under attack: a legitimate
/// deployment has a handful.
pub const MAX_CONNECTIONS: usize = 256;

/// Established connections one client key may keep at once. This leaves room
/// for other authorized keys even when a client opens idle connections.
pub const MAX_CONNECTIONS_PER_KEY: usize = 32;

/// Handshakes in flight at once.
///
/// Deliberately a separate, smaller budget: sharing one pool with established
/// sessions would let a stream of half-open connections, none of which can
/// authenticate, hold every slot for the length of the handshake deadline and
/// lock out the people with keys.
pub const MAX_HANDSHAKES: usize = 32;

/// Handshakes in flight from any single address.
///
/// The global budget alone is not fairness: one reachable source can hold all
/// of it for the length of the handshake deadline, over and over, and no new
/// client gets in, even though established sessions are unaffected. Capping
/// each address leaves room for distinct clients to be starting at once.
pub const MAX_HANDSHAKES_PER_SOURCE: usize = 4;

/// How often `k` occurs in `held`.
pub open spec fn occurrences(held: Seq<Seq<u8>>, k: Seq<u8>) -> nat
    decreases held.len(),
{
    if held.len() == 0 {
        0
    } else {
        occurrences(held.drop_last(), k) + (if held.last() == k {
            1nat
        } else {
            0nat
        })
    }
}

/// The views of some keys.
pub open spec fn keys(held: Seq<Vec<u8>>) -> Seq<Seq<u8>> {
    held.map_values(|k: Vec<u8>| k@)
}

fn same_bytes(a: &[u8], b: &[u8]) -> (r: bool)
    ensures
        r == (a@ == b@),
{
    if a.len() != b.len() {
        return false;
    }
    let mut i: usize = 0;
    while i < a.len()
        invariant
            i <= a@.len(),
            a@.len() == b@.len(),
            forall|k: int| 0 <= k < i ==> a@[k] == b@[k],
        decreases a@.len() - i,
    {
        if a[i] != b[i] {
            return false;
        }
        i += 1;
    }
    assert(a@ =~= b@);
    true
}

/// Slots held at this instant, each under a key, with a limit for every key.
///
/// Deliberately not a rate limiter: nothing is remembered once a slot is
/// released, so there is no table to grow and nothing to expire.
#[derive(Debug)]
pub struct Slots {
    pub limit: usize,
    /// The key of every slot that is held.
    pub held: Vec<Vec<u8>>,
}

impl Slots {
    /// How many slots are held under this key.
    pub open spec fn count(&self, k: Seq<u8>) -> nat {
        occurrences(keys(self.held@), k)
    }

    /// No key holds more than its share.
    pub open spec fn wf(&self) -> bool {
        forall|k: Seq<u8>| #[trigger] self.count(k) <= self.limit
    }

    /// A table with no slot held.
    pub fn new(limit: usize) -> (slots: Slots)
        ensures
            slots.wf(),
            slots.limit == limit,
            slots.held@.len() == 0,
    {
        Slots { limit, held: Vec::new() }
    }

    fn counted(&self, key: &[u8]) -> (n: usize)
        ensures
            n == self.count(key@),
    {
        let ghost all = keys(self.held@);
        let mut n: usize = 0;
        let mut i: usize = 0;
        assert(all.take(0) =~= Seq::empty());
        while i < self.held.len()
            invariant
                i <= self.held@.len(),
                n <= i,
                all == keys(self.held@),
                n == occurrences(all.take(i as int), key@),
            decreases self.held@.len() - i,
        {
            assert(all.take(i + 1).drop_last() =~= all.take(i as int));
            assert(all.take(i + 1).last() == self.held@[i as int]@);
            if same_bytes(self.held[i].as_slice(), key) {
                n += 1;
            }
            i += 1;
        }
        assert(all.take(i as int) =~= all);
        n
    }

    /// Takes a slot under `key`, unless the key holds its share already.
    pub fn try_acquire(&mut self, key: &[u8]) -> (r: bool)
        requires
            old(self).wf(),
        ensures
            final(self).wf(),
            r == (old(self).count(key@) < old(self).limit),
            if r {
                taken(*old(self), *final(self), key@)
            } else {
                final(self).limit == old(self).limit && keys(final(self).held@) == keys(
                    old(self).held@,
                )
            },
    {
        let ghost before = *self;
        if self.counted(key) >= self.limit {
            return false;
        }
        let mut copy: Vec<u8> = Vec::new();
        copy.extend_from_slice(key);
        assert(copy@ =~= key@);
        self.held.push(copy);
        proof {
            assert(keys(self.held@) =~= keys(before.held@).push(key@));
            assert(keys(self.held@).drop_last() =~= keys(before.held@));
            assert forall|k: Seq<u8>| #[trigger] self.count(k) == before.count(k) + (if k == key@ {
                1nat
            } else {
                0nat
            }) by {}
            assert(self.wf()) by {
                assert forall|k: Seq<u8>| #[trigger] self.count(k) <= self.limit by {
                    assert(before.count(k) <= before.limit);
                }
            }
        }
        true
    }

    /// Gives a slot held under `key` back, however the work under it finished.
    pub fn release(&mut self, key: &[u8])
        requires
            old(self).wf(),
        ensures
            final(self).wf(),
            given_back(*old(self), *final(self), key@),
    {
        let ghost before = *self;
        let ghost all = keys(self.held@);
        let mut i: usize = 0;
        assert(all.take(0) =~= Seq::empty());
        while i < self.held.len()
            invariant
                i <= self.held@.len(),
                *self == before,
                before == *old(self),
                before.wf(),
                all == keys(self.held@),
                occurrences(all.take(i as int), key@) == 0,
            decreases self.held@.len() - i,
        {
            assert(all.take(i + 1).drop_last() =~= all.take(i as int));
            assert(all.take(i + 1).last() == self.held@[i as int]@);
            if same_bytes(self.held[i].as_slice(), key) {
                let _ = self.held.remove(i);
                proof {
                    assert(keys(self.held@) =~= all.remove(i as int));
                    assert forall|k: Seq<u8>| #[trigger] self.count(k) == (if k == key@ {
                        (before.count(k) - 1) as nat
                    } else {
                        before.count(k)
                    }) && (k == key@ ==> before.count(k) > 0) by {
                        lemma_occurrences_remove(all, i as int, k);
                    }
                    assert(self.count(key@) == before.count(key@) - 1);
                    assert forall|k: Seq<u8>| #[trigger] self.count(k) <= self.limit by {
                        assert(before.count(k) <= before.limit);
                    }
                }
                return ;
            }
            i += 1;
        }
        assert(all.take(i as int) =~= all);
    }
}

/// Was a slot taken under `key`, and nothing else changed?
pub open spec fn taken(before: Slots, after: Slots, key: Seq<u8>) -> bool {
    &&& after.limit == before.limit
    &&& keys(after.held@) == keys(before.held@).push(key)
    &&& forall|k: Seq<u8>|
        #[trigger] after.count(k) == before.count(k) + (if k == key {
            1nat
        } else {
            0nat
        })
}

/// Was a slot held under `key` given back, if there was one, and nothing else
/// changed?
pub open spec fn given_back(before: Slots, after: Slots, key: Seq<u8>) -> bool {
    &&& after.limit == before.limit
    &&& forall|k: Seq<u8>|
        #[trigger] after.count(k) == (if k == key && before.count(k) > 0 {
            (before.count(k) - 1) as nat
        } else {
            before.count(k)
        })
    &&& after.held@.len() == (if before.count(key) > 0 {
        before.held@.len() - 1
    } else {
        before.held@.len() as int
    })
}

/// Nothing is remembered of a slot that was taken and given back: every key
/// holds as many as before, and the table is no larger.
pub proof fn law_slots_are_forgotten(before: Slots, during: Slots, after: Slots, key: Seq<u8>)
    requires
        taken(before, during, key),
        given_back(during, after, key),
    ensures
        forall|k: Seq<u8>| #[trigger] after.count(k) == before.count(k),
        after.held@.len() == before.held@.len(),
        after.limit == before.limit,
{
    assert(during.count(key) == before.count(key) + 1);
    assert(keys(during.held@).len() == during.held@.len());
    assert(keys(before.held@).len() == before.held@.len());
    assert forall|k: Seq<u8>| #[trigger] after.count(k) == before.count(k) by {
        assert(during.count(k) == before.count(k) + (if k == key {
            1nat
        } else {
            0nat
        }));
    }
}

proof fn lemma_occurrences_remove(s: Seq<Seq<u8>>, i: int, k: Seq<u8>)
    requires
        0 <= i < s.len(),
    ensures
        occurrences(s, k) == occurrences(s.remove(i), k) + (if s[i] == k {
            1nat
        } else {
            0nat
        }),
    decreases s.len(),
{
    if i == s.len() - 1 {
        assert(s.remove(i) =~= s.drop_last());
    } else {
        assert(s.remove(i).drop_last() =~= s.drop_last().remove(i));
        lemma_occurrences_remove(s.drop_last(), i, k);
    }
}

/// Where no key holds more than its share, a full table has many holders: there
/// are at least as many distinct keys as shares fit into the slots held.
pub proof fn law_slots_are_shared(held: Seq<Seq<u8>>, limit: nat)
    requires
        forall|k: Seq<u8>| #[trigger] occurrences(held, k) <= limit,
    ensures
        held.len() <= limit * held.to_set().len(),
    decreases held.len(),
{
    if held.len() == 0 {
        assert(held.to_set() =~= Set::empty());
    } else {
        let k = held.last();
        let rest = others(held, k);
        lemma_others(held, k);
        assert forall|x: Seq<u8>| #[trigger] occurrences(rest, x) <= limit by {
            assert(occurrences(rest, x) <= occurrences(held, x));
            assert(occurrences(held, x) <= limit);
        }
        law_slots_are_shared(rest, limit);
        vstd::seq_lib::seq_to_set_is_finite(held);
        vstd::seq_lib::seq_to_set_is_finite(rest);
        assert(held[held.len() - 1] == k);
        assert(held.to_set().contains(k));
        assert(rest.to_set() =~= held.to_set().remove(k)) by {
            assert forall|x: Seq<u8>| #[trigger] rest.to_set().contains(x) == (held.contains(x) && x
                != k) by {
                assert(rest.contains(x) == (held.contains(x) && x != k));
            }
        }
        let n = rest.to_set().len();
        assert(held.to_set().len() == n + 1);
        assert(occurrences(held, k) <= limit);
        assert(limit * (n + 1) == limit * n + limit) by (nonlinear_arith);
    }
}

/// `held` without the occurrences of `k`.
spec fn others(held: Seq<Seq<u8>>, k: Seq<u8>) -> Seq<Seq<u8>>
    decreases held.len(),
{
    if held.len() == 0 {
        Seq::empty()
    } else {
        let before = others(held.drop_last(), k);
        if held.last() == k {
            before
        } else {
            before.push(held.last())
        }
    }
}

proof fn lemma_others(held: Seq<Seq<u8>>, k: Seq<u8>)
    ensures
        others(held, k).len() + occurrences(held, k) == held.len(),
        forall|x: Seq<u8>| #[trigger] occurrences(others(held, k), x) <= occurrences(held, x),
        forall|x: Seq<u8>|
            #[trigger] others(held, k).contains(x) == (held.contains(x) && x != k),
        others(held, k).len() <= held.len(),
        held.len() > 0 && held.last() == k ==> others(held, k).len() < held.len(),
    decreases held.len(),
{
    if held.len() > 0 {
        let init = held.drop_last();
        let before = others(init, k);
        lemma_others(init, k);
        let after = others(held, k);
        assert(held =~= init.push(held.last()));
        assert forall|x: Seq<u8>| #[trigger] occurrences(after, x) <= occurrences(held, x) by {
            assert(occurrences(before, x) <= occurrences(init, x));
            if held.last() != k {
                assert(after.drop_last() =~= before);
            }
        }
        assert forall|x: Seq<u8>| #[trigger] after.contains(x) == (held.contains(x) && x != k) by {
            assert(before.contains(x) == (init.contains(x) && x != k));
            if held.contains(x) {
                let i = choose|i: int| 0 <= i < held.len() && held[i] == x;
                if i < init.len() {
                    assert(init[i] == x);
                }
            }
            if init.contains(x) {
                let i = choose|i: int| 0 <= i < init.len() && init[i] == x;
                assert(held[i] == x);
            }
            if held.last() == x {
                assert(held[held.len() - 1] == x);
            }
            if held.last() != k {
                if after.contains(x) {
                    let i = choose|i: int| 0 <= i < after.len() && after[i] == x;
                    if i < before.len() {
                        assert(before[i] == x);
                    }
                }
                if before.contains(x) {
                    let i = choose|i: int| 0 <= i < before.len() && before[i] == x;
                    assert(after[i] == x);
                }
                if x == held.last() {
                    assert(after[after.len() - 1] == x);
                }
            }
        }
    } else {
        assert(others(held, k) =~= Seq::empty());
    }
}

// ---------------------------------------------------------------------------
// Handshakes and connections
// ---------------------------------------------------------------------------

/// What to do with an incoming connection.
#[derive(Debug, Clone, Copy, PartialEq, Eq, Structural)]
pub enum Verdict {
    /// Make the peer prove that it can receive at its claimed address before
    /// anything is spent on it.
    Retry,
    /// Drop it silently. Refusing would send a packet per attempt, which is a
    /// reflection lever of its own.
    Ignore,
    /// Go on with the handshake.
    Accept,
}

/// The budgets of the server, and what was refused since the last report.
#[derive(Debug)]
pub struct Admission {
    pub connections: usize,
    pub per_source: Slots,
    pub per_key: Slots,
    pub counters: AdmissionCounters,
}

impl Admission {
    /// Nothing exceeds its budget.
    pub open spec fn wf(&self) -> bool {
        &&& self.connections <= MAX_CONNECTIONS
        &&& self.per_source.wf()
        &&& self.per_source.limit == MAX_HANDSHAKES_PER_SOURCE
        &&& self.per_source.held@.len() <= MAX_HANDSHAKES
        &&& self.per_key.wf()
        &&& self.per_key.limit == MAX_CONNECTIONS_PER_KEY
    }

    /// Is there room for another handshake from this address?
    pub open spec fn room(&self, source: Seq<u8>) -> bool {
        &&& self.connections < MAX_CONNECTIONS
        &&& self.per_source.held@.len() < MAX_HANDSHAKES
        &&& self.per_source.count(source) < MAX_HANDSHAKES_PER_SOURCE
    }

    /// The budgets at the start.
    pub fn new() -> (a: Admission)
        ensures
            a.wf(),
            a.connections == 0,
            a.per_source.held@.len() == 0,
            a.per_key.held@.len() == 0,
            a.counters == (AdmissionCounters { rejected: 0, unauthenticated: 0 }),
    {
        Admission {
            connections: 0,
            per_source: Slots::new(MAX_HANDSHAKES_PER_SOURCE),
            per_key: Slots::new(MAX_CONNECTIONS_PER_KEY),
            counters: AdmissionCounters { rejected: 0, unauthenticated: 0 },
        }
    }

    /// What to do with an incoming connection from this address. One that is
    /// accepted holds a connection and a handshake; one over any of the limits
    /// holds nothing and is counted.
    pub fn incoming(&mut self, source: &[u8], validated: bool) -> (v: Verdict)
        requires
            old(self).wf(),
        ensures
            final(self).wf(),
            final(self).per_key == old(self).per_key,
            v == (if !validated {
                Verdict::Retry
            } else if old(self).room(source@) {
                Verdict::Accept
            } else {
                Verdict::Ignore
            }),
            final(self).connections == old(self).connections + (if v is Accept {
                1int
            } else {
                0int
            }),
            keys(final(self).per_source.held@) == (if v is Accept {
                keys(old(self).per_source.held@).push(source@)
            } else {
                keys(old(self).per_source.held@)
            }),
            final(self).counters == (if v is Ignore {
                old(self).counters.with_rejected()
            } else {
                old(self).counters
            }),
    {
        if !validated {
            return Verdict::Retry;
        }
        let ghost before = keys(self.per_source.held@);
        if self.connections < MAX_CONNECTIONS && self.per_source.held.len() < MAX_HANDSHAKES {
            if self.per_source.try_acquire(source) {
                self.connections = self.connections + 1;
                assert(keys(self.per_source.held@).len() == before.len() + 1);
                assert(keys(self.per_source.held@).len() == self.per_source.held@.len());
                return Verdict::Accept;
            }
            assert(keys(self.per_source.held@).len() == self.per_source.held@.len());
        }
        self.counters.reject();
        Verdict::Ignore
    }

    /// The handshake of an accepted connection is over, however it ended: stop
    /// occupying that budget.
    pub fn handshake_over(&mut self, source: &[u8])
        requires
            old(self).wf(),
        ensures
            final(self).wf(),
            final(self).connections == old(self).connections,
            final(self).per_key == old(self).per_key,
            final(self).counters == old(self).counters,
            forall|k: Seq<u8>|
                #[trigger] final(self).per_source.count(k) == (if k == source@ && old(self).per_source.count(k) > 0 {
                    (old(self).per_source.count(k) - 1) as nat
                } else {
                    old(self).per_source.count(k)
                }),
            final(self).per_source.held@.len() == (if old(self).per_source.count(source@) > 0 {
                old(self).per_source.held@.len() - 1
            } else {
                old(self).per_source.held@.len() as int
            }),
    {
        self.per_source.release(source);
    }

    /// An accepted connection has ended; whether it got as far as proving who
    /// it was is counted, because anyone can provoke failures before that.
    pub fn connection_over(&mut self, outcome: Option<Authenticated>)
        requires
            old(self).wf(),
        ensures
            final(self).wf(),
            final(self).connections == (if old(self).connections > 0 {
                old(self).connections - 1
            } else {
                0
            }),
            final(self).per_source == old(self).per_source,
            final(self).per_key == old(self).per_key,
            final(self).counters == old(self).counters.recorded(outcome),
    {
        if self.connections > 0 {
            self.connections = self.connections - 1;
        }
        self.counters.record_connection_outcome(outcome);
    }

    /// Takes one of the connections that this key may keep at once.
    pub fn take_key(&mut self, key: &Fingerprint) -> (r: bool)
        requires
            old(self).wf(),
        ensures
            final(self).wf(),
            r == (old(self).per_key.count(key.0@) < MAX_CONNECTIONS_PER_KEY),
            final(self).connections == old(self).connections,
            final(self).per_source == old(self).per_source,
            final(self).counters == old(self).counters,
            forall|k: Seq<u8>|
                #[trigger] final(self).per_key.count(k) == old(self).per_key.count(k) + (if r && k
                    == key.0@ {
                    1nat
                } else {
                    0nat
                }),
    {
        self.per_key.try_acquire(key.0.as_slice())
    }

    /// Gives one of the connections of this key back.
    pub fn drop_key(&mut self, key: &Fingerprint)
        requires
            old(self).wf(),
        ensures
            final(self).wf(),
            final(self).connections == old(self).connections,
            final(self).per_source == old(self).per_source,
            final(self).counters == old(self).counters,
            forall|k: Seq<u8>|
                #[trigger] final(self).per_key.count(k) == (if k == key.0@ && old(self).per_key.count(k) > 0 {
                    (old(self).per_key.count(k) - 1) as nat
                } else {
                    old(self).per_key.count(k)
                }),
    {
        self.per_key.release(key.0.as_slice());
    }
}

/// One address cannot lock the others out: whenever the handshake budget is
/// exhausted, at least eight distinct addresses are shaking hands.
pub proof fn law_handshakes_are_shared(a: Admission)
    requires
        a.wf(),
        a.per_source.held@.len() == MAX_HANDSHAKES,
    ensures
        keys(a.per_source.held@).to_set().len() >= 8,
{
    let held = keys(a.per_source.held@);
    assert forall|k: Seq<u8>| #[trigger] occurrences(held, k) <= 4 by {
        assert(a.per_source.count(k) <= a.per_source.limit);
    }
    assert(held.len() == a.per_source.held@.len());
    law_slots_are_shared(held, 4);
}

/// There is room for a handshake exactly as long as fewer than 256 connections
/// are open, fewer than 32 handshakes are going on, and fewer than four of them
/// come from the same address; what other addresses are doing beyond that does
/// not matter.
pub proof fn law_who_is_let_in(a: Admission, source: Seq<u8>)
    ensures
        a.room(source) <==> a.connections < 256 && a.per_source.held@.len() < 32 && occurrences(
            keys(a.per_source.held@),
            source,
        ) < 4,
{
}

/// How often a key occurs: not at all in a table without it, once more with
/// every slot that is taken under it, and as often as before with every other.
pub proof fn law_occurrences_count(held: Seq<Seq<u8>>, k: Seq<u8>, other: Seq<u8>)
    requires
        k != other,
    ensures
        occurrences(held.push(k), k) == occurrences(held, k) + 1,
        occurrences(held.push(other), k) == occurrences(held, k),
        !held.contains(k) ==> occurrences(held, k) == 0,
        occurrences(held, k) <= held.len(),
    decreases held.len(),
{
    assert(held.push(k).drop_last() =~= held);
    assert(held.push(other).drop_last() =~= held);
    if held.len() > 0 {
        let past = held.drop_last();
        if !held.contains(k) {
            assert(held[held.len() - 1] != k);
            assert(!past.contains(k)) by {
                if past.contains(k) {
                    let i = choose|i: int| 0 <= i < past.len() && past[i] == k;
                    assert(held[i] == k);
                }
            }
        }
        law_occurrences_count(past, k, other);
    }
}

/// Did the peer get as far as proving who it was?
#[derive(Debug, Clone, Copy, PartialEq, Eq, Structural)]
pub enum Authenticated {
    Yes,
    No,
    OverLimit,
}

/// What was refused since the last report.
#[derive(Debug, Clone, Copy, PartialEq, Eq, Structural)]
pub struct AdmissionCounters {
    pub rejected: u64,
    pub unauthenticated: u64,
}

/// One more, from the largest number on around to 0.
pub open spec fn one_more(n: u64) -> u64 {
    if n == u64::MAX {
        0
    } else {
        (n + 1) as u64
    }
}

impl AdmissionCounters {
    /// One more connection was refused over a limit.
    pub open spec fn with_rejected(self) -> AdmissionCounters {
        AdmissionCounters { rejected: one_more(self.rejected), ..self }
    }

    /// The counters after a connection ended this way; `None` is an error after
    /// the client had authenticated, which is logged instead of counted.
    pub open spec fn recorded(self, outcome: Option<Authenticated>) -> AdmissionCounters {
        match outcome {
            Some(Authenticated::No) => AdmissionCounters {
                unauthenticated: one_more(self.unauthenticated),
                ..self
            },
            Some(Authenticated::OverLimit) => self.with_rejected(),
            _ => self,
        }
    }

    /// Counts a connection that was refused over a limit.
    pub fn reject(&mut self)
        ensures
            *final(self) == old(self).with_rejected(),
    {
        self.rejected = self.rejected.wrapping_add(1);
    }

    /// Counts how a connection ended.
    pub fn record_connection_outcome(&mut self, outcome: Option<Authenticated>)
        ensures
            *final(self) == old(self).recorded(outcome),
    {
        match outcome {
            Some(Authenticated::No) => {
                self.unauthenticated = self.unauthenticated.wrapping_add(1);
            },
            Some(Authenticated::OverLimit) => {
                self.reject();
            },
            Some(Authenticated::Yes) => {},
            None => {},
        }
    }

    /// What there is to report, and nothing more after that until something
    /// happens again.
    pub fn report(&mut self) -> (lines: Vec<String>)
        ensures
            *final(self) == (AdmissionCounters { rejected: 0, unauthenticated: 0 }),
            crate::text::texts(lines@) == old(self).reported(),
    {
        let mut lines: Vec<String> = Vec::new();
        if self.rejected > 0 {
            let mut line = "qsh-server: refused ".to_owned();
            line.append(decimal_text(self.rejected).as_str());
            line.append(" connection(s) over the concurrency limit");
            lines.push(line);
        }
        if self.unauthenticated > 0 {
            let mut line = "qsh-server: ".to_owned();
            line.append(decimal_text(self.unauthenticated).as_str());
            line.append(" connection(s) failed to authenticate");
            lines.push(line);
        }
        assert(crate::text::texts(lines@) =~= self.reported());
        self.rejected = 0;
        self.unauthenticated = 0;
        lines
    }

    /// What there is to report.
    pub open spec fn reported(self) -> Seq<Seq<char>> {
        (if self.rejected > 0 {
            seq![
                "qsh-server: refused "@ + decimal(self.rejected as nat)
                    + " connection(s) over the concurrency limit"@,
            ]
        } else {
            Seq::empty()
        }) + (if self.unauthenticated > 0 {
            seq![
                "qsh-server: "@ + decimal(self.unauthenticated as nat)
                    + " connection(s) failed to authenticate"@,
            ]
        } else {
            Seq::empty()
        })
    }
}

/// A connection that ends is counted once, and for what it was: as one that did
/// not authenticate, or as one over its limit. One that was served is not
/// counted, nor is one that failed afterwards.
pub proof fn law_each_outcome_is_counted_once(c: AdmissionCounters)
    requires
        c.rejected < u64::MAX,
        c.unauthenticated < u64::MAX,
    ensures
        c.recorded(Some(Authenticated::No)).unauthenticated == c.unauthenticated + 1,
        c.recorded(Some(Authenticated::No)).rejected == c.rejected,
        c.recorded(Some(Authenticated::OverLimit)).rejected == c.rejected + 1,
        c.recorded(Some(Authenticated::OverLimit)).unauthenticated == c.unauthenticated,
        c.recorded(Some(Authenticated::Yes)) == c,
        c.recorded(None) == c,
        c.with_rejected().rejected == c.rejected + 1,
        c.with_rejected().unauthenticated == c.unauthenticated,
{
}

/// Counting never fails: from the largest number on it begins anew.
pub proof fn law_counting_goes_around(c: AdmissionCounters)
    ensures
        c.rejected == u64::MAX ==> c.with_rejected().rejected == 0,
        c.unauthenticated == u64::MAX ==> c.recorded(Some(Authenticated::No)).unauthenticated == 0,
{
}

/// Something is reported exactly if something was counted.
pub proof fn law_reports_say_what_was_counted(c: AdmissionCounters)
    ensures
        c.reported().len() == (if c.rejected > 0 {
            1int
        } else {
            0int
        }) + (if c.unauthenticated > 0 {
            1int
        } else {
            0int
        }),
{
}

} // verus!
