//! A fixed-timeout expiration queue over an order-preserving keyed store.
//!
//! `Tq` is the queue's shared state as it lives under one lock: the keyed
//! store of entries with their deadlines, the fixed timeout, and the
//! lifecycle flag of the single background worker that drains due entries.
//! The surrounding runtime owns the lock, the clock and the worker task; it
//! calls `push` under the lock and starts a worker exactly when `push` says
//! so, and the worker calls `worker_step` under the lock until it is told
//! to stop.
//!
//! The flag discipline is the queue's central invariant: `worker_step`
//! observes the store empty and clears the flag in the same locked call, so
//! a concurrent `push` either sees the entry-holding store with the flag
//! set (a worker will drain it) or sees the flag clear and is told to start
//! a worker.  No entry can be left behind with no worker to drain it.

pub mod ordhash;

use vstd::prelude::*;
use crate::ordhash::{
    OrdHash, StoreModel, drain_spec, lemma_drain_insertion_order, lemma_pop_spec_props, occurrences,
    pop_spec, unique_model, wf_model,
};

verus! {

/// One queue entry as stored: the value and the absolute deadline (in the
/// caller's clock ticks) at which it expires.
pub struct ExpValue<V> {
    pub value: V,
    pub expire_at: u64,
}

/// The expiration queue's lock-guarded state.  Every entry expires a fixed
/// `timeout` after its insertion; `running` says whether the single
/// background drain worker is active.
pub struct Tq<V> {
    store: OrdHash<ExpValue<V>>,
    timeout: u64,
    running: bool,
}

impl<V> Tq<V> {
    /// The store's mathematical state: eviction order and live entries.
    pub closed spec fn store_model(&self) -> StoreModel<ExpValue<V>> {
        self.store.model()
    }

    /// The live entries: key to (stored entry, duplicate count).
    pub open spec fn entries(&self) -> Map<u64, (ExpValue<V>, nat)> {
        self.store_model().entries
    }

    /// The fixed timeout every entry lives for.
    pub closed spec fn timeout(&self) -> u64 {
        self.timeout
    }

    /// Whether the single background worker is active.
    pub closed spec fn running(&self) -> bool {
        self.running
    }

    /// The queue is well formed when its store is.
    pub open spec fn wf(&self) -> bool {
        wf_model(self.store_model())
    }

    /// Create an empty queue with the given timeout and room for `cap`
    /// entries.  No worker is active.
    pub fn with_capacity(timeout: u64, cap: usize) -> (r: Self)
        ensures
            r.store_model().order == Seq::<u64>::empty(),
            r.entries() == Map::<u64, (ExpValue<V>, nat)>::empty(),
            r.timeout() == timeout,
            !r.running(),
            r.wf(),
    {
        Tq { store: OrdHash::with_capacity(cap), timeout, running: false }
    }

    /// Create an empty queue with the given timeout.  No worker is active.
    pub fn new(timeout: u64) -> (r: Self)
        ensures
            r.store_model().order == Seq::<u64>::empty(),
            r.entries() == Map::<u64, (ExpValue<V>, nat)>::empty(),
            r.timeout() == timeout,
            !r.running(),
            r.wf(),
    {
        Self::with_capacity(timeout, 0)
    }

    /// Pre-allocate room for `additional` more entries; nothing observable
    /// changes.
    pub fn reserve(&mut self, additional: usize)
        ensures
            final(self).store_model() == old(self).store_model(),
            final(self).timeout() == old(self).timeout(),
            final(self).running() == old(self).running(),
    {
        self.store.reserve(additional);
    }

    /// Insert `value` under `key` at clock time `now`; the entry's deadline
    /// is `now` plus the fixed timeout.  Re-inserting a live key stores the
    /// new value and deadline and moves the key to the back of the order
    /// (last write wins).  The result says whether the caller must start
    /// the background worker: it is owed exactly when no worker was active,
    /// and afterwards one is, so concurrent inserts under the lock start
    /// exactly one.
    pub fn push(&mut self, key: u64, value: V, now: u64) -> (start_worker: bool)
        requires
            old(self).wf(),
            now + old(self).timeout() <= u64::MAX,
        ensures
            final(self).store_model().order == old(self).store_model().order.push(key),
            final(self).entries() == (if old(self).entries().contains_key(key) {
                old(self).entries().insert(
                    key,
                    ((ExpValue { value, expire_at: (now + old(self).timeout()) as u64 }),
                    old(self).entries()[key].1 + 1),
                )
            } else {
                old(self).entries().insert(
                    key,
                    ((ExpValue { value, expire_at: (now + old(self).timeout()) as u64 }), 0nat),
                )
            }),
            start_worker == !old(self).running(),
            final(self).running(),
            final(self).timeout() == old(self).timeout(),
            final(self).wf(),
    {
        let ev = ExpValue { value, expire_at: now + self.timeout };
        self.store.push_back(key, ev);
        let start_worker = !self.running;
        self.running = true;
        start_worker
    }

    /// Whether `key` currently has a live entry.
    pub fn contains_key(&self, key: &u64) -> (r: bool)
        ensures
            r <==> self.entries().contains_key(*key),
    {
        self.store.get(key).is_some()
    }

    /// Look the live value of `key` up; deadlines and order are not
    /// touched.
    pub fn get(&self, key: &u64) -> (r: Option<&V>)
        ensures
            match r {
                Some(v) => self.entries().contains_key(*key) && *v
                    == self.entries()[*key].0.value,
                None => !self.entries().contains_key(*key),
            },
    {
        match self.store.get(key) {
            Some(ev) => Some(&ev.value),
            None => None,
        }
    }

    /// The number of live entries.
    pub fn len(&self) -> (r: usize)
        ensures
            r == self.entries().dom().len(),
    {
        self.store.len()
    }

    /// Whether no live entry remains.
    pub fn is_empty(&self) -> (r: bool)
        ensures
            r <==> self.entries().dom() == Set::<u64>::empty(),
    {
        self.store.is_empty()
    }

    /// Remove `key`'s entry without firing its callback: afterwards the key
    /// is absent, so the drain will never hand it out, whatever the worker
    /// is doing.  The worker flag and the timeout are untouched.
    pub fn remove(&mut self, key: &u64) -> (r: Option<V>)
        ensures
            final(self).store_model().order == old(self).store_model().order,
            final(self).entries() == old(self).entries().remove(*key),
            !final(self).entries().contains_key(*key),
            r == (if old(self).entries().contains_key(*key) {
                Some(old(self).entries()[*key].0.value)
            } else {
                None::<V>
            }),
            final(self).timeout() == old(self).timeout(),
            final(self).running() == old(self).running(),
            old(self).wf() ==> final(self).wf(),
    {
        match self.store.remove(key) {
            Some(ev) => Some(ev.value),
            None => None,
        }
    }

    /// Whether the background worker is currently active.
    pub fn is_running(&self) -> (r: bool)
        ensures
            r == self.running(),
    {
        self.running
    }

    /// One locked step of the background worker: take the next entry out of
    /// the drain order, or, observing the store empty, clear the worker
    /// flag — in the same locked call, so no insert can slip between the
    /// emptiness check and the flag transition and leave an entry with no
    /// worker.  The worker stays active exactly while entries keep coming.
    pub fn worker_step(&mut self) -> (r: Option<(u64, ExpValue<V>)>)
        requires
            old(self).running(),
        ensures
            final(self).store_model() == pop_spec(old(self).store_model()).0,
            r == pop_spec(old(self).store_model()).1,
            final(self).running() == (r is Some),
            final(self).timeout() == old(self).timeout(),
            old(self).wf() ==> final(self).wf(),
            old(self).wf() ==> ((r is Some) <==> (exists|k: u64|
                old(self).entries().contains_key(k))),
    {
        let ghost m0 = self.store_model();
        let r = self.store.pop_front();
        proof {
            if old(self).wf() {
                lemma_pop_spec_props(m0);
                if exists|k: u64| old(self).entries().contains_key(k) {
                    let k0 = choose|k: u64| old(self).entries().contains_key(k);
                    assert(m0.entries.contains_key(k0));
                }
                if exists|k: u64| m0.entries.contains_key(k) {
                    let k0 = choose|k: u64| m0.entries.contains_key(k);
                    assert(old(self).entries().contains_key(k0));
                }
            }
        }
        if r.is_none() {
            self.running = false;
        }
        r
    }
}

/// Two entries inserted one after the other into an empty idle queue share
/// the same fixed timeout, so the first one inserted is also the first one
/// due: the drain hands out `k1`'s entry and then `k2`'s, whatever their
/// deadlines read.
pub proof fn lemma_two_inserts_fire_in_order<V>(k1: u64, ev1: ExpValue<V>, k2: u64, ev2: ExpValue<V>)
    requires
        k1 != k2,
    ensures
        ({
            let m = StoreModel {
                order: seq![k1, k2],
                entries: map![k1 => (ev1, 0nat), k2 => (ev2, 0nat)],
            };
            drain_spec(m) == seq![(k1, ev1), (k2, ev2)]
        }),
{
    let s = seq![k1, k2];
    let m = StoreModel { order: s, entries: map![k1 => (ev1, 0nat), k2 => (ev2, 0nat)] };
    assert(s.drop_first() =~= seq![k2]);
    assert(seq![k2].drop_first() =~= Seq::<u64>::empty());
    assert(seq![k2][0] == k2);
    assert(occurrences(Seq::<u64>::empty(), k1) == 0);
    assert(occurrences(Seq::<u64>::empty(), k2) == 0);
    assert(occurrences(seq![k2], k1) == 0);
    assert(occurrences(s, k1) == 1);
    assert(occurrences(seq![k2], k2) == 1);
    assert(occurrences(s, k2) == 1);
    assert(wf_model(m)) by {
        assert forall|k: u64| #[trigger] m.entries.contains_key(k)
            implies occurrences(m.order, k) >= m.entries[k].1 + 1 by {
            assert(k == k1 || k == k2);
        }
    }
    assert(unique_model(m)) by {
        assert(s.contains(k1)) by {
            assert(s[0] == k1);
        }
        assert(s.contains(k2)) by {
            assert(s[1] == k2);
        }
        assert forall|i: int, j: int| 0 <= i < s.len() && 0 <= j < s.len() && i != j
            implies s[i] != s[j] by {}
        assert forall|k: u64| #![trigger m.entries.contains_key(k)] #![trigger m.order.contains(k)]
            m.entries.contains_key(k) <==> m.order.contains(k) by {
            if m.order.contains(k) {
                let i = choose|i: int| 0 <= i < s.len() && s[i] == k;
                assert(k == k1 || k == k2);
            }
        }
    }
    lemma_drain_insertion_order(m);
    let expect = Seq::new(m.order.len(), |i: int| (m.order[i], m.entries[m.order[i]].0));
    assert(expect[0] == (k1, ev1));
    assert(expect[1] == (k2, ev2));
    assert(expect =~= seq![(k1, ev1), (k2, ev2)]);
}

/// Whatever entry the drain hands out is exactly the entry stored under its
/// key — in particular it carries the deadline it was inserted with, so an
/// entry inserted at time `t` fires with deadline `t` plus the fixed
/// timeout.
pub proof fn lemma_fired_entry_is_stored<V>(m: StoreModel<ExpValue<V>>, k: u64, ev: ExpValue<V>)
    requires
        wf_model(m),
        pop_spec(m).1 == Some((k, ev)),
    ensures
        m.entries.contains_key(k),
        ev == m.entries[k].0,
{
    lemma_pop_spec_props(m);
}

} // verus!
