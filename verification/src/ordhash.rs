//! An order-preserving keyed store.
//!
//! `OrdHash` keeps a map from keys to values together with a FIFO order
//! sequence.  Re-inserting an existing key appends a fresh order reference
//! and bumps a per-entry duplicate counter instead of rewriting the order
//! sequence, so updates stay amortized O(1); the drain operations skip the
//! stale references by decrementing the counter as they meet them.
//!
//! Re-insertion is last-write-wins: `push_back` on an existing key stores
//! the new value and moves the key's effective position to the back of the
//! eviction order.

use vstd::prelude::*;
use std::collections::HashMap;
use std::collections::VecDeque;

verus! {

broadcast use {
    vstd::std_specs::hash::group_hash_axioms,
    vstd::std_specs::vecdeque::group_vec_dequeue_axioms,
};

/// One stored entry: the current value and the number of stale references
/// to its key that remain in the order sequence.
struct ValueHolder<V> {
    cnt: usize,
    value: V,
}

/// The mathematical state of an `OrdHash`: the order sequence and, for each
/// live key, its current value paired with its duplicate count.
#[verifier::ext_equal]
pub struct StoreModel<V> {
    pub order: Seq<u64>,
    pub entries: Map<u64, (V, nat)>,
}

/// `m` with the front order reference dropped and the entries unchanged.
pub open spec fn drop_model<V>(m: StoreModel<V>) -> StoreModel<V> {
    StoreModel { order: m.order.drop_first(), entries: m.entries }
}

/// `m` with the front order reference dropped and the front key's duplicate
/// count lowered by one (the front reference was stale and is now spent).
pub open spec fn dec_front_model<V>(m: StoreModel<V>) -> StoreModel<V> {
    StoreModel {
        order: m.order.drop_first(),
        entries: m.entries.insert(
            m.order[0],
            (m.entries[m.order[0]].0, (m.entries[m.order[0]].1 - 1) as nat),
        ),
    }
}

/// `m` with the front order reference dropped and the front key's entry
/// removed (the front reference was canonical and its entry leaves).
pub open spec fn take_front_model<V>(m: StoreModel<V>) -> StoreModel<V> {
    StoreModel { order: m.order.drop_first(), entries: m.entries.remove(m.order[0]) }
}

/// `m` with the first `i` order references dropped and the entries
/// unchanged.
pub open spec fn suffix_model<V>(m: StoreModel<V>, i: int) -> StoreModel<V> {
    StoreModel { order: m.order.skip(i), entries: m.entries }
}

/// What draining one entry from the front does: the state afterwards and
/// the key/value handed out.  Stale order references (keys that are absent,
/// or whose duplicate count is still positive) are consumed along the way;
/// a positive duplicate count is lowered by one each time one of its
/// references is met.
pub open spec fn pop_spec<V>(m: StoreModel<V>) -> (StoreModel<V>, Option<(u64, V)>)
    decreases m.order.len(),
{
    if m.order.len() == 0 {
        (m, None::<(u64, V)>)
    } else {
        let k = m.order[0];
        if m.entries.contains_key(k) {
            if m.entries[k].1 == 0 {
                (take_front_model(m), Some((k, m.entries[k].0)))
            } else {
                pop_spec(dec_front_model(m))
            }
        } else {
            pop_spec(drop_model(m))
        }
    }
}

/// What `peek_front` sees: the first key in the order sequence that is live
/// and has duplicate count zero, with its value.  Unlike `pop_spec` this
/// consumes nothing, so a key whose stale references still precede its
/// canonical one is skipped outright.
pub open spec fn peek_spec<V>(m: StoreModel<V>) -> Option<(u64, V)>
    decreases m.order.len(),
{
    if m.order.len() == 0 {
        None::<(u64, V)>
    } else {
        let k = m.order[0];
        if m.entries.contains_key(k) && m.entries[k].1 == 0 {
            Some((k, m.entries[k].0))
        } else {
            peek_spec(drop_model(m))
        }
    }
}

/// How many times `k` occurs in `s`.
pub open spec fn occurrences(s: Seq<u64>, k: u64) -> nat
    decreases s.len(),
{
    if s.len() == 0 {
        0
    } else {
        (if s[0] == k {
            1nat
        } else {
            0nat
        }) + occurrences(s.drop_first(), k)
    }
}

/// Well-formedness: every live key has at least `duplicate count + 1`
/// references in the order sequence, so a drain cannot exhaust the order
/// sequence while a live entry remains.
pub open spec fn wf_model<V>(m: StoreModel<V>) -> bool {
    forall|k: u64| #[trigger] m.entries.contains_key(k) ==> occurrences(m.order, k) >= m.entries[k].1 + 1
}

/// In a well-formed model every live key's duplicate count is strictly
/// below its number of order references.
proof fn lemma_wf_bound<V>(m: StoreModel<V>, k: u64)
    requires
        wf_model(m),
        m.entries.contains_key(k),
    ensures
        occurrences(m.order, k) >= m.entries[k].1 + 1,
{
}

/// Occurrence counts never exceed the length of the sequence.
proof fn lemma_occurrences_le_len(s: Seq<u64>, k: u64)
    ensures
        occurrences(s, k) <= s.len(),
    decreases s.len(),
{
    if s.len() > 0 {
        lemma_occurrences_le_len(s.drop_first(), k);
    }
}

/// Appending one key raises its occurrence count by one and leaves every
/// other key's count unchanged.
proof fn lemma_occurrences_push(s: Seq<u64>, x: u64, k: u64)
    ensures
        occurrences(s.push(x), k) == occurrences(s, k) + (if x == k {
            1nat
        } else {
            0nat
        }),
    decreases s.len(),
{
    if s.len() == 0 {
        assert(s.push(x)[0] == x);
        assert(s.push(x).drop_first() =~= Seq::<u64>::empty());
        assert(occurrences(s.push(x), k) == (if x == k {
            1nat
        } else {
            0nat
        }) + occurrences(Seq::<u64>::empty(), k));
    } else {
        assert(s.push(x)[0] == s[0]);
        assert(s.push(x).drop_first() =~= s.drop_first().push(x));
        lemma_occurrences_push(s.drop_first(), x, k);
        assert(occurrences(s.push(x), k) == (if s[0] == k {
            1nat
        } else {
            0nat
        }) + occurrences(s.drop_first().push(x), k));
    }
}

/// A key occurs in a sequence exactly when its occurrence count is
/// positive.
proof fn lemma_occurrences_contains(s: Seq<u64>, k: u64)
    ensures
        (occurrences(s, k) > 0) <==> s.contains(k),
    decreases s.len(),
{
    if s.len() > 0 {
        lemma_occurrences_contains(s.drop_first(), k);
        if s[0] == k {
            assert(s.contains(k));
        } else {
            if s.contains(k) {
                let i = choose|i: int| 0 <= i < s.len() && s[i] == k;
                assert(s.drop_first()[i - 1] == k);
                assert(s.drop_first().contains(k));
            }
            if s.drop_first().contains(k) {
                let i = choose|i: int| 0 <= i < s.drop_first().len() && s.drop_first()[i] == k;
                assert(s[i + 1] == k);
                assert(s.contains(k));
            }
        }
    }
}

/// Without duplicates, no key occurs more than once.
proof fn lemma_occurrences_no_dup(s: Seq<u64>, k: u64)
    requires
        s.no_duplicates(),
    ensures
        occurrences(s, k) <= 1,
    decreases s.len(),
{
    if s.len() > 0 {
        lemma_occurrences_no_dup(s.drop_first(), k);
        if s[0] == k {
            assert(!s.drop_first().contains(k)) by {
                if s.drop_first().contains(k) {
                    let i = choose|i: int|
                        0 <= i < s.drop_first().len() && s.drop_first()[i] == k;
                    assert(s[i + 1] == s[0]);
                }
            }
            lemma_occurrences_contains(s.drop_first(), k);
        }
    }
}

/// Draining consumes order references: the order sequence never grows, and
/// it strictly shrinks whenever an entry is handed out.
proof fn lemma_pop_spec_len<V>(m: StoreModel<V>)
    ensures
        pop_spec(m).0.order.len() <= m.order.len(),
        pop_spec(m).1 is Some ==> pop_spec(m).0.order.len() < m.order.len(),
    decreases m.order.len(),
{
    if m.order.len() > 0 {
        let k = m.order[0];
        if m.entries.contains_key(k) {
            if m.entries[k].1 != 0 {
                lemma_pop_spec_len(dec_front_model(m));
            }
        } else {
            lemma_pop_spec_len(drop_model(m));
        }
    }
}

/// The whole drain of a store: the sequence of key/value pairs that
/// repeated calls of `pop_front` hand out, in order, until the store is
/// exhausted.
pub open spec fn drain_spec<V>(m: StoreModel<V>) -> Seq<(u64, V)>
    decreases m.order.len(),
    via drain_spec_decreases::<V>
{
    match pop_spec(m).1 {
        None => Seq::<(u64, V)>::empty(),
        Some(kv) => seq![kv] + drain_spec(pop_spec(m).0),
    }
}

#[via_fn]
proof fn drain_spec_decreases<V>(m: StoreModel<V>) {
    lemma_pop_spec_len(m);
}

/// The value each live key holds, forgetting duplicate counts.
pub open spec fn vals_of<V>(entries: Map<u64, (V, nat)>) -> Map<u64, V> {
    entries.map_values(|p: (V, nat)| p.0)
}

/// Draining one entry removes exactly the key it hands out from the live
/// values and changes no other key's value; when nothing comes out, the
/// live values are untouched.
proof fn lemma_pop_spec_vals<V>(m: StoreModel<V>)
    ensures
        pop_spec(m).1 is None ==> vals_of(pop_spec(m).0.entries) == vals_of(m.entries),
        pop_spec(m).1 matches Some((k, v)) ==> vals_of(pop_spec(m).0.entries) == vals_of(
            m.entries,
        ).remove(k),
    decreases m.order.len(),
{
    if m.order.len() > 0 {
        let k = m.order[0];
        if m.entries.contains_key(k) {
            if m.entries[k].1 == 0 {
                assert(vals_of(m.entries.remove(k)) =~= vals_of(m.entries).remove(k));
            } else {
                let m1 = dec_front_model(m);
                assert(vals_of(m1.entries) =~= vals_of(m.entries));
                lemma_pop_spec_vals(m1);
            }
        } else {
            lemma_pop_spec_vals(drop_model(m));
        }
    }
}

/// Draining one entry preserves well-formedness, hands an entry out exactly
/// when a live entry exists, and the value handed out for a key is the value
/// stored under that key.
pub proof fn lemma_pop_spec_props<V>(m: StoreModel<V>)
    requires
        wf_model(m),
    ensures
        wf_model(pop_spec(m).0),
        (pop_spec(m).1 is Some) <==> (exists|k: u64| m.entries.contains_key(k)),
        pop_spec(m).1 matches Some((k, v)) ==> m.entries.contains_key(k) && v == m.entries[k].0,
    decreases m.order.len(),
{
    if m.order.len() == 0 {
        assert forall|k: u64| !(#[trigger] m.entries.contains_key(k)) by {
            if m.entries.contains_key(k) {
                lemma_wf_bound(m, k);
            }
        }
    } else {
        let k = m.order[0];
        if m.entries.contains_key(k) {
            if m.entries[k].1 == 0 {
                assert forall|j: u64| #[trigger] take_front_model(m).entries.contains_key(j)
                    implies occurrences(take_front_model(m).order, j)
                        >= take_front_model(m).entries[j].1 + 1 by {
                    lemma_wf_bound(m, j);
                }
            } else {
                let m1 = dec_front_model(m);
                assert forall|j: u64| #[trigger] m1.entries.contains_key(j)
                    implies occurrences(m1.order, j) >= m1.entries[j].1 + 1 by {
                    if j == k {
                        lemma_wf_bound(m, k);
                    } else {
                        lemma_wf_bound(m, j);
                    }
                }
                lemma_pop_spec_props(m1);
                assert(m1.entries.contains_key(k));
            }
        } else {
            let m1 = drop_model(m);
            assert forall|j: u64| #[trigger] m1.entries.contains_key(j)
                implies occurrences(m1.order, j) >= m1.entries[j].1 + 1 by {
                lemma_wf_bound(m, j);
            }
            lemma_pop_spec_props(m1);
        }
    }
}

/// A store built purely from insertions of pairwise distinct keys: the
/// order sequence repeats no key, and the live keys are exactly the keys in
/// order.
pub open spec fn unique_model<V>(m: StoreModel<V>) -> bool {
    &&& m.order.no_duplicates()
    &&& forall|k: u64| #![trigger m.entries.contains_key(k)] #![trigger m.order.contains(k)]
        m.entries.contains_key(k) <==> m.order.contains(k)
}

/// Dropping the front of a duplicate-free sequence keeps it duplicate-free
/// and removes only the front key.
proof fn lemma_nodup_drop(s: Seq<u64>)
    requires
        s.no_duplicates(),
        s.len() > 0,
    ensures
        s.drop_first().no_duplicates(),
        !s.drop_first().contains(s[0]),
        forall|k: u64| k != s[0] ==> (#[trigger] s.drop_first().contains(k) <==> s.contains(k)),
{
    assert forall|i: int, j: int|
        0 <= i < s.drop_first().len() && 0 <= j < s.drop_first().len() && i != j
        implies s.drop_first()[i] != s.drop_first()[j] by {
        assert(s.drop_first()[i] == s[i + 1]);
        assert(s.drop_first()[j] == s[j + 1]);
    }
    assert(!s.drop_first().contains(s[0])) by {
        if s.drop_first().contains(s[0]) {
            let i = choose|i: int| 0 <= i < s.drop_first().len() && s.drop_first()[i] == s[0];
            assert(s[i + 1] == s[0]);
        }
    }
    assert forall|k: u64| k != s[0] implies (#[trigger] s.drop_first().contains(k) <==> s.contains(
        k,
    )) by {
        if s.drop_first().contains(k) {
            let i = choose|i: int| 0 <= i < s.drop_first().len() && s.drop_first()[i] == k;
            assert(s[i + 1] == k);
            assert(s.contains(k));
        }
        if s.contains(k) {
            let i = choose|i: int| 0 <= i < s.len() && s[i] == k;
            assert(s.drop_first()[i - 1] == k);
            assert(s.drop_first().contains(k));
        }
    }
}

/// On a store of unique keys, what `peek_front` sees is exactly what
/// `pop_front` would hand out next.
pub proof fn lemma_peek_matches_pop<V>(m: StoreModel<V>)
    requires
        wf_model(m),
        m.order.no_duplicates(),
    ensures
        peek_spec(m) == pop_spec(m).1,
    decreases m.order.len(),
{
    if m.order.len() > 0 {
        let k = m.order[0];
        if m.entries.contains_key(k) {
            lemma_wf_bound(m, k);
            lemma_occurrences_no_dup(m.order, k);
            assert(m.entries[k].1 == 0);
        } else {
            lemma_nodup_drop(m.order);
            let m1 = drop_model(m);
            assert forall|j: u64| #[trigger] m1.entries.contains_key(j)
                implies occurrences(m1.order, j) >= m1.entries[j].1 + 1 by {
                lemma_wf_bound(m, j);
            }
            lemma_peek_matches_pop(m1);
        }
    }
}

/// Inserting pairwise distinct keys and draining yields the entries in
/// exact insertion order: the drain of a unique-key store is its order
/// sequence, each key paired with its stored value.
pub proof fn lemma_drain_insertion_order<V>(m: StoreModel<V>)
    requires
        wf_model(m),
        unique_model(m),
    ensures
        drain_spec(m) == Seq::new(m.order.len(), |i: int| (m.order[i], m.entries[m.order[i]].0)),
    decreases m.order.len(),
{
    lemma_pop_spec_props(m);
    if m.order.len() == 0 {
        assert forall|k: u64| !(#[trigger] m.entries.contains_key(k)) by {
            if m.entries.contains_key(k) {
                lemma_wf_bound(m, k);
            }
        }
        assert(pop_spec(m).1 is None);
        assert(drain_spec(m) =~= Seq::new(0, |i: int| (m.order[i], m.entries[m.order[i]].0)));
    } else {
        let k = m.order[0];
        assert(m.order.contains(k));
        assert(m.entries.contains_key(k));
        lemma_wf_bound(m, k);
        lemma_occurrences_no_dup(m.order, k);
        assert(m.entries[k].1 == 0);
        let m1 = take_front_model(m);
        assert(pop_spec(m) == (m1, Some((k, m.entries[k].0))));
        lemma_nodup_drop(m.order);
        assert(wf_model(m1));
        assert(unique_model(m1)) by {
            assert forall|j: u64| #![trigger m1.entries.contains_key(j)]
                #![trigger m1.order.contains(j)] m1.entries.contains_key(j) <==> m1.order.contains(
                j,
            ) by {
                if j == k {
                    assert(!m1.entries.contains_key(k));
                    assert(!m1.order.contains(k));
                } else {
                    assert(m1.entries.contains_key(j) <==> m.entries.contains_key(j));
                    assert(m1.order.contains(j) <==> m.order.contains(j));
                }
            }
        }
        lemma_drain_insertion_order(m1);
        assert(drain_spec(m) =~= Seq::new(
            m.order.len(),
            |i: int| (m.order[i], m.entries[m.order[i]].0),
        )) by {
            let expect = Seq::new(m.order.len(), |i: int| (m.order[i], m.entries[m.order[i]].0));
            let tail = Seq::new(m1.order.len(), |i: int| (m1.order[i], m1.entries[m1.order[i]].0));
            assert(drain_spec(m) == seq![(k, m.entries[k].0)] + drain_spec(m1));
            assert(drain_spec(m1) == tail);
            assert forall|i: int| 0 <= i < m.order.len() implies (seq![(k, m.entries[k].0)]
                + tail)[i] == expect[i] by {
                if i > 0 {
                    assert(m1.order[i - 1] == m.order[i]);
                    assert(m1.order.contains(m1.order[i - 1]));
                    assert(m1.entries[m.order[i]] == m.entries[m.order[i]]);
                }
            }
        }
    }
}

/// Draining a well-formed store hands out every live entry exactly once
/// and nothing else: each drained pair's key is live with exactly that
/// value, no key is drained twice, and every live key is drained.
pub proof fn lemma_drain_exactly_once<V>(m: StoreModel<V>)
    requires
        wf_model(m),
    ensures
        forall|i: int, j: int| #![trigger drain_spec(m)[i], drain_spec(m)[j]]
            0 <= i < drain_spec(m).len() && 0 <= j < drain_spec(m).len() && i != j
                ==> drain_spec(m)[i].0 != drain_spec(m)[j].0,
        forall|i: int| #![trigger drain_spec(m)[i]]
            0 <= i < drain_spec(m).len() ==> m.entries.contains_key(drain_spec(m)[i].0)
                && drain_spec(m)[i].1 == m.entries[drain_spec(m)[i].0].0,
        forall|k: u64| #[trigger] m.entries.contains_key(k) ==> exists|i: int|
            0 <= i < drain_spec(m).len() && drain_spec(m)[i].0 == k,
    decreases m.order.len(),
{
    lemma_pop_spec_props(m);
    lemma_pop_spec_vals(m);
    lemma_pop_spec_len(m);
    let d = drain_spec(m);
    match pop_spec(m).1 {
        None => {
            assert(d =~= Seq::<(u64, V)>::empty());
            assert forall|k: u64| !(#[trigger] m.entries.contains_key(k)) by {}
        },
        Some((k, v)) => {
            let m1 = pop_spec(m).0;
            lemma_drain_exactly_once(m1);
            let d1 = drain_spec(m1);
            assert(d == seq![(k, v)] + d1);
            assert(vals_of(m1.entries) == vals_of(m.entries).remove(k));
            assert forall|j: u64| #[trigger] m1.entries.contains_key(j) <==> (j != k
                && m.entries.contains_key(j)) by {
                assert(m1.entries.contains_key(j) <==> vals_of(m1.entries).contains_key(j));
                assert(m.entries.contains_key(j) <==> vals_of(m.entries).contains_key(j));
            }
            assert forall|j: u64| #[trigger] m1.entries.contains_key(j)
                implies m1.entries[j].0 == m.entries[j].0 by {
                assert(vals_of(m1.entries)[j] == m1.entries[j].0);
                assert(vals_of(m.entries)[j] == m.entries[j].0);
                assert(vals_of(m.entries).remove(k)[j] == vals_of(m.entries)[j]);
            }
            assert(d[0] == (k, v));
            assert(m.entries.contains_key(k) && v == m.entries[k].0);
            assert forall|i: int| 0 <= i < d.len() implies m.entries.contains_key(
                #[trigger] d[i].0,
            ) && d[i].1 == m.entries[d[i].0].0 by {
                if i > 0 {
                    assert(d[i] == d1[i - 1]);
                    assert(m1.entries.contains_key(d1[i - 1].0));
                }
            }
            assert forall|i: int, j: int| #![trigger d[i], d[j]]
                0 <= i < d.len() && 0 <= j < d.len() && i != j implies d[i].0 != d[j].0 by {
                if i > 0 && j > 0 {
                    assert(d[i] == d1[i - 1]);
                    assert(d[j] == d1[j - 1]);
                } else if i == 0 && j > 0 {
                    assert(d[j] == d1[j - 1]);
                    assert(m1.entries.contains_key(d1[j - 1].0));
                } else if j == 0 && i > 0 {
                    assert(d[i] == d1[i - 1]);
                    assert(m1.entries.contains_key(d1[i - 1].0));
                }
            }
            assert forall|k2: u64| #[trigger] m.entries.contains_key(k2) implies exists|i: int|
                0 <= i < d.len() && d[i].0 == k2 by {
                if k2 == k {
                    assert(d[0].0 == k2);
                } else {
                    assert(m1.entries.contains_key(k2));
                    let i1 = choose|i1: int| 0 <= i1 < d1.len() && d1[i1].0 == k2;
                    assert(d[i1 + 1] == d1[i1]);
                    assert(d[i1 + 1].0 == k2);
                }
            }
        },
    }
}

/// A keyed store with FIFO eviction order and O(1)-amortized re-insertion.
pub struct OrdHash<V> {
    map: HashMap<u64, ValueHolder<V>>,
    order: VecDeque<u64>,
}

impl<V> OrdHash<V> {
    /// The order sequence, oldest reference first.
    pub closed spec fn order(&self) -> Seq<u64> {
        self.order@
    }

    /// The live entries: key to (current value, duplicate count).
    pub closed spec fn entries(&self) -> Map<u64, (V, nat)> {
        self.map@.map_values(|vh: ValueHolder<V>| (vh.value, vh.cnt as nat))
    }

    /// The whole mathematical state.
    pub open spec fn model(&self) -> StoreModel<V> {
        StoreModel { order: self.order(), entries: self.entries() }
    }

    /// The store is well formed.
    pub open spec fn wf(&self) -> bool {
        wf_model(self.model())
    }

    /// Create a new empty store.
    pub fn new() -> (r: Self)
        ensures
            r.order() == Seq::<u64>::empty(),
            r.entries() == Map::<u64, (V, nat)>::empty(),
            r.wf(),
    {
        let r = OrdHash { map: HashMap::new(), order: VecDeque::new() };
        proof {
            assert(r.entries() =~= Map::<u64, (V, nat)>::empty());
        }
        r
    }

    /// Create a new empty store with room for `cap` entries.
    pub fn with_capacity(cap: usize) -> (r: Self)
        ensures
            r.order() == Seq::<u64>::empty(),
            r.entries() == Map::<u64, (V, nat)>::empty(),
            r.wf(),
    {
        let r = OrdHash { map: HashMap::with_capacity(cap), order: VecDeque::with_capacity(cap) };
        proof {
            assert(r.entries() =~= Map::<u64, (V, nat)>::empty());
        }
        r
    }

    /// Pre-allocate room for `additional` more entries; the contents do not
    /// change.
    pub fn reserve(&mut self, additional: usize)
        ensures
            final(self).model() == old(self).model(),
    {
        self.map.reserve(additional);
        self.order.reserve(additional);
    }

    /// The number of live entries.
    pub fn len(&self) -> (r: usize)
        ensures
            r == self.entries().dom().len(),
    {
        proof {
            assert(self.entries().dom() =~= self.map@.dom());
        }
        self.map.len()
    }

    /// Append `key` to the back of the order sequence and store `value`
    /// under it.  A fresh key starts with duplicate count zero; an existing
    /// key keeps its entry slot, takes the new value (last write wins) and
    /// has its duplicate count raised by one to account for the extra order
    /// reference.
    pub fn push_back(&mut self, key: u64, value: V)
        requires
            old(self).wf(),
        ensures
            final(self).order() == old(self).order().push(key),
            final(self).entries() == (if old(self).entries().contains_key(key) {
                old(self).entries().insert(key, (value, old(self).entries()[key].1 + 1))
            } else {
                old(self).entries().insert(key, (value, 0nat))
            }),
            final(self).wf(),
    {
        let cnt: usize;
        match self.map.get(&key) {
            Some(vh) => {
                proof {
                    lemma_occurrences_le_len(self.order(), key);
                    assert(self.entries().contains_key(key));
                    assert(self.entries()[key].1 == vh.cnt as nat);
                    lemma_wf_bound(old(self).model(), key);
                    assert(occurrences(self.order(), key) >= vh.cnt as nat + 1);
                    assert(vstd::std_specs::vecdeque::spec_vec_dequeue_len(&self.order)
                        == self.order@.len());
                    assert(self.order@.len() <= usize::MAX);
                    assert(vh.cnt as nat + 1 <= usize::MAX);
                }
                cnt = vh.cnt + 1;
            },
            None => {
                cnt = 0;
            },
        }
        self.map.insert(key, ValueHolder { cnt, value });
        self.order.push_back(key);
        proof {
            let m0 = old(self).model();
            let m1 = self.model();
            assert(m1.entries =~= (if m0.entries.contains_key(key) {
                m0.entries.insert(key, (value, m0.entries[key].1 + 1))
            } else {
                m0.entries.insert(key, (value, 0nat))
            }));
            assert forall|j: u64| #[trigger] m1.entries.contains_key(j)
                implies occurrences(m1.order, j) >= m1.entries[j].1 + 1 by {
                lemma_occurrences_push(m0.order, key, j);
                if j != key {
                    assert(m0.entries.contains_key(j));
                }
            }
        }
    }

    /// Look the current value of `key` up; the order sequence is not
    /// consulted.
    pub fn get(&self, key: &u64) -> (r: Option<&V>)
        ensures
            match r {
                Some(v) => self.entries().contains_key(*key) && *v == self.entries()[*key].0,
                None => !self.entries().contains_key(*key),
            },
    {
        match self.map.get(key) {
            Some(vh) => Some(&vh.value),
            None => None,
        }
    }

    /// Take the front entry out of the eviction order and return it.
    /// Stale order references met on the way are consumed: an absent key's
    /// reference is dropped, and a positive duplicate count is lowered by
    /// one.  On a well-formed store this returns an entry exactly when a
    /// live entry exists.
    #[verifier::loop_isolation(false)]
    pub fn pop_front(&mut self) -> (r: Option<(u64, V)>)
        ensures
            final(self).model() == pop_spec(old(self).model()).0,
            r == pop_spec(old(self).model()).1,
            old(self).wf() ==> final(self).wf(),
            old(self).wf() ==> ((r is Some) <==> (exists|k: u64|
                old(self).entries().contains_key(k))),
    {
        proof {
            if old(self).wf() {
                lemma_pop_spec_props(old(self).model());
            }
        }
        loop
            invariant
                pop_spec(self.model()) == pop_spec(old(self).model()),
            decreases self.order@.len(),
        {
            let ghost m0 = self.model();
            match self.order.pop_front() {
                None => {
                    return None;
                },
                Some(k) => {
                    proof {
                        assert(self.model() =~= drop_model(m0));
                    }
                    match self.map.remove(&k) {
                        None => {
                            proof {
                                assert(!m0.entries.contains_key(k));
                                assert(self.entries() =~= m0.entries);
                                assert(self.model() =~= drop_model(m0));
                                assert(pop_spec(m0) == pop_spec(drop_model(m0)));
                            }
                        },
                        Some(vh) => {
                            if vh.cnt == 0 {
                                proof {
                                    assert(m0.entries.contains_key(k));
                                    assert(m0.entries[k] == (vh.value, 0nat));
                                    assert(self.entries() =~= m0.entries.remove(k));
                                    assert(self.model() =~= take_front_model(m0));
                                }
                                return Some((k, vh.value));
                            } else {
                                let newcnt: usize = vh.cnt - 1;
                                self.map.insert(k, ValueHolder { cnt: newcnt, value: vh.value });
                                proof {
                                    assert(m0.entries.contains_key(k));
                                    assert(m0.entries[k] == (vh.value, vh.cnt as nat));
                                    assert(self.entries() =~= m0.entries.insert(
                                        k,
                                        (vh.value, (vh.cnt - 1) as nat),
                                    ));
                                    assert(self.model() =~= dec_front_model(m0));
                                    assert(pop_spec(m0) == pop_spec(dec_front_model(m0)));
                                }
                            }
                        },
                    }
                },
            }
        }
    }

    /// Look at the entry `pop_front` would return next, without changing
    /// anything: the first key in order whose entry is live with duplicate
    /// count zero.
    #[verifier::loop_isolation(false)]
    pub fn peek_front(&self) -> (r: Option<(u64, &V)>)
        ensures
            (match r {
                Some((k, v)) => peek_spec(self.model()) == Some((k, *v)),
                None => peek_spec(self.model()) is None,
            }),
    {
        let n = self.order.len();
        let mut i: usize = 0;
        proof {
            assert(suffix_model(self.model(), 0) =~= self.model());
        }
        while i < n
            invariant
                i <= n,
                n == self.order@.len(),
                peek_spec(self.model()) == peek_spec(suffix_model(self.model(), i as int)),
            decreases n - i,
        {
            let ghost msuf = suffix_model(self.model(), i as int);
            let k = *(&self.order[i]);
            proof {
                assert(msuf.order[0] == self.order@[i as int]);
            }
            match self.map.get(&k) {
                Some(vh) => {
                    if vh.cnt == 0 {
                        proof {
                            assert(peek_spec(msuf) == Some((k, self.entries()[k].0)));
                        }
                        return Some((k, &vh.value));
                    }
                },
                None => {},
            }
            proof {
                assert(drop_model(msuf) =~= suffix_model(self.model(), i + 1 as int));
                assert(peek_spec(msuf) == peek_spec(drop_model(msuf)));
            }
            i = i + 1;
        }
        proof {
            assert(suffix_model(self.model(), i as int).order.len() == 0);
        }
        None
    }

    /// Remove `key`'s live entry, returning its value.  Stale references in
    /// the order sequence are left behind; future drains skip them because
    /// the map lookup misses.  Afterwards the key is absent.
    pub fn remove(&mut self, key: &u64) -> (r: Option<V>)
        ensures
            final(self).order() == old(self).order(),
            final(self).entries() == old(self).entries().remove(*key),
            !final(self).entries().contains_key(*key),
            r == (if old(self).entries().contains_key(*key) {
                Some(old(self).entries()[*key].0)
            } else {
                None::<V>
            }),
            old(self).wf() ==> final(self).wf(),
    {
        let r = match self.map.remove(key) {
            Some(vh) => Some(vh.value),
            None => None,
        };
        proof {
            assert(self.entries() =~= old(self).entries().remove(*key));
            if old(self).wf() {
                assert forall|j: u64| #[trigger] self.entries().contains_key(j)
                    implies occurrences(self.order(), j) >= self.entries()[j].1 + 1 by {
                    assert(j != *key);
                    assert(old(self).entries().contains_key(j));
                    assert(self.entries()[j] == old(self).entries()[j]);
                    assert(self.order() == old(self).order());
                    lemma_wf_bound(old(self).model(), j);
                    assert(occurrences(old(self).order(), j) >= old(self).entries()[j].1 + 1);
                }
            }
        }
        r
    }

    /// Whether the store holds no live entry.
    pub fn is_empty(&self) -> (r: bool)
        ensures
            r <==> self.entries().dom() == Set::<u64>::empty(),
    {
        proof {
            assert(self.entries().dom() =~= self.map@.dom());
            if self.map@.dom().len() == 0 {
                assert(self.map@.dom() =~= Set::<u64>::empty());
            }
        }
        self.map.is_empty()
    }
}

impl<V> Default for OrdHash<V> {
    /// The default store is empty.
    fn default() -> (r: Self)
        ensures
            r.order() == Seq::<u64>::empty(),
            r.entries() == Map::<u64, (V, nat)>::empty(),
            r.wf(),
    {
        Self::new()
    }
}

} // verus!
