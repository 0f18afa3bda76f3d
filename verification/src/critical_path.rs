//! Predecessor maps and the critical path that one holds.
//!
//! A predecessor map gives each node the cumulative duration of the longest
//! chain that ends in it, and the node before it on that chain.  The critical
//! path is the chain that ends in a node of the greatest cumulative duration.
//!
//! The map keeps its entries in the order in which their keys came, and
//! finds an entry by the bucket of its key.

use crate::duration::Duration;
use crate::indexed_keys::{IndexedKeys, Key};
use vstd::prelude::*;

verus! {

/// What a predecessor map holds of one node.
pub struct CriticalPathNode<TKey, TValue> {
    /// The cumulative duration of the longest chain that ends in this node.
    pub duration: Duration,
    /// What the node carries.
    pub value: TValue,
    /// The node before this one on that chain.
    pub prev: Option<TKey>,
}

/// The entries of a predecessor map, in the order in which their keys came.
pub type Entries<TKey, TValue> = Seq<(TKey, CriticalPathNode<TKey, TValue>)>;

/// No key stands in two entries.
pub open spec fn distinct_keys<TKey, TValue>(s: Entries<TKey, TValue>) -> bool {
    forall|i: int, j: int| 0 <= i < j < s.len() ==> (#[trigger] s[i]).0 != (#[trigger] s[j]).0
}

/// Some entry has the key.
pub open spec fn has_key<TKey, TValue>(s: Entries<TKey, TValue>, key: TKey) -> bool {
    exists|i: int| 0 <= i < s.len() && (#[trigger] s[i]).0 == key
}

/// The place of the entry that has the key, where there is one.
pub open spec fn index_of<TKey, TValue>(s: Entries<TKey, TValue>, key: TKey) -> int {
    choose|i: int| 0 <= i < s.len() && (#[trigger] s[i]).0 == key
}

/// The entries after `node` was stored under `key`: in the place of the
/// entry that had the key, or else behind all of them.
pub open spec fn stored<TKey, TValue>(
    s: Entries<TKey, TValue>,
    key: TKey,
    node: CriticalPathNode<TKey, TValue>,
) -> Entries<TKey, TValue> {
    if has_key(s, key) {
        s.update(index_of(s, key), (key, node))
    } else {
        s.push((key, node))
    }
}

/// The place of the terminal entry: the first among those of the greatest
/// cumulative duration.  Zero for no entries.
pub open spec fn terminal<TKey, TValue>(s: Entries<TKey, TValue>) -> int
    decreases s.len(),
{
    if s.len() <= 1 {
        0
    } else {
        let t = terminal(s.drop_last());
        if s.last().1.duration@ > s[t].1.duration@ {
            s.len() - 1
        } else {
            t
        }
    }
}

/// The places met from entry `i` along the `prev` keys, `i` first, for at most
/// `limit` entries.  The chain ends at an entry without a `prev`, or whose
/// `prev` no entry has.
pub open spec fn chain<TKey, TValue>(s: Entries<TKey, TValue>, i: int, limit: nat) -> Seq<int>
    decreases limit,
{
    if limit == 0 || !(0 <= i < s.len()) {
        Seq::empty()
    } else {
        match s[i].1.prev {
            Some(p) if has_key(s, p) => seq![i] + chain(s, index_of(s, p), (limit - 1) as nat),
            _ => seq![i],
        }
    }
}

/// The places of the entries on the critical path, from its root to the
/// terminal entry.  A chain is followed for at most as many entries as there
/// are, which is all of it unless the `prev` keys run in a circle.
pub open spec fn critical_indices<TKey, TValue>(s: Entries<TKey, TValue>) -> Seq<int> {
    chain(s, terminal(s), s.len()).reverse()
}

/// What entry `i` of a path adds to the one before it: its cumulative
/// duration less that of the entry before, and no less than zero.
pub open spec fn step_duration<TKey, TValue>(
    s: Entries<TKey, TValue>,
    path: Seq<int>,
    i: int,
) -> nat {
    let own = s[path[i]].1.duration@;
    if i == 0 {
        own
    } else {
        let before = s[path[i - 1]].1.duration@;
        if own >= before {
            (own - before) as nat
        } else {
            0
        }
    }
}

/// The terminal entry has the greatest cumulative duration, and is the first
/// that has it.
pub proof fn lemma_terminal_first_longest<TKey, TValue>(s: Entries<TKey, TValue>)
    requires
        s.len() > 0,
    ensures
        0 <= terminal(s) < s.len(),
        forall|j: int| 0 <= j < s.len() ==> (#[trigger] s[j]).1.duration@ <= s[terminal(s)].1.duration@,
        forall|j: int| 0 <= j < terminal(s) ==> (#[trigger] s[j]).1.duration@ < s[terminal(s)].1.duration@,
    decreases s.len(),
{
    if s.len() > 1 {
        let r = s.drop_last();
        lemma_terminal_first_longest(r);
        assert forall|j: int| 0 <= j < s.len() implies (#[trigger] s[j]).1.duration@ <= s[terminal(
            s,
        )].1.duration@ by {
            if j < r.len() {
                assert(r[j] == s[j]);
            }
        }
        assert forall|j: int| 0 <= j < terminal(s) implies (#[trigger] s[j]).1.duration@ < s[terminal(
            s,
        )].1.duration@ by {
            assert(r[j] == s[j]);
        }
    }
}

/// A chain is never longer than its limit, holds only places of entries, and
/// begins with the entry it was followed from.
pub proof fn lemma_chain_shape<TKey, TValue>(s: Entries<TKey, TValue>, i: int, limit: nat)
    ensures
        chain(s, i, limit).len() <= limit,
        forall|k: int| 0 <= k < chain(s, i, limit).len() ==> 0 <= #[trigger] chain(s, i, limit)[k] < s.len(),
        limit > 0 && 0 <= i < s.len() ==> chain(s, i, limit).len() > 0 && chain(s, i, limit)[0] == i,
    decreases limit,
{
    if limit == 0 || !(0 <= i < s.len()) {
    } else {
        match s[i].1.prev {
            Some(p) => {
                if has_key(s, p) {
                    lemma_chain_shape(s, index_of(s, p), (limit - 1) as nat);
                }
            },
            None => {},
        }
    }
}

/// The critical path holds places of entries, at most as many as there are
/// entries, and ends in the terminal entry.
pub proof fn lemma_critical_indices<TKey, TValue>(s: Entries<TKey, TValue>)
    ensures
        critical_indices(s).len() <= s.len(),
        s.len() > 0 ==> critical_indices(s).len() > 0 && critical_indices(s).last() == terminal(s),
        forall|k: int|
            0 <= k < critical_indices(s).len() ==> 0 <= #[trigger] critical_indices(s)[k] < s.len(),
{
    lemma_chain_shape(s, terminal(s), s.len());
    if s.len() > 0 {
        lemma_terminal_first_longest(s);
    }
    let links = chain(s, terminal(s), s.len());
    assert forall|k: int| 0 <= k < critical_indices(s).len() implies 0 <= #[trigger] critical_indices(
        s,
    )[k] < s.len() by {
        assert(critical_indices(s)[k] == links[links.len() - 1 - k]);
    }
}

/// A map from keys to critical-path nodes that remembers the order in which
/// its keys came.
///
/// The view is the sequence of entries in that order.
pub struct CriticalPathMap<TKey, TValue> {
    keys: IndexedKeys<TKey>,
    nodes: Vec<CriticalPathNode<TKey, TValue>>,
}

impl<TKey, TValue> View for CriticalPathMap<TKey, TValue> {
    type V = Entries<TKey, TValue>;

    closed spec fn view(&self) -> Entries<TKey, TValue> {
        Seq::new(self.keys@.len(), |i: int| (self.keys@[i], self.nodes@[i]))
    }
}

impl<TKey: Key, TValue> CriticalPathMap<TKey, TValue> {
    /// Each key has its node, and the keys can be found.
    pub closed spec fn paired(&self) -> bool {
        &&& self.keys.wf()
        &&& self.nodes@.len() == self.keys@.len()
    }

    /// The map is valid: no key stands in two entries.
    pub open spec fn wf(&self) -> bool {
        &&& distinct_keys(self@)
        &&& self.paired()
    }

    /// A map without entries.
    pub fn new() -> (map: Self)
        ensures
            map.wf(),
            map@.len() == 0,
    {
        CriticalPathMap { keys: IndexedKeys::new(), nodes: Vec::new() }
    }

    /// The number of entries.
    pub fn len(&self) -> (n: usize)
        ensures
            n == self@.len(),
    {
        self.keys.len()
    }

    /// The key of the entry in a place.
    fn key_at(&self, place: usize) -> (key: &TKey)
        requires
            self.wf(),
            place < self@.len(),
        ensures
            *key == self@[place as int].0,
    {
        self.keys.get(place)
    }

    /// The node of the entry in a place.
    fn node_at(&self, place: usize) -> (node: &CriticalPathNode<TKey, TValue>)
        requires
            self.wf(),
            place < self@.len(),
        ensures
            *node == self@[place as int].1,
    {
        &self.nodes[place]
    }

    /// The place of the entry that has the key.
    pub fn position(&self, key: &TKey) -> (place: Option<usize>)
        requires
            self.wf(),
        ensures
            place is Some <==> has_key(self@, *key),
            place matches Some(i) ==> i == index_of(self@, *key) && i < self@.len() && self@[i as int].0
                == *key,
    {
        let place = self.keys.find(key);
        proof {
            if has_key(self@, *key) {
                let i = index_of(self@, *key);
                assert(0 <= i < self@.len() && self@[i].0 == *key);
                assert(self.keys@[i] == *key);
                match place {
                    Some(found) => {
                        if found != i {
                            if found < i {
                                assert(self@[found as int].0 != self@[i].0);
                            } else {
                                assert(self@[i].0 != self@[found as int].0);
                            }
                        }
                    },
                    None => {},
                }
            }
            match place {
                Some(found) => {
                    assert(self@[found as int].0 == *key);
                },
                None => {},
            }
        }
        place
    }

    /// The node stored under the key.
    pub fn get(&self, key: &TKey) -> (node: Option<&CriticalPathNode<TKey, TValue>>)
        requires
            self.wf(),
        ensures
            node is Some <==> has_key(self@, *key),
            node matches Some(n) ==> *n == self@[index_of(self@, *key)].1,
    {
        match self.position(key) {
            Some(i) => Some(&self.nodes[i]),
            None => None,
        }
    }

    /// Stores `node` under `key`, in the place of the node that was stored
    /// under it before, if one was.
    pub fn insert(&mut self, key: TKey, node: CriticalPathNode<TKey, TValue>)
        requires
            old(self).wf(),
        ensures
            final(self).wf(),
            final(self)@ == stored(old(self)@, key, node),
    {
        match self.position(&key) {
            Some(i) => {
                self.nodes.set(i, node);
                assert(self@ == stored(old(self)@, key, node));
                assert forall|a: int, b: int| 0 <= a < b < self@.len() implies (#[trigger] self@[a]).0
                    != (#[trigger] self@[b]).0 by {
                    assert(old(self)@[a].0 != old(self)@[b].0);
                }
            },
            None => {
                assert(!self.keys@.contains(key)) by {
                    if self.keys@.contains(key) {
                        let i = self.keys@.index_of(key);
                        assert(0 <= i < self.keys@.len() && self.keys@[i] == key);
                        assert(old(self)@[i].0 == key);
                    }
                }
                self.keys.push(key);
                self.nodes.push(node);
                assert(self@ == stored(old(self)@, key, node));
                assert forall|a: int, b: int| 0 <= a < b < self@.len() implies (#[trigger] self@[a]).0
                    != (#[trigger] self@[b]).0 by {
                    if b < old(self)@.len() {
                        assert(old(self)@[a].0 != old(self)@[b].0);
                    } else {
                        assert(old(self)@[a].0 != key);
                    }
                }
            },
        }
    }
}

/// The critical path of a predecessor map, from its root to its terminal
/// node: for each node on it the key, the value, and what the node adds to the
/// cumulative duration of the node before it.
///
/// The terminal node is the first of those with the greatest cumulative
/// duration; the others are found along the `prev` keys.  Without entries the
/// path is empty.
pub fn extract_critical_path<'a, TKey: Key, TValue>(
    predecessors: &'a CriticalPathMap<TKey, TValue>,
) -> (path: Vec<(&'a TKey, &'a TValue, Duration)>)
    requires
        predecessors.wf(),
    ensures
        path@.len() == critical_indices(predecessors@).len(),
        forall|i: int|
            0 <= i < path@.len() ==> *(#[trigger] path@[i]).0 == predecessors@[critical_indices(
                predecessors@,
            )[i]].0,
        forall|i: int|
            0 <= i < path@.len() ==> *(#[trigger] path@[i]).1 == predecessors@[critical_indices(
                predecessors@,
            )[i]].1.value,
        forall|i: int|
            0 <= i < path@.len() ==> (#[trigger] path@[i]).2@ == step_duration(
                predecessors@,
                critical_indices(predecessors@),
                i,
            ),
{
    let ghost s = predecessors@;
    let n = predecessors.len();
    if n == 0 {
        return Vec::new();
    }
    let t = terminal_place(predecessors);
    let rev = follow_chain(predecessors, t);
    let ghost links = chain(s, t as int, n as nat);
    proof {
        lemma_chain_shape(s, t as int, n as nat);
    }
    let m = rev.len();
    assert forall|k: int| 0 <= k < m implies (#[trigger] rev@[k]) == links[k] && rev@[k] < s.len() by {
        assert(0 <= links[k] < s.len());
    }
    let mut path: Vec<(&'a TKey, &'a TValue, Duration)> = Vec::new();
    let mut i: usize = 0;
    while i < m
        invariant
            i <= m,
            m == rev@.len(),
            m == links.len(),
            s == predecessors@,
            predecessors.wf(),
            links.reverse() == critical_indices(s),
            forall|k: int| 0 <= k < m ==> (#[trigger] rev@[k]) == links[k],
            forall|k: int| 0 <= k < m ==> (#[trigger] rev@[k]) < s.len(),
            path@.len() == i,
            forall|k: int| 0 <= k < i ==> *(#[trigger] path@[k]).0 == s[links.reverse()[k]].0,
            forall|k: int| 0 <= k < i ==> *(#[trigger] path@[k]).1 == s[links.reverse()[k]].1.value,
            forall|k: int|
                0 <= k < i ==> (#[trigger] path@[k]).2@ == step_duration(s, links.reverse(), k),
        decreases m - i,
    {
        let place = rev[m - 1 - i];
        let node = predecessors.node_at(place);
        let own = if i == 0 {
            node.duration
        } else {
            let before = rev[m - i];
            node.duration.saturating_sub(predecessors.node_at(before).duration)
        };
        proof {
            let places = links.reverse();
            assert(places[i as int] == links[m - 1 - i]);
            if i > 0 {
                assert(places[i - 1] == links[m - i]);
            }
        }
        path.push((predecessors.key_at(place), &node.value, own));
        i += 1;
    }
    path
}

/// The place of the terminal entry of a map that has entries.
fn terminal_place<TKey: Key, TValue>(predecessors: &CriticalPathMap<TKey, TValue>) -> (t:
    usize)
    requires
        predecessors.wf(),
        predecessors@.len() > 0,
    ensures
        t == terminal(predecessors@),
        t < predecessors@.len(),
{
    let ghost s = predecessors@;
    let n = predecessors.len();
    let mut t: usize = 0;
    let mut i: usize = 1;
    assert(terminal(s.take(1)) == 0);
    while i < n
        invariant
            1 <= i <= n,
            n == s.len(),
            s == predecessors@,
            predecessors.wf(),
            t < i,
            t == terminal(s.take(i as int)),
        decreases n - i,
    {
        assert(s.take(i + 1).drop_last() == s.take(i as int));
        if predecessors.node_at(i).duration.as_nanos() > predecessors.node_at(t).duration.as_nanos() {
            t = i;
        }
        i += 1;
    }
    assert(s.take(n as int) == s);
    t
}

/// The places met from entry `start` along the `prev` keys, `start` first.
fn follow_chain<TKey: Key, TValue>(
    predecessors: &CriticalPathMap<TKey, TValue>,
    start: usize,
) -> (places: Vec<usize>)
    requires
        predecessors.wf(),
        start < predecessors@.len(),
    ensures
        places@.len() == chain(predecessors@, start as int, predecessors@.len()).len(),
        forall|k: int|
            0 <= k < places@.len() ==> (#[trigger] places@[k]) == chain(
                predecessors@,
                start as int,
                predecessors@.len(),
            )[k],
{
    let ghost s = predecessors@;
    let n = predecessors.len();
    let ghost whole = chain(s, start as int, n as nat);
    let mut places: Vec<usize> = Vec::new();
    let mut cur: usize = start;
    let mut more = true;
    let mut limit: usize = n;
    while more && limit > 0
        invariant
            predecessors.wf(),
            s == predecessors@,
            n == s.len(),
            cur < n,
            limit <= n,
            whole == places@.map_values(|p: usize| p as int) + (if more {
                chain(s, cur as int, limit as nat)
            } else {
                Seq::empty()
            }),
        decreases limit,
    {
        let ghost before = places@.map_values(|p: usize| p as int);
        let ghost rest = chain(s, cur as int, limit as nat);
        places.push(cur);
        limit -= 1;
        let ghost here = cur;
        match &predecessors.node_at(cur).prev {
            Some(p) => {
                match predecessors.position(p) {
                    Some(j) => {
                        cur = j;
                    },
                    None => {
                        more = false;
                    },
                }
            },
            None => {
                more = false;
            },
        }
        proof {
            let after = places@.map_values(|p: usize| p as int);
            assert(after == before + seq![here as int]);
            if more {
                assert(rest == seq![here as int] + chain(s, cur as int, limit as nat));
                assert(whole == after + chain(s, cur as int, limit as nat));
            } else {
                assert(rest == seq![here as int]);
                assert(whole == after + Seq::<int>::empty());
            }
        }
    }
    proof {
        let after = places@.map_values(|p: usize| p as int);
        assert(whole == after + Seq::<int>::empty());
        assert(whole == after);
    }
    places
}

} // verus!
