//! Keys in the order of their arrival, each found again by a number that
//! equal keys share.

use std::collections::HashMap;
use vstd::prelude::*;
use vstd::std_specs::hash::group_hash_axioms;

verus! {

broadcast use group_hash_axioms;

/// A type whose values can serve as keys.
pub trait Key: Sized {
    /// A number that tells many keys apart: the bucket of the key.
    spec fn code_spec(&self) -> u64;

    /// Whether two keys are the same value.
    fn same(&self, other: &Self) -> (same: bool)
        ensures
            same == (*self == *other),
    ;

    /// The bucket of the key.
    fn code(&self) -> (code: u64)
        ensures
            code == self.code_spec(),
    ;
}

impl Key for i32 {
    open spec fn code_spec(&self) -> u64 {
        *self as u64
    }

    fn same(&self, other: &i32) -> (same: bool) {
        *self == *other
    }

    fn code(&self) -> (code: u64) {
        *self as u64
    }
}

impl Key for u32 {
    open spec fn code_spec(&self) -> u64 {
        *self as u64
    }

    fn same(&self, other: &u32) -> (same: bool) {
        *self == *other
    }

    fn code(&self) -> (code: u64) {
        *self as u64
    }
}

impl Key for u64 {
    open spec fn code_spec(&self) -> u64 {
        *self
    }

    fn same(&self, other: &u64) -> (same: bool) {
        *self == *other
    }

    fn code(&self) -> (code: u64) {
        *self
    }
}

impl Key for usize {
    open spec fn code_spec(&self) -> u64 {
        *self as u64
    }

    fn same(&self, other: &usize) -> (same: bool) {
        *self == *other
    }

    fn code(&self) -> (code: u64) {
        *self as u64
    }
}

/// The bucket holds the place.
pub open spec fn holds(bucket: Seq<usize>, place: int) -> bool {
    exists|t: int| 0 <= t < bucket.len() && #[trigger] bucket[t] == place
}

/// Distinct keys in the order in which they came.  A key is found by its
/// bucket, so in a time that does not grow with the number of keys as long
/// as the buckets stay small.
///
/// The view is the sequence of the keys.
pub struct IndexedKeys<TKey> {
    keys: Vec<TKey>,
    places: HashMap<u64, Vec<usize>>,
}

impl<TKey> View for IndexedKeys<TKey> {
    type V = Seq<TKey>;

    closed spec fn view(&self) -> Seq<TKey> {
        self.keys@
    }
}

impl<TKey: Key> IndexedKeys<TKey> {
    /// Every key stands in its bucket, and the buckets hold places of keys.
    pub closed spec fn indexed(&self) -> bool {
        &&& forall|i: int|
            0 <= i < self.keys@.len() ==> self.places@.contains_key(
                (#[trigger] self.keys@[i]).code_spec(),
            ) && holds(self.places@[self.keys@[i].code_spec()]@, i)
        &&& forall|code: u64, j: int|
            self.places@.contains_key(code) && 0 <= j < self.places@[code]@.len() ==> (
            #[trigger] self.places@[code]@[j]) < self.keys@.len()
    }

    /// The keys are valid: none stands twice, and each is in its bucket.
    pub open spec fn wf(&self) -> bool {
        &&& self@.no_duplicates()
        &&& self.indexed()
    }

    /// No keys.
    pub fn new() -> (keys: Self)
        ensures
            keys.wf(),
            keys@.len() == 0,
    {
        IndexedKeys { keys: Vec::new(), places: HashMap::new() }
    }

    /// The number of keys.
    pub fn len(&self) -> (n: usize)
        ensures
            n == self@.len(),
    {
        self.keys.len()
    }

    /// The key in a place.
    pub fn get(&self, place: usize) -> (key: &TKey)
        requires
            place < self@.len(),
        ensures
            *key == self@[place as int],
    {
        &self.keys[place]
    }

    /// The keys alone, in their order.
    pub fn into_keys(self) -> (keys: Vec<TKey>)
        ensures
            keys@ == self@,
    {
        self.keys
    }

    /// The place of a key, if the key is among the keys.
    pub fn find(&self, key: &TKey) -> (place: Option<usize>)
        requires
            self.wf(),
        ensures
            place is Some <==> self@.contains(*key),
            place matches Some(i) ==> i < self@.len() && self@[i as int] == *key && i
                == self@.index_of(*key),
    {
        let code = key.code();
        match self.places.get(&code) {
            Some(bucket) => {
                let mut j: usize = 0;
                while j < bucket.len()
                    invariant
                        j <= bucket.len(),
                        self.wf(),
                        self.places@.contains_key(code),
                        *bucket == self.places@[code],
                        forall|t: int| 0 <= t < j ==> self@[(#[trigger] bucket@[t]) as int] != *key,
                    decreases bucket.len() - j,
                {
                    let i = bucket[j];
                    if self.keys[i].same(key) {
                        assert(self@.contains(*key));
                        let ghost found = self@.index_of(*key);
                        assert(0 <= found < self@.len() && self@[found] == *key);
                        return Some(i);
                    }
                    j += 1;
                }
                proof {
                    if self@.contains(*key) {
                        let i = self@.index_of(*key);
                        assert(0 <= i < self@.len() && self@[i] == *key);
                        assert(self.keys@[i].code_spec() == code);
                        assert(holds(bucket@, i));
                        let t = choose|t: int| 0 <= t < bucket@.len() && #[trigger] bucket@[t] == i;
                        assert(self@[bucket@[t] as int] != *key);
                    }
                }
                None
            },
            None => {
                proof {
                    assert(!self.places@.contains_key(code));
                    if self@.contains(*key) {
                        let i = self@.index_of(*key);
                        assert(0 <= i < self@.len() && self@[i] == *key);
                        assert(self.keys@[i].code_spec() == code);
                        assert(self.places@.contains_key(code));
                    }
                }
                None
            },
        }
    }

    /// Puts a key that is not among the keys behind them.
    pub fn push(&mut self, key: TKey)
        requires
            old(self).wf(),
            !old(self)@.contains(key),
        ensures
            final(self).wf(),
            final(self)@ == old(self)@.push(key),
    {
        let code = key.code();
        let place = self.keys.len();
        let ghost before = self.places@;
        let mut bucket = match self.places.remove(&code) {
            Some(bucket) => bucket,
            None => Vec::new(),
        };
        let ghost was = bucket@;
        bucket.push(place);
        self.places.insert(code, bucket);
        self.keys.push(key);
        proof {
            let keys = self.keys@;
            let places = self.places@;
            assert(places[code]@ == was.push(place));
            assert forall|i: int| 0 <= i < keys.len() implies places.contains_key(
                (#[trigger] keys[i]).code_spec(),
            ) && holds(places[keys[i].code_spec()]@, i) by {
                if i < place {
                    assert(keys[i] == old(self).keys@[i]);
                    let own = keys[i].code_spec();
                    assert(before.contains_key(own) && holds(before[own]@, i));
                    if own == code {
                        let t = choose|t: int| 0 <= t < was.len() && #[trigger] was[t] == i;
                        assert(was.push(place)[t] == i);
                    }
                } else {
                    assert(was.push(place)[was.len() as int] == place);
                }
            }
            assert forall|other: u64, j: int|
                places.contains_key(other) && 0 <= j < places[other]@.len() implies (
            #[trigger] places[other]@[j]) < keys.len() by {
                if other == code {
                    if j < was.len() {
                        assert(before.contains_key(code));
                        assert(before[code]@[j] < old(self).keys@.len());
                    }
                } else {
                    assert(before.contains_key(other));
                    assert(before[other]@[j] < old(self).keys@.len());
                }
            }
            assert forall|a: int, b: int| 0 <= a < keys.len() && 0 <= b < keys.len() && a
                != b implies keys[a] != keys[b] by {
                if a < place && b < place {
                    assert(old(self)@[a] != old(self)@[b]);
                } else if a < place {
                    assert(old(self)@.contains(old(self)@[a]));
                } else {
                    assert(old(self)@.contains(old(self)@[b]));
                }
            }
        }
    }
}

} // verus!
