//! A map from byte strings to values. Entries are kept in insertion order in
//! two vectors; a `HashMap` from a hash of the key to the indices of the
//! entries with that hash finds them again.
use vstd::prelude::*;
use std::collections::HashMap;
use vstd::slice::slice_to_vec;

verus! {

broadcast use vstd::std_specs::hash::group_hash_axioms;

/// FNV-1a over bytes.
pub open spec fn fnv_step(h: u64, byte: u8) -> u64 {
    (((h ^ (byte as u64)) as nat * 0x100000001b3nat) % 0x10000000000000000nat) as u64
}

pub open spec fn spec_hash(s: Seq<u8>) -> u64
    decreases s.len(),
{
    if s.len() == 0 {
        0xcbf29ce484222325u64
    } else {
        fnv_step(spec_hash(s.drop_last()), s.last())
    }
}

pub fn hash_bytes(s: &[u8]) -> (h: u64)
    ensures
        h == spec_hash(s@),
{
    let mut h: u64 = 0xcbf29ce484222325u64;
    let mut i: usize = 0;
    while i < s.len()
        invariant
            i <= s@.len(),
            h == spec_hash(s@.take(i as int)),
        decreases s@.len() - i,
    {
        proof {
            assert(s@.take(i + 1).drop_last() =~= s@.take(i as int));
        }
        h = (h ^ (s[i] as u64)).wrapping_mul(0x100000001b3u64);
        i += 1;
    }
    proof {
        assert(s@.take(s@.len() as int) =~= s@);
    }
    h
}

/// Byte-for-byte equality.
pub fn bytes_eq(a: &[u8], b: &[u8]) -> (r: bool)
    ensures
        r == (a@ == b@),
{
    if a.len() != b.len() {
        return false;
    }
    let mut i: usize = 0;
    while i < a.len()
        invariant
            a@.len() == b@.len(),
            i <= a@.len(),
            forall|j: int| 0 <= j < i ==> a@[j] == b@[j],
        decreases a@.len() - i,
    {
        if a[i] != b[i] {
            return false;
        }
        i += 1;
    }
    proof {
        assert(a@ =~= b@);
    }
    true
}

/// A map from byte strings to values.
/// The total length of the keys of `e`.
pub open spec fn key_bytes<V>(e: Seq<(Seq<u8>, V)>) -> nat
    decreases e.len(),
{
    if e.len() == 0 {
        0
    } else {
        key_bytes(e.drop_last()) + e.last().0.len()
    }
}

/// `Vec::capacity`: how many elements the vector can hold without
/// reallocating, which std documents as never less than its length.
#[verifier::external_body]
pub(crate) fn vec_capacity<T>(v: &Vec<T>) -> (r: usize)
    ensures
        r >= v@.len(),
{
    v.capacity()
}

pub struct ByteMap<V> {
    keys: Vec<Vec<u8>>,
    values: Vec<V>,
    index: HashMap<u64, Vec<usize>>,
}

impl<V> ByteMap<V> {
    /// Whether `k` is a key.
    pub closed spec fn has(&self, k: Seq<u8>) -> bool {
        exists|i: int| 0 <= i < self.keys@.len() && #[trigger] self.keys@[i]@ == k
    }

    /// The index of the entry of key `k`.
    pub closed spec fn slot(&self, k: Seq<u8>) -> int {
        choose|i: int| 0 <= i < self.keys@.len() && #[trigger] self.keys@[i]@ == k
    }

    pub closed spec fn map_view(&self) -> Map<Seq<u8>, V> {
        Map::new(|k: Seq<u8>| self.has(k), |k: Seq<u8>| self.values@[self.slot(k)])
    }

    /// The entries in insertion order.
    pub closed spec fn entries(&self) -> Seq<(Seq<u8>, V)> {
        Seq::new(self.keys@.len(), |i: int| (self.keys@[i]@, self.values@[i]))
    }

    pub closed spec fn wf(&self) -> bool {
        &&& self.keys@.len() == self.values@.len()
        &&& forall|i: int, j: int|
            0 <= i < self.keys@.len() && 0 <= j < self.keys@.len() && i != j ==> #[trigger] self.keys@[i]@
                != #[trigger] self.keys@[j]@
        &&& forall|i: int|
            #![trigger self.keys@[i]]
            0 <= i < self.keys@.len() ==> self.index@.contains_key(spec_hash(self.keys@[i]@))
                && self.index@[spec_hash(self.keys@[i]@)]@.contains(i as usize)
        &&& forall|h: u64, x: int|
            self.index@.contains_key(h) && 0 <= x < self.index@[h]@.len() ==> #[trigger] self.index@[h]@[x]
                < self.keys@.len()
    }

    pub fn new() -> (m: Self)
        ensures
            m.wf(),
            m.map_view() == Map::<Seq<u8>, V>::empty(),
            m.entries().len() == 0,
    {
        let m = ByteMap { keys: Vec::new(), values: Vec::new(), index: HashMap::new() };
        assert(m.map_view() =~= Map::<Seq<u8>, V>::empty());
        m
    }

    pub fn len(&self) -> (n: usize)
        requires
            self.wf(),
        ensures
            n == self.map_view().dom().len(),
            n == self.entries().len(),
    {
        proof {
            self.lemma_dom_len();
        }
        self.keys.len()
    }

    proof fn lemma_dom_len(&self)
        requires
            self.wf(),
        ensures
            self.map_view().dom().finite(),
            self.map_view().dom().len() == self.keys@.len(),
        decreases self.keys@.len(),
    {
        let ks = self.keys@.map_values(|k: Vec<u8>| k@);
        assert forall|i: int, j: int| 0 <= i < j < ks.len() implies ks[i] != ks[j] by {
            assert(self.keys@[i]@ != self.keys@[j]@);
        }
        assert(ks.no_duplicates());
        ks.unique_seq_to_set();
        assert(self.map_view().dom() =~= ks.to_set()) by {
            assert forall|k: Seq<u8>| self.map_view().dom().contains(k) implies ks.to_set().contains(k) by {
                let i = choose|i: int| 0 <= i < self.keys@.len() && #[trigger] self.keys@[i]@ == k;
                assert(ks[i] == k);
            }
            assert forall|k: Seq<u8>| ks.to_set().contains(k) implies self.map_view().dom().contains(k) by {
                let i = choose|i: int| 0 <= i < ks.len() && ks[i] == k;
                assert(self.keys@[i]@ == k);
            }
        }
    }

    /// The index of the entry whose key is `k`.
    fn find(&self, k: &[u8]) -> (r: Option<usize>)
        requires
            self.wf(),
        ensures
            r matches Some(i) ==> i < self.keys@.len() && self.keys@[i as int]@ == k@,
            r is None ==> !self.has(k@),
    {
        let n = self.keys.len();
        let h = hash_bytes(k);
        match self.index.get(&h) {
            None => {
                assert forall|i: int| 0 <= i < self.keys@.len() implies #[trigger] self.keys@[i]@ != k@ by {
                    if self.keys@[i]@ == k@ {
                        assert(self.index@.contains_key(spec_hash(self.keys@[i]@)));
                    }
                }
                None
            },
            Some(bucket) => {
                let mut j: usize = 0;
                while j < bucket.len()
                    invariant
                        self.wf(),
                        self.index@.contains_key(h),
                        *bucket == self.index@[h],
                        h == spec_hash(k@),
                        n == self.keys@.len(),
                        j <= bucket@.len(),
                        forall|x: int| 0 <= x < j ==> self.keys@[bucket@[x] as int]@ != k@,
                    decreases bucket@.len() - j,
                {
                    let e = bucket[j];
                    assert(self.index@[h]@[j as int] < self.keys@.len());
                    if bytes_eq(self.keys[e].as_slice(), k) {
                        return Some(e);
                    }
                    j += 1;
                }
                assert forall|i: int| 0 <= i < self.keys@.len() implies #[trigger] self.keys@[i]@ != k@ by {
                    if self.keys@[i]@ == k@ {
                        assert(spec_hash(self.keys@[i]@) == h);
                        assert(self.index@[h]@.contains(i as usize));
                        assert(bucket@ == self.index@[h]@);
                        let x = choose|x: int| 0 <= x < self.index@[h]@.len() && self.index@[h]@[x] == i as usize;
                        assert(bucket@[x] as int == i);
                        assert(self.keys@[bucket@[x] as int]@ != k@);
                    }
                }
                None
            },
        }
    }

    /// The value of key `k`.
    pub fn get(&self, k: &[u8]) -> (r: Option<&V>)
        requires
            self.wf(),
        ensures
            r matches Some(v) ==> self.map_view().contains_key(k@) && *v == self.map_view()[k@],
            r is None ==> !self.map_view().contains_key(k@),
    {
        match self.find(k) {
            Some(i) => {
                proof {
                    self.lemma_slot(i as int);
                }
                Some(&self.values[i])
            },
            None => None,
        }
    }

    proof fn lemma_slot(&self, i: int)
        requires
            self.wf(),
            0 <= i < self.keys@.len(),
        ensures
            self.has(self.keys@[i]@),
            self.slot(self.keys@[i]@) == i,
    {
        let k = self.keys@[i]@;
        assert(self.has(k));
        let j = self.slot(k);
        assert(self.keys@[j]@ == k);
    }

    /// Whether `k` is a key.
    pub fn contains_key(&self, k: &[u8]) -> (r: bool)
        requires
            self.wf(),
        ensures
            r == self.map_view().contains_key(k@),
    {
        self.find(k).is_some()
    }

    /// Sets the value of key `k`, adding the key when it is new.
    pub fn insert(&mut self, k: &[u8], v: V)
        requires
            old(self).wf(),
        ensures
            final(self).wf(),
            final(self).map_view() == old(self).map_view().insert(k@, v),
            old(self).map_view().contains_key(k@) ==> final(self).entries() == old(self).entries().update(
                old(self).slot(k@),
                (k@, v),
            ),
            !old(self).map_view().contains_key(k@) ==> final(self).entries() == old(self).entries().push(
                (k@, v),
            ),
    {
        match self.find(k) {
            Some(i) => {
                proof {
                    self.lemma_slot(i as int);
                }
                let ghost old_self = *self;
                self.values.set(i, v);
                proof {
                    assert forall|j: int| 0 <= j < self.keys@.len() && j != i implies self.keys@[j]@
                        != k@ by {}
                    assert(self.map_view() =~= old_self.map_view().insert(k@, v)) by {
                        assert forall|key: Seq<u8>| #[trigger] self.has(key) implies self.values@[self.slot(key)]
                            == old_self.map_view().insert(k@, v)[key] by {
                            let j = self.slot(key);
                            old_self.lemma_slot(j);
                        }
                    }
                    assert(self.entries() =~= old_self.entries().update(i as int, (k@, v)));
                }
            },
            None => {
                let ghost old_self = *self;
                let h = hash_bytes(k);
                let n = self.keys.len();
                let mut bucket = match self.index.remove(&h) {
                    Some(b) => b,
                    None => Vec::new(),
                };
                bucket.push(n);
                self.index.insert(h, bucket);
                self.keys.push(slice_to_vec(k));
                self.values.push(v);
                proof {
                    assert(self.keys@[n as int]@ == k@);
                    assert forall|i: int|
                        #![trigger self.keys@[i]]
                        0 <= i < self.keys@.len() implies self.index@.contains_key(
                            spec_hash(self.keys@[i]@),
                        ) && self.index@[spec_hash(self.keys@[i]@)]@.contains(i as usize) by {
                        if i < n {
                            assert(old_self.keys@[i] == self.keys@[i]);
                            let hi = spec_hash(self.keys@[i]@);
                            if hi == h {
                                let x = choose|x: int| 0 <= x < old_self.index@[hi]@.len() && old_self.index@[hi]@[x] == i as usize;
                                assert(self.index@[hi]@[x] == i as usize);
                            }
                        } else {
                            assert(self.index@[h]@[self.index@[h]@.len() - 1] == n);
                        }
                    }
                    assert forall|hh: u64, x: int|
                        self.index@.contains_key(hh) && 0 <= x < self.index@[hh]@.len() implies #[trigger] self.index@[hh]@[x]
                            < self.keys@.len() by {
                        if hh == h && x < self.index@[hh]@.len() - 1 {
                            assert(old_self.index@[hh]@[x] < old_self.keys@.len());
                        }
                    }
                    assert forall|i: int, j: int|
                        0 <= i < self.keys@.len() && 0 <= j < self.keys@.len() && i != j implies #[trigger] self.keys@[i]@
                            != #[trigger] self.keys@[j]@ by {
                        if i < n && j < n {
                            assert(old_self.keys@[i] == self.keys@[i]);
                            assert(old_self.keys@[j] == self.keys@[j]);
                        } else if i < n {
                            assert(old_self.keys@[i] == self.keys@[i]);
                        } else {
                            assert(old_self.keys@[j] == self.keys@[j]);
                        }
                    }
                    assert(self.map_view() =~= old_self.map_view().insert(k@, v)) by {
                        assert forall|key: Seq<u8>| #[trigger] self.has(key) <==> old_self.has(key) || key == k@ by {
                            if self.has(key) && key != k@ {
                                let j = self.slot(key);
                                assert(self.keys@[j] == old_self.keys@[j]);
                            }
                            if old_self.has(key) {
                                let j = old_self.slot(key);
                                assert(self.keys@[j] == old_self.keys@[j]);
                            }
                        }
                        assert forall|key: Seq<u8>| #[trigger] self.has(key) implies self.values@[self.slot(key)]
                            == old_self.map_view().insert(k@, v)[key] by {
                            let j = self.slot(key);
                            self.lemma_slot(j);
                            if j < n {
                                assert(self.keys@[j] == old_self.keys@[j]);
                                old_self.lemma_slot(j);
                            }
                        }
                    }
                    assert(self.entries() =~= old_self.entries().push((k@, v)));
                }
            },
        }
    }

    /// The key and value of the entry at position `i` (insertion order).
    pub fn entry_at(&self, i: usize) -> (r: (&[u8], &V))
        requires
            self.wf(),
            i < self.entries().len(),
        ensures
            r.0@ == self.entries()[i as int].0,
            *r.1 == self.entries()[i as int].1,
    {
        (self.keys[i].as_slice(), &self.values[i])
    }

    /// How many entries the map can hold before its key list reallocates.
    pub fn capacity(&self) -> (r: usize)
        requires
            self.wf(),
        ensures
            r >= self.entries().len(),
    {
        vec_capacity(&self.keys)
    }

    /// The total length of the keys, saturating at `usize::MAX`.
    pub fn key_bytes_saturating(&self) -> (r: usize)
        requires
            self.wf(),
        ensures
            r as int == if key_bytes(self.entries()) > usize::MAX { usize::MAX as int } else { key_bytes(
                self.entries(),
            ) as int },
    {
        let mut total: usize = 0;
        let mut i: usize = 0;
        while i < self.keys.len()
            invariant
                self.wf(),
                i <= self.entries().len(),
                total as int == if key_bytes(self.entries().take(i as int)) > usize::MAX {
                    usize::MAX as int
                } else {
                    key_bytes(self.entries().take(i as int)) as int
                },
            decreases self.entries().len() - i,
        {
            proof {
                let e = self.entries().take(i + 1);
                assert(e.drop_last() =~= self.entries().take(i as int));
                assert(e.last().0 == self.keys@[i as int]@);
            }
            total = total.saturating_add(self.keys[i].len());
            i += 1;
        }
        proof {
            assert(self.entries().take(i as int) =~= self.entries());
        }
        total
    }

    /// The entries are the map.
    pub proof fn lemma_entries(&self)
        requires
            self.wf(),
        ensures
            forall|i: int|
                0 <= i < self.entries().len() ==> self.map_view().contains_key(#[trigger] self.entries()[i].0)
                    && self.map_view()[self.entries()[i].0] == self.entries()[i].1,
            forall|k: Seq<u8>|
                #[trigger] self.map_view().contains_key(k) ==> exists|i: int|
                    0 <= i < self.entries().len() && self.entries()[i].0 == k,
            forall|i: int, j: int|
                0 <= i < j < self.entries().len() ==> #[trigger] self.entries()[i].0 != #[trigger] self.entries()[j].0,
    {
        assert forall|i: int| 0 <= i < self.entries().len() implies self.map_view().contains_key(
            #[trigger] self.entries()[i].0,
        ) && self.map_view()[self.entries()[i].0] == self.entries()[i].1 by {
            self.lemma_slot(i);
        }
        assert forall|k: Seq<u8>| #[trigger] self.map_view().contains_key(k) implies exists|i: int|
            0 <= i < self.entries().len() && self.entries()[i].0 == k by {
            let i = self.slot(k);
            assert(self.entries()[i].0 == k);
        }
    }

    /// A copy with the same entries.
    pub fn copy(&self) -> (r: Self) where V: Copy
        requires
            self.wf(),
        ensures
            r.wf(),
            r.map_view() == self.map_view(),
    {
        let mut m: ByteMap<V> = ByteMap::new();
        let mut i: usize = 0;
        proof {
            self.lemma_entries();
        }
        while i < self.keys.len()
            invariant
                self.wf(),
                m.wf(),
                i <= self.keys@.len(),
                forall|k: Seq<u8>| #[trigger] m.map_view().contains_key(k) <==> exists|j: int| 0 <= j < i && self.keys@[j]@ == k,
                forall|k: Seq<u8>| #[trigger] m.map_view().contains_key(k) ==> m.map_view()[k] == self.map_view()[k],
            decreases self.keys@.len() - i,
        {
            let ghost ki = self.keys@[i as int]@;
            proof {
                self.lemma_slot(i as int);
            }
            m.insert(self.keys[i].as_slice(), self.values[i]);
            proof {
                assert forall|k: Seq<u8>| #[trigger] m.map_view().contains_key(k) implies exists|j: int| 0 <= j < i + 1 && self.keys@[j]@ == k by {
                    if k != ki {
                        let j = choose|j: int| 0 <= j < i && self.keys@[j]@ == k;
                        assert(0 <= j < i + 1);
                    } else {
                        assert(self.keys@[i as int]@ == k);
                    }
                }
                assert forall|k: Seq<u8>| (exists|j: int| 0 <= j < i + 1 && self.keys@[j]@ == k) implies #[trigger] m.map_view().contains_key(k) by {
                    let j = choose|j: int| 0 <= j < i + 1 && self.keys@[j]@ == k;
                    if j < i {
                        assert(exists|j2: int| 0 <= j2 < i && self.keys@[j2]@ == k);
                    }
                }
            }
            i += 1;
        }
        proof {
            assert(m.map_view() =~= self.map_view()) by {
                assert forall|k: Seq<u8>| #[trigger] m.map_view().contains_key(k) == self.map_view().contains_key(k) by {
                    if self.map_view().contains_key(k) {
                        let j = self.slot(k);
                        assert(self.keys@[j]@ == k);
                    }
                    if m.map_view().contains_key(k) {
                        let j = choose|j: int| 0 <= j < i && self.keys@[j]@ == k;
                        self.lemma_slot(j);
                    }
                }
            }
        }
        m
    }
}

} // verus!
