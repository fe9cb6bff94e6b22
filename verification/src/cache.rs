//! The concurrent-use LRU cache backing the static-file path: a byte-bounded
//! mapping from request key to cached payload with least-recently-used
//! eviction.
//!
//! Nodes live in an arena (`slots`); the recency list is threaded through
//! them by arena indices (`next` toward the least recently used end, `prev`
//! toward the most recently used end), with `head` and `tail` handles in
//! place of sentinel nodes and a free list for slot reuse.  A ghost sequence
//! of the live indices in recency order ties the links to the model in
//! [`crate::recency`], and every operation is proved against that model.
//!
//! The structure itself is sequential; a surrounding application shares one
//! instance behind a single coarse read/write lock, so any interleaving of
//! completed calls is a sequence of calls each proved here to preserve the
//! invariants.

use vstd::prelude::*;

use crate::recency::{
    CacheModel, contains_key, distinct_keys, evict, index_of_key, promoted,
    spec_add, spec_get, spec_touch, total_bytes, lemma_distinct_promoted,
    lemma_index_of_key_unique, lemma_total_bytes_drop_last,
    lemma_total_bytes_insert_front, lemma_total_bytes_remove,
    lemma_total_bytes_update,
};

verus! {

/// An immutable-at-rest byte payload.  It is replaced wholesale on update,
/// never mutated in place.
pub struct CacheEntry {
    pub data: Vec<u8>,
}

impl CacheEntry {
    pub fn new(data: Vec<u8>) -> (e: CacheEntry)
        ensures
            e.data == data,
    {
        CacheEntry { data }
    }
}

/// A recency-list node: key, payload, and its links, as arena indices.
/// `next` leads toward the least recently used end, `prev` back toward the
/// most recently used end.
pub struct CacheList {
    pub key: String,
    pub cache_entry: CacheEntry,
    pub next: Option<usize>,
    pub prev: Option<usize>,
}

impl CacheList {
    pub fn new(key: String, cache_entry: CacheEntry) -> (n: CacheList)
        ensures
            n.key == key,
            n.cache_entry == cache_entry,
            n.next is None,
            n.prev is None,
    {
        CacheList { key, cache_entry, next: None, prev: None }
    }
}

/// The cache: node arena, recency links, key lookup, byte accounting.
pub struct Cache {
    slots: Vec<Option<CacheList>>,
    free: Vec<usize>,
    head: Option<usize>,
    tail: Option<usize>,
    size: usize,
    capacity: usize,
    order: Ghost<Seq<usize>>,
}

impl View for Cache {
    type V = CacheModel;

    /// The recency order of the cache, most recently used first.
    closed spec fn view(&self) -> CacheModel {
        Seq::new(
            self.order@.len(),
            |p: int| (self.node(p).key@, self.node(p).cache_entry.data@),
        )
    }
}

impl Cache {
    /// Byte capacity of the cache (zero: caching disabled).
    pub closed spec fn spec_capacity(self) -> nat {
        self.capacity as nat
    }

    /// Running total of cached payload bytes.
    pub closed spec fn spec_size(self) -> nat {
        self.size as nat
    }

    /// The live arena indices in recency order, most recently used first.
    pub closed spec fn ord(self) -> Seq<usize> {
        self.order@
    }

    /// Key held by the node in arena slot `i`.
    pub closed spec fn key_at(self, i: usize) -> Seq<char> {
        self.slots@[i as int].unwrap().key@
    }

    /// Payload held by the node in arena slot `i`.
    pub closed spec fn data_at(self, i: usize) -> Seq<u8> {
        self.slots@[i as int].unwrap().cache_entry.data@
    }

    spec fn node(self, p: int) -> CacheList
        recommends
            0 <= p < self.order@.len(),
    {
        self.slots@[self.order@[p] as int].unwrap()
    }

    spec fn ord_in_bounds(self) -> bool {
        forall|p: int|
            0 <= p < self.ord().len() ==> (#[trigger] self.ord()[p]) < self.slots@.len()
    }

    spec fn ord_live(self) -> bool {
        forall|p: int|
            0 <= p < self.ord().len() ==> #[trigger] self.slots@[self.ord()[p] as int] is Some
    }

    spec fn live_in_ord(self) -> bool {
        forall|i: usize|
            i < self.slots@.len() && self.slots@[i as int] is Some
                ==> #[trigger] self.ord().contains(i)
    }

    spec fn link_ok(self, p: int) -> bool
        recommends
            0 <= p < self.ord().len(),
    {
        &&& self.node(p).next == (if p + 1 < self.ord().len() {
            Some(self.ord()[p + 1])
        } else {
            None::<usize>
        })
        &&& self.node(p).prev == (if p > 0 {
            Some(self.ord()[p - 1])
        } else {
            None::<usize>
        })
    }

    spec fn links_ok(self) -> bool {
        forall|p: int| 0 <= p < self.ord().len() ==> #[trigger] self.link_ok(p)
    }

    spec fn ends_ok(self) -> bool {
        &&& self.head == (if self.ord().len() > 0 {
            Some(self.ord()[0])
        } else {
            None::<usize>
        })
        &&& self.tail == (if self.ord().len() > 0 {
            Some(self.ord()[self.ord().len() - 1])
        } else {
            None::<usize>
        })
    }

    spec fn free_ok(self) -> bool {
        &&& forall|j: int|
            0 <= j < self.free@.len() ==> (#[trigger] self.free@[j]) < self.slots@.len()
        &&& forall|j: int|
            0 <= j < self.free@.len() ==> self.slots@[(#[trigger] self.free@[j]) as int] is None
        &&& self.free@.no_duplicates()
    }

    /// Well-formedness: the links realize the ghost recency order, exactly
    /// the live slots are reachable, keys are unique, the free list holds
    /// only dead slots, and the byte counter matches the payloads held.
    pub closed spec fn wf(self) -> bool {
        &&& self.ord_in_bounds()
        &&& self.ord_live()
        &&& self.ord().no_duplicates()
        &&& self.live_in_ord()
        &&& self.links_ok()
        &&& self.ends_ok()
        &&& self.free_ok()
        &&& distinct_keys(self.view())
        &&& self.size == total_bytes(self.view())
    }

    /// Builds a cache of `capacity` kibibytes; `0` disables caching.
    pub fn new(capacity: usize) -> (c: Cache)
        requires
            capacity * 1024 <= usize::MAX,
        ensures
            c.wf(),
            c@ == Seq::<(Seq<char>, Seq<u8>)>::empty(),
            c.spec_capacity() == capacity * 1024,
            c.spec_size() == 0,
    {
        let c = Cache {
            slots: Vec::new(),
            free: Vec::new(),
            head: None,
            tail: None,
            size: 0,
            capacity: capacity * 1024,
            order: Ghost(Seq::empty()),
        };
        proof {
            assert(c@ =~= Seq::<(Seq<char>, Seq<u8>)>::empty());
            assert(total_bytes(c@) == 0);
        }
        c
    }

    /// Byte capacity.
    pub fn capacity(&self) -> (c: usize)
        ensures
            c == self.spec_capacity(),
    {
        self.capacity
    }

    /// Total payload bytes currently held.
    pub fn size(&self) -> (s: usize)
        ensures
            s == self.spec_size(),
    {
        self.size
    }

    /// Looks the key up in the arena; the returned index is the live slot
    /// whose node holds `key`, if there is one.
    pub fn find_slot(&self, key: &String) -> (r: Option<usize>)
        requires
            self.wf(),
        ensures
            match r {
                Some(i) => {
                    &&& contains_key(self@, key@)
                    &&& i < self.slots_len()
                    &&& self.ord().contains(i)
                    &&& self.key_at(i) == key@
                },
                None => !contains_key(self@, key@),
            },
    {
        let mut i: usize = 0;
        while i < self.slots.len()
            invariant
                self.wf(),
                i <= self.slots@.len(),
                forall|j: int|
                    0 <= j < i ==> !((#[trigger] self.slots@[j]) is Some
                        && self.slots@[j].unwrap().key@ == key@),
            decreases self.slots@.len() - i,
        {
            match &self.slots[i] {
                Some(node) => {
                    if node.key == *key {
                        proof {
                            assert(self.slots@[i as int] is Some);
                            assert(self.ord().contains(i));
                            let p = choose|p: int|
                                0 <= p < self.ord().len() && self.ord()[p] == i;
                            assert(self@[p].0 == key@);
                        }
                        return Some(i);
                    }
                },
                None => {},
            }
            i = i + 1;
        }
        proof {
            if contains_key(self@, key@) {
                let p = index_of_key(self@, key@);
                assert(0 <= p < self@.len() && self@[p].0 == key@);
                let j = self.ord()[p];
                assert(self.slots@[j as int] is Some);
                assert(self.slots@[j as int].unwrap().key@ == key@);
            }
        }
        None
    }

    /// Number of arena slots (live or free).
    pub closed spec fn slots_len(self) -> nat {
        self.slots@.len()
    }

    /// The key index: every key held by a live arena slot, mapped to that
    /// slot's index.
    pub closed spec fn key_index(self) -> Map<Seq<char>, usize> {
        Map::new(
            |k: Seq<char>| exists|i: usize| i < self.slots@.len()
                && (#[trigger] self.slots@[i as int]) is Some
                && self.slots@[i as int].unwrap().key@ == k,
            |k: Seq<char>| choose|i: usize| i < self.slots@.len()
                && (#[trigger] self.slots@[i as int]) is Some
                && self.slots@[i as int].unwrap().key@ == k,
        )
    }

    /// Copy of the payload held in live slot `i`.
    fn read_data(&self, i: usize) -> (d: Vec<u8>)
        requires
            self.wf(),
            self.ord().contains(i),
        ensures
            d@ == self.data_at(i),
    {
        proof {
            let p = choose|p: int| 0 <= p < self.ord().len() && self.ord()[p] == i;
            assert(self.slots@[self.ord()[p] as int] is Some);
        }
        match &self.slots[i] {
            Some(node) => clone_bytes(&node.cache_entry.data),
            None => Vec::new(),
        }
    }

    /// Looks `key` up.  A hit promotes the entry to most recently used and
    /// returns a copy of its payload; a miss, or a disabled cache, returns
    /// `None` and changes nothing.  Membership, every association and the
    /// byte total are unchanged either way.
    pub fn get(&mut self, key: &String) -> (r: Option<Vec<u8>>)
        requires
            old(self).wf(),
        ensures
            final(self).wf(),
            final(self)@ == spec_touch(old(self).spec_capacity(), old(self)@, key@),
            (match r {
                Some(d) => spec_get(old(self).spec_capacity(), old(self)@, key@) == Some(d@),
                None => spec_get(old(self).spec_capacity(), old(self)@, key@) is None,
            }),
            final(self).spec_capacity() == old(self).spec_capacity(),
            final(self).spec_size() == old(self).spec_size(),
    {
        if self.capacity == 0 {
            return None;
        }
        let found = self.find_slot(key);
        match found {
            None => None,
            Some(i) => {
                let ghost v0 = old(self)@;
                let ghost p = choose|q: int|
                    0 <= q < old(self).ord().len() && old(self).ord()[q] == i;
                proof {
                    assert(0 <= p < old(self).ord().len() && old(self).ord()[p] == i);
                    assert(v0[p] == (old(self).key_at(i), old(self).data_at(i)));
                    lemma_index_of_key_unique(v0, key@, p);
                }
                move_node_to_head(self, i, None);
                let d = self.read_data(i);
                Some(d)
            },
        }
    }

    /// Stores `data` under `key`.  On a disabled cache this is a no-op.  An
    /// existing key has its payload replaced in place — the byte total moves
    /// by exactly the length difference — and is promoted, with no eviction
    /// pass.  A new key is inserted as most recently used and an eviction
    /// pass then trims the least recently used entries while the total is at
    /// or above capacity.
    pub fn add(&mut self, key: &String, data: &Vec<u8>)
        requires
            old(self).wf(),
            old(self).spec_size() + data@.len() <= usize::MAX,
        ensures
            final(self).wf(),
            final(self)@ == spec_add(old(self).spec_capacity(), old(self)@, key@, data@),
            final(self).spec_capacity() == old(self).spec_capacity(),
    {
        if self.capacity == 0 {
            return;
        }
        let found = self.find_slot(key);
        match found {
            Some(i) => {
                let ghost v0 = old(self)@;
                let ghost p = choose|q: int|
                    0 <= q < old(self).ord().len() && old(self).ord()[q] == i;
                proof {
                    assert(0 <= p < old(self).ord().len() && old(self).ord()[p] == i);
                    assert(v0[p] == (old(self).key_at(i), old(self).data_at(i)));
                    lemma_index_of_key_unique(v0, key@, p);
                }
                move_node_to_head(self, i, Some(data));
            },
            None => {
                let node = CacheList::new(key.clone(), CacheEntry::new(clone_bytes(data)));
                add_after_head(self, node);
                purge(self);
            },
        }
    }
}

/// Size invariant (law): in a well-formed cache the running byte counter
/// equals the total payload length of exactly the entries in recency order.
pub proof fn lemma_size_invariant(c: Cache)
    requires
        c.wf(),
    ensures
        c.spec_size() == total_bytes(c@),
{
}

/// Bijection invariant (law): the keys of the key index are exactly the keys
/// of the nodes reachable from the head of the recency list, no key twice,
/// and the index leads each key to its live node.
pub proof fn lemma_key_index_bijection(c: Cache)
    requires
        c.wf(),
    ensures
        c.key_index().dom() =~= Set::new(|k: Seq<char>| contains_key(c@, k)),
        distinct_keys(c@),
        forall|k: Seq<char>| #[trigger] contains_key(c@, k)
            ==> c.ord().contains(c.key_index()[k]) && c.key_at(c.key_index()[k]) == k,
{
    assert forall|k: Seq<char>| c.key_index().dom().contains(k)
        implies contains_key(c@, k) by {
        let i = choose|i: usize| i < c.slots@.len()
            && (#[trigger] c.slots@[i as int]) is Some
            && c.slots@[i as int].unwrap().key@ == k;
        assert(c.ord().contains(i));
        let p = choose|p: int| 0 <= p < c.ord().len() && c.ord()[p] == i;
        assert(c@[p].0 == k);
    }
    assert forall|k: Seq<char>| contains_key(c@, k)
        implies c.key_index().dom().contains(k) by {
        let p = index_of_key(c@, k);
        assert(0 <= p < c@.len() && c@[p].0 == k);
        let i = c.ord()[p];
        assert(c.slots@[i as int] is Some && c.slots@[i as int].unwrap().key@ == k);
    }
    assert forall|k: Seq<char>| #[trigger] contains_key(c@, k)
        implies c.ord().contains(c.key_index()[k]) && c.key_at(c.key_index()[k]) == k by {
        let i = c.key_index()[k];
        assert(c.key_index().dom().contains(k));
        assert(i < c.slots@.len() && c.slots@[i as int] is Some
            && c.slots@[i as int].unwrap().key@ == k);
        assert(c.ord().contains(i));
    }
}

/// Detaches the node in slot `i` from its list position and reinserts it
/// immediately after the head, making it the most recently used.  The node's
/// key and payload, and the byte accounting, are untouched.
fn relink_to_front(cache: &mut Cache, i: usize)
    requires
        old(cache).wf(),
        old(cache).ord().contains(i),
    ensures
        final(cache).wf(),
        final(cache)@ == promoted(old(cache)@, old(cache).key_at(i), old(cache).data_at(i)),
        final(cache).ord().contains(i),
        final(cache).key_at(i) == old(cache).key_at(i),
        final(cache).data_at(i) == old(cache).data_at(i),
        final(cache).spec_capacity() == old(cache).spec_capacity(),
        final(cache).spec_size() == old(cache).spec_size(),
{
    let ghost ord0 = old(cache).ord();
    let ghost v0 = old(cache)@;
    let ghost k = old(cache).key_at(i);
    let ghost d = old(cache).data_at(i);
    let ghost p = choose|q: int| 0 <= q < ord0.len() && ord0[q] == i;
    proof {
        assert(0 <= p < ord0.len() && ord0[p] == i);
        assert(cache.link_ok(p));
        assert(cache.slots@[ord0[p] as int] is Some);
        assert(v0[p] == (k, d));
        lemma_index_of_key_unique(v0, k, p);
    }

    let h = cache.head.unwrap();
    if h == i {
        proof {
            if p != 0 {
                assert(ord0[0] == h && ord0[p] == i);
                assert(false);
            }
            assert(promoted(v0, k, d) =~= v0);
        }
        return;
    }
    proof {
        if p == 0 {
            assert(false);
        }
        assert(cache.link_ok(p - 1));
        assert(cache.link_ok(0));
        assert(cache.slots@[ord0[p - 1] as int] is Some);
        assert(cache.slots@[ord0[0] as int] is Some);
        if p + 1 < ord0.len() {
            assert(cache.link_ok(p + 1));
            assert(cache.slots@[ord0[p + 1] as int] is Some);
        }
    }

    let mut pr: usize = 0;
    let mut nx: Option<usize> = None;
    match &cache.slots[i] {
        Some(node) => {
            pr = match node.prev {
                Some(q) => q,
                None => 0,
            };
            nx = node.next;
        },
        None => {},
    }
    proof {
        assert(pr == ord0[p - 1]);
        assert(nx == (if p + 1 < ord0.len() {
            Some(ord0[p + 1])
        } else {
            None::<usize>
        }));
    }

    slot_set_next(&mut cache.slots, pr, nx);
    match nx {
        Some(n) => {
            slot_set_prev(&mut cache.slots, n, Some(pr));
        },
        None => {
            cache.tail = Some(pr);
        },
    }
    slot_set_prev(&mut cache.slots, h, Some(i));
    slot_set_prev(&mut cache.slots, i, None);
    slot_set_next(&mut cache.slots, i, Some(h));
    cache.head = Some(i);

    proof {
        let no = ord0.remove(p).insert(0, i);
        cache.order@ = no;
        let sl = cache.slots@;
        assert(no.len() == ord0.len());
        assert(no[0] == i);
        assert(forall|q: int| 1 <= q <= p ==> #[trigger] no[q] == ord0[q - 1]);
        assert(forall|q: int| p < q < no.len() ==> #[trigger] no[q] == ord0[q]);

        // Positions of the touched slots are pinned by distinctness of ord0.
        assert(forall|a: int, b: int|
            0 <= a < ord0.len() && 0 <= b < ord0.len() && ord0[a] == ord0[b] ==> a == b);

        // Untouched slots keep their old value.
        assert(forall|j: int|
            0 <= j < sl.len() && j != i && j != pr && j != h
                && (nx matches Some(n) ==> j != n)
                ==> sl[j] == #[trigger] old(cache).slots@[j]);

        assert forall|q: int| 0 <= q < no.len() implies
            (#[trigger] no[q]) < sl.len() && sl[no[q] as int] is Some
                && sl[no[q] as int].unwrap().key == old(cache).slots@[no[q] as int].unwrap().key
                && sl[no[q] as int].unwrap().cache_entry
                    == old(cache).slots@[no[q] as int].unwrap().cache_entry by {
            let oq = if q == 0 { p } else if q <= p { q - 1 } else { q };
            assert(no[q] == ord0[oq]);
            assert(old(cache).slots@[ord0[oq] as int] is Some);
        }

        assert(no.no_duplicates()) by {
            assert forall|a: int, b: int| 0 <= a < b < no.len() implies no[a] != no[b] by {
                let oa = if a == 0 { p } else if a <= p { a - 1 } else { a };
                let ob = if b == 0 { p } else if b <= p { b - 1 } else { b };
                assert(no[a] == ord0[oa] && no[b] == ord0[ob]);
            }
        }

        assert(cache.live_in_ord()) by {
            assert forall|j: usize|
                j < sl.len() && sl[j as int] is Some implies #[trigger] no.contains(j) by {
                assert(old(cache).slots@[j as int] is Some);
                assert(ord0.contains(j));
                let q = choose|q: int| 0 <= q < ord0.len() && ord0[q] == j;
                if q == p {
                    assert(no[0] == j);
                } else if q < p {
                    assert(no[q + 1] == j);
                } else {
                    assert(no[q] == j);
                }
            }
        }

        assert(cache.links_ok()) by {
            assert forall|q: int| 0 <= q < no.len() implies #[trigger] cache.link_ok(q) by {
                let oq = if q == 0 { p } else if q <= p { q - 1 } else { q };
                assert(no[q] == ord0[oq]);
                assert(old(cache).link_ok(oq));
                let m = no[q];
                if q == 0 {
                    // the promoted node itself
                    assert(sl[m as int].unwrap().prev is None);
                    assert(sl[m as int].unwrap().next == Some(h));
                    assert(no[1] == ord0[0] == h);
                } else if q == 1 {
                    // the old head, now second
                    assert(m == h);
                    if p == 1 {
                        // its old successor was the promoted node; relinked to nx
                        assert(sl[m as int].unwrap().next == nx);
                        assert(sl[m as int].unwrap().prev == Some(i));
                    } else {
                        assert(sl[m as int].unwrap().next == Some(ord0[1]));
                        assert(sl[m as int].unwrap().prev == Some(i));
                        assert(no[2] == ord0[1]);
                    }
                } else if q < p {
                    assert(m == ord0[q - 1]);
                    assert(m != i && m != pr && m != h);
                    assert(nx matches Some(n) ==> m != n);
                    assert(sl[m as int] == old(cache).slots@[m as int]);
                    assert(no[q + 1] == ord0[q]);
                    assert(no[q - 1] == ord0[q - 2]);
                } else if q == p {
                    // the old predecessor of the promoted node
                    assert(m == pr);
                    assert(sl[m as int].unwrap().next == nx);
                    if p + 1 < no.len() {
                        assert(no[p + 1] == ord0[p + 1]);
                    }
                    if q > 1 {
                        assert(sl[m as int].unwrap().prev == Some(ord0[p - 2]));
                        assert(no[q - 1] == ord0[p - 2]);
                    } else {
                        assert(sl[m as int].unwrap().prev == Some(i));
                    }
                } else if q == p + 1 {
                    // the old successor of the promoted node
                    assert(nx == Some(m));
                    assert(sl[m as int].unwrap().prev == Some(pr));
                    assert(no[q - 1] == ord0[p - 1]);
                    assert(sl[m as int].unwrap().next
                        == old(cache).slots@[m as int].unwrap().next);
                    if q + 1 < no.len() {
                        assert(no[q + 1] == ord0[q + 1]);
                    }
                } else {
                    assert(m == ord0[q]);
                    assert(m != i && m != pr && m != h);
                    assert(nx matches Some(n) ==> m != n);
                    assert(sl[m as int] == old(cache).slots@[m as int]);
                    assert(no[q - 1] == ord0[q - 1]);
                    if q + 1 < no.len() {
                        assert(no[q + 1] == ord0[q + 1]);
                    }
                }
            }
        }

        assert(cache.ends_ok()) by {
            assert(no[no.len() - 1] == (if p == no.len() - 1 {
                ord0[p - 1]
            } else {
                ord0[no.len() - 1]
            }));
        }

        assert(cache@ =~= promoted(v0, k, d)) by {
            assert forall|q: int| 0 <= q < no.len() implies
                cache@[q] == promoted(v0, k, d)[q] by {
                let oq = if q == 0 { p } else if q <= p { q - 1 } else { q };
                assert(no[q] == ord0[oq]);
                assert(cache@[q] == (sl[no[q] as int].unwrap().key@,
                    sl[no[q] as int].unwrap().cache_entry.data@));
                assert(cache@[q] == v0[oq]);
                assert(promoted(v0, k, d) == v0.remove(p).insert(0, (k, d)));
                if q == 0 {
                    assert(promoted(v0, k, d)[0] == (k, d));
                } else if q <= p {
                    assert(promoted(v0, k, d)[q] == v0.remove(p)[q - 1]);
                    assert(v0.remove(p)[q - 1] == v0[q - 1]);
                } else {
                    assert(promoted(v0, k, d)[q] == v0.remove(p)[q - 1]);
                    assert(v0.remove(p)[q - 1] == v0[q]);
                }
            }
        }

        lemma_distinct_promoted(v0, k, d);
        lemma_total_bytes_remove(v0, p);
        lemma_total_bytes_insert_front(v0.remove(p), (k, d));
        assert(promoted(v0, k, d) == v0.remove(p).insert(0, (k, d)));
        assert(total_bytes(cache@) == total_bytes(v0));
    }
}

/// Replaces the payload of the node in slot `i` and adjusts the byte counter
/// by exactly the length difference of old and new payload.
fn update_data(cache: &mut Cache, i: usize, d: &Vec<u8>)
    requires
        old(cache).wf(),
        old(cache).ord().contains(i),
        old(cache).spec_size() - old(cache).data_at(i).len() + d@.len() <= usize::MAX,
    ensures
        final(cache).wf(),
        final(cache)@ == old(cache)@.update(
            index_of_key(old(cache)@, old(cache).key_at(i)),
            (old(cache).key_at(i), d@),
        ),
        final(cache).ord() == old(cache).ord(),
        final(cache).key_at(i) == old(cache).key_at(i),
        final(cache).data_at(i) == d@,
        final(cache).spec_capacity() == old(cache).spec_capacity(),
        final(cache).spec_size() ==
            old(cache).spec_size() - old(cache).data_at(i).len() + d@.len(),
{
    let ghost ord0 = old(cache).ord();
    let ghost v0 = old(cache)@;
    let ghost k = old(cache).key_at(i);
    let ghost p = choose|q: int| 0 <= q < ord0.len() && ord0[q] == i;
    proof {
        assert(0 <= p < ord0.len() && ord0[p] == i);
        assert(cache.slots@[ord0[p] as int] is Some);
        assert(v0[p] == (k, old(cache).data_at(i)));
        lemma_index_of_key_unique(v0, k, p);
        lemma_total_bytes_remove(v0, p);
    }
    let mut old_len: usize = 0;
    match &cache.slots[i] {
        Some(node) => {
            old_len = node.cache_entry.data.len();
        },
        None => {},
    }
    slot_set_data(&mut cache.slots, i, clone_bytes(d));
    cache.size = cache.size - old_len + d.len();
    proof {
        let sl = cache.slots@;
        let v1 = v0.update(p, (k, d@));
        assert(forall|a: int, b: int|
            0 <= a < ord0.len() && 0 <= b < ord0.len() && ord0[a] == ord0[b] ==> a == b);
        assert forall|q: int| 0 <= q < ord0.len() implies
            sl[ord0[q] as int] is Some && cache@[q] == v1[q] by {
            assert(old(cache).slots@[ord0[q] as int] is Some);
            if q != p {
                assert(ord0[q] != i);
                assert(sl[ord0[q] as int] == old(cache).slots@[ord0[q] as int]);
            }
        }
        assert(cache@ =~= v1);
        assert(cache.links_ok()) by {
            assert forall|q: int| 0 <= q < ord0.len() implies #[trigger] cache.link_ok(q) by {
                assert(old(cache).link_ok(q));
                if q != p {
                    assert(ord0[q] != i);
                    assert(sl[ord0[q] as int] == old(cache).slots@[ord0[q] as int]);
                }
            }
        }
        assert(cache.live_in_ord()) by {
            assert forall|j: usize|
                j < sl.len() && sl[j as int] is Some implies #[trigger] ord0.contains(j) by {
                assert(old(cache).slots@[j as int] is Some);
            }
        }
        assert(distinct_keys(cache@)) by {
            assert forall|a: int, b: int| 0 <= a < b < v1.len() implies v1[a].0 != v1[b].0 by {
                assert(v1[a].0 == v0[a].0 && v1[b].0 == v0[b].0);
            }
        }
        lemma_total_bytes_update(v0, p, (k, d@));
    }
}

/// Relies on the well-formed recency list: promotes the node in slot `i` to
/// most recently used and, when `data` is given, replaces its payload (with
/// delta byte accounting) as the promotion happens.
pub fn move_node_to_head(cache: &mut Cache, i: usize, data: Option<&Vec<u8>>)
    requires
        old(cache).wf(),
        old(cache).ord().contains(i),
        (data matches Some(d) ==>
            old(cache).spec_size() - old(cache).data_at(i).len() + d@.len() <= usize::MAX),
    ensures
        final(cache).wf(),
        final(cache)@ == promoted(old(cache)@, old(cache).key_at(i), (match data {
            Some(d) => d@,
            None => old(cache).data_at(i),
        })),
        final(cache).ord().contains(i),
        final(cache).key_at(i) == old(cache).key_at(i),
        final(cache).data_at(i) == (match data {
            Some(d) => d@,
            None => old(cache).data_at(i),
        }),
        final(cache).spec_capacity() == old(cache).spec_capacity(),
        final(cache).spec_size() == old(cache).spec_size() - old(cache).data_at(i).len()
            + (match data {
            Some(d) => d@.len(),
            None => old(cache).data_at(i).len(),
        }),
{
    let ghost ord0 = old(cache).ord();
    let ghost v0 = old(cache)@;
    let ghost k = old(cache).key_at(i);
    let ghost p = choose|q: int| 0 <= q < ord0.len() && ord0[q] == i;
    proof {
        assert(0 <= p < ord0.len() && ord0[p] == i);
        assert(cache.slots@[ord0[p] as int] is Some);
        assert(v0[p] == (k, old(cache).data_at(i)));
        lemma_index_of_key_unique(v0, k, p);
    }
    match data {
        Some(d) => {
            update_data(cache, i, d);
            let ghost v1 = cache@;
            relink_to_front(cache, i);
            proof {
                assert(v1 == v0.update(p, (k, d@)));
                assert(v1[p] == (k, d@));
                lemma_index_of_key_unique(v1, k, p);
                assert(cache@ == v1.remove(p).insert(0, (k, d@)));
                assert(v1.remove(p) =~= v0.remove(p));
            }
        },
        None => {
            relink_to_front(cache, i);
        },
    }
}

/// Links a brand-new node as the most recently used entry: the insertion
/// half of the promotion algorithm, with no detach phase.  The node is
/// stored in a free arena slot (or a fresh one) and its payload length is
/// added to the byte counter.
pub fn add_after_head(cache: &mut Cache, node: CacheList)
    requires
        old(cache).wf(),
        node.next is None,
        node.prev is None,
        !contains_key(old(cache)@, node.key@),
        old(cache).spec_size() + node.cache_entry.data@.len() <= usize::MAX,
    ensures
        final(cache).wf(),
        final(cache)@ == old(cache)@.insert(0, (node.key@, node.cache_entry.data@)),
        final(cache).spec_capacity() == old(cache).spec_capacity(),
        final(cache).spec_size() == old(cache).spec_size() + node.cache_entry.data@.len(),
{
    let ghost ord0 = old(cache).ord();
    let ghost v0 = old(cache)@;
    let ghost pair = (node.key@, node.cache_entry.data@);
    let dlen = node.cache_entry.data.len();
    let old_head = cache.head;
    let mut node = node;
    node.next = old_head;
    let i: usize;
    match cache.free.pop() {
        Some(f) => {
            proof {
                assert(cache.free@ == old(cache).free@.subrange(
                    0,
                    old(cache).free@.len() - 1,
                ));
                assert(old(cache).free@[old(cache).free@.len() - 1] == f);
                assert(old(cache).slots@[f as int] is None);
            }
            i = f;
            cache.slots[f] = Some(node);
        },
        None => {
            i = cache.slots.len();
            cache.slots.push(Some(node));
        },
    }
    proof {
        // the chosen slot was not reachable before
        if ord0.contains(i) {
            let q = choose|q: int| 0 <= q < ord0.len() && ord0[q] == i;
            assert(old(cache).slots@[ord0[q] as int] is Some);
        }
    }
    match old_head {
        Some(h) => {
            proof {
                assert(old(cache).slots@[ord0[0] as int] is Some);
                assert(h == ord0[0]);
            }
            slot_set_prev(&mut cache.slots, h, Some(i));
        },
        None => {
            cache.tail = Some(i);
        },
    }
    cache.head = Some(i);
    cache.size = cache.size + dlen;
    proof {
        let no = ord0.insert(0, i);
        cache.order@ = no;
        let sl = cache.slots@;
        assert(no[0] == i);
        assert(forall|q: int| 1 <= q < no.len() ==> #[trigger] no[q] == ord0[q - 1]);
        assert(forall|a: int, b: int|
            0 <= a < ord0.len() && 0 <= b < ord0.len() && ord0[a] == ord0[b] ==> a == b);
        assert(sl[i as int] is Some);
        assert(sl[i as int].unwrap().key == node.key);
        assert(sl[i as int].unwrap().cache_entry == node.cache_entry);
        assert(sl[i as int].unwrap().prev is None);
        assert(sl[i as int].unwrap().next == old_head);

        assert forall|q: int| 1 <= q < no.len() implies
            no[q] < sl.len() && no[q] != i && sl[no[q] as int] is Some
                && sl[no[q] as int].unwrap().key == old(cache).slots@[no[q] as int].unwrap().key
                && sl[no[q] as int].unwrap().cache_entry
                    == old(cache).slots@[no[q] as int].unwrap().cache_entry by {
            assert(old(cache).slots@[ord0[q - 1] as int] is Some);
        }

        assert(no.no_duplicates()) by {
            assert forall|a: int, b: int| 0 <= a < b < no.len() implies no[a] != no[b] by {
                if a == 0 {
                    assert(no[b] == ord0[b - 1] && no[b] != i);
                } else {
                    assert(no[a] == ord0[a - 1] && no[b] == ord0[b - 1]);
                }
            }
        }

        assert(cache.live_in_ord()) by {
            assert forall|j: usize|
                j < sl.len() && sl[j as int] is Some implies #[trigger] no.contains(j) by {
                if j == i {
                    assert(no[0] == j);
                } else {
                    assert(old(cache).slots@[j as int] is Some);
                    assert(ord0.contains(j));
                    let q = choose|q: int| 0 <= q < ord0.len() && ord0[q] == j;
                    assert(no[q + 1] == j);
                }
            }
        }

        assert(cache.links_ok()) by {
            assert forall|q: int| 0 <= q < no.len() implies #[trigger] cache.link_ok(q) by {
                if q == 0 {
                    if no.len() > 1 {
                        assert(no[1] == ord0[0]);
                    }
                } else {
                    assert(old(cache).link_ok(q - 1));
                    let m = no[q];
                    assert(m == ord0[q - 1]);
                    if q == 1 {
                        assert(m == ord0[0]);
                        assert(sl[m as int].unwrap().prev == Some(i));
                        assert(sl[m as int].unwrap().next
                            == old(cache).slots@[m as int].unwrap().next);
                        if q + 1 < no.len() {
                            assert(no[q + 1] == ord0[q]);
                        }
                    } else {
                        assert(m != ord0[0] && m != i);
                        assert(sl[m as int] == old(cache).slots@[m as int]);
                        assert(no[q - 1] == ord0[q - 2]);
                        if q + 1 < no.len() {
                            assert(no[q + 1] == ord0[q]);
                        }
                    }
                }
            }
        }

        assert(cache.ends_ok()) by {
            if ord0.len() > 0 {
                assert(no[no.len() - 1] == ord0[ord0.len() - 1]);
            } else {
                assert(no[no.len() - 1] == i);
            }
        }

        assert(cache@ =~= v0.insert(0, pair)) by {
            assert forall|q: int| 0 <= q < no.len() implies
                cache@[q] == v0.insert(0, pair)[q] by {
                if q == 0 {
                } else {
                    assert(no[q] == ord0[q - 1]);
                    assert(cache@[q] == v0[q - 1]);
                }
            }
        }

        assert(distinct_keys(cache@)) by {
            let v1 = v0.insert(0, pair);
            assert forall|a: int, b: int| 0 <= a < b < v1.len() implies v1[a].0 != v1[b].0 by {
                if a == 0 {
                    assert(v1[b].0 == v0[b - 1].0);
                    if v1[b].0 == pair.0 {
                        assert(contains_key(v0, pair.0));
                    }
                } else {
                    assert(v1[a].0 == v0[a - 1].0 && v1[b].0 == v0[b - 1].0);
                }
            }
        }

        lemma_total_bytes_insert_front(v0, pair);
    }
}

/// Eviction: while the byte total is at or above capacity and the list is
/// non-empty, unlinks the least recently used node, drops it, returns its
/// slot to the free list and subtracts its payload length.  Each iteration
/// removes one node, so the pass terminates even on zero-length payloads.
pub fn purge(cache: &mut Cache)
    requires
        old(cache).wf(),
    ensures
        final(cache).wf(),
        final(cache)@ == evict(old(cache).spec_capacity(), old(cache)@),
        final(cache).spec_capacity() == old(cache).spec_capacity(),
{
    let ghost cap = old(cache).spec_capacity();
    let ghost v0 = old(cache)@;
    while cache.size >= cache.capacity && cache.tail.is_some()
        invariant
            cache.wf(),
            cache.spec_capacity() == cap,
            evict(cap, v0) == evict(cap, cache@),
        decreases cache.ord().len(),
    {
        let ghost c_in = *cache;
        let ghost ordc = c_in.ord();
        let ghost vc = c_in@;
        let ghost pl = ordc.len() - 1;
        let t = cache.tail.unwrap();
        proof {
            assert(ordc.len() > 0);
            assert(ordc[pl] == t);
            assert(cache.link_ok(pl));
            assert(cache.slots@[ordc[pl] as int] is Some);
            if pl > 0 {
                assert(cache.link_ok(pl - 1));
                assert(cache.slots@[ordc[pl - 1] as int] is Some);
            }
            assert(forall|a: int, b: int|
                0 <= a < ordc.len() && 0 <= b < ordc.len() && ordc[a] == ordc[b] ==> a == b);
        }
        let mut pr_opt: Option<usize> = None;
        let mut dlen: usize = 0;
        match &cache.slots[t] {
            Some(node) => {
                pr_opt = node.prev;
                dlen = node.cache_entry.data.len();
            },
            None => {},
        }
        proof {
            assert(pr_opt == (if pl > 0 {
                Some(ordc[pl - 1])
            } else {
                None::<usize>
            }));
            lemma_total_bytes_drop_last(vc);
        }
        let ghost slots_before = cache.slots@;
        let ghost free_before = cache.free@;
        match pr_opt {
            Some(prv) => {
                slot_set_next(&mut cache.slots, prv, None);
                cache.tail = Some(prv);
            },
            None => {
                cache.head = None;
                cache.tail = None;
            },
        }
        cache.slots[t] = None;
        cache.free.push(t);
        cache.size = cache.size - dlen;
        proof {
            let no = ordc.drop_last();
            cache.order@ = no;
            let sl = cache.slots@;
            assert(no =~= ordc.subrange(0, pl));
            assert(forall|q: int| 0 <= q < pl ==> #[trigger] no[q] == ordc[q]);
            assert(sl[t as int] is None);

            assert forall|q: int| 0 <= q < pl implies
                no[q] < sl.len() && no[q] != t && sl[no[q] as int] is Some
                    && sl[no[q] as int].unwrap().key == slots_before[no[q] as int].unwrap().key
                    && sl[no[q] as int].unwrap().cache_entry
                        == slots_before[no[q] as int].unwrap().cache_entry by {
                assert(slots_before[ordc[q] as int] is Some);
            }

            assert(cache.free_ok()) by {
                assert(cache.free@ == free_before.push(t));
                assert forall|j: int| 0 <= j < cache.free@.len() implies
                    (#[trigger] cache.free@[j]) < sl.len()
                        && sl[cache.free@[j] as int] is None by {
                    if j < free_before.len() {
                        assert(slots_before[free_before[j] as int] is None);
                        assert(free_before[j] != t);
                    }
                }
                assert(cache.free@.no_duplicates()) by {
                    assert forall|a: int, b: int|
                        0 <= a < b < cache.free@.len() implies
                        cache.free@[a] != cache.free@[b] by {
                        if b == free_before.len() {
                            assert(slots_before[free_before[a] as int] is None);
                            assert(slots_before[t as int] is Some);
                        }
                    }
                }
            }

            assert(cache.live_in_ord()) by {
                assert forall|j: usize|
                    j < sl.len() && sl[j as int] is Some implies #[trigger] no.contains(j) by {
                    assert(j != t);
                    assert(slots_before[j as int] is Some);
                    assert(ordc.contains(j));
                    let q = choose|q: int| 0 <= q < ordc.len() && ordc[q] == j;
                    assert(q != pl);
                    assert(no[q] == j);
                }
            }

            assert(cache.links_ok()) by {
                assert forall|q: int| 0 <= q < no.len() implies #[trigger] cache.link_ok(q) by {
                    let m = no[q];
                    assert(m == ordc[q]);
                    assert(c_in.link_ok(q));
                    if q == pl - 1 {
                        assert(sl[m as int].unwrap().next is None);
                        if q > 0 {
                            assert(no[q - 1] == ordc[q - 1]);
                        }
                    } else {
                        assert(m != ordc[pl - 1] || pl - 1 == q);
                        assert(sl[m as int] == slots_before[m as int]);
                        assert(no[q + 1] == ordc[q + 1]);
                        if q > 0 {
                            assert(no[q - 1] == ordc[q - 1]);
                        }
                    }
                }
            }

            assert(cache.ends_ok()) by {
                if pl > 0 {
                    assert(no[0] == ordc[0]);
                    assert(no[no.len() - 1] == ordc[pl - 1]);
                }
            }

            assert(cache@ =~= vc.drop_last()) by {
                assert forall|q: int| 0 <= q < no.len() implies
                    cache@[q] == vc.drop_last()[q] by {
                    assert(no[q] == ordc[q]);
                }
            }

            assert(distinct_keys(cache@)) by {
                assert forall|a: int, b: int|
                    0 <= a < b < cache@.len() implies cache@[a].0 != cache@[b].0 by {
                    assert(cache@[a] == vc[a] && cache@[b] == vc[b]);
                }
            }

            // the eviction chain advances by one unfolding
            assert(total_bytes(vc) >= cap && vc.len() > 0);
            assert(evict(cap, vc) == evict(cap, vc.drop_last()));
        }
    }
    proof {
        if cache.size >= cache.capacity {
            assert(cache.tail is None);
            assert(cache@.len() == 0);
        }
        assert(evict(cap, cache@) == cache@);
    }
}

/// Repoints the forward link of the node in slot `i`.
fn slot_set_next(slots: &mut Vec<Option<CacheList>>, i: usize, nx: Option<usize>)
    requires
        i < old(slots)@.len(),
        old(slots)@[i as int] is Some,
    ensures
        final(slots)@ == old(slots)@.update(i as int, (Some(CacheList {
            key: old(slots)@[i as int].unwrap().key,
            cache_entry: old(slots)@[i as int].unwrap().cache_entry,
            next: nx,
            prev: old(slots)@[i as int].unwrap().prev,
        }))),
{
    match &mut slots[i] {
        Some(node) => {
            node.next = nx;
        },
        None => {},
    }
}

/// Repoints the backward link of the node in slot `i`.
fn slot_set_prev(slots: &mut Vec<Option<CacheList>>, i: usize, pr: Option<usize>)
    requires
        i < old(slots)@.len(),
        old(slots)@[i as int] is Some,
    ensures
        final(slots)@ == old(slots)@.update(i as int, (Some(CacheList {
            key: old(slots)@[i as int].unwrap().key,
            cache_entry: old(slots)@[i as int].unwrap().cache_entry,
            next: old(slots)@[i as int].unwrap().next,
            prev: pr,
        }))),
{
    match &mut slots[i] {
        Some(node) => {
            node.prev = pr;
        },
        None => {},
    }
}

/// Replaces the payload of the node in slot `i`.
fn slot_set_data(slots: &mut Vec<Option<CacheList>>, i: usize, d: Vec<u8>)
    requires
        i < old(slots)@.len(),
        old(slots)@[i as int] is Some,
    ensures
        final(slots)@ == old(slots)@.update(i as int, (Some(CacheList {
            key: old(slots)@[i as int].unwrap().key,
            cache_entry: CacheEntry { data: d },
            next: old(slots)@[i as int].unwrap().next,
            prev: old(slots)@[i as int].unwrap().prev,
        }))),
{
    match &mut slots[i] {
        Some(node) => {
            node.cache_entry.data = d;
        },
        None => {},
    }
}

/// Byte-for-byte copy of a payload.
fn clone_bytes(v: &Vec<u8>) -> (r: Vec<u8>)
    ensures
        r@ == v@,
{
    let r = v.clone();
    proof {
        assert forall|i: int| 0 <= i < v@.len() implies r@[i] == v@[i] by {
            assert(cloned::<u8>(v@[i], r@[i]));
        }
        assert(r@ =~= v@);
    }
    r
}

} // verus!
