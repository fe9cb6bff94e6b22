//! Mathematical model of the cache: a sequence of `(key, payload)` pairs in
//! recency order, most recently used first.  The executable cache's view is a
//! value of this model, and its operations are specified by the functions
//! here: `spec_add` for insertion and update, `spec_touch` for the recency
//! change of a lookup, `evict` for trimming the least recently used tail.

use vstd::prelude::*;

verus! {

/// Recency order of a cache: `(key, payload)` pairs, most recently used first.
pub type CacheModel = Seq<(Seq<char>, Seq<u8>)>;

/// Total number of payload bytes held.
pub open spec fn total_bytes(s: CacheModel) -> nat
    decreases s.len(),
{
    if s.len() == 0 {
        0
    } else {
        s.first().1.len() + total_bytes(s.drop_first())
    }
}

/// Whether some entry holds `k`.
pub open spec fn contains_key(s: CacheModel, k: Seq<char>) -> bool {
    exists|i: int| 0 <= i < s.len() && s[i].0 == k
}

/// Position of the entry holding `k` (unique when keys are distinct).
pub open spec fn index_of_key(s: CacheModel, k: Seq<char>) -> int {
    choose|i: int| 0 <= i < s.len() && s[i].0 == k
}

/// The payload stored under `k`, if any.
pub open spec fn lookup(s: CacheModel, k: Seq<char>) -> Option<Seq<u8>> {
    if contains_key(s, k) {
        Some(s[index_of_key(s, k)].1)
    } else {
        None
    }
}

/// No two entries share a key.
pub open spec fn distinct_keys(s: CacheModel) -> bool {
    forall|i: int, j: int| 0 <= i < j < s.len() ==> s[i].0 != s[j].0
}

/// The entry holding `k` moved to the front, its payload replaced by `d`.
pub open spec fn promoted(s: CacheModel, k: Seq<char>, d: Seq<u8>) -> CacheModel
    recommends
        contains_key(s, k),
{
    s.remove(index_of_key(s, k)).insert(0, (k, d))
}

/// Entries dropped from the least-recently-used end while the total is at or
/// above the capacity.  A zero-length entry still costs an iteration, so the
/// recursion removes one entry per step regardless of its length.
pub open spec fn evict(cap: nat, s: CacheModel) -> CacheModel
    decreases s.len(),
{
    if s.len() > 0 && total_bytes(s) >= cap {
        evict(cap, s.drop_last())
    } else {
        s
    }
}

/// State after `add(k, d)` on a cache of byte capacity `cap`:
/// a no-op when the cache is disabled, an in-place update with promotion when
/// `k` is present (no eviction pass), and otherwise insertion at the front
/// followed by eviction.
pub open spec fn spec_add(cap: nat, s: CacheModel, k: Seq<char>, d: Seq<u8>) -> CacheModel {
    if cap == 0 {
        s
    } else if contains_key(s, k) {
        promoted(s, k, d)
    } else {
        evict(cap, s.insert(0, (k, d)))
    }
}

/// Result of `get(k)` on a cache of byte capacity `cap`.
pub open spec fn spec_get(cap: nat, s: CacheModel, k: Seq<char>) -> Option<Seq<u8>> {
    if cap == 0 {
        None
    } else {
        lookup(s, k)
    }
}

/// State after `get(k)`: a hit promotes the entry, anything else is a no-op.
pub open spec fn spec_touch(cap: nat, s: CacheModel, k: Seq<char>) -> CacheModel {
    if cap == 0 || !contains_key(s, k) {
        s
    } else {
        promoted(s, k, s[index_of_key(s, k)].1)
    }
}

pub proof fn lemma_total_bytes_concat(a: CacheModel, b: CacheModel)
    ensures
        total_bytes(a + b) == total_bytes(a) + total_bytes(b),
    decreases a.len(),
{
    if a.len() == 0 {
        assert(a + b =~= b);
    } else {
        assert((a + b).drop_first() =~= a.drop_first() + b);
        assert((a + b).first() == a.first());
        lemma_total_bytes_concat(a.drop_first(), b);
    }
}

pub proof fn lemma_total_bytes_singleton(p: (Seq<char>, Seq<u8>))
    ensures
        total_bytes(seq![p]) == p.1.len(),
{
    let e = Seq::<(Seq<char>, Seq<u8>)>::empty();
    assert(total_bytes(e) == 0);
    assert(seq![p].drop_first() =~= e);
    assert(seq![p].first() == p);
}

pub proof fn lemma_total_bytes_remove(s: CacheModel, i: int)
    requires
        0 <= i < s.len(),
    ensures
        total_bytes(s.remove(i)) + s[i].1.len() == total_bytes(s),
{
    let left = s.subrange(0, i);
    let right = s.subrange(i + 1, s.len() as int);
    assert(s =~= left + seq![s[i]] + right);
    assert(s.remove(i) =~= left + right);
    lemma_total_bytes_concat(left + seq![s[i]], right);
    lemma_total_bytes_concat(left, seq![s[i]]);
    lemma_total_bytes_concat(left, right);
    lemma_total_bytes_singleton(s[i]);
}

pub proof fn lemma_total_bytes_insert_front(s: CacheModel, p: (Seq<char>, Seq<u8>))
    ensures
        total_bytes(s.insert(0, p)) == total_bytes(s) + p.1.len(),
{
    assert(s.insert(0, p) =~= seq![p] + s);
    lemma_total_bytes_concat(seq![p], s);
    lemma_total_bytes_singleton(p);
}

pub proof fn lemma_total_bytes_drop_last(s: CacheModel)
    requires
        s.len() > 0,
    ensures
        total_bytes(s.drop_last()) + s.last().1.len() == total_bytes(s),
{
    lemma_total_bytes_remove(s, s.len() - 1);
    assert(s.remove(s.len() - 1) =~= s.drop_last());
}

pub proof fn lemma_total_bytes_update(s: CacheModel, i: int, p: (Seq<char>, Seq<u8>))
    requires
        0 <= i < s.len(),
    ensures
        total_bytes(s.update(i, p)) == total_bytes(s) - s[i].1.len() + p.1.len(),
{
    assert(s.update(i, p).remove(i) =~= s.remove(i));
    lemma_total_bytes_remove(s.update(i, p), i);
    lemma_total_bytes_remove(s, i);
}

/// With distinct keys, the position found by `index_of_key` is the only one.
pub proof fn lemma_index_of_key_unique(s: CacheModel, k: Seq<char>, i: int)
    requires
        distinct_keys(s),
        0 <= i < s.len(),
        s[i].0 == k,
    ensures
        contains_key(s, k),
        index_of_key(s, k) == i,
{
    assert(contains_key(s, k));
    let j = index_of_key(s, k);
    assert(0 <= j < s.len() && s[j].0 == k);
}

/// Eviction removes entries from the least-recently-used end only: what
/// remains is a prefix of the recency order.
pub proof fn lemma_evict_prefix(cap: nat, s: CacheModel)
    ensures
        evict(cap, s).len() <= s.len(),
        evict(cap, s) == s.take(evict(cap, s).len() as int),
    decreases s.len(),
{
    if s.len() > 0 && total_bytes(s) >= cap {
        lemma_evict_prefix(cap, s.drop_last());
        let n = evict(cap, s.drop_last()).len() as int;
        assert(s.drop_last() =~= s.take(s.len() - 1));
        assert(s.take(s.len() - 1).take(n) =~= s.take(n));
    } else {
        assert(evict(cap, s) =~= s.take(s.len() as int));
    }
}

/// After eviction the cache is under capacity or empty.
pub proof fn lemma_evict_total(cap: nat, s: CacheModel)
    ensures
        evict(cap, s).len() == 0 || total_bytes(evict(cap, s)) < cap,
    decreases s.len(),
{
    if s.len() > 0 && total_bytes(s) >= cap {
        lemma_evict_total(cap, s.drop_last());
    }
}

/// An entry at the most-recently-used position survives eviction as long as
/// it alone fits under the capacity.
pub proof fn lemma_evict_keeps_front(cap: nat, s: CacheModel)
    requires
        s.len() > 0,
        s.first().1.len() < cap,
    ensures
        evict(cap, s).len() > 0,
        evict(cap, s).first() == s.first(),
    decreases s.len(),
{
    if total_bytes(s) >= cap {
        if s.len() == 1 {
            assert(s =~= seq![s.first()]);
            lemma_total_bytes_singleton(s.first());
        } else {
            assert(s.drop_last().first() == s.first());
            lemma_evict_keeps_front(cap, s.drop_last());
        }
    }
}

pub proof fn lemma_distinct_prefix(s: CacheModel, n: int)
    requires
        distinct_keys(s),
        0 <= n <= s.len(),
    ensures
        distinct_keys(s.take(n)),
{
}

/// Promotion keeps the length, the set of keys and the distinctness of keys,
/// and places `(k, d)` at the most-recently-used position.
pub proof fn lemma_distinct_promoted(s: CacheModel, k: Seq<char>, d: Seq<u8>)
    requires
        distinct_keys(s),
        contains_key(s, k),
    ensures
        distinct_keys(promoted(s, k, d)),
        promoted(s, k, d).len() == s.len(),
        promoted(s, k, d).first() == (k, d),
        forall|k2: Seq<char>| contains_key(promoted(s, k, d), k2) <==> contains_key(s, k2),
{
    let i = index_of_key(s, k);
    assert(0 <= i < s.len() && s[i].0 == k);
    let r = s.remove(i);
    let p = r.insert(0, (k, d));
    assert forall|k2: Seq<char>| contains_key(p, k2) implies contains_key(s, k2) by {
        let j = choose|j: int| 0 <= j < p.len() && p[j].0 == k2;
        if j == 0 {
            assert(s[i].0 == k2);
        } else if j - 1 < i {
            assert(s[j - 1].0 == k2);
        } else {
            assert(s[j].0 == k2);
        }
    }
    assert forall|k2: Seq<char>| contains_key(s, k2) implies contains_key(p, k2) by {
        let j = choose|j: int| 0 <= j < s.len() && s[j].0 == k2;
        if j == i {
            assert(p[0].0 == k2);
        } else if j < i {
            assert(p[j + 1].0 == k2);
        } else {
            assert(p[j].0 == k2);
        }
    }
    assert forall|a: int, b: int| 0 <= a < b < p.len() implies p[a].0 != p[b].0 by {
        let sa = if a == 0 { i } else if a - 1 < i { a - 1 } else { a };
        let sb = if b - 1 < i { b - 1 } else { b };
        assert(p[a].0 == s[sa].0);
        assert(p[b].0 == s[sb].0);
    }
}

/// Promotion with the entry's own payload changes no association: every key
/// still maps to the same payload.
pub proof fn lemma_promoted_lookup(s: CacheModel, k: Seq<char>)
    requires
        distinct_keys(s),
        contains_key(s, k),
    ensures
        forall|k2: Seq<char>|
            lookup(promoted(s, k, s[index_of_key(s, k)].1), k2) == lookup(s, k2),
{
    let i = index_of_key(s, k);
    assert(0 <= i < s.len() && s[i].0 == k);
    let d = s[i].1;
    let p = promoted(s, k, d);
    lemma_distinct_promoted(s, k, d);
    assert forall|k2: Seq<char>| lookup(p, k2) == lookup(s, k2) by {
        if contains_key(s, k2) {
            let i2 = index_of_key(s, k2);
            assert(0 <= i2 < s.len() && s[i2].0 == k2);
            let pos = if i2 == i { 0int } else if i2 < i { i2 + 1 } else { i2 };
            assert(p[pos] == (s[i2].0, s[i2].1));
            lemma_index_of_key_unique(p, k2, pos);
            lemma_index_of_key_unique(s, k2, i2);
        } else {
            assert(!contains_key(p, k2));
        }
    }
}

/// Round trip: on an enabled cache, `add(k, d)` followed by `get(k)` returns
/// `d`, provided `d` alone fits under the capacity (a payload at or above the
/// capacity is evicted by the same `add` that stored it).
pub proof fn lemma_add_get_round_trip(cap: nat, s: CacheModel, k: Seq<char>, d: Seq<u8>)
    requires
        cap > 0,
        d.len() < cap,
        distinct_keys(s),
    ensures
        spec_get(cap, spec_add(cap, s, k, d), k) == Some(d),
{
    if contains_key(s, k) {
        lemma_distinct_promoted(s, k, d);
        let p = promoted(s, k, d);
        lemma_index_of_key_unique(p, k, 0);
    } else {
        let t = s.insert(0, (k, d));
        assert(distinct_keys(t)) by {
            assert forall|a: int, b: int| 0 <= a < b < t.len() implies t[a].0 != t[b].0 by {
                if a == 0 {
                    assert(t[b].0 == s[b - 1].0);
                    assert(s[b - 1].0 != k);
                } else {
                    assert(t[a].0 == s[a - 1].0 && t[b].0 == s[b - 1].0);
                }
            }
        }
        lemma_evict_keeps_front(cap, t);
        lemma_evict_prefix(cap, t);
        let e = evict(cap, t);
        lemma_distinct_prefix(t, e.len() as int);
        assert(e =~= t.take(e.len() as int));
        lemma_index_of_key_unique(e, k, 0);
    }
}

/// Update delta: overwriting an existing key changes the total byte count by
/// exactly the difference of the payload lengths, never by the full new
/// length.
pub proof fn lemma_update_delta(cap: nat, s: CacheModel, k: Seq<char>, d2: Seq<u8>)
    requires
        cap > 0,
        distinct_keys(s),
        contains_key(s, k),
    ensures
        total_bytes(spec_add(cap, s, k, d2)) ==
            total_bytes(s) - lookup(s, k).unwrap().len() + d2.len(),
{
    let i = index_of_key(s, k);
    assert(0 <= i < s.len() && s[i].0 == k);
    lemma_total_bytes_remove(s, i);
    lemma_total_bytes_insert_front(s.remove(i), (k, d2));
}

/// Recency reset: a hit moves its entry to the most-recently-used position
/// while keeping membership, every association, and the total byte count;
/// combined with `lemma_evict_prefix` (eviction takes the tail only), an
/// accessed entry is always the last to be evicted.
pub proof fn lemma_get_promotes(cap: nat, s: CacheModel, k: Seq<char>)
    requires
        cap > 0,
        distinct_keys(s),
        contains_key(s, k),
    ensures
        spec_touch(cap, s, k).len() == s.len(),
        spec_touch(cap, s, k).first().0 == k,
        distinct_keys(spec_touch(cap, s, k)),
        total_bytes(spec_touch(cap, s, k)) == total_bytes(s),
        forall|k2: Seq<char>| lookup(spec_touch(cap, s, k), k2) == lookup(s, k2),
{
    let i = index_of_key(s, k);
    assert(0 <= i < s.len() && s[i].0 == k);
    lemma_distinct_promoted(s, k, s[i].1);
    lemma_promoted_lookup(s, k);
    lemma_total_bytes_remove(s, i);
    lemma_total_bytes_insert_front(s.remove(i), (k, s[i].1));
}

/// Capacity bound: storing a new key ends with the total under capacity or
/// the cache empty — an excess outlives only an in-place update, never the
/// eviction pass that closes an insertion.
pub proof fn lemma_insert_bounded(cap: nat, s: CacheModel, k: Seq<char>, d: Seq<u8>)
    requires
        cap > 0,
        !contains_key(s, k),
    ensures
        total_bytes(spec_add(cap, s, k, d)) < cap || spec_add(cap, s, k, d).len() == 0,
{
    lemma_evict_total(cap, s.insert(0, (k, d)));
}

/// A cache constructed with capacity zero is disabled: `add` changes nothing
/// and `get` always misses.
pub proof fn lemma_disabled_cache(s: CacheModel, k: Seq<char>, d: Seq<u8>)
    ensures
        spec_add(0, s, k, d) == s,
        spec_get(0, s, k) is None,
{
}

} // verus!
