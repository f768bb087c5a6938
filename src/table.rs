//! Tables keyed by string, in insertion order, with unique keys.

use std::collections::HashMap;
use vstd::prelude::*;

use crate::text::chars_of;

verus! {

/// Whether no key occurs twice.
pub open spec fn keys_unique<W>(t: Seq<(Seq<char>, W)>) -> bool {
    forall|i: int, j: int| 0 <= i < t.len() && 0 <= j < t.len() && i != j ==> t[i].0 != t[j].0
}

/// Whether `k` is a key of `t`.
pub open spec fn has_key<W>(t: Seq<(Seq<char>, W)>, k: Seq<char>) -> bool {
    exists|i: int| 0 <= i < t.len() && t[i].0 == k
}

/// The position of key `k` in `t`.
pub open spec fn key_pos<W>(t: Seq<(Seq<char>, W)>, k: Seq<char>) -> int {
    choose|i: int| 0 <= i < t.len() && t[i].0 == k
}

/// The value stored under `k`, if any.
pub open spec fn get<W>(t: Seq<(Seq<char>, W)>, k: Seq<char>) -> Option<W> {
    if has_key(t, k) {
        Some(t[key_pos(t, k)].1)
    } else {
        None
    }
}

/// `t` with `(k, w)` added unless `k` is already a key: the first value
/// stored under a key is the one kept.
pub open spec fn insert_first<W>(t: Seq<(Seq<char>, W)>, k: Seq<char>, w: W) -> Seq<(Seq<char>, W)> {
    if has_key(t, k) {
        t
    } else {
        t.push((k, w))
    }
}

/// `t` with `x` appended to the group under `k`, a new group if `k` is new.
pub open spec fn push_grouped<T>(t: Seq<(Seq<char>, Seq<T>)>, k: Seq<char>, x: T) -> Seq<
    (Seq<char>, Seq<T>),
> {
    if has_key(t, k) {
        t.update(key_pos(t, k), (k, t[key_pos(t, k)].1.push(x)))
    } else {
        t.push((k, seq![x]))
    }
}

/// In a table with unique keys, the value under a key is the one at its
/// position.
pub proof fn lemma_get_at<W>(t: Seq<(Seq<char>, W)>, i: int)
    requires
        keys_unique(t),
        0 <= i < t.len(),
    ensures
        has_key(t, t[i].0),
        key_pos(t, t[i].0) == i,
        get(t, t[i].0) == Some(t[i].1),
{
    assert(has_key(t, t[i].0));
}

/// Adding under a new key keeps the keys unique.
pub proof fn lemma_insert_first_unique<W>(t: Seq<(Seq<char>, W)>, k: Seq<char>, w: W)
    requires
        keys_unique(t),
    ensures
        keys_unique(insert_first(t, k, w)),
{
}

/// Appending to a group keeps the keys unique.
pub proof fn lemma_push_grouped_unique<T>(t: Seq<(Seq<char>, Seq<T>)>, k: Seq<char>, x: T)
    requires
        keys_unique(t),
    ensures
        keys_unique(push_grouped(t, k, x)),
{
    if has_key(t, k) {
        let p = key_pos(t, k);
        assert(t[p].0 == k);
    }
}

/// What `insert_first` does to a lookup.
pub proof fn lemma_get_insert_first<W>(t: Seq<(Seq<char>, W)>, k: Seq<char>, w: W, q: Seq<char>)
    requires
        keys_unique(t),
    ensures
        get(insert_first(t, k, w), q) == if has_key(t, q) {
            get(t, q)
        } else if q == k {
            Some(w)
        } else {
            None
        },
{
    let u = insert_first(t, k, w);
    lemma_insert_first_unique(t, k, w);
    if has_key(t, q) {
        let p = key_pos(t, q);
        if !has_key(t, k) {
            assert(u[p] == t[p]);
        }
        lemma_get_at(u, p);
    } else if q == k {
        lemma_get_at(u, t.len() as int);
    } else {
        assert(!has_key(u, q)) by {
            if has_key(u, q) {
                let p = key_pos(u, q);
                if p < t.len() {
                    assert(t[p] == u[p]);
                }
            }
        }
    }
}

/// The position of `k` in `t`, if it is a key there.
pub fn find_key<V>(t: &Vec<(String, V)>, k: &String) -> (r: Option<usize>)
    ensures
        r matches Some(i) ==> i < t@.len() && t@[i as int].0@ == k@,
        r is None ==> forall|i: int| 0 <= i < t@.len() ==> t@[i].0@ != k@,
{
    let n = t.len();
    if n > 0 && t[n - 1].0 == *k {
        return Some(n - 1);
    }
    let mut i: usize = 0;
    while i < n
        invariant
            n == t@.len(),
            i <= n,
            forall|j: int| 0 <= j < i ==> t@[j].0@ != k@,
        decreases n - i,
    {
        if t[i].0 == *k {
            return Some(i);
        }
        i = i + 1;
    }
    None
}

/// A hash of a key: its characters folded in with a multiplier of 31,
/// modulo 2^64.
pub open spec fn key_hash(s: Seq<char>) -> u64
    decreases s.len(),
{
    if s.len() == 0 {
        0
    } else {
        ((key_hash(s.drop_last()) as int * 31 + (s.last() as u32) as int)
            % 0x1_0000_0000_0000_0000) as u64
    }
}

/// Computes `key_hash`.
pub fn hash_key(k: &String) -> (r: u64)
    ensures
        r == key_hash(k@),
{
    let cs = chars_of(k.as_str());
    let mut h: u64 = 0;
    let mut i: usize = 0;
    while i < cs.len()
        invariant
            i <= cs@.len(),
            h == key_hash(cs@.take(i as int)),
        decreases cs@.len() - i,
    {
        assert(cs@.take(i + 1).drop_last() =~= cs@.take(i as int));
        h = ((h as u128 * 31 + (cs[i] as u32) as u128) % 0x1_0000_0000_0000_0000) as u64;
        i = i + 1;
    }
    assert(cs@.take(i as int) =~= cs@);
    h
}

/// Whether `ix` lists, under the hash of each key of `t`, the key's
/// position, and lists only positions inside `t`.
pub open spec fn indexed<V>(t: Seq<(String, V)>, ix: Map<u64, Vec<usize>>) -> bool {
    &&& forall|i: int|
        0 <= i < t.len() ==> ix.contains_key(key_hash(#[trigger] t[i].0@)) && ix[key_hash(
            t[i].0@,
        )]@.contains(i as usize)
    &&& forall|h: u64, q: int|
        ix.contains_key(h) && 0 <= q < ix[h]@.len() ==> (#[trigger] ix[h]@[q] as int) < t.len()
}

/// A table with the same keys at the same positions has the same index.
pub proof fn lemma_indexed_same_keys<V>(t: Seq<(String, V)>, u: Seq<(String, V)>, ix: Map<u64, Vec<usize>>)
    requires
        indexed(t, ix),
        t.len() == u.len(),
        forall|i: int| 0 <= i < t.len() ==> t[i].0@ == u[i].0@,
    ensures
        indexed(u, ix),
{
    assert forall|i: int| 0 <= i < u.len() implies ix.contains_key(key_hash(#[trigger] u[i].0@))
        && ix[key_hash(u[i].0@)]@.contains(i as usize) by {
        assert(t[i].0@ == u[i].0@);
    }
}

/// The position of `k` in `t`, found through the index.
pub fn find_key_indexed<V>(t: &Vec<(String, V)>, ix: &HashMap<u64, Vec<usize>>, k: &String) -> (r:
    Option<usize>)
    requires
        indexed(t@, ix@),
    ensures
        r matches Some(i) ==> i < t@.len() && t@[i as int].0@ == k@,
        r is None ==> forall|i: int| 0 <= i < t@.len() ==> t@[i].0@ != k@,
{
    broadcast use vstd::std_specs::hash::group_hash_axioms;
    let n = t.len();
    let h = hash_key(k);
    match ix.get(&h) {
        None => {
            assert forall|i: int| 0 <= i < t@.len() implies t@[i].0@ != k@ by {
                if t@[i].0@ == k@ {
                    assert(ix@.contains_key(key_hash(t@[i].0@)));
                }
            }
            None
        },
        Some(b) => {
            let mut q: usize = 0;
            while q < b.len()
                invariant
                    indexed(t@, ix@),
                    ix@.contains_key(h),
                    ix@[h] == *b,
                    q <= b@.len(),
                    forall|j: int| 0 <= j < q ==> t@[#[trigger] b@[j] as int].0@ != k@,
                decreases b@.len() - q,
            {
                let p = b[q];
                assert(ix@[h]@[q as int] == p);
                if t[p].0 == *k {
                    return Some(p);
                }
                q = q + 1;
            }
            assert forall|i: int| 0 <= i < t@.len() implies t@[i].0@ != k@ by {
                if t@[i].0@ == k@ {
                    assert(i < n);
                    assert(b@.contains(i as usize));
                    let j = choose|j: int| 0 <= j < b@.len() && b@[j] == i as usize;
                    assert(b@[j] as int == i);
                    assert(t@[b@[j] as int].0@ != k@);
                }
            }
            None
        },
    }
}

/// Records that key `k` stands at position `t.len()` of a table that grows
/// by one entry.
pub fn index_push<V>(
    ix: &mut HashMap<u64, Vec<usize>>,
    k: &String,
    pos: usize,
    Ghost(t): Ghost<Seq<(String, V)>>,
    Ghost(e): Ghost<(String, V)>,
)
    requires
        indexed(t, old(ix)@),
        pos == t.len(),
        e.0@ == k@,
    ensures
        indexed(t.push(e), final(ix)@),
{
    broadcast use vstd::std_specs::hash::group_hash_axioms;
    let h = hash_key(k);
    let ghost old_ix = ix@;
    let b = match ix.remove(&h) {
        Some(mut b) => {
            b.push(pos);
            b
        },
        None => vec![pos],
    };
    let ghost nb = b@;
    ix.insert(h, b);
    let ghost u = t.push(e);
    assert forall|i: int| 0 <= i < u.len() implies ix@.contains_key(key_hash(#[trigger] u[i].0@))
        && ix@[key_hash(u[i].0@)]@.contains(i as usize) by {
        if i == t.len() {
            assert(ix@[h]@[ix@[h]@.len() - 1] == pos);
        } else {
            assert(u[i] == t[i]);
            let hi = key_hash(t[i].0@);
            if hi == h {
                let j = choose|j: int| 0 <= j < old_ix[hi]@.len() && old_ix[hi]@[j] == i as usize;
                assert(ix@[h]@[j] == i as usize);
            }
        }
    }
    assert forall|g: u64, q: int| ix@.contains_key(g) && 0 <= q < ix@[g]@.len() implies (
    #[trigger] ix@[g]@[q] as int) < u.len() by {
        if g == h {
            if q < nb.len() - 1 {
                assert(old_ix.contains_key(h));
                assert(ix@[g]@[q] == old_ix[h]@[q]);
            }
        } else {
            assert(ix@[g] == old_ix[g]);
        }
    }
}

} // verus!
