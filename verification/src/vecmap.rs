//! An insertion-ordered map keyed by 64-bit identifiers.
//!
//! The crawl database keeps its per-domain and per-URL state in these maps.
//! Iteration (by index) visits keys in first-insertion order, which gives the
//! scheduling code a deterministic traversal.

use vstd::prelude::*;

verus! {

/// A map from identifiers to values, with index access in insertion order.
pub struct VecMap<V> {
    keys: Vec<u64>,
    vals: Vec<V>,
    contents: Ghost<Map<u64, V>>,
}

impl<V> View for VecMap<V> {
    type V = Map<u64, V>;

    closed spec fn view(&self) -> Map<u64, V> {
        self.contents@
    }
}

impl<V> VecMap<V> {
    /// The keys, in first-insertion order.
    pub closed spec fn keys_seq(&self) -> Seq<u64> {
        self.keys@
    }

    /// The map's internal bookkeeping is consistent with its view.
    pub closed spec fn wf(&self) -> bool {
        &&& self.keys@.len() == self.vals@.len()
        &&& (forall|i: int, j: int| 0 <= i < j < self.keys@.len() ==> self.keys@[i] != self.keys@[j])
        &&& (forall|k: u64|
            self.contents@.contains_key(k) <==> exists|i: int|
                0 <= i < self.keys@.len() && #[trigger] self.keys@[i] == k)
        &&& (forall|i: int|
            0 <= i < self.keys@.len() ==> #[trigger] self.contents@.contains_key(self.keys@[i])
                && self.contents@[self.keys@[i]] == self.vals@[i])
    }

    /// Key order and view agree: keys are pairwise distinct and are exactly
    /// the map's domain.
    pub proof fn lemma_view(&self)
        requires
            self.wf(),
        ensures
            self.keys_seq().no_duplicates(),
            forall|k: u64| self.keys_seq().contains(k) <==> self@.contains_key(k),
            forall|i: int|
                0 <= i < self.keys_seq().len() ==> self@.contains_key(#[trigger] self.keys_seq()[i]),
    {
        reveal(Seq::no_duplicates);
        assert forall|k: u64| self.keys_seq().contains(k) <==> self@.contains_key(k) by {
            if self.keys_seq().contains(k) {
                let i = choose|i: int|
                    0 <= i < self.keys@.len() && #[trigger] self.keys@[i] == k;
                assert(self@.contains_key(k));
            }
            if self@.contains_key(k) {
                let i = choose|i: int|
                    0 <= i < self.keys@.len() && #[trigger] self.keys@[i] == k;
                assert(self.keys_seq().contains(k));
            }
        }
    }

    /// An empty map.
    pub fn new() -> (r: VecMap<V>)
        ensures
            r.wf(),
            r@ == Map::<u64, V>::empty(),
            r.keys_seq() == Seq::<u64>::empty(),
    {
        VecMap { keys: Vec::new(), vals: Vec::new(), contents: Ghost(Map::empty()) }
    }

    /// How many keys are present.
    pub fn len(&self) -> (r: usize)
        requires
            self.wf(),
        ensures
            r == self.keys_seq().len(),
    {
        self.keys.len()
    }

    /// Look an identifier up.
    pub fn get(&self, key: u64) -> (r: Option<&V>)
        requires
            self.wf(),
        ensures
            match r {
                Some(v) => self@.contains_key(key) && *v == self@[key],
                None => !self@.contains_key(key),
            },
    {
        let n = self.keys.len();
        let mut i: usize = 0;
        while i < n
            invariant
                self.wf(),
                n == self.keys@.len(),
                0 <= i <= n,
                forall|j: int| 0 <= j < i ==> self.keys@[j] != key,
            decreases n - i,
        {
            if self.keys[i] == key {
                return Some(&self.vals[i]);
            }
            i += 1;
        }
        proof {
            if self@.contains_key(key) {
                let j = choose|j: int| 0 <= j < self.keys@.len() && #[trigger] self.keys@[j] == key;
                assert(false);
            }
        }
        None
    }

    /// Insert or overwrite the value for `key`. A key seen for the first
    /// time goes to the end of the iteration order.
    #[verifier::loop_isolation(false)]
    pub fn insert(&mut self, key: u64, val: V)
        requires
            old(self).wf(),
        ensures
            final(self).wf(),
            final(self)@ == old(self)@.insert(key, val),
            final(self).keys_seq() == if old(self)@.contains_key(key) {
                old(self).keys_seq()
            } else {
                old(self).keys_seq().push(key)
            },
    {
        let ghost vv = val;
        let ghost new_map = self.contents@.insert(key, vv);
        let n = self.keys.len();
        let mut i: usize = 0;
        while i < n
            invariant
                self == old(self),
                self.wf(),
                n == self.keys@.len(),
                0 <= i <= n,
                forall|j: int| 0 <= j < i ==> self.keys@[j] != key,
            decreases n - i,
        {
            if self.keys[i] == key {
                self.vals[i] = val;
                self.contents = Ghost(new_map);
                proof {
                    assert(old(self).keys@[i as int] == key);
                    assert(old(self)@.contains_key(key));
                    lemma_vm_overwrite(*old(self), *self, key, vv, i as int);
                }
                return;
            }
            i += 1;
        }
        self.keys.push(key);
        self.vals.push(val);
        self.contents = Ghost(new_map);
        proof {
            assert(!old(self)@.contains_key(key)) by {
                if old(self)@.contains_key(key) {
                    let j = choose|j: int|
                        0 <= j < old(self).keys@.len() && #[trigger] old(self).keys@[j] == key;
                    assert(false);
                }
            }
            lemma_vm_fresh(*old(self), *self, key, vv);
            assert(self.keys_seq() =~= old(self).keys_seq().push(key));
        }
    }


    /// Exchange the value under a present key with `*other`.
    #[verifier::loop_isolation(false)]
    pub fn swap_at(&mut self, key: u64, other: &mut V)
        requires
            old(self).wf(),
            old(self)@.contains_key(key),
        ensures
            final(self).wf(),
            *final(other) == old(self)@[key],
            final(self)@ == old(self)@.insert(key, *old(other)),
            final(self).keys_seq() == old(self).keys_seq(),
    {
        let ghost vv = *other;
        let ghost new_map = self.contents@.insert(key, vv);
        let n = self.keys.len();
        let mut i: usize = 0;
        proof {
            if old(self)@.contains_key(key) {
                let j = choose|j: int|
                    0 <= j < old(self).keys@.len() && #[trigger] old(self).keys@[j] == key;
            }
        }
        while i < n
            invariant
                self == old(self),
                *other == *old(other),
                self.wf(),
                n == self.keys@.len(),
                0 <= i <= n,
                forall|j: int| 0 <= j < i ==> self.keys@[j] != key,
                exists|j: int| i <= j < n && #[trigger] self.keys@[j] == key,
            decreases n - i,
        {
            if self.keys[i] == key {
                core::mem::swap(&mut self.vals[i], other);
                self.contents = Ghost(new_map);
                proof {
                    assert(old(self).keys@[i as int] == key);
                    assert(old(self)@.contains_key(key));
                    lemma_vm_overwrite(*old(self), *self, key, vv, i as int);
                }
                return;
            }
            proof {
                let j = choose|j: int| i <= j < n && #[trigger] self.keys@[j] == key;
                assert(i + 1 <= j < n && self.keys@[j] == key);
            }
            i += 1;
        }
        proof {
            assert(false);
        }
    }

    /// The key at an iteration position.
    pub fn key_at(&self, i: usize) -> (r: u64)
        requires
            self.wf(),
            i < self.keys_seq().len(),
        ensures
            r == self.keys_seq()[i as int],
            self@.contains_key(r),
    {
        self.keys[i]
    }

    /// The value at an iteration position.
    pub fn val_at(&self, i: usize) -> (r: &V)
        requires
            self.wf(),
            i < self.keys_seq().len(),
        ensures
            self@.contains_key(self.keys_seq()[i as int]),
            *r == self@[self.keys_seq()[i as int]],
    {
        &self.vals[i]
    }
}

/// Overwriting the value row at the index holding `k` matches an insert on
/// the map view.
proof fn lemma_vm_overwrite<V>(pre: VecMap<V>, post: VecMap<V>, k: u64, v: V, i: int)
    requires
        pre.wf(),
        0 <= i < pre.keys@.len(),
        pre.keys@[i] == k,
        post.keys@ == pre.keys@,
        post.vals@.len() == pre.vals@.len(),
        post.vals@[i] == v,
        forall|j: int| 0 <= j < pre.vals@.len() && j != i ==> post.vals@[j] == pre.vals@[j],
        post.contents@ == pre.contents@.insert(k, v),
    ensures
        post.wf(),
{
    assert forall|q: u64| post.contents@.contains_key(q) implies exists|m: int|
        0 <= m < post.keys@.len() && #[trigger] post.keys@[m] == q by {
        if q == k {
            assert(post.keys@[i] == q);
        } else {
            assert(pre.contents@.contains_key(q));
            let m = choose|m: int| 0 <= m < pre.keys@.len() && #[trigger] pre.keys@[m] == q;
            assert(post.keys@[m] == q);
        }
    }
    assert forall|m: int| 0 <= m < post.keys@.len() implies #[trigger] post.contents@.contains_key(
        post.keys@[m],
    ) && post.contents@[post.keys@[m]] == post.vals@[m] by {
        if m == i {
            assert(post.keys@[m] == k);
        } else {
            if m < i {
                assert(pre.keys@[m] != pre.keys@[i]);
            } else {
                assert(pre.keys@[i] != pre.keys@[m]);
            }
            assert(post.keys@[m] == pre.keys@[m]);
            assert(pre.contents@.contains_key(pre.keys@[m]));
            assert(post.vals@[m] == pre.vals@[m]);
        }
    }
}

/// Appending a key row that was absent matches an insert on the map view.
proof fn lemma_vm_fresh<V>(pre: VecMap<V>, post: VecMap<V>, k: u64, v: V)
    requires
        pre.wf(),
        forall|j: int| 0 <= j < pre.keys@.len() ==> pre.keys@[j] != k,
        post.keys@ == pre.keys@.push(k),
        post.vals@.len() == pre.vals@.len() + 1,
        post.vals@[pre.vals@.len() as int] == v,
        forall|j: int| 0 <= j < pre.vals@.len() ==> post.vals@[j] == pre.vals@[j],
        post.contents@ == pre.contents@.insert(k, v),
    ensures
        post.wf(),
{
    let klen = post.keys@.len() as int;
    assert forall|q: u64| post.contents@.contains_key(q) implies exists|m: int|
        0 <= m < klen && #[trigger] post.keys@[m] == q by {
        if q == k {
            assert(post.keys@[klen - 1] == q);
        } else {
            assert(pre.contents@.contains_key(q));
            let m = choose|m: int| 0 <= m < pre.keys@.len() && #[trigger] pre.keys@[m] == q;
            assert(post.keys@[m] == q);
        }
    }
    assert forall|m: int| 0 <= m < klen implies #[trigger] post.contents@.contains_key(
        post.keys@[m],
    ) && post.contents@[post.keys@[m]] == post.vals@[m] by {
        if m == klen - 1 {
            assert(post.keys@[m] == k);
        } else {
            assert(post.keys@[m] == pre.keys@[m]);
        }
    }
    assert forall|m: int, j: int| 0 <= m < j < klen implies post.keys@[m] != post.keys@[j] by {
        if j == klen - 1 {
            assert(post.keys@[m] == pre.keys@[m]);
        }
    }
}

} // verus!
