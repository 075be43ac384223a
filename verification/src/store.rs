//! An embedded key-value store holding byte strings.
//!
//! Each identity table direction, the redirect store and the subdomain
//! counter each own one `Store`. Keys and values are raw byte strings; the
//! encodings in [`crate::codec`] say what those bytes mean. Writes are
//! process-lifetime only: every open starts from an empty store, matching the
//! destructive-open policy of the crawl core.

use vstd::prelude::*;

verus! {

/// Compare two byte strings.
pub fn bytes_eq(a: &Vec<u8>, b: &Vec<u8>) -> (r: bool)
    ensures
        r == (a@ == b@),
{
    if a.len() != b.len() {
        return false;
    }
    let n = a.len();
    let mut i: usize = 0;
    while i < n
        invariant
            n == a@.len() && n == b@.len(),
            0 <= i <= n,
            forall|j: int| 0 <= j < i ==> a@[j] == b@[j],
        decreases n - i,
    {
        if a[i] != b[i] {
            return false;
        }
        i += 1;
    }
    proof {
        assert(a@ =~= b@);
    }
    true
}

/// A key-value store over byte strings, viewed as a map from byte sequences
/// to byte sequences.
pub struct Store {
    keys: Vec<Vec<u8>>,
    vals: Vec<Vec<u8>>,
    contents: Ghost<Map<Seq<u8>, Seq<u8>>>,
}

impl View for Store {
    type V = Map<Seq<u8>, Seq<u8>>;

    closed spec fn view(&self) -> Map<Seq<u8>, Seq<u8>> {
        self.contents@
    }
}

impl Store {
    /// The store's internal bookkeeping is consistent with its map view.
    pub closed spec fn wf(&self) -> bool {
        &&& self.keys@.len() == self.vals@.len()
        &&& (forall|i: int, j: int|
            0 <= i < j < self.keys@.len() ==> self.keys@[i]@ != self.keys@[j]@)
        &&& (forall|k: Seq<u8>|
            self.contents@.contains_key(k) <==> exists|i: int|
                0 <= i < self.keys@.len() && #[trigger] self.keys@[i]@ == k)
        &&& (forall|i: int|
            0 <= i < self.keys@.len() ==> #[trigger] self.contents@.contains_key(self.keys@[i]@)
                && self.contents@[self.keys@[i]@] == self.vals@[i]@)
    }

    /// Open a store. Any earlier contents under the same name are gone: a
    /// store always starts empty.
    pub fn open() -> (r: Store)
        ensures
            r.wf(),
            r@ == Map::<Seq<u8>, Seq<u8>>::empty(),
    {
        Store { keys: Vec::new(), vals: Vec::new(), contents: Ghost(Map::empty()) }
    }

    /// Look a key up; absence is a normal outcome, not an error.
    pub fn get(&self, key: &Vec<u8>) -> (r: Option<&Vec<u8>>)
        requires
            self.wf(),
        ensures
            match r {
                Some(v) => self@.contains_key(key@) && v@ == self@[key@],
                None => !self@.contains_key(key@),
            },
    {
        let n = self.keys.len();
        let mut i: usize = 0;
        while i < n
            invariant
                self.wf(),
                n == self.keys@.len(),
                0 <= i <= n,
                forall|j: int| 0 <= j < i ==> self.keys@[j]@ != key@,
            decreases n - i,
        {
            if bytes_eq(&self.keys[i], key) {
                return Some(&self.vals[i]);
            }
            i += 1;
        }
        None
    }

    /// Insert or overwrite the record for `key`.
    #[verifier::loop_isolation(false)]
    pub fn put(&mut self, key: Vec<u8>, val: Vec<u8>)
        requires
            old(self).wf(),
        ensures
            final(self).wf(),
            final(self)@ == old(self)@.insert(key@, val@),
    {
        let ghost kk = key@;
        let ghost vv = val@;
        let ghost new_map = self.contents@.insert(kk, vv);
        let n = self.keys.len();
        let mut i: usize = 0;
        while i < n
            invariant
                self == old(self),
                self.wf(),
                n == self.keys@.len(),
                0 <= i <= n,
                forall|j: int| 0 <= j < i ==> self.keys@[j]@ != key@,
            decreases n - i,
        {
            if bytes_eq(&self.keys[i], &key) {
                proof {
                    assert(self.keys@[i as int]@ == kk);
                }
                self.vals[i] = val;
                self.contents = Ghost(new_map);
                proof {
                    assert(old(self).keys@[i as int]@ == kk);
                    lemma_put_overwrite(*old(self), *self, kk, vv, i as int);
                }
                return;
            }
            i += 1;
        }
        self.keys.push(key);
        self.vals.push(val);
        self.contents = Ghost(new_map);
        proof {
            lemma_put_fresh(*old(self), *self, kk, vv);
        }
    }

    /// All records, as parallel key and value rows; keys are pairwise
    /// distinct and together cover the whole map.
    pub fn entries(&self) -> (r: (&Vec<Vec<u8>>, &Vec<Vec<u8>>))
        requires
            self.wf(),
        ensures
            r.0@.len() == r.1@.len(),
            forall|i: int, j: int| 0 <= i < j < r.0@.len() ==> r.0@[i]@ != r.0@[j]@,
            forall|i: int|
                0 <= i < r.0@.len() ==> #[trigger] self@.contains_key(r.0@[i]@)
                    && self@[r.0@[i]@] == r.1@[i]@,
            forall|k: Seq<u8>|
                self@.contains_key(k) ==> exists|i: int|
                    0 <= i < r.0@.len() && #[trigger] r.0@[i]@ == k,
    {
        (&self.keys, &self.vals)
    }
}

/// After overwriting the value row at an index whose key row is `k`, the
/// store is still consistent with the updated map.
proof fn lemma_put_overwrite(pre: Store, post: Store, k: Seq<u8>, v: Seq<u8>, i: int)
    requires
        pre.wf(),
        0 <= i < pre.keys@.len(),
        pre.keys@[i]@ == k,
        post.keys@ == pre.keys@,
        post.vals@.len() == pre.vals@.len(),
        post.vals@[i]@ == v,
        forall|j: int| 0 <= j < pre.vals@.len() && j != i ==> post.vals@[j] == pre.vals@[j],
        post.contents@ == pre.contents@.insert(k, v),
    ensures
        post.wf(),
{
    assert forall|q: Seq<u8>| post.contents@.contains_key(q) implies exists|m: int|
        0 <= m < post.keys@.len() && #[trigger] post.keys@[m]@ == q by {
        if q == k {
            assert(post.keys@[i]@ == q);
        } else {
            assert(pre.contents@.contains_key(q));
            let m = choose|m: int| 0 <= m < pre.keys@.len() && #[trigger] pre.keys@[m]@ == q;
            assert(post.keys@[m]@ == q);
        }
    }
    assert forall|m: int| 0 <= m < post.keys@.len() implies #[trigger] post.contents@.contains_key(
        post.keys@[m]@,
    ) && post.contents@[post.keys@[m]@] == post.vals@[m]@ by {
        if m == i {
            assert(post.keys@[m]@ == k);
        } else {
            if m < i {
                assert(pre.keys@[m]@ != pre.keys@[i]@);
            } else {
                assert(pre.keys@[i]@ != pre.keys@[m]@);
            }
            assert(post.keys@[m]@ == pre.keys@[m]@);
            assert(pre.contents@.contains_key(pre.keys@[m]@));
            assert(post.vals@[m]@ == pre.vals@[m]@);
        }
    }
}

/// After appending a key row that was absent, the store is consistent with
/// the updated map.
proof fn lemma_put_fresh(pre: Store, post: Store, k: Seq<u8>, v: Seq<u8>)
    requires
        pre.wf(),
        forall|j: int| 0 <= j < pre.keys@.len() ==> pre.keys@[j]@ != k,
        post.keys@.len() == pre.keys@.len() + 1,
        post.vals@.len() == pre.vals@.len() + 1,
        post.keys@[pre.keys@.len() as int]@ == k,
        post.vals@[pre.vals@.len() as int]@ == v,
        forall|j: int| 0 <= j < pre.keys@.len() ==> post.keys@[j] == pre.keys@[j],
        forall|j: int| 0 <= j < pre.vals@.len() ==> post.vals@[j] == pre.vals@[j],
        post.contents@ == pre.contents@.insert(k, v),
    ensures
        post.wf(),
{
    let klen = post.keys@.len() as int;
    assert forall|q: Seq<u8>| post.contents@.contains_key(q) implies exists|m: int|
        0 <= m < klen && #[trigger] post.keys@[m]@ == q by {
        if q == k {
            assert(post.keys@[klen - 1]@ == q);
        } else {
            assert(pre.contents@.contains_key(q));
            let m = choose|m: int| 0 <= m < pre.keys@.len() && #[trigger] pre.keys@[m]@ == q;
            assert(post.keys@[m]@ == q);
        }
    }
    assert forall|m: int| 0 <= m < klen implies #[trigger] post.contents@.contains_key(
        post.keys@[m]@,
    ) && post.contents@[post.keys@[m]@] == post.vals@[m]@ by {
        if m == klen - 1 {
            assert(post.keys@[m]@ == k);
        } else {
            assert(post.keys@[m]@ == pre.keys@[m]@);
            assert(pre.keys@[m]@ != k);
        }
    }
    assert forall|m: int, j: int| 0 <= m < j < klen implies post.keys@[m]@ != post.keys@[j]@ by {
        if j == klen - 1 {
            assert(post.keys@[m]@ == pre.keys@[m]@);
        }
    }
}
} // verus!
