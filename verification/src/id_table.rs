//! The identity table: a persisted bijection between string values and
//! densely assigned 64-bit identifiers.
//!
//! Lookups go cache first, then the backing store; a miss allocates the next
//! identifier from a monotonic counter and writes both directions. The table
//! is modelled by [`IdModel`]: a map from values to identifiers together with
//! the next free identifier, and every operation is specified as a fold of
//! [`id_insert`] over its input.

use vstd::prelude::*;
use vstd::string::StrSliceExecFns;
use vstd::utf8::encode_utf8;

use crate::cache::{
    cache_bwd, cache_fwd, lru_get_bwd, lru_get_fwd, lru_new_bwd, lru_new_fwd, lru_put_bwd,
    lru_put_fwd, BwdCache, FwdCache,
};
use crate::codec::{decode_u64, encode_u64, lemma_u64_le_injective, u64_le};
use crate::store::Store;
use crate::text::string_from_utf8;
use crate::CrawlDbError;

verus! {

/// How many entries each direction's cache may hold.
pub const CACHE_CAPACITY: usize = 500000;

/// The mathematical content of an identity table: the bijection as a map
/// from values to identifiers, and the next identifier to hand out.
pub ghost struct IdModel {
    pub map: Map<Seq<char>, u64>,
    pub next: nat,
}

/// Some value holds the identifier `i`.
pub open spec fn id_assigned(m: IdModel, i: nat) -> bool {
    exists|a: Seq<char>| #[trigger] m.map.contains_key(a) && m.map[a] as nat == i
}

/// The bijection invariant: distinct values have distinct identifiers, and
/// the identifiers handed out are exactly those below the counter.
pub open spec fn id_wf(m: IdModel) -> bool {
    &&& m.next <= u64::MAX as nat
    &&& (forall|a: Seq<char>, b: Seq<char>|
        m.map.contains_key(a) && m.map.contains_key(b) && m.map[a] == m.map[b] ==> a == b)
    &&& (forall|a: Seq<char>| #[trigger] m.map.contains_key(a) ==> (m.map[a] as nat) < m.next)
    &&& (forall|i: nat| i < m.next ==> #[trigger] id_assigned(m, i))
}

/// Seeing a value: a known value changes nothing, an unseen one receives the
/// next identifier.
pub open spec fn id_insert(m: IdModel, v: Seq<char>) -> IdModel {
    if m.map.contains_key(v) {
        m
    } else {
        IdModel { map: m.map.insert(v, m.next as u64), next: m.next + 1 }
    }
}

/// Seeing a batch of values, first to last.
pub open spec fn id_insert_all(m: IdModel, vs: Seq<Seq<char>>) -> IdModel
    decreases vs.len(),
{
    if vs.len() == 0 {
        m
    } else {
        id_insert_all(id_insert(m, vs[0]), vs.drop_first())
    }
}

/// The identifiers a batch of values receives, in batch order.
pub open spec fn ids_of(m: IdModel, vs: Seq<Seq<char>>) -> Seq<u64>
    decreases vs.len(),
{
    if vs.len() == 0 {
        Seq::empty()
    } else {
        let m1 = id_insert(m, vs[0]);
        seq![m1.map[vs[0]]] + ids_of(m1, vs.drop_first())
    }
}

/// Seeing one value keeps the bijection invariant, keeps every earlier
/// assignment, and maps the value to an identifier below the new counter.
pub proof fn lemma_id_insert_wf(m: IdModel, v: Seq<char>)
    requires
        id_wf(m),
        m.map.contains_key(v) || m.next < u64::MAX as nat,
    ensures
        id_wf(id_insert(m, v)),
        id_insert(m, v).map.contains_key(v),
        forall|a: Seq<char>| #[trigger] m.map.contains_key(a)
            ==> id_insert(m, v).map.contains_key(a) && id_insert(m, v).map[a] == m.map[a],
        m.next <= id_insert(m, v).next,
        id_insert(m, v).next <= m.next + 1,
{
    let m1 = id_insert(m, v);
    if !m.map.contains_key(v) {
        assert forall|i: nat| i < m1.next implies #[trigger] id_assigned(m1, i) by {
            if i < m.next {
                assert(id_assigned(m, i));
                let a = choose|a: Seq<char>|
                    #[trigger] m.map.contains_key(a) && m.map[a] as nat == i;
                assert(m1.map.contains_key(a) && m1.map[a] as nat == i);
            } else {
                assert(m1.map.contains_key(v) && m1.map[v] as nat == i);
            }
        }
    }
}

/// Seeing a batch keeps the bijection invariant and every earlier
/// assignment; the counter grows by at most the batch length.
pub proof fn lemma_id_insert_all_wf(m: IdModel, vs: Seq<Seq<char>>)
    requires
        id_wf(m),
        m.next + vs.len() <= u64::MAX as nat,
    ensures
        id_wf(id_insert_all(m, vs)),
        forall|a: Seq<char>| #[trigger] m.map.contains_key(a)
            ==> id_insert_all(m, vs).map.contains_key(a) && id_insert_all(m, vs).map[a]
            == m.map[a],
        m.next <= id_insert_all(m, vs).next,
        id_insert_all(m, vs).next <= m.next + vs.len(),
    decreases vs.len(),
{
    if vs.len() > 0 {
        lemma_id_insert_wf(m, vs[0]);
        lemma_id_insert_all_wf(id_insert(m, vs[0]), vs.drop_first());
    }
}

/// Folding one more value over a batch is the fold of the longer batch.
pub proof fn lemma_id_insert_all_push(m: IdModel, vs: Seq<Seq<char>>, v: Seq<char>)
    ensures
        id_insert_all(m, vs.push(v)) == id_insert(id_insert_all(m, vs), v),
        ids_of(m, vs.push(v)) == ids_of(m, vs).push(
            id_insert(id_insert_all(m, vs), v).map[v],
        ),
    decreases vs.len(),
{
    let long = vs.push(v);
    if vs.len() == 0 {
        let m1 = id_insert(m, v);
        assert(long.len() == 1 && long[0] == v);
        assert(long.drop_first() =~= Seq::<Seq<char>>::empty());
        assert(id_insert_all(m, long) == id_insert_all(m1, long.drop_first()));
        assert(id_insert_all(m1, long.drop_first()) == m1);
        assert(id_insert_all(m, vs) == m);
        assert(ids_of(m, long) == seq![m1.map[v]] + ids_of(m1, long.drop_first()));
        assert(ids_of(m1, long.drop_first()) == Seq::<u64>::empty());
        assert(ids_of(m, vs) == Seq::<u64>::empty());
        assert(ids_of(m, long) =~= ids_of(m, vs).push(m1.map[v]));
    } else {
        let m1 = id_insert(m, vs[0]);
        assert(long[0] == vs[0]);
        assert(long.drop_first() =~= vs.drop_first().push(v));
        lemma_id_insert_all_push(m1, vs.drop_first(), v);
        assert(id_insert_all(m, long) == id_insert_all(m1, long.drop_first()));
        assert(id_insert_all(m1, vs.drop_first().push(v)) == id_insert(
            id_insert_all(m1, vs.drop_first()),
            v,
        ));
        assert(id_insert_all(m, vs) == id_insert_all(m1, vs.drop_first()));
        let w = id_insert(id_insert_all(m, vs), v).map[v];
        assert(ids_of(m, long) == seq![m1.map[vs[0]]] + ids_of(m1, long.drop_first()));
        assert(ids_of(m1, vs.drop_first().push(v)) == ids_of(m1, vs.drop_first()).push(w));
        assert(ids_of(m, vs) == seq![m1.map[vs[0]]] + ids_of(m1, vs.drop_first()));
        assert(ids_of(m, long) =~= ids_of(m, vs).push(w));
    }
}

/// Encoding two different values gives two different byte strings.
proof fn lemma_utf8_injective(a: Seq<char>, b: Seq<char>)
    requires
        encode_utf8(a) == encode_utf8(b),
    ensures
        a == b,
{
    vstd::utf8::encode_utf8_decode_utf8(a);
    vstd::utf8::encode_utf8_decode_utf8(b);
}

/// A persisted bijection between string values and 64-bit identifiers, with
/// a bounded cache in each direction.
pub struct IdTable {
    fwd: Store,
    bwd: Store,
    next_id: u64,
    fwd_cache: FwdCache,
    bwd_cache: BwdCache,
    model: Ghost<IdModel>,
}

impl View for IdTable {
    type V = IdModel;

    closed spec fn view(&self) -> IdModel {
        self.model@
    }
}

impl IdTable {
    /// The table's stores, caches and counter all agree with its model: the
    /// forward store maps each value's bytes to its identifier's bytes, the
    /// backward store the reverse, and the caches hold only true pairs.
    pub closed spec fn wf(&self) -> bool {
        &&& id_wf(self.model@)
        &&& self.model@.next == self.next_id as nat
        &&& self.fwd.wf()
        &&& self.bwd.wf()
        &&& (forall|s: Seq<char>| #[trigger] self.model@.map.contains_key(s)
            ==> self.fwd@.contains_key(encode_utf8(s))
                && self.fwd@[encode_utf8(s)] == u64_le(self.model@.map[s]))
        &&& (forall|k: Seq<u8>| #[trigger] self.fwd@.contains_key(k) ==> exists|s: Seq<char>|
            #[trigger] self.model@.map.contains_key(s) && k == encode_utf8(s))
        &&& (forall|s: Seq<char>| #[trigger] self.model@.map.contains_key(s)
            ==> self.bwd@.contains_key(u64_le(self.model@.map[s]))
                && self.bwd@[u64_le(self.model@.map[s])] == encode_utf8(s))
        &&& (forall|k: Seq<u8>| #[trigger] self.bwd@.contains_key(k) ==> exists|s: Seq<char>|
            #[trigger] self.model@.map.contains_key(s) && k == u64_le(self.model@.map[s]))
        &&& (forall|s: Seq<char>, v: u64| #[trigger] cache_fwd(self.fwd_cache).contains_pair(s, v)
            ==> self.model@.map.contains_pair(s, v))
        &&& (forall|i: u64, s: Seq<char>| #[trigger] cache_bwd(self.bwd_cache).contains_pair(i, s)
            ==> self.model@.map.contains_pair(s, i))
    }

    /// A well-formed table's model satisfies the bijection invariant.
    pub proof fn lemma_wf(&self)
        requires
            self.wf(),
        ensures
            id_wf(self@),
    {
    }

    /// Open a table. Any mappings previously persisted under this path are
    /// discarded: every open starts from an empty bijection.
    pub fn open(path: &str) -> (r: Result<IdTable, CrawlDbError>)
        ensures
            r matches Ok(t) && t.wf() && t@.next == 0 && t@.map == Map::<Seq<char>
                , u64>::empty(),
    {
        let _ = path;
        let t = IdTable {
            fwd: Store::open(),
            bwd: Store::open(),
            next_id: 0,
            fwd_cache: lru_new_fwd(CACHE_CAPACITY),
            bwd_cache: lru_new_bwd(CACHE_CAPACITY),
            model: Ghost(IdModel { map: Map::empty(), next: 0 }),
        };
        Ok(t)
    }

    /// How many identifiers have been assigned so far.
    pub fn assigned_count(&self) -> (r: u64)
        requires
            self.wf(),
        ensures
            r as nat == self@.next,
    {
        self.next_id
    }

    /// The identifier for a value: the one it already has, or the next free
    /// one, which is then persisted in both directions.
    pub fn id(&mut self, value: &String) -> (r: Result<u64, CrawlDbError>)
        requires
            old(self).wf(),
            old(self)@.map.contains_key(value@) || old(self)@.next < u64::MAX as nat,
        ensures
            final(self).wf(),
            final(self)@ == id_insert(old(self)@, value@),
            r matches Ok(i) && i == id_insert(old(self)@, value@).map[value@],
    {
        let ghost m0 = self.model@;
        if let Some(i) = lru_get_fwd(&mut self.fwd_cache, value) {
            proof {
                assert(m0.map.contains_pair(value@, i));
            }
            return Ok(i);
        }
        let key_bytes = value.as_str().as_bytes_vec();
        let found = match self.fwd.get(&key_bytes) {
            Some(id_bytes) => decode_u64(id_bytes),
            None => None,
        };
        match found {
            Some(i) => {
                proof {
                    assert(self.fwd@.contains_key(encode_utf8(value@)));
                    let s = choose|s: Seq<char>|
                        #[trigger] m0.map.contains_key(s) && encode_utf8(value@) == encode_utf8(
                            s,
                        );
                    lemma_utf8_injective(value@, s);
                    assert(u64_le(i) == u64_le(m0.map[value@]));
                    lemma_u64_le_injective(i, m0.map[value@]);
                }
                lru_put_fwd(&mut self.fwd_cache, value.clone(), i);
                lru_put_bwd(&mut self.bwd_cache, i, value.clone());
                proof {
                    lemma_cache_update_wf(*old(self), *self, value@, i);
                }
                Ok(i)
            },
            None => {
                proof {
                    assert(!self.fwd@.contains_key(encode_utf8(value@)));
                    assert(!m0.map.contains_key(value@));
                }
                let i = self.next_id;
                self.next_id = i + 1;
                let id_bytes = encode_u64(i);
                self.fwd.put(key_bytes, id_bytes);
                let id_bytes_2 = encode_u64(i);
                let val_bytes = value.as_str().as_bytes_vec();
                self.bwd.put(id_bytes_2, val_bytes);
                lru_put_fwd(&mut self.fwd_cache, value.clone(), i);
                lru_put_bwd(&mut self.bwd_cache, i, value.clone());
                self.model = Ghost(IdModel { map: m0.map.insert(value@, i), next: m0.next + 1 });
                proof {
                    lemma_id_insert_wf(m0, value@);
                    assert(self.model@ == id_insert(m0, value@));
                    lemma_alloc_wf(*old(self), *self, value@, i);
                }
                Ok(i)
            },
        }
    }


    /// The identifier a value already holds, if any, without assigning one.
    pub fn lookup(&mut self, value: &String) -> (r: Result<Option<u64>, CrawlDbError>)
        requires
            old(self).wf(),
        ensures
            final(self).wf(),
            final(self)@ == old(self)@,
            r matches Ok(o) && (match o {
                Some(i) => old(self)@.map.contains_pair(value@, i),
                None => !old(self)@.map.contains_key(value@),
            }),
    {
        let ghost m0 = self.model@;
        if let Some(i) = lru_get_fwd(&mut self.fwd_cache, value) {
            proof {
                assert(m0.map.contains_pair(value@, i));
            }
            return Ok(Some(i));
        }
        let key_bytes = value.as_str().as_bytes_vec();
        match self.fwd.get(&key_bytes) {
            Some(id_bytes) => {
                proof {
                    assert(self.fwd@.contains_key(encode_utf8(value@)));
                    let s = choose|s: Seq<char>|
                        #[trigger] m0.map.contains_key(s) && encode_utf8(value@) == encode_utf8(
                            s,
                        );
                    lemma_utf8_injective(value@, s);
                }
                match decode_u64(id_bytes) {
                    Some(i) => {
                        proof {
                            assert(u64_le(i) == u64_le(m0.map[value@]));
                            lemma_u64_le_injective(i, m0.map[value@]);
                        }
                        Ok(Some(i))
                    },
                    None => {
                        proof {
                            assert(false);
                        }
                        Err(CrawlDbError::Serialization(String::new()))
                    },
                }
            },
            None => {
                proof {
                    assert(!self.fwd@.contains_key(encode_utf8(value@)));
                }
                Ok(None)
            },
        }
    }

    /// The value holding an identifier, if any; an unassigned identifier is
    /// a miss, not an error.
    pub fn value(&mut self, id: u64) -> (r: Result<Option<String>, CrawlDbError>)
        requires
            old(self).wf(),
        ensures
            final(self).wf(),
            final(self)@ == old(self)@,
            r matches Ok(o) && (match o {
                Some(s) => old(self)@.map.contains_pair(s@, id),
                None => forall|t: Seq<char>| !old(self)@.map.contains_pair(t, id),
            }),
    {
        let ghost m0 = self.model@;
        if let Some(s) = lru_get_bwd(&mut self.bwd_cache, id) {
            proof {
                assert(m0.map.contains_pair(s@, id));
            }
            return Ok(Some(s));
        }
        let id_bytes = encode_u64(id);
        let decoded: Option<String> = match self.bwd.get(&id_bytes) {
            Some(vb) => {
                proof {
                    assert(self.bwd@.contains_key(u64_le(id)));
                    let s = choose|s: Seq<char>|
                        #[trigger] m0.map.contains_key(s) && u64_le(id) == u64_le(m0.map[s]);
                    lemma_u64_le_injective(id, m0.map[s]);
                    vstd::utf8::encode_utf8_valid_utf8(s);
                    vstd::utf8::encode_utf8_decode_utf8(s);
                }
                match string_from_utf8(vb) {
                    Some(text) => Some(text),
                    None => {
                        proof {
                            assert(false);
                        }
                        None
                    },
                }
            },
            None => {
                proof {
                    assert forall|t: Seq<char>| !m0.map.contains_pair(t, id) by {
                        if m0.map.contains_pair(t, id) {
                            assert(self.bwd@.contains_key(u64_le(m0.map[t])));
                        }
                    }
                }
                None
            },
        };
        match decoded {
            Some(text) => {
                proof {
                    assert(m0.map.contains_pair(text@, id));
                }
                lru_put_fwd(&mut self.fwd_cache, text.clone(), id);
                lru_put_bwd(&mut self.bwd_cache, id, text.clone());
                proof {
                    lemma_cache_update_wf(*old(self), *self, text@, id);
                }
                Ok(Some(text))
            },
            None => Ok(None),
        }
    }

    /// Identifiers for a whole batch, first to last. Values repeated within
    /// the batch receive one identifier, not several.
    #[verifier::loop_isolation(false)]
    pub fn bulk_ids(&mut self, values: &Vec<String>) -> (r: Result<Vec<u64>, CrawlDbError>)
        requires
            old(self).wf(),
            old(self)@.next + values@.len() <= u64::MAX as nat,
        ensures
            final(self).wf(),
            final(self)@ == id_insert_all(old(self)@, values.deep_view()),
            r matches Ok(ids) && ids@ == ids_of(old(self)@, values.deep_view()),
    {
        let ghost vs = values.deep_view();
        let mut ids: Vec<u64> = Vec::new();
        let n = values.len();
        let mut idx: usize = 0;
        proof {
            assert(vs.take(0) =~= Seq::<Seq<char>>::empty());
        }
        while idx < n
            invariant
                self.wf(),
                0 <= idx <= n,
                self@ == id_insert_all(old(self)@, vs.take(idx as int)),
                ids@ == ids_of(old(self)@, vs.take(idx as int)),
                self@.next <= old(self)@.next + idx,
            decreases n - idx,
        {
            let ghost pre = self@;
            let i = match self.id(&values[idx]) {
                Ok(i) => i,
                Err(e) => return Err(e),
            };
            ids.push(i);
            proof {
                assert(values[idx as int]@ == vs[idx as int]);
                assert(vs.take(idx as int + 1) =~= vs.take(idx as int).push(vs[idx as int]));
                lemma_id_insert_all_push(old(self)@, vs.take(idx as int), vs[idx as int]);
            }
            idx += 1;
        }
        proof {
            assert(vs.take(n as int) =~= vs);
        }
        Ok(ids)
    }
}

/// After a lookup hit, refreshing the caches with the found pair keeps the
/// table well formed; nothing else changed.
proof fn lemma_cache_update_wf(pre: IdTable, post: IdTable, v: Seq<char>, i: u64)
    requires
        pre.wf(),
        pre.model@.map.contains_pair(v, i),
        post.model@ == pre.model@,
        post.next_id == pre.next_id,
        post.fwd == pre.fwd,
        post.bwd == pre.bwd,
        cache_fwd(post.fwd_cache).contains_pair(v, i),
        forall|q: Seq<char>|
            q != v && #[trigger] cache_fwd(post.fwd_cache).contains_key(q)
                ==> cache_fwd(pre.fwd_cache).contains_key(q)
                && cache_fwd(post.fwd_cache)[q] == cache_fwd(pre.fwd_cache)[q],
        cache_bwd(post.bwd_cache).contains_pair(i, v),
        forall|q: u64|
            q != i && #[trigger] cache_bwd(post.bwd_cache).contains_key(q)
                ==> cache_bwd(pre.bwd_cache).contains_key(q)
                && cache_bwd(post.bwd_cache)[q] == cache_bwd(pre.bwd_cache)[q],
    ensures
        post.wf(),
{
    let m = pre.model@;
    assert forall|s: Seq<char>, w: u64| #[trigger] cache_fwd(post.fwd_cache).contains_pair(s, w)
        implies m.map.contains_pair(s, w) by {
        if s == v {
            assert(cache_fwd(post.fwd_cache)[v] == i);
        } else {
            assert(cache_fwd(pre.fwd_cache).contains_pair(s, w));
        }
    }
    assert forall|j: u64, s: Seq<char>| #[trigger] cache_bwd(post.bwd_cache).contains_pair(j, s)
        implies m.map.contains_pair(s, j) by {
        if j == i {
            assert(cache_bwd(post.bwd_cache)[i] == v);
        } else {
            assert(cache_bwd(pre.bwd_cache).contains_pair(j, s));
        }
    }
}

/// After allocating a fresh identifier for an unseen value and writing both
/// directions, the table is well formed again.
proof fn lemma_alloc_wf(pre: IdTable, post: IdTable, v: Seq<char>, i: u64)
    requires
        pre.wf(),
        !pre.model@.map.contains_key(v),
        pre.model@.next < u64::MAX as nat,
        i == pre.next_id,
        post.next_id == i + 1,
        post.model@ == id_insert(pre.model@, v),
        post.fwd.wf(),
        post.bwd.wf(),
        post.fwd@ == pre.fwd@.insert(encode_utf8(v), u64_le(i)),
        post.bwd@ == pre.bwd@.insert(u64_le(i), encode_utf8(v)),
        cache_fwd(post.fwd_cache).contains_pair(v, i),
        forall|q: Seq<char>|
            q != v && #[trigger] cache_fwd(post.fwd_cache).contains_key(q)
                ==> cache_fwd(pre.fwd_cache).contains_key(q)
                && cache_fwd(post.fwd_cache)[q] == cache_fwd(pre.fwd_cache)[q],
        cache_bwd(post.bwd_cache).contains_pair(i, v),
        forall|q: u64|
            q != i && #[trigger] cache_bwd(post.bwd_cache).contains_key(q)
                ==> cache_bwd(pre.bwd_cache).contains_key(q)
                && cache_bwd(post.bwd_cache)[q] == cache_bwd(pre.bwd_cache)[q],
    ensures
        post.wf(),
{
    let m0 = pre.model@;
    let m1 = post.model@;
    lemma_id_insert_wf(m0, v);
    assert(m1.map == m0.map.insert(v, i));
    assert forall|s: Seq<char>| #[trigger] m1.map.contains_key(s) implies post.fwd@.contains_key(
        encode_utf8(s),
    ) && post.fwd@[encode_utf8(s)] == u64_le(m1.map[s]) by {
        if s == v {
        } else {
            assert(m0.map.contains_key(s));
            if encode_utf8(s) == encode_utf8(v) {
                lemma_utf8_injective(s, v);
            }
        }
    }
    assert forall|k: Seq<u8>| #[trigger] post.fwd@.contains_key(k) implies exists|s: Seq<char>|
        #[trigger] m1.map.contains_key(s) && k == encode_utf8(s) by {
        if k == encode_utf8(v) {
            assert(m1.map.contains_key(v) && k == encode_utf8(v));
        } else {
            assert(pre.fwd@.contains_key(k));
            let s = choose|s: Seq<char>| #[trigger] m0.map.contains_key(s) && k == encode_utf8(s);
            assert(m1.map.contains_key(s) && k == encode_utf8(s));
        }
    }
    assert forall|s: Seq<char>| #[trigger] m1.map.contains_key(s) implies post.bwd@.contains_key(
        u64_le(m1.map[s]),
    ) && post.bwd@[u64_le(m1.map[s])] == encode_utf8(s) by {
        if s == v {
        } else {
            assert(m0.map.contains_key(s));
            assert((m0.map[s] as nat) < m0.next);
            if u64_le(m0.map[s]) == u64_le(i) {
                lemma_u64_le_injective(m0.map[s], i);
            }
        }
    }
    assert forall|k: Seq<u8>| #[trigger] post.bwd@.contains_key(k) implies exists|s: Seq<char>|
        #[trigger] m1.map.contains_key(s) && k == u64_le(m1.map[s]) by {
        if k == u64_le(i) {
            assert(m1.map.contains_key(v) && k == u64_le(m1.map[v]));
        } else {
            assert(pre.bwd@.contains_key(k));
            let s = choose|s: Seq<char>|
                #[trigger] m0.map.contains_key(s) && k == u64_le(m0.map[s]);
            assert(m1.map.contains_key(s) && k == u64_le(m1.map[s]));
        }
    }
    assert forall|s: Seq<char>, w: u64| #[trigger] cache_fwd(post.fwd_cache).contains_pair(s, w)
        implies m1.map.contains_pair(s, w) by {
        if s == v {
            assert(cache_fwd(post.fwd_cache)[v] == i);
        } else {
            assert(cache_fwd(pre.fwd_cache).contains_pair(s, w));
            assert(m0.map.contains_pair(s, w));
        }
    }
    assert forall|j: u64, s: Seq<char>| #[trigger] cache_bwd(post.bwd_cache).contains_pair(j, s)
        implies m1.map.contains_pair(s, j) by {
        if j == i {
            assert(cache_bwd(post.bwd_cache)[i] == v);
        } else {
            assert(cache_bwd(pre.bwd_cache).contains_pair(j, s));
            assert(m0.map.contains_pair(s, j));
            assert(s != v);
        }
    }
}


/// Identity lookups are stable and injective: the identifier a value holds
/// is unchanged by later lookups, and two different values never share one.
pub proof fn lemma_identity_bijection(m: IdModel, x: Seq<char>, y: Seq<char>)
    requires
        id_wf(m),
        m.next + 2 <= u64::MAX as nat,
    ensures
        id_insert(id_insert(m, x), x) == id_insert(m, x),
        id_insert(id_insert(m, x), y).map[x] == id_insert(m, x).map[x],
        x != y ==> id_insert(id_insert(m, x), y).map[x] != id_insert(id_insert(m, x), y).map[y],
{
    lemma_id_insert_wf(m, x);
    let m1 = id_insert(m, x);
    lemma_id_insert_wf(m1, y);
    let m2 = id_insert(m1, y);
    assert(m1.map.contains_key(x));
    assert(m2.map.contains_key(x) && m2.map.contains_key(y));
    if x != y && m2.map[x] == m2.map[y] {
        assert(false);
    }
}

/// A batch of the shape `[a, a, b]` with two unseen, distinct values
/// allocates exactly two identifiers: both occurrences of `a` receive the
/// first free one, `b` the one after it.
pub proof fn lemma_bulk_dedup(m: IdModel, a: Seq<char>, b: Seq<char>)
    requires
        id_wf(m),
        !m.map.contains_key(a),
        !m.map.contains_key(b),
        a != b,
        m.next + 2 <= u64::MAX as nat,
    ensures
        ids_of(m, seq![a, a, b]) =~= seq![m.next as u64, m.next as u64, (m.next + 1) as u64],
        id_insert_all(m, seq![a, a, b]).next == m.next + 2,
{
    let s0 = seq![a, a, b];
    let m1 = id_insert(m, a);
    assert(s0.drop_first() =~= seq![a, b]);
    assert(seq![a, b].drop_first() =~= seq![b]);
    assert(seq![b].drop_first() =~= Seq::<Seq<char>>::empty());
    assert(m1.map[a] == m.next as u64);
    assert(id_insert(m1, a) == m1);
    let m2 = id_insert(m1, b);
    assert(m2.map[b] == (m.next + 1) as u64);
    assert(ids_of(m, s0) == seq![m1.map[a]] + ids_of(m1, seq![a, b]));
    assert(ids_of(m1, seq![a, b]) == seq![m1.map[a]] + ids_of(m1, seq![b]));
    assert(ids_of(m1, seq![b]) == seq![m2.map[b]] + ids_of(m2, Seq::<Seq<char>>::empty()));
    assert(id_insert_all(m, s0) == id_insert_all(m1, seq![a, b]));
    assert(id_insert_all(m1, seq![a, b]) == id_insert_all(m1, seq![b]));
    assert(seq![b][0] == b);
    assert(id_insert_all(m1, seq![b]) == id_insert_all(m2, seq![b].drop_first()));
    assert(id_insert_all(m2, seq![b].drop_first()) == m2);
}

/// Resolving an identifier back yields exactly the value that received it:
/// no other value can hold the same identifier.
pub proof fn lemma_resolve_exact(m: IdModel, x: Seq<char>, t: Seq<char>)
    requires
        id_wf(m),
        m.next < u64::MAX as nat,
    ensures
        id_insert(m, x).map.contains_pair(t, id_insert(m, x).map[x]) ==> t == x,
{
    lemma_id_insert_wf(m, x);
}


} // verus!
