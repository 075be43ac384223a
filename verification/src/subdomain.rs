//! Counting which subdomains have been seen under each domain.
//!
//! Each record is a `(domain, subdomain)` pair of UTF-8 byte strings; the
//! counter is the set of such pairs. A URL contributes a pair when its host
//! has a subdomain part, that is, when the host splits as
//! `subdomain '.' domain` with the domain holding the last two labels.

use vstd::prelude::*;
use vstd::string::StrSliceExecFns;

use crate::store::bytes_eq;
use crate::urlparse::{domain_of, domain_text_of};
use crate::crawl_types::Url;

verus! {

/// The index of the last dot in a byte string, or -1 where none occurs.
pub open spec fn last_dot(s: Seq<u8>) -> int
    decreases s.len(),
{
    if s.len() == 0 {
        -1
    } else if s.last() == 46u8 {
        s.len() - 1
    } else {
        last_dot(s.drop_last())
    }
}

/// The index of the dot before the last one, or -1 where the string has
/// fewer than two dots. A host splits into a subdomain part exactly when
/// this index exists: the subdomain is everything before it, the domain the
/// last two labels after it.
pub open spec fn prev_dot(s: Seq<u8>) -> int {
    if last_dot(s) < 0 {
        -1
    } else {
        last_dot(s.take(last_dot(s)))
    }
}

/// `last_dot` stays in range and lands on a dot.
proof fn lemma_last_dot(s: Seq<u8>)
    ensures
        -1 <= last_dot(s) < s.len(),
        last_dot(s) >= 0 ==> s[last_dot(s)] == 46u8,
    decreases s.len(),
{
    if s.len() > 0 && s.last() != 46u8 {
        lemma_last_dot(s.drop_last());
        if last_dot(s.drop_last()) >= 0 {
            assert(s.drop_last()[last_dot(s)] == s[last_dot(s)]);
        }
    }
}

/// The set of `(domain, subdomain)` pairs seen so far.
pub struct SubdomainCounter {
    doms: Vec<Vec<u8>>,
    subs: Vec<Vec<u8>>,
    contents: Ghost<Set<(Seq<u8>, Seq<u8>)>>,
}

impl View for SubdomainCounter {
    type V = Set<(Seq<u8>, Seq<u8>)>;

    closed spec fn view(&self) -> Set<(Seq<u8>, Seq<u8>)> {
        self.contents@
    }
}

/// Split a host's bytes before its last two dot-separated labels.
#[verifier::loop_isolation(false)]
fn split_host(host: &Vec<u8>) -> (r: Option<(Vec<u8>, Vec<u8>)>)
    ensures
        prev_dot(host@) < 0 ==> r is None,
        prev_dot(host@) >= 0 ==> (r matches Some(p) && p.0@ == host@.take(prev_dot(host@))
            && p.1@ == host@.skip(prev_dot(host@) + 1)),
{
    let n = host.len();
    let mut dot_prev: Option<usize> = None;
    let mut dot_last: Option<usize> = None;
    let mut i: usize = 0;
    proof {
        assert(host@.take(0) =~= Seq::<u8>::empty());
    }
    while i < n
        invariant
            0 <= i <= n,
            n == host@.len(),
            dot_prev matches Some(d) ==> d < i && host@[d as int] == 46u8,
            dot_last matches Some(d) ==> d < i && host@[d as int] == 46u8,
            (match dot_last {
                Some(d) => d as int == last_dot(host@.take(i as int)),
                None => last_dot(host@.take(i as int)) == -1,
            }),
            (match dot_prev {
                Some(d) => d as int == prev_dot(host@.take(i as int)),
                None => prev_dot(host@.take(i as int)) == -1,
            }),
        decreases n - i,
    {
        proof {
            let t0 = host@.take(i as int);
            let t1 = host@.take(i as int + 1);
            assert(t1.len() == i + 1);
            assert(t1.last() == host@[i as int]);
            assert(t1.drop_last() =~= t0);
            if host@[i as int] == 46u8 {
                assert(last_dot(t1) == i as int);
                assert(t1.take(i as int) =~= t0);
                assert(prev_dot(t1) == last_dot(t0));
            } else {
                assert(last_dot(t1) == last_dot(t0));
                let l = last_dot(t0);
                lemma_last_dot(t0);
                if l >= 0 {
                    assert(t1.take(l) =~= t0.take(l));
                    assert(prev_dot(t1) == last_dot(t0.take(l)));
                    assert(prev_dot(t1) == prev_dot(t0));
                }
            }
        }
        if host[i] == 46u8 {
            dot_prev = dot_last;
            dot_last = Some(i);
        }
        i += 1;
    }
    proof {
        assert(host@.take(n as int) =~= host@);
    }
    let cut: usize = match dot_prev {
        Some(d) => d,
        None => {
            return None;
        },
    };
    let mut sub: Vec<u8> = Vec::new();
    let mut j: usize = 0;
    while j < cut
        invariant
            0 <= j <= cut < n,
            n == host@.len(),
            sub@ == host@.take(j as int),
        decreases cut - j,
    {
        sub.push(host[j]);
        j += 1;
        proof {
            assert(sub@ =~= host@.take(j as int));
        }
    }
    let mut dom: Vec<u8> = Vec::new();
    let mut k: usize = cut + 1;
    while k < n
        invariant
            cut + 1 <= k <= n,
            n == host@.len(),
            dom@ == host@.subrange(cut as int + 1, k as int),
        decreases n - k,
    {
        dom.push(host[k]);
        k += 1;
        proof {
            assert(dom@ =~= host@.subrange(cut as int + 1, k as int));
        }
    }
    proof {
        assert(cut as int == prev_dot(host@));
        assert(sub@ =~= host@.take(prev_dot(host@)));
        assert(dom@ =~= host@.skip(prev_dot(host@) + 1));
    }
    Some((sub, dom))
}

impl SubdomainCounter {
    /// The pair rows are duplicate-free and together are exactly the set.
    pub closed spec fn wf(&self) -> bool {
        &&& self.doms@.len() == self.subs@.len()
        &&& (forall|i: int, j: int|
            0 <= i < j < self.doms@.len() ==> !(self.doms@[i]@ == self.doms@[j]@ && self.subs@[
            i]@ == self.subs@[j]@))
        &&& (forall|p: (Seq<u8>, Seq<u8>)|
            self.contents@.contains(p) <==> exists|i: int|
                0 <= i < self.doms@.len() && #[trigger] self.doms@[i]@ == p.0 && self.subs@[i]@
                    == p.1)
    }

    /// Open a counter; it starts with no records.
    pub fn open(path: &str) -> (r: SubdomainCounter)
        ensures
            r.wf(),
            r@ == Set::<(Seq<u8>, Seq<u8>)>::empty(),
    {
        let _ = path;
        SubdomainCounter { doms: Vec::new(), subs: Vec::new(), contents: Ghost(Set::empty()) }
    }

    /// Record one pair, if it is not present yet.
    #[verifier::loop_isolation(false)]
    fn insert_pair(&mut self, dom: Vec<u8>, sub: Vec<u8>)
        requires
            old(self).wf(),
        ensures
            final(self).wf(),
            final(self)@ == old(self)@.insert((dom@, sub@)),
    {
        let n = self.doms.len();
        let mut i: usize = 0;
        while i < n
            invariant
                self == old(self),
                self.wf(),
                n == self.doms@.len(),
                0 <= i <= n,
                forall|j: int|
                    0 <= j < i ==> !(self.doms@[j]@ == dom@ && self.subs@[j]@ == sub@),
            decreases n - i,
        {
            if bytes_eq(&self.doms[i], &dom) && bytes_eq(&self.subs[i], &sub) {
                proof {
                    assert(self.doms@[i as int]@ == dom@ && self.subs@[i as int]@ == sub@);
                    assert(self.contents@.contains((dom@, sub@)));
                    assert(self.contents@.insert((dom@, sub@)) =~= self.contents@);
                }
                return;
            }
            i += 1;
        }
        self.doms.push(dom);
        self.subs.push(sub);
        self.contents = Ghost(self.contents@.insert((dom@, sub@)));
        proof {
            let klen = self.doms@.len() as int;
            assert(self.doms@[klen - 1]@ == dom@ && self.subs@[klen - 1]@ == sub@);
            assert forall|p: (Seq<u8>, Seq<u8>)| self.contents@.contains(p) implies exists|i: int|
                0 <= i < klen && #[trigger] self.doms@[i]@ == p.0 && self.subs@[i]@ == p.1 by {
                if p == (dom@, sub@) {
                    assert(self.doms@[klen - 1]@ == p.0 && self.subs@[klen - 1]@ == p.1);
                } else {
                    assert(old(self).contents@.contains(p));
                    let i = choose|i: int|
                        0 <= i < klen - 1 && #[trigger] old(self).doms@[i]@ == p.0 && old(
                            self,
                        ).subs@[i]@ == p.1;
                    assert(self.doms@[i]@ == p.0 && self.subs@[i]@ == p.1);
                }
            }
            assert forall|i: int, j: int| 0 <= i < j < klen implies !(self.doms@[i]@
                == self.doms@[j]@ && self.subs@[i]@ == self.subs@[j]@) by {
                if j == klen - 1 {
                    assert(self.doms@[i]@ == old(self).doms@[i]@);
                    assert(self.subs@[i]@ == old(self).subs@[i]@);
                }
            }
        }
    }

    /// Record the subdomain a URL's host carries: where the host splits
    /// before its last two labels, that `(domain, subdomain)` pair is
    /// recorded; where it does not, nothing changes. Recording an existing
    /// pair is a no-op, since the records form a set.
    pub fn increment(&mut self, url: Url)
        requires
            old(self).wf(),
        ensures
            final(self).wf(),
            ({
                let host = vstd::utf8::encode_utf8(domain_of(url@));
                &&& (prev_dot(host) >= 0 ==> final(self)@ == old(self)@.insert(
                    (host.skip(prev_dot(host) + 1), host.take(prev_dot(host))),
                ))
                &&& (prev_dot(host) < 0 ==> final(self)@ == old(self)@)
            }),
    {
        let host = domain_text_of(&url.full);
        let hb = host.as_str().as_bytes_vec();
        match split_host(&hb) {
            Some((sub, dom)) => {
                self.insert_pair(dom, sub);
            },
            None => {},
        }
    }


    /// How many distinct pairs are recorded.
    pub fn count(&self) -> (r: usize)
        requires
            self.wf(),
        ensures
            self@.finite(),
            r as nat == self@.len(),
    {
        proof {
            broadcast use vstd::seq_lib::seq_to_set_is_finite;

            let rows = Seq::new(self.doms@.len(), |i: int| (self.doms@[i]@, self.subs@[i]@));
            assert(rows.no_duplicates());
            assert forall|p: (Seq<u8>, Seq<u8>)| rows.to_set().contains(p) <==> self.contents@.contains(
                p,
            ) by {
                if rows.to_set().contains(p) {
                    let i = choose|i: int| 0 <= i < rows.len() && rows[i] == p;
                    assert(self.doms@[i]@ == p.0 && self.subs@[i]@ == p.1);
                }
                if self.contents@.contains(p) {
                    let i = choose|i: int|
                        0 <= i < self.doms@.len() && #[trigger] self.doms@[i]@ == p.0
                            && self.subs@[i]@ == p.1;
                    assert(rows[i] == p);
                    assert(rows.to_set().contains(p));
                }
            }
            assert(rows.to_set() =~= self.contents@);
            rows.unique_seq_to_set();
        }
        self.doms.len()
    }

    /// Nothing to flush: records live for the process lifetime.
    pub fn commit(&self) {
    }

    /// Fold another counter's records into this one.
    #[verifier::loop_isolation(false)]
    pub fn merge(&mut self, other: Self)
        requires
            old(self).wf(),
            other.wf(),
        ensures
            final(self).wf(),
            forall|p: (Seq<u8>, Seq<u8>)|
                #[trigger] final(self)@.contains(p) <==> (old(self)@.contains(p)
                    || other@.contains(p)),
    {
        let n = other.doms.len();
        let mut i: usize = 0;
        while i < n
            invariant
                self.wf(),
                0 <= i <= n,
                n == other.doms@.len(),
                other.wf(),
                forall|p: (Seq<u8>, Seq<u8>)|
                    old(self)@.contains(p) ==> #[trigger] self@.contains(p),
                forall|j: int|
                    0 <= j < i ==> #[trigger] self@.contains(
                        (other.doms@[j]@, other.subs@[j]@),
                    ),
                forall|p: (Seq<u8>, Seq<u8>)|
                    #[trigger] self@.contains(p) ==> old(self)@.contains(p) || other@.contains(
                        p,
                    ),
            decreases n - i,
        {
            let d = clone_bytes(&other.doms[i]);
            let s = clone_bytes(&other.subs[i]);
            proof {
                assert(other.doms@[i as int]@ == d@ && other.subs@[i as int]@ == s@);
                assert(other@.contains((d@, s@)));
            }
            self.insert_pair(d, s);
            i += 1;
        }
        proof {
            assert forall|p: (Seq<u8>, Seq<u8>)| other@.contains(p) implies #[trigger] self@.contains(
                p,
            ) by {
                let j = choose|j: int|
                    0 <= j < other.doms@.len() && #[trigger] other.doms@[j]@ == p.0
                        && other.subs@[j]@ == p.1;
                assert(self@.contains((other.doms@[j]@, other.subs@[j]@)));
            }
        }
    }
}

/// Copy a byte string.
fn clone_bytes(b: &Vec<u8>) -> (r: Vec<u8>)
    ensures
        r@ == b@,
{
    let mut r: Vec<u8> = Vec::new();
    let n = b.len();
    let mut i: usize = 0;
    while i < n
        invariant
            0 <= i <= n,
            n == b@.len(),
            r@ == b@.take(i as int),
        decreases n - i,
    {
        r.push(b[i]);
        i += 1;
        proof {
            assert(r@ =~= b@.take(i as int));
        }
    }
    proof {
        assert(b@.take(n as int) =~= b@);
    }
    r
}

} // verus!
