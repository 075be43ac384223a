//! A persisted one-directional map from a URL to its last observed redirect
//! target. No chain resolution happens here.

use vstd::prelude::*;
use vstd::utf8::encode_utf8;

use crate::crawl_types::Url;
use crate::store::Store;
use crate::text::string_from_utf8;
use crate::CrawlDbError;

verus! {

/// The redirect store, viewed as a map from URL bytes to target bytes.
pub struct RedirectDb {
    db: Store,
}

impl View for RedirectDb {
    type V = Map<Seq<u8>, Seq<u8>>;

    closed spec fn view(&self) -> Map<Seq<u8>, Seq<u8>> {
        self.db@
    }
}

impl RedirectDb {
    /// The backing store is consistent and every record holds a URL's UTF-8
    /// bytes.
    pub closed spec fn wf(&self) -> bool {
        &&& self.db.wf()
        &&& forall|k: Seq<u8>| #[trigger] self.db@.contains_key(k) ==> exists|t: Seq<char>|
            self.db@[k] == encode_utf8(t)
    }

    /// Open a redirect store; it starts with no records.
    pub fn open(path: &str) -> (r: Result<RedirectDb, CrawlDbError>)
        ensures
            r matches Ok(t) && t.wf() && t@ == Map::<Seq<u8>, Seq<u8>>::empty(),
    {
        let _ = path;
        Ok(RedirectDb { db: Store::open() })
    }

    /// Record that `from` redirects to `to`, overwriting any earlier target.
    pub fn put(&mut self, from: &Url, to: &Url) -> (r: Result<(), CrawlDbError>)
        requires
            old(self).wf(),
        ensures
            final(self).wf(),
            final(self)@ == old(self)@.insert(encode_utf8(from@), encode_utf8(to@)),
            r is Ok,
    {
        let kb = crate::crawl_types::url_bytes(from);
        let vb = crate::crawl_types::url_bytes(to);
        self.db.put(kb, vb);
        proof {
            assert forall|k: Seq<u8>| #[trigger] self.db@.contains_key(k) implies exists|t: Seq<char>|
                self.db@[k] == encode_utf8(t) by {
                if k == encode_utf8(from@) {
                    assert(self.db@[k] == encode_utf8(to@));
                } else {
                    assert(old(self).db@.contains_key(k));
                }
            }
        }
        Ok(())
    }

    /// The last recorded target for `from`, or nothing if never recorded.
    pub fn get(&self, from: &Url) -> (r: Result<Option<Url>, CrawlDbError>)
        requires
            self.wf(),
        ensures
            r matches Ok(o) && (match o {
                Some(u) => self@.contains_key(encode_utf8(from@)) && self@[encode_utf8(from@)]
                    == encode_utf8(u@),
                None => !self@.contains_key(encode_utf8(from@)),
            }),
    {
        let kb = crate::crawl_types::url_bytes(from);
        match self.db.get(&kb) {
            Some(vb) => {
                proof {
                    let t = choose|t: Seq<char>| self.db@[kb@] == encode_utf8(t);
                    vstd::utf8::encode_utf8_valid_utf8(t);
                    vstd::utf8::encode_utf8_decode_utf8(t);
                }
                match string_from_utf8(vb) {
                    Some(text) => Ok(Some(Url { full: text })),
                    None => {
                        proof {
                            assert(false);
                        }
                        Err(CrawlDbError::Serialization(String::new()))
                    },
                }
            },
            None => Ok(None),
        }
    }
}

} // verus!
