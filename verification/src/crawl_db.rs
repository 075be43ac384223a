//! The crawl database: the single owner of crawl state.
//!
//! It holds one identity table for URLs and one for domains, the redirect
//! store, and the in-memory scheduling state per domain and per URL. Seed
//! URLs and crawl responses flow in; sampled domains and `Job` batches flow
//! out. Every operation is specified against [`DbModel`], the mathematical
//! state of the whole database.

use vstd::prelude::*;
use vstd::utf8::encode_utf8;

use crate::crawl_types::{
    Domain, DomainId, DomainState, DomainStatus, Job, JobResponse, Url, UrlResponse,
    UrlState, UrlStatus,
};
use crate::id_table::{id_insert, id_wf, lemma_id_insert_wf, IdModel, IdTable};
use crate::redirect::RedirectDb;
use crate::urlparse::{domain_of, domain_text_of};
use crate::vecmap::VecMap;
use crate::CrawlDbError;

verus! {

/// The mathematical state of the crawl database.
pub ghost struct DbModel {
    pub url_ids: IdModel,
    pub domain_ids: IdModel,
    pub domains: Map<u64, DomainState>,
    pub urls: Map<u64, Map<u64, UrlState>>,
    pub redirects: Map<Seq<u8>, Seq<u8>>,
}

/// The nested per-URL state maps, as one map of maps.
pub open spec fn urls_view(m: Map<u64, VecMap<UrlState>>) -> Map<u64, Map<u64, UrlState>> {
    Map::new(|d: u64| m.contains_key(d), |d: u64| m[d]@)
}

/// A fresh, empty state entry.
pub open spec fn pending_domain() -> DomainState {
    DomainState { weight: 0, status: DomainStatus::Pending }
}

/// A fresh, empty per-URL state entry.
pub open spec fn pending_url() -> UrlState {
    UrlState { weight: 0, status: UrlStatus::Pending }
}

/// Setting a domain's status: the domain is registered if unseen, its weight
/// kept (or zero for a new entry), and its status overwritten.
pub open spec fn set_status_model(d: DbModel, dom: Seq<char>, st: DomainStatus) -> DbModel {
    let dm = id_insert(d.domain_ids, dom);
    let did = dm.map[dom];
    let w: u64 = if d.domains.contains_key(did) {
        d.domains[did].weight
    } else {
        0
    };
    DbModel {
        domain_ids: dm,
        domains: d.domains.insert(did, DomainState { weight: w, status: st }),
        ..d
    }
}


/// Seeding one URL: its domain and URL identities are resolved or created,
/// and a `Pending` state with weight 0 is added for each, only where no
/// state exists yet. Re-seeding a known URL changes nothing.
pub open spec fn seed_one(d: DbModel, u: Seq<char>) -> DbModel {
    let dm = id_insert(d.domain_ids, domain_of(u));
    let um = id_insert(d.url_ids, u);
    let did = dm.map[domain_of(u)];
    let uid = um.map[u];
    let doms = if d.domains.contains_key(did) {
        d.domains
    } else {
        d.domains.insert(did, pending_domain())
    };
    let inner0 = if d.urls.contains_key(did) {
        d.urls[did]
    } else {
        Map::empty()
    };
    let inner = if inner0.contains_key(uid) {
        inner0
    } else {
        inner0.insert(uid, pending_url())
    };
    DbModel {
        domain_ids: dm,
        url_ids: um,
        domains: doms,
        urls: d.urls.insert(did, inner),
        redirects: d.redirects,
    }
}

/// Seeding a batch of URLs, first to last.
pub open spec fn seed_all(d: DbModel, us: Seq<Seq<char>>) -> DbModel
    decreases us.len(),
{
    if us.len() == 0 {
        d
    } else {
        seed_all(seed_one(d, us[0]), us.drop_first())
    }
}


/// The URLs one response discovered, each with whether it came from a
/// different domain than the one that reported it.
pub open spec fn response_pairs(r: JobResponse) -> Seq<(Seq<char>, bool)> {
    r.discovered_urls@.map_values(|u: Url| (u@, r.domain@ != domain_of(u@)))
}

/// All discovered URLs of a batch of responses, in order.
pub open spec fn discovered_pairs(rs: Seq<JobResponse>) -> Seq<(Seq<char>, bool)>
    decreases rs.len(),
{
    if rs.len() == 0 {
        Seq::empty()
    } else {
        response_pairs(rs[0]) + discovered_pairs(rs.drop_first())
    }
}

/// Ingesting one discovered URL: identities are resolved or created, new
/// entities enter as `Pending` with weight 0, a cross-domain discovery adds
/// one to the URL's weight, and the owning domain's weight is raised to the
/// URL's weight if that is higher.
pub open spec fn ins_one(d: DbModel, p: (Seq<char>, bool)) -> DbModel {
    let dm = id_insert(d.domain_ids, domain_of(p.0));
    let um = id_insert(d.url_ids, p.0);
    let did = dm.map[domain_of(p.0)];
    let uid = um.map[p.0];
    let doms0 = if d.domains.contains_key(did) {
        d.domains
    } else {
        d.domains.insert(did, pending_domain())
    };
    let inner0 = if d.urls.contains_key(did) {
        d.urls[did]
    } else {
        Map::<u64, UrlState>::empty()
    };
    let inner1 = if inner0.contains_key(uid) {
        inner0
    } else {
        inner0.insert(uid, pending_url())
    };
    let st = inner1[uid];
    let w1: u64 = if p.1 {
        if st.weight < u64::MAX {
            (st.weight + 1) as u64
        } else {
            st.weight
        }
    } else {
        st.weight
    };
    let inner2 = inner1.insert(uid, UrlState { weight: w1, status: st.status });
    let dst = doms0[did];
    let dw1: u64 = if w1 > dst.weight {
        w1
    } else {
        dst.weight
    };
    DbModel {
        domain_ids: dm,
        url_ids: um,
        domains: doms0.insert(did, DomainState { weight: dw1, status: dst.status }),
        urls: d.urls.insert(did, inner2),
        redirects: d.redirects,
    }
}

/// Ingesting a batch of discovered URLs, first to last.
pub open spec fn ins_all(d: DbModel, ps: Seq<(Seq<char>, bool)>) -> DbModel
    decreases ps.len(),
{
    if ps.len() == 0 {
        d
    } else {
        ins_all(ins_one(d, ps[0]), ps.drop_first())
    }
}


/// The discovered URLs of the responses from an index on.
pub open spec fn dp_of_skip(rs: Seq<JobResponse>, i: int) -> Seq<(Seq<char>, bool)> {
    discovered_pairs(rs.skip(i))
}


/// Marking one URL's outcome: its identity and its domain's are resolved or
/// created, both get state entries if missing, and the URL's status becomes
/// `st`; its weight is untouched.
pub open spec fn upd_status_step(d: DbModel, u: Seq<char>, st: UrlStatus) -> DbModel {
    let um = id_insert(d.url_ids, u);
    let dm = id_insert(d.domain_ids, domain_of(u));
    let did = dm.map[domain_of(u)];
    let uid = um.map[u];
    let doms = if d.domains.contains_key(did) {
        d.domains
    } else {
        d.domains.insert(did, pending_domain())
    };
    let inner0 = if d.urls.contains_key(did) {
        d.urls[did]
    } else {
        Map::<u64, UrlState>::empty()
    };
    let inner1 = if inner0.contains_key(uid) {
        inner0
    } else {
        inner0.insert(uid, pending_url())
    };
    let inner2 = inner1.insert(uid, UrlState { weight: inner1[uid].weight, status: st });
    DbModel {
        url_ids: um,
        domain_ids: dm,
        domains: doms,
        urls: d.urls.insert(did, inner2),
        redirects: d.redirects,
    }
}

/// Applying one URL response: success marks the URL `Done`, failure marks
/// it `Failed` with the reported code, and a redirect records the target
/// without touching the URL's own status.
pub open spec fn upd_one(d: DbModel, r: UrlResponse) -> DbModel {
    match r {
        UrlResponse::Success { url } => upd_status_step(d, url@, UrlStatus::Done),
        UrlResponse::Failed { url, status_code } => upd_status_step(
            d,
            url@,
            UrlStatus::Failed { status_code },
        ),
        UrlResponse::Redirected { url, new_url } => {
            let um = id_insert(id_insert(d.url_ids, url@), new_url@);
            let dm = id_insert(d.domain_ids, domain_of(url@));
            let did = dm.map[domain_of(url@)];
            let doms = if d.domains.contains_key(did) {
                d.domains
            } else {
                d.domains.insert(did, pending_domain())
            };
            let inner0 = if d.urls.contains_key(did) {
                d.urls[did]
            } else {
                Map::<u64, UrlState>::empty()
            };
            DbModel {
                url_ids: um,
                domain_ids: dm,
                domains: doms,
                urls: d.urls.insert(did, inner0),
                redirects: d.redirects.insert(encode_utf8(url@), encode_utf8(new_url@)),
            }
        },
    }
}

/// Applying a batch of URL responses, first to last.
pub open spec fn upd_all(d: DbModel, rs: Seq<UrlResponse>) -> DbModel
    decreases rs.len(),
{
    if rs.len() == 0 {
        d
    } else {
        upd_all(upd_one(d, rs[0]), rs.drop_first())
    }
}

/// All URL responses of a batch of job responses, in order.
pub open spec fn flat_responses(rs: Seq<JobResponse>) -> Seq<UrlResponse>
    decreases rs.len(),
{
    if rs.len() == 0 {
        Seq::empty()
    } else {
        rs[0].url_responses@ + flat_responses(rs.drop_first())
    }
}

/// The URL responses of the job responses from an index on.
pub open spec fn fr_of_skip(rs: Seq<JobResponse>, i: int) -> Seq<UrlResponse> {
    flat_responses(rs.skip(i))
}


/// A domain weight is freshly recomputed: it is the greatest weight among
/// the `Pending` URLs of the group, or 0 where none are pending.
pub open spec fn weight_recomputed(m: Map<u64, UrlState>, w: u64) -> bool {
    if exists|u: u64| #[trigger] m.contains_key(u) && m[u].status is Pending {
        &&& (exists|u: u64|
            #[trigger] m.contains_key(u) && m[u].status is Pending && m[u].weight == w)
        &&& (forall|u: u64|
            #[trigger] m.contains_key(u) && m[u].status is Pending ==> m[u].weight <= w)
    } else {
        w == 0
    }
}


/// What `prepare_jobs` establishes for one domain: the job carries the
/// domain's value and up to the requested number of its previously pending
/// URLs, all distinct, each now `Crawling`; fewer than requested only when
/// every pending URL was taken; the domain's weight is recomputed over the
/// URLs still pending, its status kept; nothing else changes.
/// The URL group a domain had before a step, or the empty group.
pub open spec fn group_of(m: DbModel, did: u64) -> Map<u64, UrlState> {
    if m.urls.contains_key(did) {
        m.urls[did]
    } else {
        Map::<u64, UrlState>::empty()
    }
}

#[verifier::opaque]
pub open spec fn prepared_job_ok(
    m0: DbModel,
    m1: DbModel,
    did: u64,
    urls_per_job: usize,
    job: Job,
    inner0: Map<u64, UrlState>,
) -> bool {
    &&& job.fetch_sitemap == false
    &&& m0.domain_ids.map.contains_pair(job.domain@, did)
    &&& job.urls@.len() <= urls_per_job
    &&& (forall|a: int, b: int|
        #![trigger job.urls@[a], job.urls@[b]]
        0 <= a < b < job.urls@.len() ==> job.urls@[a]@ != job.urls@[b]@)
    &&& (forall|a: int|
        #![trigger job.urls@[a]]
        0 <= a < job.urls@.len() ==> m0.url_ids.map.contains_key(job.urls@[a]@)
            && inner0.contains_key(m0.url_ids.map[job.urls@[a]@])
            && inner0[m0.url_ids.map[job.urls@[a]@]].status is Pending
            && m1.urls[did].contains_key(m0.url_ids.map[job.urls@[a]@])
            && m1.urls[did][m0.url_ids.map[job.urls@[a]@]].status is Crawling)
    &&& (job.urls@.len() < urls_per_job ==> forall|u: u64|
        #[trigger] inner0.contains_key(u) && inner0[u].status is Pending ==> m1.urls[did][
        u].status is Crawling)
    &&& (forall|u: u64|
        #[trigger] inner0.contains_key(u) && inner0[u].status is Pending && m1.urls[did][
        u].status is Crawling ==> job_takes(m0, job, u))
    &&& m1.domains.dom() == m0.domains.dom()
    &&& (forall|d: u64|
        d != did && #[trigger] m0.domains.contains_key(d) ==> m1.domains[d] == m0.domains[d])
    &&& m1.domains[did].status == m0.domains[did].status
    &&& weight_recomputed(m1.urls[did], m1.domains[did].weight)
    &&& m1.urls.dom() == m0.urls.dom().insert(did)
    &&& (forall|d: u64|
        d != did && #[trigger] m0.urls.contains_key(d) ==> m1.urls[d] == m0.urls[d])
    &&& m1.urls[did].dom() == inner0.dom()
    &&& (forall|u: u64|
        #[trigger] inner0.contains_key(u) ==> m1.urls[did][u].weight == inner0[u].weight && (
        m1.urls[did][u].status == inner0[u].status || (inner0[u].status is Pending
            && m1.urls[did][u].status is Crawling)))
    &&& m1.url_ids == m0.url_ids
    &&& m1.domain_ids == m0.domain_ids
    &&& m1.redirects == m0.redirects
}


/// Package the facts established at the end of a job-preparation step.
proof fn lemma_prepared_job(
    m0: DbModel,
    m1: DbModel,
    did: u64,
    urls_per_job: usize,
    job: Job,
    inner0: Map<u64, UrlState>,
)
    requires
        job.fetch_sitemap == false,
        m0.domain_ids.map.contains_pair(job.domain@, did),
        job.urls@.len() <= urls_per_job,
        forall|a: int, b: int|
            #![trigger job.urls@[a], job.urls@[b]]
            0 <= a < b < job.urls@.len() ==> job.urls@[a]@ != job.urls@[b]@,
        forall|a: int|
            #![trigger job.urls@[a]]
            0 <= a < job.urls@.len() ==> m0.url_ids.map.contains_key(job.urls@[a]@)
                && inner0.contains_key(m0.url_ids.map[job.urls@[a]@])
                && inner0[m0.url_ids.map[job.urls@[a]@]].status is Pending
                && m1.urls[did].contains_key(m0.url_ids.map[job.urls@[a]@])
                && m1.urls[did][m0.url_ids.map[job.urls@[a]@]].status is Crawling,
        job.urls@.len() < urls_per_job ==> forall|u: u64|
            #[trigger] inner0.contains_key(u) && inner0[u].status is Pending ==> m1.urls[did][
            u].status is Crawling,
        forall|u: u64|
            #[trigger] inner0.contains_key(u) && inner0[u].status is Pending && m1.urls[did][
            u].status is Crawling ==> job_takes(m0, job, u),
        m1.domains.dom() == m0.domains.dom(),
        forall|d: u64|
            d != did && #[trigger] m0.domains.contains_key(d) ==> m1.domains[d] == m0.domains[d],
        m1.domains[did].status == m0.domains[did].status,
        weight_recomputed(m1.urls[did], m1.domains[did].weight),
        m1.urls.dom() == m0.urls.dom().insert(did),
        forall|d: u64|
            d != did && #[trigger] m0.urls.contains_key(d) ==> m1.urls[d] == m0.urls[d],
        m1.urls[did].dom() == inner0.dom(),
        forall|u: u64|
            #[trigger] inner0.contains_key(u) ==> m1.urls[did][u].weight == inner0[u].weight && (
            m1.urls[did][u].status == inner0[u].status || (inner0[u].status is Pending
                && m1.urls[did][u].status is Crawling)),
        m1.url_ids == m0.url_ids,
        m1.domain_ids == m0.domain_ids,
        m1.redirects == m0.redirects,
    ensures
        prepared_job_ok(m0, m1, did, urls_per_job, job, inner0),
{
    reveal(prepared_job_ok);
}


/// Whether one of the first `n` listed domains is `d`.
pub open spec fn listed_in(ds: Seq<DomainId>, n: int, d: u64) -> bool {
    exists|i: int| 0 <= i < n && #[trigger] ds[i].0 == d
}


/// A job's URLs are pairwise distinct values.
pub open spec fn job_urls_distinct(job: Job) -> bool {
    forall|a: int, b: int|
        #![trigger job.urls@[a], job.urls@[b]]
        0 <= a < b < job.urls@.len() ==> job.urls@[a]@ != job.urls@[b]@
}

/// Every URL the job carries was a `Pending` URL of domain `d` in state
/// `m0` and stands `Crawling` in state `m1`.
pub open spec fn job_urls_ok(m0: DbModel, m1: DbModel, d: u64, job: Job) -> bool {
    forall|a: int|
        #![trigger job.urls@[a]]
        0 <= a < job.urls@.len() ==> ({
            let u = m0.url_ids.map[job.urls@[a]@];
            &&& m0.url_ids.map.contains_key(job.urls@[a]@)
            &&& m0.urls.contains_key(d)
            &&& m0.urls[d].contains_key(u)
            &&& m0.urls[d][u].status is Pending
            &&& m1.urls.contains_key(d)
            &&& m1.urls[d].contains_key(u)
            &&& m1.urls[d][u].status is Crawling
        })
}

/// Every URL of domain `d` that was `Pending` in `m0` is `Crawling` in `m1`.
pub open spec fn all_pending_crawled(m0: DbModel, m1: DbModel, d: u64) -> bool {
    forall|u: u64|
        m0.urls.contains_key(d) && #[trigger] m0.urls[d].contains_key(u) && m0.urls[d][u].status
            is Pending ==> m1.urls.contains_key(d) && m1.urls[d].contains_key(u) && m1.urls[d][
        u].status is Crawling
}

/// The job carries the URL whose identifier is `u`.
pub open spec fn job_takes(m0: DbModel, job: Job, u: u64) -> bool {
    job.urls@.map_values(|url: Url| m0.url_ids.map[url@]).contains(u)
}

/// Domain `d`'s URL group exists in `m1` and holds exactly the keys it had
/// in `m0` (none, if it had no group).
pub open spec fn group_keys_kept(m0: DbModel, m1: DbModel, d: u64) -> bool {
    &&& m1.urls.contains_key(d)
    &&& m1.urls[d].dom() == (if m0.urls.contains_key(d) {
        m0.urls[d].dom()
    } else {
        Set::<u64>::empty()
    })
}

/// The single owner of crawl state.
pub struct CrawlDb {
    url_ids: IdTable,
    domain_ids: IdTable,
    redirects: RedirectDb,
    domain_state: VecMap<DomainState>,
    urls: VecMap<VecMap<UrlState>>,
}

impl View for CrawlDb {
    type V = DbModel;

    closed spec fn view(&self) -> DbModel {
        DbModel {
            url_ids: self.url_ids@,
            domain_ids: self.domain_ids@,
            domains: self.domain_state@,
            urls: urls_view(self.urls@),
            redirects: self.redirects@,
        }
    }
}

impl CrawlDb {
    /// All components are consistent, every identifier used as a state key
    /// has been assigned, and every URL group's parent domain has a state
    /// entry.
    pub closed spec fn wf(&self) -> bool {
        &&& self.url_ids.wf()
        &&& self.domain_ids.wf()
        &&& self.redirects.wf()
        &&& self.domain_state.wf()
        &&& self.urls.wf()
        &&& (forall|d: u64| #[trigger] self.urls@.contains_key(d) ==> self.urls@[d].wf())
        &&& (forall|d: u64| #[trigger] self.urls@.contains_key(d)
            ==> self.domain_state@.contains_key(d))
        &&& (forall|d: u64| #[trigger] self.domain_state@.contains_key(d)
            ==> (d as nat) < self.domain_ids@.next)
        &&& (forall|d: u64, u: u64|
            self.urls@.contains_key(d) && #[trigger] self.urls@[d]@.contains_key(u)
                ==> (u as nat) < self.url_ids@.next)
    }

    /// A well-formed database keeps both identity bijections and gives every
    /// URL group a parent domain entry.
    pub proof fn lemma_wf(&self)
        requires
            self.wf(),
        ensures
            id_wf(self@.url_ids),
            id_wf(self@.domain_ids),
            forall|d: u64| #[trigger] self@.urls.contains_key(d)
                ==> self@.domains.contains_key(d),
            forall|d: u64| #[trigger] self@.domains.contains_key(d)
                ==> (d as nat) < self@.domain_ids.next,
            forall|d: u64, u: u64|
                self@.urls.contains_key(d) && #[trigger] self@.urls[d].contains_key(u)
                    ==> (u as nat) < self@.url_ids.next,
    {
        self.url_ids.lemma_wf();
        self.domain_ids.lemma_wf();
        assert forall|d: u64, u: u64|
            self@.urls.contains_key(d) && #[trigger] self@.urls[d].contains_key(u) implies (
        u as nat) < self@.url_ids.next by {
            assert(self.urls@.contains_key(d) && self.urls@[d]@.contains_key(u));
        }
    }

    /// Open a crawl database. Any state previously persisted under this
    /// path is discarded: every open starts from an empty database.
    pub fn open(path: &str) -> (r: Result<CrawlDb, CrawlDbError>)
        ensures
            r matches Ok(db) && db.wf() && db@.url_ids.next == 0 && db@.domain_ids.next == 0
                && db@.domains =~= Map::empty() && db@.urls =~= Map::empty()
                && db@.redirects =~= Map::empty() && db@.url_ids.map =~= Map::empty()
                && db@.domain_ids.map =~= Map::empty(),
    {
        let url_ids = match IdTable::open(path) {
            Ok(t) => t,
            Err(e) => return Err(e),
        };
        let domain_ids = match IdTable::open(path) {
            Ok(t) => t,
            Err(e) => return Err(e),
        };
        let redirects = match RedirectDb::open(path) {
            Ok(t) => t,
            Err(e) => return Err(e),
        };
        let db = CrawlDb {
            url_ids,
            domain_ids,
            redirects,
            domain_state: VecMap::new(),
            urls: VecMap::new(),
        };
        proof {
            assert(urls_view(db.urls@) =~= Map::<u64, Map<u64, UrlState>>::empty());
        }
        Ok(db)
    }

    /// How many domain identifiers have been assigned.
    pub fn domain_count(&self) -> (r: u64)
        requires
            self.wf(),
        ensures
            r as nat == self@.domain_ids.next,
    {
        self.domain_ids.assigned_count()
    }

    /// How many URL identifiers have been assigned.
    pub fn url_count(&self) -> (r: u64)
        requires
            self.wf(),
        ensures
            r as nat == self@.url_ids.next,
    {
        self.url_ids.assigned_count()
    }

    /// Override a domain's status, registering the domain if unseen. This is
    /// how the orchestrator returns a domain to `Pending` once its round is
    /// fully processed.
    pub fn set_domain_status(&mut self, domain: &Domain, status: DomainStatus) -> (r: Result<
        (),
        CrawlDbError,
    >)
        requires
            old(self).wf(),
            old(self)@.domain_ids.next < u64::MAX as nat,
        ensures
            final(self).wf(),
            r is Ok,
            final(self)@ == set_status_model(old(self)@, domain@, status),
    {
        proof {
            self.domain_ids.lemma_wf();
            lemma_id_insert_wf(self@.domain_ids, domain@);
        }
        let did = match self.domain_ids.id(&domain.name) {
            Ok(i) => i,
            Err(e) => return Err(e),
        };
        let w: u64 = match self.domain_state.get(did) {
            Some(st) => st.weight,
            None => 0,
        };
        self.domain_state.insert(did, DomainState { weight: w, status });
        proof {
            assert(self@.domains =~= set_status_model(old(self)@, domain@, status).domains);
            assert(self@ == set_status_model(old(self)@, domain@, status));
        }
        Ok(())
    }


    /// Seed a batch of URLs: each unseen URL (and its domain) enters the
    /// frontier as `Pending` with weight 0; already-known URLs are left
    /// untouched.
    #[verifier::loop_isolation(false)]
    pub fn insert_seed_urls(&mut self, urls: &Vec<Url>) -> (r: Result<(), CrawlDbError>)
        requires
            old(self).wf(),
            old(self)@.domain_ids.next + urls@.len() <= u64::MAX as nat,
            old(self)@.url_ids.next + urls@.len() <= u64::MAX as nat,
        ensures
            final(self).wf(),
            r is Ok,
            final(self)@ == seed_all(old(self)@, crate::crawl_types::url_views(urls@)),
    {
        let ghost us = crate::crawl_types::url_views(urls@);
        let n = urls.len();
        let mut i: usize = 0;
        proof {
            assert(us.skip(0) =~= us);
        }
        while i < n
            invariant
                self.wf(),
                0 <= i <= n,
                seed_all(old(self)@, us) == seed_all(self@, us.skip(i as int)),
                self@.domain_ids.next + (n - i) <= u64::MAX as nat,
                self@.url_ids.next + (n - i) <= u64::MAX as nat,
            decreases n - i,
        {
            let ghost pre = self@;
            let ghost pre_urls_f = self.urls@;
            let ghost pre_ds_f = self.domain_state@;
            let url = &urls[i];
            let dtext = domain_text_of(&url.full);
            proof {
                self.domain_ids.lemma_wf();
                self.url_ids.lemma_wf();
                lemma_id_insert_wf(pre.domain_ids, dtext@);
                lemma_id_insert_wf(pre.url_ids, url@);
            }
            let did = match self.domain_ids.id(&dtext) {
                Ok(v) => v,
                Err(e) => return Err(e),
            };
            let uid = match self.url_ids.id(&url.full) {
                Ok(v) => v,
                Err(e) => return Err(e),
            };
            if self.domain_state.get(did).is_none() {
                self.domain_state.insert(did, DomainState { weight: 0, status: DomainStatus::Pending });
            }
            if self.urls.get(did).is_none() {
                self.urls.insert(did, VecMap::new());
            }
            let mut inner: VecMap<UrlState> = VecMap::new();
            self.urls.swap_at(did, &mut inner);
            if inner.get(uid).is_none() {
                inner.insert(uid, UrlState { weight: 0, status: UrlStatus::Pending });
            }
            self.urls.swap_at(did, &mut inner);
            proof {
                let step = seed_one(pre, us[i as int]);
                assert(us[i as int] == url@);
                assert(dtext@ == domain_of(url@));
                assert(self@.domains =~= step.domains);
                assert(self@.urls =~= step.urls);
                assert(self@ == step);
                assert(us.skip(i as int)[0] == us[i as int]);
                assert(us.skip(i as int).drop_first() =~= us.skip(i as int + 1));
                assert(seed_all(self@, us.skip(i as int + 1)) == seed_all(pre, us.skip(i as int)));
                assert forall|d: u64| #[trigger] self.urls@.contains_key(d) implies self.urls@[
                d].wf() && self.domain_state@.contains_key(d) by {
                    if d != did {
                        assert(pre_urls_f.contains_key(d));
                        assert(self.urls@[d] == pre_urls_f[d]);
                        assert(pre_ds_f.contains_key(d));
                    }
                }
                assert forall|d: u64| #[trigger] self.domain_state@.contains_key(d) implies (
                d as nat) < self.domain_ids@.next by {
                    if d != did {
                        assert(pre_ds_f.contains_key(d));
                    }
                }
                assert forall|d: u64, x: u64|
                    self.urls@.contains_key(d) && #[trigger] self.urls@[d]@.contains_key(x)
                        implies (x as nat) < self.url_ids@.next by {
                    if d == did {
                        if x != uid {
                            assert(pre.urls.contains_key(did) && pre.urls[did].contains_key(x));
                        }
                    } else {
                        assert(pre_urls_f.contains_key(d));
                        assert(self.urls@[d] == pre_urls_f[d]);
                        assert(pre.urls.contains_key(d) && pre.urls[d].contains_key(x));
                    }
                }
            }
            i += 1;
        }
        proof {
            assert(us.skip(n as int).len() == 0);
        }
        Ok(())
    }


    /// Ingest the URLs a batch of job responses discovered. Unseen domains
    /// and URLs are registered as `Pending`; a URL reported by a different
    /// domain than its own gains one weight, and its domain's weight is
    /// raised to match where needed.
    #[verifier::loop_isolation(false)]
    pub fn insert_urls(&mut self, responses: &Vec<JobResponse>) -> (r: Result<(), CrawlDbError>)
        requires
            old(self).wf(),
            old(self)@.domain_ids.next + discovered_pairs(responses@).len() <= u64::MAX as nat,
            old(self)@.url_ids.next + discovered_pairs(responses@).len() <= u64::MAX as nat,
        ensures
            final(self).wf(),
            r is Ok,
            final(self)@ == ins_all(old(self)@, discovered_pairs(responses@)),
    {
        let ghost dp = discovered_pairs(responses@);
        let ghost mut rest: Seq<(Seq<char>, bool)> = dp;
        let nr = responses.len();
        let mut ri: usize = 0;
        proof {
            assert(responses@.skip(0) =~= responses@);
            assert(dp_of_skip(responses@, 0) == dp);
        }
        while ri < nr
            invariant
                self.wf(),
                0 <= ri <= nr,
                rest == dp_of_skip(responses@, ri as int),
                ins_all(old(self)@, dp) == ins_all(self@, rest),
                self@.domain_ids.next + rest.len() <= u64::MAX as nat,
                self@.url_ids.next + rest.len() <= u64::MAX as nat,
            decreases nr - ri,
        {
            let resp = &responses[ri];
            let nu = resp.discovered_urls.len();
            let mut ui: usize = 0;
            proof {
                assert(responses@.skip(ri as int)[0] == responses@[ri as int]);
                assert(responses@.skip(ri as int).drop_first() =~= responses@.skip(ri as int + 1));
                assert(rest == response_pairs(responses@[ri as int]) + dp_of_skip(
                    responses@,
                    ri as int + 1,
                ));
                assert(response_pairs(*resp).skip(0) =~= response_pairs(*resp));
            }
            while ui < nu
                invariant
                    self.wf(),
                    0 <= ui <= nu,
                    nu == resp.discovered_urls@.len(),
                    resp == &responses@[ri as int],
                    0 <= ri < nr,
                    rest == response_pairs(*resp).skip(ui as int) + dp_of_skip(
                        responses@,
                        ri as int + 1,
                    ),
                    ins_all(old(self)@, dp) == ins_all(self@, rest),
                    self@.domain_ids.next + rest.len() <= u64::MAX as nat,
                    self@.url_ids.next + rest.len() <= u64::MAX as nat,
                decreases nu - ui,
            {
                let ghost pre = self@;
                let ghost pre_urls_f = self.urls@;
                let ghost pre_ds_f = self.domain_state@;
                let ghost p = rest[0];
                let url = &resp.discovered_urls[ui];
                let dtext = domain_text_of(&url.full);
                let diff = !(resp.domain.name == dtext);
                proof {
                    assert(response_pairs(*resp)[ui as int] == (url@, resp.domain@ != domain_of(
                        url@,
                    )));
                    assert(p == (url@, resp.domain@ != domain_of(url@)));
                    assert(diff == p.1);
                    self.domain_ids.lemma_wf();
                    self.url_ids.lemma_wf();
                    lemma_id_insert_wf(pre.domain_ids, dtext@);
                    lemma_id_insert_wf(pre.url_ids, url@);
                }
                let did = match self.domain_ids.id(&dtext) {
                    Ok(v) => v,
                    Err(e) => return Err(e),
                };
                let uid = match self.url_ids.id(&url.full) {
                    Ok(v) => v,
                    Err(e) => return Err(e),
                };
                if self.domain_state.get(did).is_none() {
                    self.domain_state.insert(
                        did,
                        DomainState { weight: 0, status: DomainStatus::Pending },
                    );
                }
                if self.urls.get(did).is_none() {
                    self.urls.insert(did, VecMap::new());
                }
                let mut inner: VecMap<UrlState> = VecMap::new();
                self.urls.swap_at(did, &mut inner);
                if inner.get(uid).is_none() {
                    inner.insert(uid, UrlState { weight: 0, status: UrlStatus::Pending });
                }
                let st: UrlState = match inner.get(uid) {
                    Some(v) => *v,
                    None => UrlState { weight: 0, status: UrlStatus::Pending },
                };
                let w1: u64 = if diff {
                    if st.weight < u64::MAX {
                        st.weight + 1
                    } else {
                        st.weight
                    }
                } else {
                    st.weight
                };
                inner.insert(uid, UrlState { weight: w1, status: st.status });
                self.urls.swap_at(did, &mut inner);
                let dst: DomainState = match self.domain_state.get(did) {
                    Some(v) => *v,
                    None => DomainState { weight: 0, status: DomainStatus::Pending },
                };
                let dw1: u64 = if w1 > dst.weight {
                    w1
                } else {
                    dst.weight
                };
                self.domain_state.insert(did, DomainState { weight: dw1, status: dst.status });
                proof {
                    let step = ins_one(pre, p);
                    assert(self@.domains =~= step.domains);
                    assert(self@.urls =~= step.urls);
                    assert(self@ == step);
                    assert(rest.drop_first() =~= response_pairs(*resp).skip(ui as int + 1)
                        + dp_of_skip(responses@, ri as int + 1));
                    assert(ins_all(pre, rest) == ins_all(self@, rest.drop_first()));
                    rest = rest.drop_first();
                    assert forall|d: u64| #[trigger] self.urls@.contains_key(d) implies self.urls@[
                    d].wf() && self.domain_state@.contains_key(d) by {
                        if d != did {
                            assert(pre_urls_f.contains_key(d));
                            assert(self.urls@[d] == pre_urls_f[d]);
                            assert(pre_ds_f.contains_key(d));
                        }
                    }
                    assert forall|d: u64| #[trigger] self.domain_state@.contains_key(d) implies (
                    d as nat) < self.domain_ids@.next by {
                        if d != did {
                            assert(pre_ds_f.contains_key(d));
                        }
                    }
                    assert forall|d: u64, x: u64|
                        self.urls@.contains_key(d) && #[trigger] self.urls@[d]@.contains_key(x)
                            implies (x as nat) < self.url_ids@.next by {
                        if d == did {
                            if x != uid {
                                assert(pre.urls.contains_key(did) && pre.urls[did].contains_key(
                                    x,
                                ));
                            }
                        } else {
                            assert(pre_urls_f.contains_key(d));
                            assert(self.urls@[d] == pre_urls_f[d]);
                            assert(pre.urls.contains_key(d) && pre.urls[d].contains_key(x));
                        }
                    }
                }
                ui += 1;
            }
            proof {
                assert(response_pairs(*resp).skip(nu as int).len() == 0);
                assert(rest =~= dp_of_skip(responses@, ri as int + 1));
            }
            ri += 1;
        }
        proof {
            assert(dp_of_skip(responses@, nr as int).len() == 0);
            assert(rest.len() == 0);
        }
        Ok(())
    }


    /// Apply the per-URL outcomes of a batch of job responses: successes
    /// become `Done`, failures `Failed` with their code, and redirects are
    /// recorded in the redirect store while the URL's own status stays as it
    /// was.
    #[verifier::loop_isolation(false)]
    pub fn update_url_status(&mut self, job_responses: &Vec<JobResponse>) -> (r: Result<
        (),
        CrawlDbError,
    >)
        requires
            old(self).wf(),
            old(self)@.domain_ids.next + flat_responses(job_responses@).len() <= u64::MAX as nat,
            old(self)@.url_ids.next + 2 * flat_responses(job_responses@).len() <= u64::MAX as nat,
        ensures
            final(self).wf(),
            r is Ok,
            final(self)@ == upd_all(old(self)@, flat_responses(job_responses@)),
    {
        let ghost fr = flat_responses(job_responses@);
        let ghost mut rest: Seq<UrlResponse> = fr;
        let nr = job_responses.len();
        let mut ri: usize = 0;
        proof {
            assert(job_responses@.skip(0) =~= job_responses@);
            assert(fr_of_skip(job_responses@, 0) == fr);
        }
        while ri < nr
            invariant
                self.wf(),
                0 <= ri <= nr,
                rest == fr_of_skip(job_responses@, ri as int),
                upd_all(old(self)@, fr) == upd_all(self@, rest),
                self@.domain_ids.next + rest.len() <= u64::MAX as nat,
                self@.url_ids.next + 2 * rest.len() <= u64::MAX as nat,
            decreases nr - ri,
        {
            let resp = &job_responses[ri];
            let nu = resp.url_responses.len();
            let mut ui: usize = 0;
            proof {
                assert(job_responses@.skip(ri as int)[0] == job_responses@[ri as int]);
                assert(job_responses@.skip(ri as int).drop_first() =~= job_responses@.skip(
                    ri as int + 1,
                ));
                assert(rest == resp.url_responses@ + fr_of_skip(job_responses@, ri as int + 1));
                assert(resp.url_responses@.skip(0) =~= resp.url_responses@);
            }
            while ui < nu
                invariant
                    self.wf(),
                    0 <= ui <= nu,
                    nu == resp.url_responses@.len(),
                    resp == &job_responses@[ri as int],
                    0 <= ri < nr,
                    rest == resp.url_responses@.skip(ui as int) + fr_of_skip(
                        job_responses@,
                        ri as int + 1,
                    ),
                    upd_all(old(self)@, fr) == upd_all(self@, rest),
                    self@.domain_ids.next + rest.len() <= u64::MAX as nat,
                    self@.url_ids.next + 2 * rest.len() <= u64::MAX as nat,
                decreases nu - ui,
            {
                let ghost pre = self@;
                let ghost pre_urls_f = self.urls@;
                let ghost pre_ds_f = self.domain_state@;
                let ghost item_g = rest[0];
                let item = &resp.url_responses[ui];
                proof {
                    assert(resp.url_responses@.skip(ui as int)[0] == resp.url_responses@[
                    ui as int]);
                    assert(item_g == resp.url_responses@[ui as int]);
                }
                match item {
                    UrlResponse::Success { url } => {
                        match self.apply_status(url, UrlStatus::Done) {
                            Ok(()) => {},
                            Err(e) => return Err(e),
                        }
                        proof {
                            assert(self@ == upd_one(pre, item_g));
                        }
                    },
                    UrlResponse::Failed { url, status_code } => {
                        match self.apply_status(url, UrlStatus::Failed { status_code: *status_code })
                            {
                            Ok(()) => {},
                            Err(e) => return Err(e),
                        }
                        proof {
                            assert(self@ == upd_one(pre, item_g));
                        }
                    },
                    UrlResponse::Redirected { url, new_url } => {
                        let dtext = domain_text_of(&url.full);
                        proof {
                            self.domain_ids.lemma_wf();
                            self.url_ids.lemma_wf();
                            lemma_id_insert_wf(pre.url_ids, url@);
                            lemma_id_insert_wf(id_insert(pre.url_ids, url@), new_url@);
                            lemma_id_insert_wf(pre.domain_ids, dtext@);
                        }
                        let _uid = match self.url_ids.id(&url.full) {
                            Ok(v) => v,
                            Err(e) => return Err(e),
                        };
                        let _nid = match self.url_ids.id(&new_url.full) {
                            Ok(v) => v,
                            Err(e) => return Err(e),
                        };
                        let did = match self.domain_ids.id(&dtext) {
                            Ok(v) => v,
                            Err(e) => return Err(e),
                        };
                        if self.domain_state.get(did).is_none() {
                            self.domain_state.insert(
                                did,
                                DomainState { weight: 0, status: DomainStatus::Pending },
                            );
                        }
                        if self.urls.get(did).is_none() {
                            self.urls.insert(did, VecMap::new());
                        }
                        let mut inner: VecMap<UrlState> = VecMap::new();
                        self.urls.swap_at(did, &mut inner);
                        self.urls.swap_at(did, &mut inner);
                        match self.redirects.put(url, new_url) {
                            Ok(()) => {},
                            Err(e) => return Err(e),
                        }
                        proof {
                            let step = upd_one(pre, item_g);
                            assert(self@.domains =~= step.domains);
                            assert(self@.urls =~= step.urls);
                            assert(self@ == step);
                            assert forall|d: u64| #[trigger] self.urls@.contains_key(d) implies
                                self.urls@[d].wf() && self.domain_state@.contains_key(d) by {
                                if d != did {
                                    assert(pre_urls_f.contains_key(d));
                                    assert(self.urls@[d] == pre_urls_f[d]);
                                    assert(pre_ds_f.contains_key(d));
                                }
                            }
                            assert forall|d: u64| #[trigger] self.domain_state@.contains_key(d)
                                implies (d as nat) < self.domain_ids@.next by {
                                if d != did {
                                    assert(pre_ds_f.contains_key(d));
                                }
                            }
                            assert forall|d: u64, x: u64|
                                self.urls@.contains_key(d) && #[trigger] self.urls@[
                            d]@.contains_key(x) implies (x as nat) < self.url_ids@.next by {
                                if d == did {
                                    assert(pre.urls.contains_key(did)
                                        ==> pre.urls[did].contains_key(x));
                                    if pre.urls.contains_key(did) {
                                        assert((x as nat) < pre.url_ids.next);
                                    }
                                } else {
                                    assert(pre_urls_f.contains_key(d));
                                    assert(self.urls@[d] == pre_urls_f[d]);
                                    assert(pre.urls.contains_key(d) && pre.urls[d].contains_key(
                                        x,
                                    ));
                                }
                            }
                        }
                    },
                }
                proof {
                    assert(rest.drop_first() =~= resp.url_responses@.skip(ui as int + 1)
                        + fr_of_skip(job_responses@, ri as int + 1));
                    assert(upd_all(pre, rest) == upd_all(self@, rest.drop_first()));
                    rest = rest.drop_first();
                }
                ui += 1;
            }
            proof {
                assert(resp.url_responses@.skip(nu as int).len() == 0);
                assert(rest =~= fr_of_skip(job_responses@, ri as int + 1));
            }
            ri += 1;
        }
        proof {
            assert(fr_of_skip(job_responses@, nr as int).len() == 0);
            assert(rest.len() == 0);
        }
        Ok(())
    }

    /// Register a URL and its domain if unseen and set the URL's status,
    /// leaving its weight as it was.
    fn apply_status(&mut self, url: &Url, st: UrlStatus) -> (r: Result<(), CrawlDbError>)
        requires
            old(self).wf(),
            old(self)@.domain_ids.next + 1 <= u64::MAX as nat,
            old(self)@.url_ids.next + 1 <= u64::MAX as nat,
        ensures
            final(self).wf(),
            r is Ok,
            final(self)@ == upd_status_step(old(self)@, url@, st),
    {
        let ghost pre = self@;
        let ghost pre_urls_f = self.urls@;
        let ghost pre_ds_f = self.domain_state@;
        let dtext = domain_text_of(&url.full);
        proof {
            self.domain_ids.lemma_wf();
            self.url_ids.lemma_wf();
            lemma_id_insert_wf(pre.url_ids, url@);
            lemma_id_insert_wf(pre.domain_ids, dtext@);
        }
        let uid = match self.url_ids.id(&url.full) {
            Ok(v) => v,
            Err(e) => return Err(e),
        };
        let did = match self.domain_ids.id(&dtext) {
            Ok(v) => v,
            Err(e) => return Err(e),
        };
        if self.domain_state.get(did).is_none() {
            self.domain_state.insert(did, DomainState { weight: 0, status: DomainStatus::Pending });
        }
        if self.urls.get(did).is_none() {
            self.urls.insert(did, VecMap::new());
        }
        let mut inner: VecMap<UrlState> = VecMap::new();
        self.urls.swap_at(did, &mut inner);
        if inner.get(uid).is_none() {
            inner.insert(uid, UrlState { weight: 0, status: UrlStatus::Pending });
        }
        let w: u64 = match inner.get(uid) {
            Some(v) => v.weight,
            None => 0,
        };
        inner.insert(uid, UrlState { weight: w, status: st });
        self.urls.swap_at(did, &mut inner);
        proof {
            let step = upd_status_step(pre, url@, st);
            assert(self@.domains =~= step.domains);
            assert(self@.urls =~= step.urls);
            assert(self@ == step);
            assert forall|d: u64| #[trigger] self.urls@.contains_key(d) implies self.urls@[
            d].wf() && self.domain_state@.contains_key(d) by {
                if d != did {
                    assert(pre_urls_f.contains_key(d));
                    assert(self.urls@[d] == pre_urls_f[d]);
                    assert(pre_ds_f.contains_key(d));
                }
            }
            assert forall|d: u64| #[trigger] self.domain_state@.contains_key(d) implies (
            d as nat) < self.domain_ids@.next by {
                if d != did {
                    assert(pre_ds_f.contains_key(d));
                }
            }
            assert forall|d: u64, x: u64|
                self.urls@.contains_key(d) && #[trigger] self.urls@[d]@.contains_key(x)
                    implies (x as nat) < self.url_ids@.next by {
                if d == did {
                    if x != uid {
                        assert(pre.urls.contains_key(did) && pre.urls[did].contains_key(x));
                    }
                } else {
                    assert(pre_urls_f.contains_key(d));
                    assert(self.urls@[d] == pre_urls_f[d]);
                    assert(pre.urls.contains_key(d) && pre.urls[d].contains_key(x));
                }
            }
        }
        Ok(())
    }


    /// Run the weighted sampler over the domains currently `Pending` and
    /// mark every selected domain `CrawlInProgress`. Domains not `Pending`
    /// are invisible to this call. The selection is random; the contract
    /// pins its size and membership: at most `num_jobs` distinct pending
    /// domains, and fewer only when every pending domain was selected.
    #[verifier::loop_isolation(false)]
    pub fn sample_domains(&mut self, num_jobs: usize) -> (r: Result<Vec<DomainId>, CrawlDbError>)
        requires
            old(self).wf(),
        ensures
            final(self).wf(),
            r matches Ok(ids) && ({
                &&& ids@.len() <= num_jobs
                &&& (forall|a: int, b: int| 0 <= a < b < ids@.len() ==> ids@[a].0 != ids@[b].0)
                &&& (forall|a: int|
                    0 <= a < ids@.len() ==> old(self)@.domains.contains_key(#[trigger] ids@[a].0)
                        && old(self)@.domains[ids@[a].0].status is Pending)
                &&& (ids@.len() < num_jobs ==> forall|d: u64|
                    old(self)@.domains.contains_key(d) && old(self)@.domains[d].status
                        is Pending ==> exists|a: int|
                        0 <= a < ids@.len() && #[trigger] ids@[a].0 == d)
                &&& (forall|d: u64|
                    #[trigger] final(self)@.domains.contains_key(d) <==> old(self)@.domains.contains_key(d))
                &&& (forall|d: u64| #[trigger] old(self)@.domains.contains_key(d)
                    ==> final(self)@.domains[d] == (if (exists|a: int|
                        0 <= a < ids@.len() && #[trigger] ids@[a].0 == d) {
                        DomainState {
                            weight: old(self)@.domains[d].weight,
                            status: DomainStatus::CrawlInProgress,
                        }
                    } else {
                        old(self)@.domains[d]
                    }))
                &&& final(self)@.urls == old(self)@.urls
                &&& final(self)@.url_ids == old(self)@.url_ids
                &&& final(self)@.domain_ids == old(self)@.domain_ids
                &&& final(self)@.redirects == old(self)@.redirects
            }),
    {
        let ghost m0 = self@;
        let mut cands: Vec<(u64, u64)> = Vec::new();
        let ghost mut csrc: Seq<int> = Seq::empty();
        let len = self.domain_state.len();
        proof {
            self.domain_state.lemma_view();
        }
        let ghost ks = self.domain_state.keys_seq();
        let mut i: usize = 0;
        while i < len
            invariant
                self == old(self),
                self.wf(),
                0 <= i <= len,
                len == ks.len(),
                cands@.len() == csrc.len(),
                forall|j: int| 0 <= j < csrc.len() ==> 0 <= #[trigger] csrc[j] < i,
                forall|j1: int, j2: int| 0 <= j1 < j2 < csrc.len() ==> csrc[j1] != csrc[j2],
                forall|j: int| 0 <= j < csrc.len() ==> cands@[j].0 == ks[#[trigger] csrc[j]],
                forall|j: int|
                    0 <= j < cands@.len() ==> m0.domains.contains_key(#[trigger] cands@[j].0)
                        && m0.domains[cands@[j].0].status is Pending
                        && m0.domains[cands@[j].0].weight == cands@[j].1,
                forall|q: int|
                    0 <= q < i && m0.domains[#[trigger] ks[q]].status is Pending
                        ==> crate::sampler::firsts(cands@).contains(ks[q]),
            decreases len - i,
        {
            let ghost pre_cands = cands@;
            let k = self.domain_state.key_at(i);
            let st = *self.domain_state.val_at(i);
            if matches!(st.status, DomainStatus::Pending) {
                cands.push((k, st.weight));
                proof {
                    csrc = csrc.push(i as int);
                    assert(crate::sampler::firsts(cands@)[cands@.len() - 1] == k);
                }
            }
            proof {
                assert forall|q: int|
                    0 <= q < i + 1 && m0.domains[#[trigger] ks[q]].status is Pending implies
                    crate::sampler::firsts(cands@).contains(ks[q]) by {
                    if q < i {
                        let fs0 = crate::sampler::firsts(pre_cands);
                        assert(fs0.contains(ks[q]));
                        let c = choose|c: int| 0 <= c < fs0.len() && fs0[c] == ks[q];
                        assert(crate::sampler::firsts(cands@)[c] == ks[q]);
                    } else {
                        assert(crate::sampler::firsts(cands@)[cands@.len() - 1] == ks[q]);
                    }
                }
            }
            i += 1;
        }
        proof {
            assert forall|j1: int, j2: int| 0 <= j1 < j2 < cands@.len() implies crate::sampler::firsts(
                cands@,
            )[j1] != crate::sampler::firsts(cands@)[j2] by {
                assert(ks[csrc[j1]] != ks[csrc[j2]]);
            }
        }
        let sampled: Vec<u64> = crate::sampler::weighted_sample(&cands, num_jobs);
        let mut out: Vec<DomainId> = Vec::new();
        let mut j: usize = 0;
        while j < sampled.len()
            invariant
                self.wf(),
                0 <= j <= sampled@.len(),
                out@.len() == j,
                forall|a: int| 0 <= a < j ==> #[trigger] out@[a].0 == sampled@[a],
                forall|a: int|
                    0 <= a < sampled@.len() ==> m0.domains.contains_key(#[trigger] sampled@[a])
                        && m0.domains[sampled@[a]].status is Pending,
                forall|d: u64|
                    #[trigger] self@.domains.contains_key(d) <==> m0.domains.contains_key(d),
                forall|d: u64| #[trigger] m0.domains.contains_key(d) ==> self@.domains[d] == (
                if sampled@.take(j as int).contains(d) {
                    DomainState {
                        weight: m0.domains[d].weight,
                        status: DomainStatus::CrawlInProgress,
                    }
                } else {
                    m0.domains[d]
                }),
                self@.urls == m0.urls,
                self@.url_ids == m0.url_ids,
                self@.domain_ids == m0.domain_ids,
                self@.redirects == m0.redirects,
            decreases sampled@.len() - j,
        {
            let d = sampled[j];
            let w: u64 = match self.domain_state.get(d) {
                Some(st) => st.weight,
                None => 0,
            };
            self.domain_state.insert(
                d,
                DomainState { weight: w, status: DomainStatus::CrawlInProgress },
            );
            out.push(DomainId(d));
            proof {
                assert(sampled@.take(j as int + 1) =~= sampled@.take(j as int).push(sampled@[
                j as int]));
                assert forall|dd: u64| #[trigger] m0.domains.contains_key(dd) implies self@.domains[
                dd] == (if sampled@.take(j as int + 1).contains(dd) {
                    DomainState {
                        weight: m0.domains[dd].weight,
                        status: DomainStatus::CrawlInProgress,
                    }
                } else {
                    m0.domains[dd]
                }) by {
                    if dd == d {
                        assert(sampled@.take(j as int + 1)[j as int] == d);
                        assert(sampled@.take(j as int + 1).contains(d));
                    } else {
                        if sampled@.take(j as int + 1).contains(dd) {
                            let c = choose|c: int|
                                0 <= c < j + 1 && #[trigger] sampled@.take(j as int + 1)[c] == dd;
                            assert(sampled@.take(j as int)[c] == dd);
                            assert(sampled@.take(j as int).contains(dd));
                        }
                        if sampled@.take(j as int).contains(dd) {
                            let c = choose|c: int|
                                0 <= c < j && #[trigger] sampled@.take(j as int)[c] == dd;
                            assert(sampled@.take(j as int + 1)[c] == dd);
                            assert(sampled@.take(j as int + 1).contains(dd));
                        }
                    }
                }
            }
            j += 1;
        }
        proof {
            assert(sampled@.take(sampled@.len() as int) =~= sampled@);
            let fs = crate::sampler::firsts(cands@);
            assert forall|a: int| 0 <= a < out@.len() implies m0.domains.contains_key(
                #[trigger] out@[a].0,
            ) && m0.domains[out@[a].0].status is Pending by {
                assert(out@[a].0 == sampled@[a]);
            }
            if sampled@.len() < num_jobs {
                assert(cands@.len() < num_jobs);
                assert forall|d: u64|
                    m0.domains.contains_key(d) && m0.domains[d].status is Pending implies exists|
                a: int| 0 <= a < out@.len() && #[trigger] out@[a].0 == d by {
                    self.domain_state.lemma_view();
                    assert(ks.contains(d));
                    let q = choose|q: int| 0 <= q < ks.len() && ks[q] == d;
                    assert(fs.contains(ks[q]));
                    let c = choose|c: int| 0 <= c < fs.len() && fs[c] == d;
                    assert(sampled@.contains(fs[c]));
                    let a = choose|a: int| 0 <= a < sampled@.len() && sampled@[a] == d;
                    assert(out@[a].0 == d);
                }
            }
            assert forall|d: u64| #[trigger] m0.domains.contains_key(d) implies self@.domains[d]
                == (if (exists|a: int| 0 <= a < out@.len() && #[trigger] out@[a].0 == d) {
                DomainState { weight: m0.domains[d].weight, status: DomainStatus::CrawlInProgress }
            } else {
                m0.domains[d]
            }) by {
                if sampled@.contains(d) {
                    let a = choose|a: int| 0 <= a < sampled@.len() && sampled@[a] == d;
                    assert(out@[a].0 == d);
                } else {
                    if exists|a: int| 0 <= a < out@.len() && #[trigger] out@[a].0 == d {
                        let a = choose|a: int| 0 <= a < out@.len() && #[trigger] out@[a].0 == d;
                        assert(sampled@[a] == d);
                    }
                }
            }
        }
        Ok(out)
    }


    /// Prepare one domain's job: sample up to `urls_per_job` of its pending
    /// URLs, mark them `Crawling`, recompute the domain's weight over the
    /// remaining pending URLs, and resolve the selected identifiers back to
    /// values.
    #[verifier::loop_isolation(false)]
    #[verifier::rlimit(100)]
    fn prepare_one(&mut self, did: u64, urls_per_job: usize) -> (r: Result<Job, CrawlDbError>)
        requires
            old(self).wf(),
            old(self)@.domains.contains_key(did),
        ensures
            final(self).wf(),
            r is Ok,
            r matches Ok(job) ==> prepared_job_ok(
                old(self)@,
                final(self)@,
                did,
                urls_per_job,
                job,
                group_of(old(self)@, did),
            ),
    {
        let ghost m0 = self@;
        proof {
            self.domain_ids.lemma_wf();
            self.url_ids.lemma_wf();
        }
        if self.urls.get(did).is_none() {
            self.urls.insert(did, VecMap::new());
        }
        let mut inner: VecMap<UrlState> = VecMap::new();
        self.urls.swap_at(did, &mut inner);
        let ghost inner0 = inner@;
        proof {
            inner.lemma_view();
            assert forall|u: u64| #[trigger] inner0.contains_key(u) implies (u as nat)
                < m0.url_ids.next by {
                if m0.urls.contains_key(did) {
                    assert(old(self).urls@[did]@.contains_key(u));
                }
            }
        }
        let ghost iks = inner.keys_seq();
        let mut cands: Vec<(u64, u64)> = Vec::new();
        let ghost mut csrc: Seq<int> = Seq::empty();
        let ilen = inner.len();
        let mut i: usize = 0;
        while i < ilen
            invariant
                inner.wf(),
                inner@ == inner0,
                inner.keys_seq() == iks,
                0 <= i <= ilen,
                ilen == iks.len(),
                cands@.len() == csrc.len(),
                forall|j: int| 0 <= j < csrc.len() ==> 0 <= #[trigger] csrc[j] < i,
                forall|j1: int, j2: int| 0 <= j1 < j2 < csrc.len() ==> csrc[j1] != csrc[j2],
                forall|j: int| 0 <= j < csrc.len() ==> cands@[j].0 == iks[#[trigger] csrc[j]],
                forall|j: int|
                    0 <= j < cands@.len() ==> inner0.contains_key(#[trigger] cands@[j].0)
                        && inner0[cands@[j].0].status is Pending,
                forall|q: int|
                    0 <= q < i && inner0[#[trigger] iks[q]].status is Pending
                        ==> crate::sampler::firsts(cands@).contains(iks[q]),
            decreases ilen - i,
        {
            let ghost pre_cands = cands@;
            let k = inner.key_at(i);
            let st = *inner.val_at(i);
            if matches!(st.status, UrlStatus::Pending) {
                cands.push((k, st.weight));
                proof {
                    csrc = csrc.push(i as int);
                    assert(crate::sampler::firsts(cands@)[cands@.len() - 1] == k);
                }
            }
            proof {
                assert forall|q: int|
                    0 <= q < i + 1 && inner0[#[trigger] iks[q]].status is Pending implies
                    crate::sampler::firsts(cands@).contains(iks[q]) by {
                    if q < i {
                        let fs0 = crate::sampler::firsts(pre_cands);
                        assert(fs0.contains(iks[q]));
                        let c = choose|c: int| 0 <= c < fs0.len() && fs0[c] == iks[q];
                        assert(crate::sampler::firsts(cands@)[c] == iks[q]);
                    } else {
                        assert(crate::sampler::firsts(cands@)[cands@.len() - 1] == iks[q]);
                    }
                }
            }
            i += 1;
        }
        proof {
            assert forall|j1: int, j2: int| 0 <= j1 < j2 < cands@.len() implies crate::sampler::firsts(
                cands@,
            )[j1] != crate::sampler::firsts(cands@)[j2] by {
                assert(iks[csrc[j1]] != iks[csrc[j2]]);
            }
        }
        let sampled: Vec<u64> = crate::sampler::weighted_sample(&cands, urls_per_job);
        let mut j: usize = 0;
        while j < sampled.len()
            invariant
                inner.wf(),
                0 <= j <= sampled@.len(),
                inner.keys_seq() == iks,
                forall|a: int|
                    0 <= a < sampled@.len() ==> inner0.contains_key(#[trigger] sampled@[a])
                        && inner0[sampled@[a]].status is Pending,
                inner@.dom() == inner0.dom(),
                forall|u: u64| #[trigger] inner0.contains_key(u) ==> inner@[u] == (
                if sampled@.take(j as int).contains(u) {
                    UrlState { weight: inner0[u].weight, status: UrlStatus::Crawling }
                } else {
                    inner0[u]
                }),
            decreases sampled@.len() - j,
        {
            let u = sampled[j];
            let st: UrlState = match inner.get(u) {
                Some(v) => *v,
                None => UrlState { weight: 0, status: UrlStatus::Pending },
            };
            inner.insert(u, UrlState { weight: st.weight, status: UrlStatus::Crawling });
            proof {
                assert(sampled@.take(j as int + 1) =~= sampled@.take(j as int).push(sampled@[
                j as int]));
                assert forall|uu: u64| #[trigger] inner0.contains_key(uu) implies inner@[uu] == (
                if sampled@.take(j as int + 1).contains(uu) {
                    UrlState { weight: inner0[uu].weight, status: UrlStatus::Crawling }
                } else {
                    inner0[uu]
                }) by {
                    if uu == u {
                        assert(sampled@.take(j as int + 1)[j as int] == u);
                        assert(sampled@.take(j as int + 1).contains(u));
                    } else {
                        if sampled@.take(j as int + 1).contains(uu) {
                            let c = choose|c: int|
                                0 <= c < j + 1 && #[trigger] sampled@.take(j as int + 1)[c] == uu;
                            assert(sampled@.take(j as int)[c] == uu);
                            assert(sampled@.take(j as int).contains(uu));
                        }
                        if sampled@.take(j as int).contains(uu) {
                            let c = choose|c: int|
                                0 <= c < j && #[trigger] sampled@.take(j as int)[c] == uu;
                            assert(sampled@.take(j as int + 1)[c] == uu);
                            assert(sampled@.take(j as int + 1).contains(uu));
                        }
                    }
                }
            }
            j += 1;
        }
        proof {
            assert(sampled@.take(sampled@.len() as int) =~= sampled@);
            inner.lemma_view();
        }
        let ghost inner1 = inner@;
        let mut wmax: u64 = 0;
        let wlen = inner.len();
        let mut t: usize = 0;
        while t < wlen
            invariant
                inner.wf(),
                inner@ == inner1,
                inner.keys_seq() == iks,
                0 <= t <= wlen,
                wlen == iks.len(),
                forall|q: int|
                    0 <= q < t && inner1[#[trigger] iks[q]].status is Pending ==> inner1[
                    iks[q]].weight <= wmax,
                wmax == 0 || exists|q: int|
                    0 <= q < t && inner1[#[trigger] iks[q]].status is Pending && inner1[
                    iks[q]].weight == wmax,
            decreases wlen - t,
        {
            let st = *inner.val_at(t);
            if matches!(st.status, UrlStatus::Pending) {
                if st.weight > wmax {
                    wmax = st.weight;
                }
            }
            t += 1;
        }
        proof {
            assert forall|u: u64| #[trigger] inner1.contains_key(u) && inner1[u].status
                is Pending implies inner1[u].weight <= wmax by {
                assert(iks.contains(u));
                let q = choose|q: int| 0 <= q < iks.len() && #[trigger] iks[q] == u;
                assert(inner1[iks[q]].status is Pending);
                assert(inner1[iks[q]].weight <= wmax);
            }
            if exists|u: u64| #[trigger] inner1.contains_key(u) && inner1[u].status is Pending {
                let u = choose|u: u64|
                    #[trigger] inner1.contains_key(u) && inner1[u].status is Pending;
                if wmax == 0 {
                    assert(inner1[u].weight <= 0);
                    assert(inner1.contains_key(u) && inner1[u].status is Pending && inner1[
                    u].weight == wmax);
                } else {
                    let q = choose|q: int|
                        0 <= q < iks.len() && inner1[#[trigger] iks[q]].status is Pending
                            && inner1[iks[q]].weight == wmax;
                    assert(inner1.contains_key(iks[q]));
                }
            }
            assert(weight_recomputed(inner1, wmax));
        }
        self.urls.swap_at(did, &mut inner);
        let dst: DomainState = match self.domain_state.get(did) {
            Some(v) => *v,
            None => {
                proof {
                    assert(false);
                }
                DomainState { weight: 0, status: DomainStatus::Pending }
            },
        };
        self.domain_state.insert(did, DomainState { weight: wmax, status: dst.status });
        proof {
            assert forall|d: u64| #[trigger] self.urls@.contains_key(d) implies self.urls@[
            d].wf() && self.domain_state@.contains_key(d) by {
                if d != did {
                    assert(old(self).urls@.contains_key(d) || m0.urls.contains_key(d));
                }
            }
            assert forall|d: u64, x: u64|
                self.urls@.contains_key(d) && #[trigger] self.urls@[d]@.contains_key(x) implies (
            x as nat) < self.url_ids@.next by {
                if d == did {
                    assert(inner0.contains_key(x));
                } else {
                    assert(m0.urls.contains_key(d) && m0.urls[d].contains_key(x));
                }
            }
        }
        let dval: String = match self.domain_ids.value(did) {
            Ok(Some(sv)) => sv,
            Ok(None) => {
                proof {
                    assert((did as nat) < m0.domain_ids.next);
                    assert(crate::id_table::id_assigned(m0.domain_ids, did as nat));
                    let a = choose|a: Seq<char>|
                        #[trigger] m0.domain_ids.map.contains_key(a) && m0.domain_ids.map[
                        a] as nat == did as nat;
                    assert(m0.domain_ids.map.contains_pair(a, did));
                    assert(false);
                }
                String::new()
            },
            Err(e) => return Err(e),
        };
        let ghost m1 = self@;
        let mut job_urls: std::collections::VecDeque<Url> = std::collections::VecDeque::new();
        let mut a: usize = 0;
        while a < sampled.len()
            invariant
                self.wf(),
                self@ == m1,
                0 <= a <= sampled@.len(),
                job_urls@.len() == a,
                forall|q: int|
                    0 <= q < a ==> m0.url_ids.map.contains_pair(
                        #[trigger] job_urls@[q]@,
                        sampled@[q],
                    ),
            decreases sampled@.len() - a,
        {
            let uv: String = match self.url_ids.value(sampled[a]) {
                Ok(Some(sv)) => sv,
                Ok(None) => {
                    proof {
                        assert(inner0.contains_key(sampled@[a as int]));
                        assert((sampled@[a as int] as nat) < m0.url_ids.next);
                        assert(crate::id_table::id_assigned(m0.url_ids, sampled@[a as int] as nat));
                        let s0 = choose|s0: Seq<char>|
                            #[trigger] m0.url_ids.map.contains_key(s0) && m0.url_ids.map[
                            s0] as nat == sampled@[a as int] as nat;
                        assert(m0.url_ids.map.contains_pair(s0, sampled@[a as int]));
                        assert(false);
                    }
                    String::new()
                },
                Err(e) => return Err(e),
            };
            job_urls.push_back(Url { full: uv });
            a += 1;
        }
        let job = Job { domain: Domain { name: dval }, fetch_sitemap: false, urls: job_urls };
        proof {
            let m1c = self@;
            let inn = inner0;
            assert(inner0 == group_of(m0, did));
            assert(job.fetch_sitemap == false);
            assert(m0.domain_ids.map.contains_pair(job.domain@, did));
            assert(job.urls@.len() <= urls_per_job);
            assert forall|a: int, b: int|
                #![trigger job.urls@[a], job.urls@[b]]
                0 <= a < b < job.urls@.len() implies job.urls@[a]@ != job.urls@[b]@ by {
                assert(sampled@[a] != sampled@[b]);
                if job.urls@[a]@ == job.urls@[b]@ {
                    assert(m0.url_ids.map.contains_pair(job.urls@[a]@, sampled@[a]));
                    assert(m0.url_ids.map.contains_pair(job.urls@[b]@, sampled@[b]));
                    assert(false);
                }
            }
            assert forall|a: int| #![trigger job.urls@[a]] 0 <= a < job.urls@.len() implies
                m0.url_ids.map.contains_key(job.urls@[a]@) && inn.contains_key(
                m0.url_ids.map[job.urls@[a]@]) && inn[m0.url_ids.map[job.urls@[
            a]@]].status is Pending && m1c.urls[did].contains_key(m0.url_ids.map[job.urls@[
            a]@]) && m1c.urls[did][m0.url_ids.map[job.urls@[a]@]].status is Crawling by {
                let u = sampled@[a];
                assert(m0.url_ids.map.contains_pair(job.urls@[a]@, u));
                assert(m0.url_ids.map[job.urls@[a]@] == u);
                assert(sampled@.contains(u));
                assert(inner1[u] == UrlState {
                    weight: inner0[u].weight,
                    status: UrlStatus::Crawling,
                });
            }
            if job.urls@.len() < urls_per_job {
                assert forall|u: u64|
                    #[trigger] inn.contains_key(u) && inn[u].status is Pending implies m1c.urls[
                did][u].status is Crawling by {
                    assert(inner0.contains_key(u) && inner0[u].status is Pending);
                    assert(inner0.dom() =~= inner1.dom());
                    assert(inner1.contains_key(u));
                    assert(iks.contains(u));
                    let qk = choose|qk: int| 0 <= qk < iks.len() && #[trigger] iks[qk] == u;
                    assert(inner0[iks[qk]].status is Pending);
                    assert(crate::sampler::firsts(cands@).contains(iks[qk]));
                    assert(crate::sampler::firsts(cands@).contains(u));
                    let c = choose|c: int|
                        0 <= c < cands@.len() && #[trigger] crate::sampler::firsts(cands@)[c]
                            == u;
                    assert(sampled@.contains(crate::sampler::firsts(cands@)[c]));
                    let q = choose|q: int| 0 <= q < sampled@.len() && #[trigger] sampled@[q] == u;
                    assert(inner1[u].status is Crawling);
                }
            }
            assert(m1c.domains.dom() == m0.domains.dom());
            assert(forall|d: u64|
                d != did && #[trigger] m0.domains.contains_key(d) ==> m1c.domains[d]
                    == m0.domains[d]);
            assert(m1c.domains[did].status == m0.domains[did].status);
            assert(weight_recomputed(m1c.urls[did], m1c.domains[did].weight));
            assert(m1c.urls.dom() == m0.urls.dom().insert(did));
            assert(forall|d: u64|
                d != did && #[trigger] m0.urls.contains_key(d) ==> m1c.urls[d] == m0.urls[d]);
            assert(m1c.urls[did].dom() == inn.dom());
            assert(forall|u: u64|
                #[trigger] inn.contains_key(u) ==> m1c.urls[did][u].weight == inn[u].weight && (
                m1c.urls[did][u].status == inn[u].status || (inn[u].status is Pending
                    && m1c.urls[did][u].status is Crawling)));
            assert(m1c.url_ids == m0.url_ids);
            assert(m1c.domain_ids == m0.domain_ids);
            assert(m1c.redirects == m0.redirects);
            assert forall|u: u64|
                #[trigger] inn.contains_key(u) && inn[u].status is Pending && m1c.urls[did][
            u].status is Crawling implies job_takes(m0, job, u) by {
                assert(inner1[u].status is Crawling);
                assert(sampled@.contains(u));
                let q = choose|q: int| 0 <= q < sampled@.len() && #[trigger] sampled@[q] == u;
                assert(m0.url_ids.map.contains_pair(job.urls@[q]@, sampled@[q]));
                let ids = job.urls@.map_values(|url: Url| m0.url_ids.map[url@]);
                assert(ids[q] == m0.url_ids.map[job.urls@[q]@]);
                assert(ids[q] == u);
                assert(ids.contains(u));
            }
            lemma_prepared_job(m0, m1c, did, urls_per_job, job, inn);
            assert(prepared_job_ok(m0, m1c, did, urls_per_job, job, inn));
        }
        Ok(job)
    }


    /// Prepare one job per given domain: sample up to `urls_per_job` of its
    /// pending URLs, mark them `Crawling`, recompute the domain's weight
    /// over the URLs still pending, and resolve identifiers back to values.
    /// Every given domain must already have a state entry.
    #[verifier::loop_isolation(false)]
    pub fn prepare_jobs(&mut self, domains: &Vec<DomainId>, urls_per_job: usize) -> (r: Result<
        Vec<Job>,
        CrawlDbError,
    >)
        requires
            old(self).wf(),
            forall|i: int|
                0 <= i < domains@.len() ==> old(self)@.domains.contains_key(
                    #[trigger] domains@[i].0,
                ),
        ensures
            final(self).wf(),
            r is Ok,
            r matches Ok(jobs) ==> ({
                &&& jobs@.len() == domains@.len()
                &&& final(self)@.url_ids == old(self)@.url_ids
                &&& final(self)@.domain_ids == old(self)@.domain_ids
                &&& final(self)@.redirects == old(self)@.redirects
                &&& (forall|d: u64|
                    #[trigger] final(self)@.domains.contains_key(d) <==> old(self)@.domains.contains_key(d))
                &&& (forall|d: u64| #[trigger] old(self)@.domains.contains_key(d) ==> final(self)@.domains[d].status == old(self)@.domains[d].status)
                &&& (forall|j: int|
                    #![trigger jobs@[j]]
                    0 <= j < jobs@.len() ==> jobs@[j].fetch_sitemap == false && old(self)@.domain_ids.map.contains_pair(jobs@[j].domain@, domains@[j].0) && jobs@[
                    j].urls@.len() <= urls_per_job)
                &&& (forall|d: u64|
                    !listed_in(domains@, domains@.len() as int, d) && #[trigger] old(self)@.domains.contains_key(d) ==> final(self)@.domains[d] == old(self)@.domains[d])
                &&& (forall|d: u64|
                    !listed_in(domains@, domains@.len() as int, d) ==> ((#[trigger] final(self)@.urls.contains_key(d) <==> old(self)@.urls.contains_key(d)) && (old(self)@.urls.contains_key(d) ==> final(self)@.urls[d] == old(self)@.urls[d])))
                &&& (forall|d: u64, u: u64|
                    old(self)@.urls.contains_key(d) && #[trigger] old(self)@.urls[
                    d].contains_key(u) ==> final(self)@.urls.contains_key(d) && final(self)@.urls[d].contains_key(u) && final(self)@.urls[d][u].weight == old(self)@.urls[d][u].weight && (final(self)@.urls[d][u].status == old(self)@.urls[
                    d][u].status || (old(self)@.urls[d][u].status is Pending && final(self)@.urls[d][u].status is Crawling)))
                &&& (forall|j: int|
                    #![trigger domains@[j]]
                    0 <= j < domains@.len() ==> weight_recomputed(
                        final(self)@.urls[domains@[j].0],
                        final(self)@.domains[domains@[j].0].weight,
                    ))
                &&& (forall|j: int|
                    #![trigger jobs@[j]]
                    0 <= j < jobs@.len() ==> job_urls_distinct(jobs@[j]) && job_urls_ok(
                        old(self)@,
                        final(self)@,
                        domains@[j].0,
                        jobs@[j],
                    ))
                &&& (forall|j: int|
                    #![trigger jobs@[j]]
                    0 <= j < jobs@.len() && jobs@[j].urls@.len() < urls_per_job
                        ==> all_pending_crawled(old(self)@, final(self)@, domains@[j].0))
                &&& (forall|j: int|
                    #![trigger domains@[j]]
                    0 <= j < domains@.len() ==> group_keys_kept(
                        old(self)@,
                        final(self)@,
                        domains@[j].0,
                    ))
                &&& ((forall|i1: int, i2: int|
                    0 <= i1 < i2 < domains@.len() ==> domains@[i1].0 != domains@[i2].0)
                    ==> (forall|j: int, u: u64|
                    #![trigger old(self)@.urls[domains@[j].0].contains_key(u), jobs@[j]]
                    0 <= j < jobs@.len() && old(self)@.urls.contains_key(domains@[j].0)
                        && old(self)@.urls[domains@[j].0].contains_key(u) && old(self)@.urls[
                    domains@[j].0][u].status is Pending && final(self)@.urls[domains@[
                    j].0][u].status is Crawling ==> job_takes(old(self)@, jobs@[j], u)))
            }),
    {
        let ghost m0 = self@;
        let mut jobs: Vec<Job> = Vec::new();
        let nd = domains.len();
        let mut j: usize = 0;
        while j < nd
            invariant
                self.wf(),
                0 <= j <= nd,
                jobs@.len() == j,
                self@.url_ids == m0.url_ids,
                self@.domain_ids == m0.domain_ids,
                self@.redirects == m0.redirects,
                forall|d: u64|
                    #[trigger] self@.domains.contains_key(d) <==> m0.domains.contains_key(d),
                forall|d: u64| #[trigger] m0.domains.contains_key(d) ==> self@.domains[d].status
                    == m0.domains[d].status,
                forall|jj: int|
                    #![trigger jobs@[jj]]
                    0 <= jj < j ==> jobs@[jj].fetch_sitemap == false
                        && m0.domain_ids.map.contains_pair(jobs@[jj].domain@, domains@[jj].0)
                        && jobs@[jj].urls@.len() <= urls_per_job,
                forall|d: u64|
                    !listed_in(domains@, j as int, d) && #[trigger] m0.domains.contains_key(d)
                        ==> self@.domains[d] == m0.domains[d],
                forall|d: u64|
                    !listed_in(domains@, j as int, d) ==> ((#[trigger] self@.urls.contains_key(d)
                        <==> m0.urls.contains_key(d)) && (m0.urls.contains_key(d)
                        ==> self@.urls[d] == m0.urls[d])),
                forall|d: u64, u: u64|
                    m0.urls.contains_key(d) && #[trigger] m0.urls[d].contains_key(u)
                        ==> self@.urls.contains_key(d) && self@.urls[d].contains_key(u)
                        && self@.urls[d][u].weight == m0.urls[d][u].weight && (self@.urls[d][
                    u].status == m0.urls[d][u].status || (m0.urls[d][u].status is Pending
                        && self@.urls[d][u].status is Crawling)),
                forall|jj: int|
                    #![trigger domains@[jj]]
                    0 <= jj < j ==> self@.urls.contains_key(domains@[jj].0)
                        && weight_recomputed(
                        self@.urls[domains@[jj].0],
                        self@.domains[domains@[jj].0].weight,
                    ),
                forall|jj: int|
                    #![trigger jobs@[jj]]
                    0 <= jj < j ==> job_urls_distinct(jobs@[jj]) && job_urls_ok(
                        m0,
                        self@,
                        domains@[jj].0,
                        jobs@[jj],
                    ),
                forall|jj: int|
                    #![trigger jobs@[jj]]
                    0 <= jj < j && jobs@[jj].urls@.len() < urls_per_job ==> all_pending_crawled(
                        m0,
                        self@,
                        domains@[jj].0,
                    ),
                forall|jj: int|
                    #![trigger domains@[jj]]
                    0 <= jj < j ==> group_keys_kept(m0, self@, domains@[jj].0),
                (forall|i1: int, i2: int|
                    0 <= i1 < i2 < domains@.len() ==> domains@[i1].0 != domains@[i2].0) ==> (
                forall|jj: int, u: u64|
                    #![trigger m0.urls[domains@[jj].0].contains_key(u), jobs@[jj]]
                    0 <= jj < j && m0.urls.contains_key(domains@[jj].0) && m0.urls[domains@[
                    jj].0].contains_key(u) && m0.urls[domains@[jj].0][u].status is Pending
                        && self@.urls[domains@[jj].0][u].status is Crawling ==> job_takes(
                        m0,
                        jobs@[jj],
                        u,
                    )),
            decreases nd - j,
        {
            let ghost pre = self@;
            let did = domains[j].0;
            let job = match self.prepare_one(did, urls_per_job) {
                Ok(jb) => jb,
                Err(e) => return Err(e),
            };
            jobs.push(job);
            proof {
                reveal(prepared_job_ok);
                assert(listed_in(domains@, j as int + 1, did)) by {
                    assert(0 <= j < j + 1 && (#[trigger] domains@[j as int].0) == did);
                }
                assert forall|d: u64|
                    !listed_in(domains@, j as int + 1, d) && #[trigger] m0.domains.contains_key(
                        d,
                    ) implies self@.domains[d] == m0.domains[d] by {
                    assert(!listed_in(domains@, j as int, d)) by {
                        if listed_in(domains@, j as int, d) {
                            let i = choose|i: int| 0 <= i < j && (#[trigger] domains@[i].0) == d;
                            assert(0 <= i < j + 1 && (#[trigger] domains@[i].0) == d);
                            assert(listed_in(domains@, j as int + 1, d));
                        }
                    }
                    assert(d != did) by {
                        if d == did {
                            assert(0 <= j < j + 1 && (#[trigger] domains@[j as int].0) == d);
                            assert(listed_in(domains@, j as int + 1, d));
                        }
                    }
                    assert(pre.domains.contains_key(d));
                    assert(self@.domains[d] == pre.domains[d]);
                    assert(pre.domains[d] == m0.domains[d]);
                }
                assert forall|d: u64| !listed_in(domains@, j as int + 1, d) implies ((
                #[trigger] self@.urls.contains_key(d) <==> m0.urls.contains_key(d)) && (
                m0.urls.contains_key(d) ==> self@.urls[d] == m0.urls[d])) by {
                    assert(!listed_in(domains@, j as int, d)) by {
                        if listed_in(domains@, j as int, d) {
                            let i = choose|i: int| 0 <= i < j && (#[trigger] domains@[i].0) == d;
                            assert(0 <= i < j + 1 && (#[trigger] domains@[i].0) == d);
                            assert(listed_in(domains@, j as int + 1, d));
                        }
                    }
                    assert(d != did) by {
                        if d == did {
                            assert(0 <= j < j + 1 && (#[trigger] domains@[j as int].0) == d);
                            assert(listed_in(domains@, j as int + 1, d));
                        }
                    }
                    if m0.urls.contains_key(d) {
                        assert(self@.urls[d] == pre.urls[d]);
                    }
                    if self@.urls.contains_key(d) {
                        assert(self@.urls.dom() == pre.urls.dom().insert(did));
                        assert(pre.urls.contains_key(d));
                    }
                }
                assert forall|jj: int|
                    #![trigger domains@[jj]]
                    0 <= jj < j + 1 implies self@.urls.contains_key(domains@[jj].0)
                    && weight_recomputed(
                    self@.urls[domains@[jj].0],
                    self@.domains[domains@[jj].0].weight,
                ) by {
                    let dd = domains@[jj].0;
                    if jj == j {
                        assert(self@.urls.dom() == pre.urls.dom().insert(did));
                    } else {
                        if dd != did {
                            assert(self@.urls.dom() == pre.urls.dom().insert(did));
                            assert(self@.urls[dd] == pre.urls[dd]);
                            assert(self@.domains[dd] == pre.domains[dd]);
                        } else {
                            assert(self@.urls.dom() == pre.urls.dom().insert(did));
                        }
                    }
                }
                let post = self@;
                let inn_pre = group_of(pre, did);
                assert(post.urls.contains_key(did));
                assert(post.urls[did].dom() == inn_pre.dom());
                assert(group_keys_kept(m0, post, did)) by {
                    if listed_in(domains@, j as int, did) {
                        let i = choose|i: int| 0 <= i < j && (#[trigger] domains@[i].0) == did;
                        assert(group_keys_kept(m0, pre, domains@[i].0));
                        assert(pre.urls.contains_key(did));
                        assert(inn_pre == pre.urls[did]);
                    } else {
                        if m0.urls.contains_key(did) {
                            assert(pre.urls.contains_key(did) && pre.urls[did] == m0.urls[did]);
                        } else {
                            assert(!pre.urls.contains_key(did));
                            assert(inn_pre.dom() =~= Set::<u64>::empty());
                        }
                    }
                }
                assert forall|u: u64| #[trigger] inn_pre.contains_key(u) implies
                    m0.urls.contains_key(did) && m0.urls[did].contains_key(u)
                    && pre.urls.contains_key(did) && inn_pre == pre.urls[did] by {
                    assert(post.urls[did].dom().contains(u));
                    if !m0.urls.contains_key(did) {
                        assert(post.urls[did].dom() =~= Set::<u64>::empty());
                    }
                    assert(m0.urls[did].dom().contains(u));
                }
                assert forall|u: u64|
                    inn_pre.contains_key(u) && #[trigger] inn_pre[u].status is Pending implies
                    m0.urls[did][u].status is Pending by {
                    assert(m0.urls.contains_key(did) && m0.urls[did].contains_key(u));
                    assert(pre.urls[did][u] == inn_pre[u]);
                }
                assert forall|u: u64|
                    m0.urls.contains_key(did) && #[trigger] m0.urls[did].contains_key(u) implies
                    inn_pre.contains_key(u) && inn_pre[u] == pre.urls[did][u] by {
                    if listed_in(domains@, j as int, did) {
                        let i = choose|i: int| 0 <= i < j && (#[trigger] domains@[i].0) == did;
                        assert(group_keys_kept(m0, pre, domains@[i].0));
                        assert(pre.urls[did].dom().contains(u));
                    } else {
                        assert(pre.urls.contains_key(did) && pre.urls[did] == m0.urls[did]);
                    }
                }
                assert forall|jj: int|
                    #![trigger jobs@[jj]]
                    0 <= jj < j + 1 implies job_urls_distinct(jobs@[jj]) && job_urls_ok(
                    m0,
                    post,
                    domains@[jj].0,
                    jobs@[jj],
                ) by {
                    let dd = domains@[jj].0;
                    if jj == j {
                        assert(jobs@[jj] == job);
                        assert(job_urls_distinct(job));
                        assert forall|a: int| #![trigger job.urls@[a]] 0 <= a < job.urls@.len()
                            implies ({
                            let u = m0.url_ids.map[job.urls@[a]@];
                            &&& m0.url_ids.map.contains_key(job.urls@[a]@)
                            &&& m0.urls.contains_key(did)
                            &&& m0.urls[did].contains_key(u)
                            &&& m0.urls[did][u].status is Pending
                            &&& post.urls.contains_key(did)
                            &&& post.urls[did].contains_key(u)
                            &&& post.urls[did][u].status is Crawling
                        }) by {
                            assert(pre.url_ids == m0.url_ids);
                            let u = m0.url_ids.map[job.urls@[a]@];
                            assert(pre.url_ids.map.contains_key(job.urls@[a]@));
                            assert(inn_pre.contains_key(u) && inn_pre[u].status is Pending);
                            assert(post.urls[did].contains_key(u) && post.urls[did][u].status
                                is Crawling);
                            assert(m0.urls.contains_key(did) && m0.urls[did].contains_key(u));
                            assert(m0.urls[did][u].status is Pending);
                        }
                        assert(job_urls_ok(m0, post, did, job));
                    } else {
                        assert(job_urls_distinct(jobs@[jj]));
                        assert(job_urls_ok(m0, pre, dd, jobs@[jj]));
                        assert forall|a: int|
                            #![trigger jobs@[jj].urls@[a]]
                            0 <= a < jobs@[jj].urls@.len() implies ({
                            let u = m0.url_ids.map[jobs@[jj].urls@[a]@];
                            &&& m0.url_ids.map.contains_key(jobs@[jj].urls@[a]@)
                            &&& m0.urls.contains_key(dd)
                            &&& m0.urls[dd].contains_key(u)
                            &&& m0.urls[dd][u].status is Pending
                            &&& post.urls.contains_key(dd)
                            &&& post.urls[dd].contains_key(u)
                            &&& post.urls[dd][u].status is Crawling
                        }) by {
                            let u = m0.url_ids.map[jobs@[jj].urls@[a]@];
                            assert(pre.urls.contains_key(dd) && pre.urls[dd].contains_key(u)
                                && pre.urls[dd][u].status is Crawling);
                            if dd == did {
                                assert(inn_pre == pre.urls[did]);
                                assert(inn_pre.contains_key(u));
                                assert(post.urls[did][u].status is Crawling);
                            } else {
                                assert(post.urls[dd] == pre.urls[dd]);
                            }
                            assert(post.urls.contains_key(dd));
                        }
                        assert(job_urls_ok(m0, post, dd, jobs@[jj]));
                    }
                }
                assert forall|jj: int|
                    #![trigger jobs@[jj]]
                    0 <= jj < j + 1 && jobs@[jj].urls@.len() < urls_per_job implies
                    all_pending_crawled(m0, post, domains@[jj].0) by {
                    let dd = domains@[jj].0;
                    if jj == j {
                        assert forall|u: u64|
                            m0.urls.contains_key(did) && #[trigger] m0.urls[did].contains_key(u)
                                && m0.urls[did][u].status is Pending implies post.urls.contains_key(
                            did,
                        ) && post.urls[did].contains_key(u) && post.urls[did][u].status
                            is Crawling by {
                            assert(inn_pre.contains_key(u) && inn_pre[u] == pre.urls[did][u]);
                            if inn_pre[u].status is Pending {
                                assert(post.urls[did][u].status is Crawling);
                            } else {
                                assert(pre.urls[did][u].status is Crawling);
                                assert(post.urls[did][u].status is Crawling);
                            }
                        }
                        assert(all_pending_crawled(m0, post, did));
                    } else {
                        assert(all_pending_crawled(m0, pre, dd));
                        assert forall|u: u64|
                            m0.urls.contains_key(dd) && #[trigger] m0.urls[dd].contains_key(u)
                                && m0.urls[dd][u].status is Pending implies post.urls.contains_key(
                            dd,
                        ) && post.urls[dd].contains_key(u) && post.urls[dd][u].status
                            is Crawling by {
                            assert(pre.urls.contains_key(dd) && pre.urls[dd].contains_key(u)
                                && pre.urls[dd][u].status is Crawling);
                            if dd == did {
                                assert(inn_pre == pre.urls[did]);
                                assert(inn_pre.contains_key(u));
                                assert(post.urls[did][u].status is Crawling);
                            } else {
                                assert(post.urls[dd] == pre.urls[dd]);
                            }
                            assert(post.urls.contains_key(dd));
                        }
                        assert(all_pending_crawled(m0, post, dd));
                    }
                }
                assert forall|jj: int|
                    #![trigger domains@[jj]]
                    0 <= jj < j + 1 implies group_keys_kept(m0, post, domains@[jj].0) by {
                    let dd = domains@[jj].0;
                    if jj < j && dd != did {
                        assert(group_keys_kept(m0, pre, dd));
                        assert(post.urls[dd] == pre.urls[dd]);
                        assert(post.urls.contains_key(dd));
                    }
                }
                if forall|i1: int, i2: int|
                    0 <= i1 < i2 < domains@.len() ==> domains@[i1].0 != domains@[i2].0 {
                    assert forall|jj: int, u: u64|
                        #![trigger m0.urls[domains@[jj].0].contains_key(u), jobs@[jj]]
                        0 <= jj < j + 1 && m0.urls.contains_key(domains@[jj].0) && m0.urls[
                    domains@[jj].0].contains_key(u) && m0.urls[domains@[jj].0][u].status
                        is Pending && post.urls[domains@[jj].0][u].status is Crawling implies
                        job_takes(m0, jobs@[jj], u) by {
                        let dd = domains@[jj].0;
                        if jj == j {
                            assert(!listed_in(domains@, j as int, did)) by {
                                if listed_in(domains@, j as int, did) {
                                    let i = choose|i: int|
                                        0 <= i < j && (#[trigger] domains@[i].0) == did;
                                    assert(domains@[i].0 == domains@[j as int].0);
                                }
                            }
                            assert(pre.urls.contains_key(did) && pre.urls[did] == m0.urls[did]);
                            assert(inn_pre == pre.urls[did]);
                            assert(inn_pre.contains_key(u) && inn_pre[u].status is Pending);
                            assert(job_takes(pre, job, u));
                            assert(job.urls@.map_values(
                                |url: Url| pre.url_ids.map[url@],
                            ) =~= job.urls@.map_values(|url: Url| m0.url_ids.map[url@]));
                        } else {
                            assert(dd != did) by {
                                assert(domains@[jj].0 != domains@[j as int].0);
                            }
                            assert(pre.urls.contains_key(dd));
                            assert(post.urls[dd] == pre.urls[dd]);
                            assert(pre.urls[dd][u].status is Crawling);
                            assert(job_takes(m0, jobs@[jj], u));
                        }
                    }
                }
            }
            j += 1;
        }
        proof {
            assert forall|d: u64|
                !listed_in(domains@, domains@.len() as int, d) && #[trigger] m0.domains.contains_key(
                    d,
                ) implies self@.domains[d] == m0.domains[d] by {
                assert(!listed_in(domains@, nd as int, d));
            }
        }
        Ok(jobs)
    }


    /// The recorded redirect target for a URL, if any.
    pub fn redirect_of(&self, url: &Url) -> (r: Result<Option<Url>, CrawlDbError>)
        requires
            self.wf(),
        ensures
            r matches Ok(o) && (match o {
                Some(t) => self@.redirects.contains_key(encode_utf8(url@))
                    && self@.redirects[encode_utf8(url@)] == encode_utf8(t@),
                None => !self@.redirects.contains_key(encode_utf8(url@)),
            }),
    {
        self.redirects.get(url)
    }

    /// The scheduling state recorded for a domain, if it has one.
    pub fn domain_state_of(&mut self, domain: &Domain) -> (r: Result<
        Option<DomainState>,
        CrawlDbError,
    >)
        requires
            old(self).wf(),
        ensures
            final(self).wf(),
            final(self)@ == old(self)@,
            r matches Ok(o) && (match o {
                Some(st) => old(self)@.domain_ids.map.contains_key(domain@)
                    && old(self)@.domains.contains_key(old(self)@.domain_ids.map[domain@])
                    && st == old(self)@.domains[old(self)@.domain_ids.map[domain@]],
                None => !old(self)@.domain_ids.map.contains_key(domain@) || !old(self)@.domains.contains_key(old(self)@.domain_ids.map[domain@]),
            }),
    {
        let did = match self.domain_ids.lookup(&domain.name) {
            Ok(Some(i)) => i,
            Ok(None) => return Ok(None),
            Err(e) => return Err(e),
        };
        match self.domain_state.get(did) {
            Some(st) => Ok(Some(*st)),
            None => Ok(None),
        }
    }

    /// The scheduling state recorded for a URL under its domain: the entry
    /// where both identities are assigned and a state exists, and nothing
    /// exactly when the URL, its domain, or either state entry is unknown.
    pub fn url_state_of(&mut self, url: &Url) -> (r: Result<Option<UrlState>, CrawlDbError>)
        requires
            old(self).wf(),
        ensures
            final(self).wf(),
            final(self)@ == old(self)@,
            r matches Ok(o) && o == ({
                let dm = old(self)@.domain_ids.map;
                let um = old(self)@.url_ids.map;
                let dk = domain_of(url@);
                if dm.contains_key(dk) && um.contains_key(url@) && old(self)@.urls.contains_key(
                    dm[dk],
                ) && old(self)@.urls[dm[dk]].contains_key(um[url@]) {
                    Some(old(self)@.urls[dm[dk]][um[url@]])
                } else {
                    None
                }
            }),
    {
        let dtext = domain_text_of(&url.full);
        let did = match self.domain_ids.lookup(&dtext) {
            Ok(Some(i)) => i,
            Ok(None) => return Ok(None),
            Err(e) => return Err(e),
        };
        let uid = match self.url_ids.lookup(&url.full) {
            Ok(Some(i)) => i,
            Ok(None) => return Ok(None),
            Err(e) => return Err(e),
        };
        let inner = match self.urls.get(did) {
            Some(m) => m,
            None => return Ok(None),
        };
        match inner.get(uid) {
            Some(st) => {
                proof {
                    let m = old(self)@;
                    assert(m.domain_ids.map.contains_pair(domain_of(url@), did));
                    assert(m.url_ids.map.contains_pair(url@, uid));
                    assert(m.urls.contains_key(did));
                    assert(m.urls[did].contains_key(uid) && *st == m.urls[did][uid]);
                }
                Ok(Some(*st))
            },
            None => Ok(None),
        }
    }
}

} // verus!
