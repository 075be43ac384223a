use stract_core::crawl_db::CrawlDb;
use stract_core::crawl_types::{
    Domain, DomainStatus, JobResponse, Url, UrlResponse, UrlStatus,
};

fn url(s: &str) -> Url {
    Url::new(String::from(s))
}

fn domain(s: &str) -> Domain {
    Domain::new(String::from(s))
}

#[test]
fn sampled_domains_leave_the_frontier() {
    let mut db = CrawlDb::open("crawl-a").unwrap();
    db.insert_seed_urls(&vec![url("https://a.com/1"), url("https://b.com/1")]).unwrap();

    let sampled = db.sample_domains(2).unwrap();
    assert_eq!(sampled.len(), 2);
    for d in [domain("a.com"), domain("b.com")] {
        let st = db.domain_state_of(&d).unwrap().unwrap();
        assert_eq!(st.status, DomainStatus::CrawlInProgress);
    }

    let again = db.sample_domains(1).unwrap();
    assert_eq!(again.len(), 0);
}

#[test]
fn prepared_job_carries_the_pending_url() {
    let mut db = CrawlDb::open("crawl-b").unwrap();
    db.insert_seed_urls(&vec![url("https://a.com/only")]).unwrap();

    let sampled = db.sample_domains(1).unwrap();
    assert_eq!(sampled.len(), 1);
    let jobs = db.prepare_jobs(&sampled, 1).unwrap();
    assert_eq!(jobs.len(), 1);
    assert_eq!(jobs[0].domain, domain("a.com"));
    assert!(!jobs[0].fetch_sitemap);
    assert_eq!(jobs[0].urls.len(), 1);
    assert_eq!(jobs[0].urls[0], url("https://a.com/only"));

    let ust = db.url_state_of(&url("https://a.com/only")).unwrap().unwrap();
    assert_eq!(ust.status, UrlStatus::Crawling);
    let dst = db.domain_state_of(&domain("a.com")).unwrap().unwrap();
    assert_eq!(dst.weight, 0);
}

#[test]
fn cross_domain_discovery_raises_weights() {
    let mut db = CrawlDb::open("crawl-c").unwrap();
    db.insert_seed_urls(&vec![url("https://a.com/1"), url("https://b.com/1")]).unwrap();

    let responses = vec![JobResponse {
        domain: domain("a.com"),
        discovered_urls: vec![url("https://d.com/new")],
        url_responses: vec![],
    }];
    db.insert_urls(&responses).unwrap();

    let cst = db.url_state_of(&url("https://d.com/new")).unwrap().unwrap();
    assert_eq!(cst.weight, 1);
    assert_eq!(cst.status, UrlStatus::Pending);
    let dst = db.domain_state_of(&domain("d.com")).unwrap().unwrap();
    assert_eq!(dst.weight, 1);
    let bst = db.domain_state_of(&domain("b.com")).unwrap().unwrap();
    assert_eq!(bst.weight, 0);
}

#[test]
fn same_domain_discovery_adds_no_weight() {
    let mut db = CrawlDb::open("crawl-d").unwrap();
    let responses = vec![JobResponse {
        domain: domain("a.com"),
        discovered_urls: vec![url("https://a.com/deeper")],
        url_responses: vec![],
    }];
    db.insert_urls(&responses).unwrap();
    let st = db.url_state_of(&url("https://a.com/deeper")).unwrap().unwrap();
    assert_eq!(st.weight, 0);
}

#[test]
fn redirect_is_recorded_and_status_unchanged() {
    let mut db = CrawlDb::open("crawl-e").unwrap();
    db.insert_seed_urls(&vec![url("https://a.com/x")]).unwrap();
    let before = db.url_state_of(&url("https://a.com/x")).unwrap().unwrap();

    let responses = vec![JobResponse {
        domain: domain("a.com"),
        discovered_urls: vec![],
        url_responses: vec![UrlResponse::Redirected {
            url: url("https://a.com/x"),
            new_url: url("https://a.com/y"),
        }],
    }];
    db.update_url_status(&responses).unwrap();

    assert_eq!(db.redirect_of(&url("https://a.com/x")).unwrap(), Some(url("https://a.com/y")));
    let after = db.url_state_of(&url("https://a.com/x")).unwrap().unwrap();
    assert_eq!(after.status, before.status);
    assert_eq!(db.redirect_of(&url("https://a.com/z")).unwrap(), None);
}

#[test]
fn success_and_failure_update_statuses() {
    let mut db = CrawlDb::open("crawl-f").unwrap();
    db.insert_seed_urls(&vec![url("https://a.com/ok"), url("https://a.com/bad")]).unwrap();
    let responses = vec![JobResponse {
        domain: domain("a.com"),
        discovered_urls: vec![],
        url_responses: vec![
            UrlResponse::Success { url: url("https://a.com/ok") },
            UrlResponse::Failed { url: url("https://a.com/bad"), status_code: Some(404) },
        ],
    }];
    db.update_url_status(&responses).unwrap();
    let ok = db.url_state_of(&url("https://a.com/ok")).unwrap().unwrap();
    assert_eq!(ok.status, UrlStatus::Done);
    let bad = db.url_state_of(&url("https://a.com/bad")).unwrap().unwrap();
    assert_eq!(bad.status, UrlStatus::Failed { status_code: Some(404) });
}

#[test]
fn set_domain_status_overrides() {
    let mut db = CrawlDb::open("crawl-g").unwrap();
    db.insert_seed_urls(&vec![url("https://a.com/1")]).unwrap();
    let _ = db.sample_domains(1).unwrap();
    db.set_domain_status(&domain("a.com"), DomainStatus::Pending).unwrap();
    let st = db.domain_state_of(&domain("a.com")).unwrap().unwrap();
    assert_eq!(st.status, DomainStatus::Pending);
    let sampled = db.sample_domains(1).unwrap();
    assert_eq!(sampled.len(), 1);
}

#[test]
fn seeding_is_idempotent() {
    let mut db = CrawlDb::open("crawl-h").unwrap();
    db.insert_seed_urls(&vec![url("https://a.com/1")]).unwrap();
    let _ = db.sample_domains(1).unwrap();
    db.insert_seed_urls(&vec![url("https://a.com/1")]).unwrap();
    let st = db.domain_state_of(&domain("a.com")).unwrap().unwrap();
    assert_eq!(st.status, DomainStatus::CrawlInProgress);
}
