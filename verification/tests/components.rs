use stract_core::crawl_types::Url;
use stract_core::fastfield::FieldValue;
use stract_core::redirect::RedirectDb;
use stract_core::store::Store;
use stract_core::subdomain::SubdomainCounter;
use stract_core::vecmap::VecMap;
use stract_core::{CrawlDbError, Error};

#[test]
fn store_keeps_last_write() {
    let mut s = Store::open();
    assert!(s.get(&vec![1u8, 2]).is_none());
    s.put(vec![1u8, 2], vec![9u8]);
    s.put(vec![1u8, 2], vec![7u8, 8]);
    assert_eq!(s.get(&vec![1u8, 2]), Some(&vec![7u8, 8]));
    let (keys, vals) = s.entries();
    assert_eq!(keys.len(), 1);
    assert_eq!(vals.len(), 1);
}

#[test]
fn vecmap_orders_by_first_insertion() {
    let mut m: VecMap<u64> = VecMap::new();
    m.insert(7, 70);
    m.insert(3, 30);
    m.insert(7, 71);
    assert_eq!(m.len(), 2);
    assert_eq!(m.key_at(0), 7);
    assert_eq!(m.key_at(1), 3);
    assert_eq!(m.get(7), Some(&71));
    assert_eq!(m.get(4), None);
}

#[test]
fn redirect_store_overwrites() {
    let mut r = RedirectDb::open("redirects").unwrap();
    let from = Url::new(String::from("https://a.com/x"));
    assert_eq!(r.get(&from).unwrap(), None);
    r.put(&from, &Url::new(String::from("https://a.com/y"))).unwrap();
    r.put(&from, &Url::new(String::from("https://a.com/z"))).unwrap();
    assert_eq!(r.get(&from).unwrap(), Some(Url::new(String::from("https://a.com/z"))));
}

#[test]
fn subdomain_counter_records_distinct_pairs() {
    let mut c = SubdomainCounter::open("subdomains");
    assert_eq!(c.count(), 0);
    c.increment(Url::new(String::from("https://blog.a.com/post")));
    c.increment(Url::new(String::from("https://blog.a.com/other")));
    c.increment(Url::new(String::from("https://shop.a.com/item")));
    c.increment(Url::new(String::from("https://a.com/bare")));
    assert_eq!(c.count(), 2);
    c.commit();

    let mut d = SubdomainCounter::open("subdomains-2");
    d.increment(Url::new(String::from("https://blog.a.com/post")));
    d.increment(Url::new(String::from("https://mail.b.org/inbox")));
    c.merge(d);
    assert_eq!(c.count(), 3);
}

#[test]
fn field_value_projections() {
    assert_eq!(FieldValue::U64(9).as_u64(), Some(9));
    assert_eq!(FieldValue::U64s(vec![1, 2]).as_u64(), None);
    assert_eq!(FieldValue::U64s(vec![1, 2]).as_u64s(), Some(vec![1, 2]));
    assert_eq!(FieldValue::U64(9).as_u64s(), None);
}

#[test]
fn error_kinds_exist() {
    let s = CrawlDbError::Storage(String::from("open failed"));
    let z = CrawlDbError::Serialization(String::from("bad record"));
    assert!(format!("{:?}", s).contains("Storage"));
    assert!(format!("{:?}", z).contains("Serialization"));
    let e = Error::ParsingError(String::from("oops"));
    assert!(format!("{:?}", e).contains("ParsingError"));
}
