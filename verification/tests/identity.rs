use stract_core::id_table::IdTable;

#[test]
fn identity_is_stable_and_injective() {
    let mut t = IdTable::open("identities").unwrap();
    let a = String::from("https://a.com/");
    let b = String::from("https://b.com/");
    let ia = t.id(&a).unwrap();
    let ia2 = t.id(&a).unwrap();
    let ib = t.id(&b).unwrap();
    assert_eq!(ia, ia2);
    assert_ne!(ia, ib);
    assert_eq!(t.id(&a).unwrap(), ia);
}

#[test]
fn bulk_deduplicates_within_the_call() {
    let mut t = IdTable::open("identities").unwrap();
    let values = vec![
        String::from("alpha"),
        String::from("alpha"),
        String::from("beta"),
    ];
    let ids = t.bulk_ids(&values).unwrap();
    assert_eq!(ids.len(), 3);
    assert_eq!(ids[0], ids[1]);
    assert_ne!(ids[0], ids[2]);
    assert_eq!(t.assigned_count(), 2);
}

#[test]
fn resolving_an_id_returns_the_value_exactly() {
    let mut t = IdTable::open("identities").unwrap();
    let x = String::from("https://x.example/path?q=1");
    let i = t.id(&x).unwrap();
    assert_eq!(t.value(i).unwrap(), Some(x));
    assert_eq!(t.value(i + 1).unwrap(), None);
}

#[test]
fn lookup_does_not_assign() {
    let mut t = IdTable::open("identities").unwrap();
    assert_eq!(t.lookup(&String::from("nope")).unwrap(), None);
    assert_eq!(t.assigned_count(), 0);
    let i = t.id(&String::from("yes")).unwrap();
    assert_eq!(t.lookup(&String::from("yes")).unwrap(), Some(i));
    assert_eq!(t.assigned_count(), 1);
}

#[test]
fn open_starts_from_an_empty_bijection() {
    let mut t = IdTable::open("fresh").unwrap();
    assert_eq!(t.assigned_count(), 0);
    let _ = t.id(&String::from("seed")).unwrap();
    let t2 = IdTable::open("fresh").unwrap();
    assert_eq!(t2.assigned_count(), 0);
}

#[test]
fn codec_round_trip() {
    let b = stract_core::codec::encode_u64(0xdead_beef_0102_0304);
    assert_eq!(b.len(), 8);
    assert_eq!(stract_core::codec::decode_u64(&b), Some(0xdead_beef_0102_0304));
    let short = vec![1u8, 2, 3];
    assert_eq!(stract_core::codec::decode_u64(&short), None);
}
