use sampledb::model::{Fraction, Sample};
use sampledb::{DbError, LibDB};

fn f(num: i128, den: i128) -> Fraction {
    Fraction::new(num, den)
}

#[test]
fn insert_get_remove_roundtrip() {
    let mut db = LibDB::<Sample>::new();
    db.insert(Sample::new("ID1".to_string(), vec![f(1, 1), f(2, 1)], Some("A".into())))
        .unwrap();

    let r = db.get("ID1").unwrap();
    assert_eq!(r.label.as_deref(), Some("A"));

    let out = db.remove("ID1").unwrap();
    assert_eq!(out.features.len(), 2);
    assert!(db.get("ID1").is_none());
}

#[test]
fn upsert_replace() {
    let mut db = LibDB::<Sample>::new();
    db.upsert(Sample::new("ID2".to_string(), vec![f(1, 10)], None));
    db.upsert(Sample::new("ID2".to_string(), vec![f(99, 10), f(88, 10)], Some("B".into())));

    let r = db.get("ID2").unwrap();
    assert_eq!(r.features, vec![f(99, 10), f(88, 10)]);
    assert_eq!(r.label.as_deref(), Some("B"));
}

#[test]
fn insert_rejects_duplicate_id() {
    let mut db = LibDB::<Sample>::new();
    db.insert(Sample::new("X".to_string(), vec![], None)).unwrap();
    match db.insert(Sample::new("X".to_string(), vec![f(1, 1)], None)) {
        Err(DbError::Duplicate(k)) => assert_eq!(k, "X"),
        other => panic!("unexpected {:?}", other),
    }
    assert_eq!(db.len(), 1);
    assert!(db.get("X").unwrap().features.is_empty());
}

#[test]
fn len_is_empty_iter_and_get_mut() {
    let mut db = LibDB::<Sample>::new();
    assert!(db.is_empty());
    db.upsert(Sample::new("a".to_string(), vec![], None));
    db.upsert(Sample::new("b".to_string(), vec![], None));
    assert_eq!(db.len(), 2);
    assert!(!db.is_empty());
    if let Some(s) = db.get_mut("b") {
        s.label = Some("seen".to_string());
    }
    assert_eq!(db.get("b").unwrap().label.as_deref(), Some("seen"));
    assert!(db.get_mut("zz").is_none());
    let ids: Vec<&str> = db.iter().map(|s| s.id.as_str()).collect();
    assert_eq!(ids, vec!["a", "b"]);
    assert!(db.remove("zz").is_none());
    assert_eq!(db.len(), 2);
}
