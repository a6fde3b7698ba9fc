use sahomedb::{authorize, route, Collection, Error, Route, Vector, VectorID, UNIT};

fn fixed(xs: &[f32]) -> Vector {
    Vector(xs.iter().map(|x| (x * UNIT as f32) as i32).collect())
}

fn meta(k: &str, v: &str) -> Vec<(String, String)> {
    vec![(k.to_string(), v.to_string())]
}

#[test]
fn empty_collection_search_is_empty() {
    let mut c = Collection::new(3);
    c.build(16, 100, 1);
    let hits = c.search(&fixed(&[0.0, 0.0, 0.0]), 5).unwrap();
    assert!(hits.is_empty());
}

#[test]
fn exact_hit() {
    let mut c = Collection::new(3);
    c.insert("k1".to_string(), fixed(&[1.0, 0.0, 0.0]), meta("key", "k1")).unwrap();
    c.insert("k2".to_string(), fixed(&[0.0, 1.0, 0.0]), meta("key", "k2")).unwrap();
    c.insert("k3".to_string(), fixed(&[0.0, 0.0, 1.0]), meta("key", "k3")).unwrap();
    c.build(4, 8, 42);
    let hits = c.search(&fixed(&[1.0, 0.0, 0.0]), 1).unwrap();
    assert_eq!(hits.len(), 1);
    assert_eq!(hits[0].distance, 0);
    let rec = c.record(hits[0].vector_id).unwrap();
    assert_eq!(rec.key, "k1");
    assert_eq!(rec.data, meta("key", "k1"));
}

#[test]
fn dimension_mismatch_on_insert() {
    let mut c = Collection::new(3);
    let r = c.insert("k".to_string(), fixed(&[1.0, 2.0]), vec![]);
    assert_eq!(r.unwrap_err(), Error::InvalidDimension);
    assert_eq!(c.len(), 0);
}

#[test]
fn dimension_mismatch_on_search() {
    let mut c = Collection::new(3);
    c.build(4, 8, 1);
    assert_eq!(c.search(&fixed(&[1.0]), 1).unwrap_err(), Error::InvalidDimension);
}

#[test]
fn search_before_build_fails() {
    let mut c = Collection::new(2);
    c.insert("a".to_string(), fixed(&[0.5, 0.5]), vec![]).unwrap();
    assert_eq!(c.search(&fixed(&[0.5, 0.5]), 1).unwrap_err(), Error::IndexNotBuilt);
}

#[test]
fn duplicate_key_is_rejected() {
    let mut c = Collection::new(2);
    c.insert("a".to_string(), fixed(&[0.5, 0.5]), vec![]).unwrap();
    let r = c.insert("a".to_string(), fixed(&[0.1, 0.5]), vec![]);
    assert_eq!(r.unwrap_err(), Error::Duplicate);
    assert_eq!(c.len(), 1);
}

#[test]
fn get_and_delete_unknown_key() {
    let mut c = Collection::new(2);
    assert_eq!(c.get(&"nope".to_string()).unwrap_err(), Error::NotFound);
    assert_eq!(c.delete(&"nope".to_string()).unwrap_err(), Error::NotFound);
    c.insert("a".to_string(), fixed(&[0.5, 0.5]), meta("x", "y")).unwrap();
    assert_eq!(c.get(&"a".to_string()).unwrap().data, meta("x", "y"));
    let gone = c.delete(&"a".to_string()).unwrap();
    assert_eq!(gone.key, "a");
    assert_eq!(c.get(&"a".to_string()).unwrap_err(), Error::NotFound);
    assert!(c.record(VectorID(0)).is_none());
}

#[test]
fn delete_then_search() {
    let mut c = Collection::new(2);
    for i in 0..5 {
        let v = fixed(&[i as f32 * 0.1, 0.0]);
        c.insert(format!("key-{}", i), v, vec![]).unwrap();
    }
    let deleted = c.find(&"key-2".to_string()).unwrap();
    c.delete(&"key-2".to_string()).unwrap();
    c.build(16, 100, 9);
    let hits = c.search(&fixed(&[0.2, 0.0]), 5).unwrap();
    assert_eq!(hits.len(), 4);
    assert!(hits.iter().all(|h| h.vector_id != deleted));
}

#[test]
fn delete_after_build_hides_record() {
    let mut c = Collection::new(2);
    for i in 0..5 {
        c.insert(format!("key-{}", i), fixed(&[i as f32, 1.0]), vec![]).unwrap();
    }
    c.build(16, 100, 9);
    let deleted = c.find(&"key-0".to_string()).unwrap();
    c.delete(&"key-0".to_string()).unwrap();
    let hits = c.search(&fixed(&[0.0, 1.0]), 5).unwrap();
    assert!(hits.iter().all(|h| h.vector_id != deleted));
    assert_eq!(hits.len(), 4);
}

#[test]
fn unknown_token_is_refused() {
    let token = "token".to_string();
    assert!(!authorize(b"/index", None, &token));
    assert!(!authorize(b"/values/key-0", Some(&"other".to_string()), &token));
    assert!(authorize(b"/index", Some(&token), &token));
    assert!(authorize(b"/", None, &token));
    assert!(authorize(b"/version", None, &token));
}

#[test]
fn routes_by_prefix() {
    assert_eq!(route(b"/"), Route::Root);
    assert_eq!(route(b"/version"), Route::Version);
    assert_eq!(route(b"/index/query"), Route::Index);
    assert_eq!(route(b"/values/key-1"), Route::Values);
    assert_eq!(route(b"/nothing"), Route::Unknown);
    assert_eq!(route(b""), Route::Unknown);
}

#[test]
fn stats_count_live_records() {
    let mut c = Collection::new(1);
    for i in 0..4 {
        c.insert(format!("k{}", i), Vector(vec![i]), vec![]).unwrap();
    }
    c.delete(&"k1".to_string()).unwrap();
    let s = c.stats();
    assert_eq!((s.records, s.identifiers, s.built), (3, 4, false));
    c.build(4, 4, 0);
    assert!(c.stats().built);
}

#[test]
fn set_replaces_the_record_under_a_key() {
    let mut c = Collection::new(2);
    let first = c.set("a".to_string(), fixed(&[0.5, 0.5]), meta("v", "1")).unwrap();
    c.insert("b".to_string(), fixed(&[0.1, 0.1]), vec![]).unwrap();
    let second = c.set("a".to_string(), fixed(&[0.9, 0.9]), meta("v", "2")).unwrap();
    assert_ne!(first, second);
    assert!(c.record(first).is_none());
    assert_eq!(c.get(&"a".to_string()).unwrap().data, meta("v", "2"));
    assert_eq!(c.get(&"b".to_string()).unwrap().key, "b");
    assert_eq!(c.stats().records, 2);
    assert_eq!(c.set("a".to_string(), fixed(&[1.0]), vec![]).unwrap_err(), Error::InvalidDimension);
    assert_eq!(c.get(&"a".to_string()).unwrap().data, meta("v", "2"));
}

#[test]
fn search_on_a_built_collection_is_not_empty() {
    let mut c = Collection::new(2);
    for i in 0..20 {
        c.insert(format!("k{}", i), fixed(&[i as f32 * 0.05, 0.3]), vec![]).unwrap();
    }
    c.build(8, 16, 11);
    for i in 0..20 {
        let hits = c.search(&fixed(&[i as f32 * 0.05, 0.3]), 3).unwrap();
        assert_eq!(hits.len(), 3);
        assert_eq!(hits[0].distance, 0);
    }
}
