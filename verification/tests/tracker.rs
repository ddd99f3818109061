use compact_tracker::file_list::{
    del_delete, get_offset, list_delete, set_delete, set_offset, TrackError,
};
use compact_tracker::store::{KvStore, StoreError};

#[test]
fn test_files() {
    let mut db = KvStore::new();
    let off_set = 100;

    let _ = set_offset(&mut db, off_set);
    let resp = get_offset(&db);
    assert_eq!(resp.unwrap(), off_set);

    let delete_day = "2023-03-03";
    let _ = set_delete(&mut db, delete_day);
    let deletes = list_delete(&db).unwrap();
    assert_eq!([delete_day.to_string()].to_vec(), deletes);
}

#[test]
fn offset_default_is_zero() {
    let db = KvStore::new();
    assert_eq!(get_offset(&db).unwrap(), 0);
}

#[test]
fn offset_round_trip() {
    let mut db = KvStore::new();
    for v in [0i64, 1, -1, 42, -100, i64::MAX, i64::MIN, 1000000007] {
        set_offset(&mut db, v).unwrap();
        assert_eq!(get_offset(&db).unwrap(), v);
    }
}

#[test]
fn offset_decode_failure_is_distinct() {
    let mut db = KvStore::new();
    db.put("/compact/file_list/offset", "not a number");
    assert_eq!(get_offset(&db), Err(TrackError::DecodeFailure));
    db.put("/compact/file_list/offset", "");
    assert_eq!(get_offset(&db), Err(TrackError::DecodeFailure));
    db.put("/compact/file_list/offset", "9223372036854775808");
    assert_eq!(get_offset(&db), Err(TrackError::DecodeFailure));
    db.put("/compact/file_list/offset", "-9223372036854775808");
    assert_eq!(get_offset(&db).unwrap(), i64::MIN);
}

#[test]
fn tombstone_mark_is_idempotent() {
    let mut db = KvStore::new();
    set_delete(&mut db, "2023-01-01").unwrap();
    set_delete(&mut db, "2023-01-01").unwrap();
    let ids = list_delete(&db).unwrap();
    assert_eq!(ids.iter().filter(|i| i.as_str() == "2023-01-01").count(), 1);
    assert_eq!(ids.len(), 1);
}

#[test]
fn tombstone_unmark_removes() {
    let mut db = KvStore::new();
    set_delete(&mut db, "2023-01-01").unwrap();
    del_delete(&mut db, "2023-01-01").unwrap();
    let ids = list_delete(&db).unwrap();
    assert!(!ids.iter().any(|i| i.as_str() == "2023-01-01"));
    assert!(ids.is_empty());
}

#[test]
fn tombstone_unmark_absent_is_success() {
    let mut db = KvStore::new();
    assert!(del_delete(&mut db, "never-marked").is_ok());
    assert!(list_delete(&db).unwrap().is_empty());
}

#[test]
fn tombstones_are_disjoint() {
    let mut db = KvStore::new();
    set_delete(&mut db, "a").unwrap();
    set_delete(&mut db, "b").unwrap();
    del_delete(&mut db, "a").unwrap();
    let ids = list_delete(&db).unwrap();
    assert_eq!(ids, vec!["b".to_string()]);
}

#[test]
fn tombstones_do_not_touch_offset() {
    let mut db = KvStore::new();
    set_offset(&mut db, 7).unwrap();
    set_delete(&mut db, "x").unwrap();
    del_delete(&mut db, "x").unwrap();
    assert_eq!(get_offset(&db).unwrap(), 7);
    assert!(list_delete(&db).unwrap().is_empty());
}

#[test]
fn store_get_put_delete() {
    let mut db = KvStore::new();
    assert_eq!(db.get("k"), Err(StoreError::NotFound));
    db.put("k", "v1");
    assert_eq!(db.get("k").unwrap(), "v1");
    db.put("k", "v2");
    assert_eq!(db.get("k").unwrap(), "v2");
    assert_eq!(db.delete("k"), Ok(()));
    assert_eq!(db.delete("k"), Err(StoreError::NotFound));
    assert_eq!(db.get("k"), Err(StoreError::NotFound));
}

#[test]
fn store_list_prefix_scopes_keys() {
    let mut db = KvStore::new();
    db.put("/a/1", "x");
    db.put("/a/2", "y");
    db.put("/b/1", "z");
    let listed = db.list_prefix("/a/");
    assert_eq!(listed.len(), 2);
    assert!(listed.iter().any(|(k, v)| k == "/a/1" && v == "x"));
    assert!(listed.iter().any(|(k, v)| k == "/a/2" && v == "y"));
}
