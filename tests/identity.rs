use litegit::hash;
use litegit::objects::{object_hash, ObjectStore, ObjectType};

fn hex(h: &hash::Hash) -> String {
    String::from_utf8(h.to_hex()).unwrap()
}

#[test]
fn blob_identity_matches_known_digest() {
    let h = object_hash(ObjectType::Blob, b"hello");
    assert_eq!(hex(&h), "b6fc4c620b67d95f953a5c1c1230aaab5db5a1b0");
}

#[test]
fn empty_blob_identity() {
    let h = object_hash(ObjectType::Blob, b"");
    assert_eq!(hex(&h), "e69de29bb2d1d6434b8b29ae775ad8c2e48c5391");
}

#[test]
fn identity_depends_on_type() {
    let a = object_hash(ObjectType::Blob, b"x");
    let b = object_hash(ObjectType::Tree, b"x");
    assert!(a != b);
}

#[test]
fn stored_object_rehashes_to_its_key() {
    let mut store = ObjectStore::new();
    let k = store.insert(ObjectType::Commit, b"tree 0\n".to_vec(), None);
    let obj = store.get(k).unwrap();
    assert!(obj.id() == k);
    assert_eq!(obj.obj_type(), ObjectType::Commit);
    assert_eq!(obj.content(), b"tree 0\n");
    assert!(obj.delta_hint().is_none());
}

#[test]
fn insert_is_idempotent_and_overwrites_hint() {
    let mut store = ObjectStore::new();
    let hint = object_hash(ObjectType::Blob, b"old");
    let a = store.insert(ObjectType::Blob, b"data".to_vec(), None);
    let b = store.insert(ObjectType::Blob, b"data".to_vec(), Some(hint));
    assert!(a == b);
    assert!(store.get(a).unwrap().delta_hint().unwrap() == hint);
}

#[test]
fn get_as_checks_type_and_remove_takes_out() {
    let mut store = ObjectStore::new();
    let k = store.insert(ObjectType::Blob, b"abc".to_vec(), None);
    assert!(store.has(k));
    assert!(store.get_as(k, ObjectType::Tree).is_none());
    assert_eq!(store.get_as(k, ObjectType::Blob).unwrap(), b"abc");
    let removed = store.remove(k).unwrap();
    assert_eq!(removed.content(), b"abc");
    assert!(!store.has(k));
    assert!(store.remove(k).is_none());
}

#[test]
fn hex_round_trip() {
    let text = "dcf3cb0c8270c187003d84fd359e5bb3904fe42a";
    let h = hash::Hash::from_hex(text).unwrap();
    assert_eq!(hex(&h), text);
    assert_eq!(h.first_byte(), 0xdc);
    assert_eq!(h.to_bytes()[19], 0x2a);
}

#[test]
fn hex_accepts_uppercase_and_formats_lowercase() {
    let h = hash::Hash::from_hex("DCF3CB0C8270C187003D84FD359E5BB3904FE42A").unwrap();
    assert_eq!(hex(&h), "dcf3cb0c8270c187003d84fd359e5bb3904fe42a");
}

#[test]
fn hex_rejects_bad_length() {
    assert!(hash::Hash::from_hex("dcf3cb0c8270c187003d84fd359e5bb3904fe42").is_none());
    assert!(hash::Hash::from_hex("dcf3cb0c8270c187003d84fd359e5bb3904fe42aa").is_none());
    assert!(hash::Hash::from_hex("").is_none());
}

#[test]
fn hex_rejects_non_hex_characters() {
    assert!(hash::Hash::from_hex("gcf3cb0c8270c187003d84fd359e5bb3904fe42a").is_none());
    assert!(hash::Hash::from_hex("+cf3cb0c8270c187003d84fd359e5bb3904fe42a").is_none());
}

#[test]
fn zero_hash() {
    assert!(hash::Hash::zero().is_zero());
    assert_eq!(hex(&hash::Hash::zero()), "0000000000000000000000000000000000000000");
    assert!(!hash::Hash::new([1; 20]).is_zero());
}
