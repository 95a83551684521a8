use kokkupanek::lwwset::{Item, LwwMap, Mergeable};
use kokkupanek::scheduler::sources::KeyMeta;

fn meta(ts: u64, comment: &str) -> KeyMeta {
    KeyMeta { timestamp: ts, comment: comment.to_string() }
}

fn comment_of(m: &LwwMap<KeyMeta>, k: &str) -> Option<String> {
    m.get(k).map(|x| x.comment.clone())
}

#[test]
fn insert_then_get() {
    let mut m: LwwMap<KeyMeta> = LwwMap::new();
    assert!(m.is_empty());
    m.insert("k".to_string(), meta(1, "one"));
    assert_eq!(comment_of(&m, "k"), Some("one".to_string()));
    assert_eq!(comment_of(&m, "other"), None);
    assert!(!m.is_empty());
}

#[test]
fn remove_leaves_a_tombstone() {
    let mut m: LwwMap<KeyMeta> = LwwMap::new();
    m.insert("k".to_string(), meta(1, "one"));
    let removed = m.remove("k", 50);
    assert_eq!(removed.map(|x| x.comment), Some("one".to_string()));
    assert_eq!(comment_of(&m, "k"), None);
    assert!(!m.is_empty());
    assert!(m.remove("k", 60).is_none());
    assert!(m.remove("absent", 60).is_none());
}

#[test]
fn newer_tombstone_removes_value() {
    let mut a: LwwMap<KeyMeta> = LwwMap::new();
    a.insert("k".to_string(), meta(10, "a"));
    let mut b: LwwMap<KeyMeta> = LwwMap::new();
    b.insert("k".to_string(), meta(5, "b"));
    b.remove("k", 20);
    a.merge(b);
    assert_eq!(comment_of(&a, "k"), None);
}

#[test]
fn older_tombstone_keeps_value() {
    let mut a: LwwMap<KeyMeta> = LwwMap::new();
    a.insert("k".to_string(), meta(30, "a"));
    let mut b: LwwMap<KeyMeta> = LwwMap::new();
    b.insert("k".to_string(), meta(5, "b"));
    b.remove("k", 20);
    a.merge(b);
    assert_eq!(comment_of(&a, "k"), Some("a".to_string()));
}

#[test]
fn tombstone_is_not_revived_by_a_newer_value() {
    let mut a: LwwMap<KeyMeta> = LwwMap::new();
    a.insert("k".to_string(), meta(1, "a"));
    a.remove("k", 10);
    let mut b: LwwMap<KeyMeta> = LwwMap::new();
    b.insert("k".to_string(), meta(20, "b"));
    a.merge(b);
    assert_eq!(comment_of(&a, "k"), None);
}

#[test]
fn values_merge_by_their_own_rule() {
    let mut a: LwwMap<KeyMeta> = LwwMap::new();
    a.insert("k".to_string(), meta(1, "old"));
    a.insert("j".to_string(), meta(9, "keep"));
    let mut b: LwwMap<KeyMeta> = LwwMap::new();
    b.insert("k".to_string(), meta(2, "new"));
    b.insert("j".to_string(), meta(3, "lose"));
    b.insert("n".to_string(), meta(3, "added"));
    a.merge(b);
    assert_eq!(comment_of(&a, "k"), Some("new".to_string()));
    assert_eq!(comment_of(&a, "j"), Some("keep".to_string()));
    assert_eq!(comment_of(&a, "n"), Some("added".to_string()));
}

#[test]
fn merging_empty_changes_nothing() {
    let mut a: LwwMap<KeyMeta> = LwwMap::new();
    a.insert("k".to_string(), meta(1, "a"));
    a.merge(LwwMap::new());
    assert_eq!(comment_of(&a, "k"), Some("a".to_string()));
    let items: Vec<String> = a.iter().into_iter().map(|(k, _)| k.clone()).collect();
    assert_eq!(items, vec!["k".to_string()]);
}

#[test]
fn tombstones_merge_to_the_later() {
    let mut a: LwwMap<KeyMeta> = LwwMap::new();
    a.insert("k".to_string(), meta(1, "a"));
    a.remove("k", 10);
    let mut b: LwwMap<KeyMeta> = LwwMap::new();
    b.insert("k".to_string(), meta(1, "b"));
    b.remove("k", 30);
    a.merge(b);
    // A value stamped 20 is older than the merged tombstone (30): it stays removed.
    let mut c: LwwMap<KeyMeta> = LwwMap::new();
    c.insert("k".to_string(), meta(25, "c"));
    a.merge(c);
    assert_eq!(comment_of(&a, "k"), None);
}

#[test]
fn bad_data_is_ignored() {
    // A replica whose key holds unreadable data leaves the key as it is.
    let mut a: LwwMap<KeyMeta> = LwwMap::new();
    a.insert("k".to_string(), meta(1, "a"));
    let mut b: LwwMap<KeyMeta> = LwwMap::new();
    b.insert_item("k".to_string(), Item::BadData(serde_json::Value::Null));
    b.insert_item("bad".to_string(), Item::BadData(serde_json::Value::Null));
    a.merge(b);
    assert_eq!(comment_of(&a, "k"), Some("a".to_string()));
    let keys: Vec<String> = a.into_items().into_iter().map(|(k, _)| k).collect();
    assert_eq!(keys, vec!["k".to_string()]);
}

#[test]
fn iter_skips_tombstones() {
    let mut m: LwwMap<KeyMeta> = LwwMap::new();
    m.insert("b".to_string(), meta(1, "b"));
    m.insert("a".to_string(), meta(1, "a"));
    m.insert("c".to_string(), meta(1, "c"));
    m.remove("b", 5);
    let keys: Vec<String> = m.iter().into_iter().map(|(k, _)| k.clone()).collect();
    assert_eq!(keys, vec!["a".to_string(), "c".to_string()]);
}

#[test]
fn from_iter_keeps_the_last_pair() {
    let m = LwwMap::from_iter(vec![
        ("x".to_string(), meta(1, "first")),
        ("y".to_string(), meta(1, "y")),
        ("x".to_string(), meta(1, "second")),
    ]);
    assert_eq!(comment_of(&m, "x"), Some("second".to_string()));
    assert_eq!(comment_of(&m, "y"), Some("y".to_string()));
}

#[test]
fn keymeta_merge_takes_the_newer() {
    let mut k = meta(5, "a");
    k.merge(meta(5, "tie"));
    assert_eq!(k.comment, "a");
    k.merge(meta(6, "b"));
    assert_eq!(k.comment, "b");
    assert_eq!(k.timestamp(), 6);
}

#[test]
fn default_map_is_empty() {
    let m: LwwMap<KeyMeta> = Default::default();
    assert!(m.is_empty());
}

#[test]
fn tombstone_flag_from_replica_is_kept_on_a_free_key() {
    let mut a: LwwMap<KeyMeta> = LwwMap::new();
    let mut b: LwwMap<KeyMeta> = LwwMap::new();
    b.insert_item("k".to_string(), Item::Deleted { timestamp: 7, deleted: false });
    a.merge(b);
    match &a.into_items()[0].1 {
        Item::Deleted { timestamp, deleted } => {
            assert_eq!(*timestamp, 7);
            assert!(!*deleted);
        }
        _ => panic!("expected a tombstone"),
    }
}

#[test]
fn value_replaces_bad_data() {
    let mut a: LwwMap<KeyMeta> = LwwMap::new();
    a.insert_item("k".to_string(), Item::BadData(serde_json::Value::Null));
    let mut b: LwwMap<KeyMeta> = LwwMap::new();
    b.insert("k".to_string(), meta(1, "b"));
    a.merge(b);
    assert_eq!(comment_of(&a, "k"), Some("b".to_string()));
}

#[test]
fn merge_into_empty_copies_all_but_bad_data() {
    let mut b: LwwMap<KeyMeta> = LwwMap::new();
    b.insert("v".to_string(), meta(3, "v"));
    b.insert_item("t".to_string(), Item::Deleted { timestamp: 9, deleted: true });
    b.insert_item("bad".to_string(), Item::BadData(serde_json::Value::Null));
    let mut e: LwwMap<KeyMeta> = LwwMap::new();
    e.merge(b);
    let items = e.into_items();
    let keys: Vec<String> = items.iter().map(|(k, _)| k.clone()).collect();
    assert_eq!(keys, vec!["t".to_string(), "v".to_string()]);
    assert!(matches!(items[0].1, Item::Deleted { timestamp: 9, deleted: true }));
}

#[test]
fn take_and_replace_change_a_value_in_place() {
    let mut m: LwwMap<KeyMeta> = LwwMap::new();
    m.insert("k".to_string(), meta(1, "one"));
    m.remove("gone", 4);
    let old = m.replace("k", meta(2, "two"));
    assert_eq!(old.map(|x| x.comment), Some("one".to_string()));
    assert_eq!(comment_of(&m, "k"), Some("two".to_string()));
    assert!(m.replace("absent", meta(3, "x")).is_none());
    assert_eq!(comment_of(&m, "absent"), None);
    assert!(m.replace("gone", meta(3, "x")).is_none());
    assert_eq!(comment_of(&m, "gone"), None);
    let mut v = m.take("k").unwrap();
    v.comment.push_str("!");
    m.insert("k".to_string(), v);
    assert_eq!(comment_of(&m, "k"), Some("two!".to_string()));
}
