use kokkupanek::strmap::StrMap;

#[test]
fn insert_get_remove() {
    let mut m: StrMap<u32> = StrMap::new();
    assert!(m.is_empty());
    assert_eq!(m.insert("b".to_string(), 2), None);
    assert_eq!(m.insert("a".to_string(), 1), None);
    assert_eq!(m.insert("b".to_string(), 3), Some(2));
    assert_eq!(m.len(), 2);
    assert_eq!(m.get("a"), Some(&1));
    assert_eq!(m.get("b"), Some(&3));
    assert_eq!(m.get("c"), None);
    assert!(m.contains_key("a"));
    assert_eq!(m.remove("a"), Some(1));
    assert_eq!(m.remove("a"), None);
    assert!(!m.contains_key("a"));
    assert_eq!(m.len(), 1);
}

#[test]
fn entries_come_in_key_order() {
    let mut m: StrMap<u32> = StrMap::new();
    for (i, k) in ["pear", "apple", "zebra", "apple2", "Zed", "é"].iter().enumerate() {
        m.insert(k.to_string(), i as u32);
    }
    let keys: Vec<String> = m.into_items().into_iter().map(|(k, _)| k).collect();
    let mut sorted = keys.clone();
    sorted.sort();
    assert_eq!(keys, sorted);
    assert_eq!(keys.len(), 6);
}

#[test]
fn extend_prefers_the_other_map() {
    let mut a: StrMap<u32> = StrMap::new();
    a.insert("x".to_string(), 1);
    a.insert("y".to_string(), 2);
    let mut b: StrMap<u32> = StrMap::new();
    b.insert("y".to_string(), 20);
    b.insert("z".to_string(), 30);
    a.extend(b);
    assert_eq!(a.get("x"), Some(&1));
    assert_eq!(a.get("y"), Some(&20));
    assert_eq!(a.get("z"), Some(&30));
    assert_eq!(a.len(), 3);
}

#[test]
fn entry_at_walks_the_order() {
    let mut m: StrMap<u32> = StrMap::new();
    m.insert("b".to_string(), 2);
    m.insert("a".to_string(), 1);
    let (k, v) = m.entry_at(0);
    assert_eq!((k.as_str(), *v), ("a", 1));
    let (k, v) = m.entry_at(1);
    assert_eq!((k.as_str(), *v), ("b", 2));
}

#[test]
fn reversed_reverses() {
    assert_eq!(kokkupanek::strmap::reversed(vec![1, 2, 3]), vec![3, 2, 1]);
    assert_eq!(kokkupanek::strmap::reversed(Vec::<u8>::new()), Vec::<u8>::new());
}
