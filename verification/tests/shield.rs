use kokkupanek::shield::{Shield, ShieldExt};
use kokkupanek::strmap::StrMap;

#[test]
fn ensure_valid_replaces_invalid_data() {
    let mut s: Shield<u32> = Shield::Invalid(serde_json::Value::Bool(true));
    assert!(s.ok().is_none());
    *s.ensure_valid() += 5;
    assert_eq!(s.ok(), Some(&5));
}

#[test]
fn ensure_valid_keeps_valid_data() {
    let mut s: Shield<u32> = Shield::Valid(7);
    assert_eq!(*s.ensure_valid(), 7);
    assert_eq!(s.ok(), Some(&7));
}

#[test]
fn default_and_from() {
    let d: Shield<u32> = Default::default();
    assert_eq!(d.ok(), Some(&0));
    let f: Shield<u32> = Shield::from(3);
    assert_eq!(f.ok(), Some(&3));
}

#[test]
fn take_valid_gives_default_for_missing_or_invalid() {
    let mut m: StrMap<Shield<u32>> = StrMap::new();
    m.insert("v".to_string(), Shield::Valid(4));
    m.insert("i".to_string(), Shield::Invalid(serde_json::Value::Null));
    assert_eq!(m.take_valid("v"), 4);
    assert_eq!(m.take_valid("i"), 0);
    assert_eq!(m.take_valid("missing"), 0);
    assert!(m.is_empty());
}
