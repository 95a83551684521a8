use kokkupanek::text::{key_order, KeyOrder};

#[test]
fn key_order_is_lexicographic() {
    assert!(key_order("a", "b") == KeyOrder::Less);
    assert!(key_order("b", "a") == KeyOrder::Greater);
    assert!(key_order("ab", "ab") == KeyOrder::Equal);
    assert!(key_order("a", "ab") == KeyOrder::Less);
    assert!(key_order("", "a") == KeyOrder::Less);
    assert!(key_order("", "") == KeyOrder::Equal);
    assert!(key_order("Z", "a") == KeyOrder::Less);
    assert!(key_order("é", "z") == KeyOrder::Greater);
}

#[test]
fn key_order_agrees_with_string_order() {
    let words = ["", "a", "ab", "b", "ba", "Ä", "ä", "z", "zz", "-", "--"];
    for x in words.iter() {
        for y in words.iter() {
            let expected = x.cmp(y);
            let got = key_order(x, y);
            match expected {
                std::cmp::Ordering::Less => assert!(got == KeyOrder::Less),
                std::cmp::Ordering::Equal => assert!(got == KeyOrder::Equal),
                std::cmp::Ordering::Greater => assert!(got == KeyOrder::Greater),
            }
        }
    }
}
