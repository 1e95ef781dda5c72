use ironring::hashing::{make_virtual_node_label, push_decimal, ring_position};
use ironring::strmap::{str_eq, StrMap};

#[test]
fn ring_position_is_first_eight_digest_bytes() {
    assert_eq!(ring_position("my-key"), 6807338441139796476);
    assert_eq!(ring_position("worker-1-0"), 12959588259505807858);
    assert_eq!(ring_position(""), 16406829232824261652);
}

#[test]
fn virtual_node_labels() {
    assert_eq!(make_virtual_node_label("worker-1", 0), "worker-1-0");
    assert_eq!(make_virtual_node_label("worker-1", 149), "worker-1-149");
    assert_eq!(make_virtual_node_label("", 4294967295), "-4294967295");
}

#[test]
fn decimal_text() {
    let mut s = String::from("x");
    push_decimal(&mut s, 0);
    assert_eq!(s, "x0");
    let mut t = String::new();
    push_decimal(&mut t, u64::MAX);
    assert_eq!(t, "18446744073709551615");
}

#[test]
fn text_equality() {
    assert!(str_eq("abc", "abc"));
    assert!(!str_eq("abc", "abd"));
    assert!(!str_eq("ab", "abc"));
    assert!(str_eq("", ""));
    assert!(str_eq("héllo", "héllo"));
    assert!(!str_eq("é", "e"));
}

#[test]
fn text_map_insert_get_remove() {
    let mut m: StrMap<u32> = StrMap::new();
    assert_eq!(m.len(), 0);
    m.insert("a".to_string(), 1);
    m.insert("b".to_string(), 2);
    m.insert("a".to_string(), 3);
    assert_eq!(m.len(), 2);
    assert_eq!(m.get("a"), Some(&3));
    assert_eq!(m.get("b"), Some(&2));
    assert_eq!(m.get("c"), None);
    assert!(m.contains_key("a"));
    assert_eq!(m.key_at(0), "a");
    assert_eq!(m.key_at(1), "b");
    assert_eq!(m.remove("a"), Some(3));
    assert_eq!(m.remove("a"), None);
    assert_eq!(m.len(), 1);
    assert_eq!(m.key_at(0), "b");
    assert_eq!(*m.value_at(0), 2);
}

#[test]
fn position_is_read_big_endian_from_first_eight_bytes() {
    let digest: Vec<u8> = vec![1, 2, 3, 4, 5, 6, 7, 8, 0xff, 0xff];
    assert_eq!(ironring::hashing::position_from_digest(&digest), 0x0102030405060708);
    let zeros = [0u8; 32];
    assert_eq!(ironring::hashing::position_from_digest(&zeros), 0);
    let ones = [0xffu8; 8];
    assert_eq!(ironring::hashing::position_from_digest(&ones), u64::MAX);
}
