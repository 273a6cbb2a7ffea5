use std::sync::Arc;

use cow_trie::node::Node;
use cow_trie::trie::Trie;
use cow_trie::value::Value;

#[test]
fn round_trip_each_kind() {
    let t = Trie::new();
    let t = t.put("a", Value::Int32(7));
    let t = t.put("b", Value::Int64(u64::MAX));
    let t = t.put("c", Value::String("seven".to_string()));
    assert_eq!(t.get("a"), Some(Value::Int32(7)));
    assert_eq!(t.get("b"), Some(Value::Int64(u64::MAX)));
    assert_eq!(t.get("c"), Some(Value::String("seven".to_string())));
}

#[test]
fn get_on_empty_trie() {
    let t = Trie::new();
    assert_eq!(t.get(""), None);
    assert_eq!(t.get("abc"), None);
    assert_eq!(t.get_root(), Arc::new(Node::new()));
}

#[test]
fn isolation_under_puts_and_deletes() {
    let t = Trie::new().put("ab", Value::Int32(1)).put("abc", Value::Int32(2));
    let t2 = t.put("a", Value::Int32(3)).delete("a").put("a", Value::Int32(4)).delete("a");
    assert_eq!(t2.get("ab"), Some(Value::Int32(1)));
    assert_eq!(t2.get("abc"), Some(Value::Int32(2)));
    assert_eq!(t2.get("a"), None);
}

#[test]
fn prior_version_unchanged() {
    let t = Trie::new().put("key", Value::Int32(1));
    let t2 = t.put("key", Value::Int32(2));
    let t3 = t.delete("key");
    assert_eq!(t.get("key"), Some(Value::Int32(1)));
    assert_eq!(t2.get("key"), Some(Value::Int32(2)));
    assert_eq!(t3.get("key"), None);
}

#[test]
fn delete_twice_same_as_once() {
    let t = Trie::new().put("x", Value::Int32(1)).put("xy", Value::Int32(2));
    let once = t.delete("x");
    let twice = once.delete("x");
    for k in ["", "x", "xy", "xyz"] {
        assert_eq!(once.get(k), twice.get(k));
    }
    assert_eq!(once.get_root(), twice.get_root());
}

#[test]
fn delete_absent_key_keeps_entries() {
    let t = Trie::new().put("ab", Value::Int32(1));
    let t2 = t.delete("abc").delete("b").delete("");
    assert_eq!(t2.get("ab"), Some(Value::Int32(1)));
    assert_eq!(t2.get_root(), t.get_root());
}

#[test]
fn empty_key_does_not_disturb_others() {
    let t = Trie::new().put("q", Value::Int32(1));
    let t2 = t.put("", Value::Int32(9));
    assert_eq!(t2.get(""), Some(Value::Int32(9)));
    assert_eq!(t2.get("q"), Some(Value::Int32(1)));
    let t3 = t2.delete("");
    assert_eq!(t3.get(""), None);
    assert_eq!(t3.get("q"), Some(Value::Int32(1)));
}

#[test]
fn deleting_last_key_below_prunes_branch() {
    let t = Trie::new().put("ab", Value::Int32(1)).put("xyz", Value::Int32(2));
    let t2 = t.delete("xyz");
    let root = t2.get_root();
    assert_eq!(root.children.len(), 1);
    assert!(root.children.get(&('x' as u32)).is_none());
    assert!(root.children.get(&('a' as u32)).is_some());
}

#[test]
fn non_ascii_keys() {
    let t = Trie::new().put("héllo", Value::Int32(1)).put("日本", Value::Int32(2));
    assert_eq!(t.get("héllo"), Some(Value::Int32(1)));
    assert_eq!(t.get("日本"), Some(Value::Int32(2)));
    assert_eq!(t.get("日"), None);
    let root = t.get_root();
    assert!(root.children.get(&('日' as u32)).is_some());
}

#[test]
fn conversions_into_value() {
    assert_eq!(Value::from(5u32), Value::Int32(5));
    assert_eq!(Value::from(5u64), Value::Int64(5));
    assert_eq!(Value::from("s".to_string()), Value::String("s".to_string()));
    assert_eq!(Value::from("s"), Value::String("s".to_string()));
}

#[test]
fn from_node_and_into_node() {
    let t = Trie::new().put("k", Value::Int32(3));
    let root = t.clone().into_node();
    let back = Trie::from_node(root);
    assert_eq!(back.get("k"), Some(Value::Int32(3)));
    let empty = Trie::from_node(Arc::new(Node::new()));
    assert_eq!(empty.get(""), None);
    assert_eq!(Trie::new().into_node(), Arc::new(Node::new()));
}

#[test]
fn clone_shares_contents() {
    let t = Trie::new().put("k", Value::Int32(3));
    let c = t.clone();
    assert_eq!(c.get("k"), Some(Value::Int32(3)));
    assert!(Arc::ptr_eq(&c.get_root(), &t.get_root()));
}

#[test]
fn put_shares_untouched_subtrees() {
    let t = Trie::new().put("ab", Value::Int32(1)).put("xy", Value::Int32(2));
    let t2 = t.put("ac", Value::Int32(3));
    let x1 = t.get_root().children.get(&('x' as u32)).unwrap().clone();
    let x2 = t2.get_root().children.get(&('x' as u32)).unwrap().clone();
    assert!(Arc::ptr_eq(&x1, &x2));
}
