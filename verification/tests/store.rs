use azul_core::NodeData;
use azul_core::NodeKind;
use azul_core::id_tree::NodeStore;

fn elem(tag: &[u8]) -> NodeData {
    NodeData {
        kind: NodeKind::Element,
        tag: tag.to_vec(),
        id_attr: None,
        classes: Vec::new(),
        text: Vec::new(),
    }
}

#[test]
fn insert_and_get() {
    let mut s = NodeStore::new();
    let root = s.insert(NodeData::container(), None).unwrap();
    let child = s.insert(elem(b"child"), Some(root)).unwrap();
    assert!(s.is_valid(root));
    assert!(s.is_valid(child));
    assert_eq!(s.get(root).unwrap().kind, NodeKind::Container);
    assert_eq!(s.get(child).unwrap().tag, b"child".to_vec());
    assert_eq!(s.children(root).unwrap().len(), 1);
    assert_eq!(s.children(root).unwrap()[0], child);
    assert_eq!(s.children(child).unwrap().len(), 0);
    assert_eq!(s.parent_of(child), Some(root));
    assert_eq!(s.parent_of(root), None);
}

#[test]
fn insert_under_stale_parent_fails() {
    let mut s = NodeStore::new();
    let root = s.insert(elem(b"root"), None).unwrap();
    let child = s.insert(elem(b"child"), Some(root)).unwrap();
    s.remove(child).unwrap();
    let r = s.insert(elem(b"x"), Some(child));
    assert!(r.is_err());
}

#[test]
fn remove_subtree_only() {
    let mut s = NodeStore::new();
    let root = s.insert(elem(b"root"), None).unwrap();
    let a = s.insert(elem(b"a"), Some(root)).unwrap();
    let b = s.insert(elem(b"b"), Some(root)).unwrap();
    let a1 = s.insert(elem(b"a1"), Some(a)).unwrap();
    let a2 = s.insert(elem(b"a2"), Some(a)).unwrap();
    s.remove(a).unwrap();
    // the subtree is gone, and only the subtree
    assert!(!s.is_valid(a));
    assert!(!s.is_valid(a1));
    assert!(!s.is_valid(a2));
    assert!(s.is_valid(root));
    assert!(s.is_valid(b));
    // the parent's child list lost exactly the removed child
    let kids = s.children(root).unwrap();
    assert_eq!(kids.len(), 1);
    assert_eq!(kids[0], b);
    // stale handles answer None everywhere
    assert!(s.get(a).is_none());
    assert!(s.get(a1).is_none());
    assert!(s.children(a2).is_none());
}

#[test]
fn removed_slot_reuse_gets_fresh_generation() {
    let mut s = NodeStore::new();
    let root = s.insert(elem(b"root"), None).unwrap();
    let a = s.insert(elem(b"a"), Some(root)).unwrap();
    s.remove(a).unwrap();
    let c = s.insert(elem(b"c"), Some(root)).unwrap();
    // the slot may be reused, but the old handle must stay dead
    assert!(s.is_valid(c));
    assert!(!s.is_valid(a));
    assert!(s.get(a).is_none());
    assert_eq!(s.get(c).unwrap().tag, b"c".to_vec());
}

#[test]
fn remove_stale_handle_fails_and_changes_nothing() {
    let mut s = NodeStore::new();
    let root = s.insert(elem(b"root"), None).unwrap();
    let a = s.insert(elem(b"a"), Some(root)).unwrap();
    s.remove(a).unwrap();
    assert!(s.remove(a).is_err());
    assert!(s.is_valid(root));
}
