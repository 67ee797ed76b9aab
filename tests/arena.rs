use arena_tree::arena::{Arena, Handle};
use arena_tree::node::Node;

#[test]
fn reuse_after_free_bumps_generation() {
    let mut a: Arena<&str> = Arena::new();
    let h0 = a.allocate("a");
    assert_eq!(h0.index(), 0);
    assert_eq!(h0.generation(), 0);
    assert_eq!(a.free(h0), Some("a"));
    let h1 = a.allocate("b");
    assert_eq!(h1.index(), 0);
    assert_eq!(h1.generation(), 1);
    assert!(a.get(h0).is_none());
    assert_eq!(a.get(h1), Some(&"b"));
}

#[test]
fn freed_handle_is_stale() {
    let mut a: Arena<u32> = Arena::new();
    let h = a.allocate(7);
    let other = a.allocate(8);
    assert_eq!(a.free(h), Some(7));
    assert!(a.get(h).is_none());
    assert!(a.get_mut(h).is_none());
    assert!(!a.is_alive(h));
    assert_eq!(a.free(h), None);
    assert!(a.contains(h));
    let again = a.allocate(9);
    assert_eq!(again.index(), h.index());
    assert!(again.generation() > h.generation());
    assert!(a.get(h).is_none());
    assert_eq!(a.get(other), Some(&8));
}

#[test]
fn allocation_with_empty_free_list_appends() {
    let mut a: Arena<i32> = Arena::new();
    for k in 0..4 {
        let h = a.allocate(k as i32);
        assert_eq!(h.index(), k);
        assert_eq!(h.generation(), 0);
    }
    assert!(a.contains(Handle::new(3, 0)));
    assert!(!a.contains(Handle::new(4, 0)));
}

#[test]
fn free_list_is_last_in_first_out() {
    let mut a: Arena<i32> = Arena::new();
    let h0 = a.allocate(0);
    let h1 = a.allocate(1);
    let _h2 = a.allocate(2);
    a.free(h0);
    a.free(h1);
    let r = a.allocate(10);
    assert_eq!(r.index(), 1);
    assert_eq!(r.generation(), 1);
    let r2 = a.allocate(11);
    assert_eq!(r2.index(), 0);
    let r3 = a.allocate(12);
    assert_eq!(r3.index(), 3);
    assert_eq!(r3.generation(), 0);
}

#[test]
fn out_of_bounds_handle_finds_nothing() {
    let mut a: Arena<i32> = Arena::new();
    let h = Handle::new(5, 0);
    assert!(a.get(h).is_none());
    assert!(a.get_mut(h).is_none());
    assert_eq!(a.free(h), None);
    assert!(!a.is_alive(h));
    assert!(!a.contains(h));
}

#[test]
fn wrong_generation_finds_nothing() {
    let mut a: Arena<i32> = Arena::new();
    let h = a.allocate(3);
    let forged = Handle::new(h.index(), 4);
    assert!(a.get(forged).is_none());
    assert_eq!(a.free(forged), None);
    assert!(a.is_alive(h));
    assert!(a.contains(forged));
}

#[test]
fn get_mut_changes_only_that_value() {
    let mut a: Arena<i32> = Arena::new();
    let h0 = a.allocate(1);
    let h1 = a.allocate(2);
    *a.get_mut(h1).unwrap() = 20;
    assert_eq!(a.get(h0), Some(&1));
    assert_eq!(a.get(h1), Some(&20));
}

#[test]
fn handle_equality_uses_both_fields() {
    assert_eq!(Handle::new(2, 3), Handle::new(2, 3));
    assert_ne!(Handle::new(2, 3), Handle::new(2, 4));
    assert_ne!(Handle::new(2, 3), Handle::new(1, 3));
}

#[test]
fn new_node_has_no_children() {
    let n = Node::new(9i64, Some(Handle::new(0, 0)));
    assert_eq!(n.key, 9);
    assert_eq!(n.sz, 1);
    assert_eq!(n.parent, Some(Handle::new(0, 0)));
    assert!(n.left.is_none());
    assert!(n.right.is_none());
}
