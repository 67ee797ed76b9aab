use arena_tree::arena::Handle;
use arena_tree::bst::gddset;

fn collect_in_order(set: &gddset) -> Vec<i64> {
    let mut out = Vec::new();
    set.debug_traverse(set.root().unwrap(), &mut out);
    out
}

#[test]
fn insert_random_order_should_be_sorted() {
    let mut set = gddset::new();

    let input = vec![5, 3, 7, 2, 4, 6, 8];
    for v in &input {
        set.insert(*v);
    }

    let result = collect_in_order(&set);

    assert_eq!(result.len(), input.len());
    assert!(
        result.windows(2).all(|w| w[0] <= w[1]),
        "not sorted: {:?}",
        result
    );
}

#[test]
fn insert_increasing_order_should_still_work() {
    let mut set = gddset::new();

    for v in 1..=5 {
        set.insert(v);
    }

    let result = collect_in_order(&set);

    assert_eq!(result, vec![1, 2, 3, 4, 5]);
}

#[test]
fn insert_decreasing_order_should_still_work() {
    let mut set = gddset::new();

    for v in (1..=5).rev() {
        set.insert(v);
    }

    let result = collect_in_order(&set);

    assert_eq!(result, vec![1, 2, 3, 4, 5]);
}

#[test]
fn random_order_traversal_is_exact() {
    let mut set = gddset::new();
    for v in [5, 3, 7, 2, 4, 6, 8] {
        assert!(set.insert(v));
    }
    assert_eq!(collect_in_order(&set), vec![2, 3, 4, 5, 6, 7, 8]);
}

#[test]
fn sorted_insertion_makes_a_right_chain() {
    let mut set = gddset::new();
    for v in 1..=5 {
        assert!(set.insert(v));
    }
    let arena = set.storage();
    let mut pos: Option<Handle> = set.root();
    let mut depth = 0;
    let mut keys = Vec::new();
    while let Some(h) = pos {
        let node = arena.get(h).unwrap();
        assert!(node.left.is_none());
        keys.push(node.key);
        depth += 1;
        pos = node.right;
    }
    assert_eq!(depth, 5);
    assert_eq!(keys, vec![1, 2, 3, 4, 5]);
}

#[test]
fn duplicate_insert_returns_false() {
    let mut set = gddset::new();
    assert!(set.insert(5));
    assert!(!set.insert(5));
    assert_eq!(collect_in_order(&set), vec![5]);
}

#[test]
fn duplicate_insert_leaves_tree_unchanged() {
    let mut set = gddset::new();
    for v in [10, -4, 22, 0, 15] {
        assert!(set.insert(v));
    }
    let before = collect_in_order(&set);
    for v in [10, -4, 22, 0, 15] {
        assert!(!set.insert(v));
    }
    assert_eq!(collect_in_order(&set), before);
    assert_eq!(before, vec![-4, 0, 10, 15, 22]);
}

#[test]
fn extreme_keys_are_ordered() {
    let mut set = gddset::new();
    for v in [0, i64::MAX, i64::MIN, -1, 1] {
        assert!(set.insert(v));
    }
    assert_eq!(
        collect_in_order(&set),
        vec![i64::MIN, -1, 0, 1, i64::MAX]
    );
}

#[test]
fn empty_tree_has_no_root() {
    let set = gddset::new();
    assert!(set.root().is_none());
}

#[test]
fn subtree_traversal_appends() {
    let mut set = gddset::new();
    for v in [5, 3, 7, 2, 4] {
        set.insert(v);
    }
    let arena = set.storage();
    let root = set.root().unwrap();
    let left = arena.get(root).unwrap().left.unwrap();
    let mut out = vec![100];
    set.debug_traverse(left, &mut out);
    assert_eq!(out, vec![100, 2, 3, 4]);
}

#[test]
fn child_records_its_parent() {
    let mut set = gddset::new();
    set.insert(5);
    set.insert(3);
    let arena = set.storage();
    let root = set.root().unwrap();
    let root_node = arena.get(root).unwrap();
    assert!(root_node.parent.is_none());
    let child = root_node.left.unwrap();
    let child_node = arena.get(child).unwrap();
    assert_eq!(child_node.key, 3);
    assert_eq!(child_node.parent, Some(root));
    assert_eq!(child_node.sz, 1);
}
