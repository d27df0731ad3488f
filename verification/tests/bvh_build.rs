use raytracer::bvh::{BvhChild, BvhItem, BVHNode};

fn item(id: usize, key: u64) -> BvhItem {
    // the same key on every axis, so the build is deterministic whichever
    // axis it draws
    BvhItem { id, key_x: key, key_y: key, key_z: key }
}

fn collect_leaf_ids(node: &BVHNode, out: &mut Vec<usize>) {
    for child in [&node.left, &node.right] {
        match child {
            BvhChild::Leaf(it) => out.push(it.id),
            BvhChild::Node(inner) => collect_leaf_ids(inner, out),
        }
    }
}

#[test]
fn single_child_fills_both_slots() {
    let items = vec![item(7, 42)];
    let node = BVHNode::build_tree(&items);
    match (&node.left, &node.right) {
        (BvhChild::Leaf(a), BvhChild::Leaf(b)) => {
            assert_eq!(a.id, 7);
            assert_eq!(b.id, 7);
        }
        _ => panic!("expected two leaves"),
    }
}

#[test]
fn pair_ordered_by_key() {
    let items = vec![item(1, 50), item(2, 10)];
    let node = BVHNode::build_tree(&items);
    match (&node.left, &node.right) {
        (BvhChild::Leaf(a), BvhChild::Leaf(b)) => {
            assert_eq!(a.id, 2); // smaller key comes first
            assert_eq!(b.id, 1);
        }
        _ => panic!("expected two leaves"),
    }
}

#[test]
fn pair_with_equal_keys_keeps_order() {
    let items = vec![item(4, 10), item(9, 10)];
    let node = BVHNode::build_tree(&items);
    match (&node.left, &node.right) {
        (BvhChild::Leaf(a), BvhChild::Leaf(b)) => {
            assert_eq!(a.id, 4);
            assert_eq!(b.id, 9);
        }
        _ => panic!("expected two leaves"),
    }
}

#[test]
fn four_children_each_a_leaf_once() {
    let items = vec![item(0, 40), item(1, 10), item(2, 30), item(3, 20)];
    let node = BVHNode::build_tree(&items);
    let mut ids = Vec::new();
    collect_leaf_ids(&node, &mut ids);
    ids.sort();
    assert_eq!(ids, vec![0, 1, 2, 3]);
}

#[test]
fn three_children_duplicate_only_the_singleton_half() {
    // the sorted run splits 1 / 2, and the lone first child is duplicated
    let items = vec![item(0, 30), item(1, 10), item(2, 20)];
    let node = BVHNode::build_tree(&items);
    let mut ids = Vec::new();
    collect_leaf_ids(&node, &mut ids);
    ids.sort();
    assert_eq!(ids, vec![0, 1, 1, 2]); // id 1 has the smallest key and sits alone in the left half
}

#[test]
fn larger_build_loses_no_collider() {
    let items: Vec<BvhItem> = (0..25).map(|i| item(i, (25 - i) as u64)).collect();
    let node = BVHNode::build_tree(&items);
    let mut ids = Vec::new();
    collect_leaf_ids(&node, &mut ids);
    ids.sort();
    ids.dedup();
    assert_eq!(ids, (0..25).collect::<Vec<_>>());
}
