//! Structural construction of the bounding-volume hierarchy.
//!
//! The builder works on handles: each scene collider enters as its index
//! together with one sort key per axis, an order-preserving integer image
//! of the minimum corner of the collider's bounding box.  The geometry
//! itself (boxes, rays, hit tests) is floating point and stays outside the
//! library; what is proved here is the shape of the tree the renderer
//! traverses: a split axis is drawn at random, the children are sorted
//! along it and halved, and every input collider remains reachable as a
//! leaf — no omission, and no leaf that was never an input.  A singleton
//! input is duplicated into both slots of its node, as the traversal
//! expects.  The construction recipe itself is stated as `built_from` and
//! carried level by level in the builder's contract.

use vstd::prelude::*;
use vstd::seq_lib::group_seq_properties;
use vstd::seq_lib::lemma_multiset_commutative;
use vstd::seq_lib::group_to_multiset_ensures;
use vstd::seq_lib::to_multiset_insert;

use crate::maths::random_usize_between;

verus! {

/// One collider as the builder sees it: its index in the scene and its
/// per-axis sort keys.
#[derive(Clone, Copy, Debug, PartialEq, Eq, Structural)]
pub struct BvhItem {
    pub id: usize,
    pub key_x: u64,
    pub key_y: u64,
    pub key_z: u64,
}

/// A child of a tree node: either a scene collider or a further node.
pub enum BvhChild {
    Leaf(BvhItem),
    Node(Box<BVHNode>),
}

/// An inner node of the hierarchy: two children whose bounding boxes the
/// unverified geometry layer unions into the node's own box.
pub struct BVHNode {
    pub left: BvhChild,
    pub right: BvhChild,
}

/// The scene indices of the leaves under a child, left to right.
pub open spec fn child_leaf_ids(c: BvhChild) -> Seq<usize>
    decreases c,
{
    match c {
        BvhChild::Leaf(item) => seq![item.id],
        BvhChild::Node(node) => node_leaf_ids(*node),
    }
}

/// The scene indices of the leaves under a node, left to right.
pub open spec fn node_leaf_ids(node: BVHNode) -> Seq<usize>
    decreases node,
{
    child_leaf_ids(node.left) + child_leaf_ids(node.right)
}

/// The scene indices of a run of items, in order.
pub open spec fn item_ids(items: Seq<BvhItem>) -> Seq<usize> {
    items.map_values(|item: BvhItem| item.id)
}

/// The sort key of an item along an axis (0 = x, 1 = y, 2 = z).
pub open spec fn item_key(item: BvhItem, axis: int) -> u64 {
    if axis == 0 {
        item.key_x
    } else if axis == 1 {
        item.key_y
    } else {
        item.key_z
    }
}

/// Are the items ordered by their keys along the axis?
pub open spec fn sorted_by_axis(items: Seq<BvhItem>, axis: int) -> bool {
    forall|i: int, j: int|
        0 <= i < j < items.len() ==> item_key(#[trigger] items[i], axis) <= item_key(
            #[trigger] items[j],
            axis,
        )
}

/// Did a pair node come from splitting `children` along axis `a`?  The
/// child with the strictly greater key moves right; otherwise — including
/// equal keys — the pair keeps its order.
pub open spec fn pair_split_by(node: BVHNode, children: Seq<BvhItem>, a: int) -> bool {
    if item_key(children[0], a) > item_key(children[1], a) {
        node.left == BvhChild::Leaf(children[1]) && node.right == BvhChild::Leaf(children[0])
    } else {
        node.left == BvhChild::Leaf(children[0]) && node.right == BvhChild::Leaf(children[1])
    }
}

/// Is `s` the children reordered along axis `a`: the same items, sorted by
/// their keys on that axis?
pub open spec fn sorted_run_of(children: Seq<BvhItem>, s: Seq<BvhItem>, a: int) -> bool {
    &&& 0 <= a < 3
    &&& s.len() == children.len()
    &&& s.to_multiset() == children.to_multiset()
    &&& sorted_by_axis(s, a)
}

/// The construction law of the hierarchy, following the build recipe level
/// by level: a single child fills both slots of its node; a pair is split
/// along some axis, smaller key left; a longer run is reordered along some
/// axis and halved at the midpoint, the first half building the left
/// subtree and the rest the right.  The axis of each level is drawn at
/// random, so it is existential here.
pub open spec fn built_from(node: BVHNode, children: Seq<BvhItem>) -> bool
    decreases children.len(),
{
    if children.len() == 1 {
        node.left == BvhChild::Leaf(children[0]) && node.right == BvhChild::Leaf(children[0])
    } else if children.len() == 2 {
        exists|a: int| 0 <= a < 3 && #[trigger] pair_split_by(node, children, a)
    } else if children.len() > 2 {
        exists|a: int, s: Seq<BvhItem>|
            #[trigger] sorted_run_of(children, s, a) && {
                let half = children.len() as int / 2;
                &&& node.left matches BvhChild::Node(l) && built_from(*l, s.subrange(0, half))
                &&& node.right matches BvhChild::Node(r) && built_from(
                    *r,
                    s.subrange(half, s.len() as int),
                )
            }
    } else {
        false
    }
}

/// Reads the sort key of an item along an axis.
fn item_key_at(item: &BvhItem, axis: usize) -> (k: u64)
    requires
        axis < 3,
    ensures
        k == item_key(*item, axis as int),
{
    if axis == 0 {
        item.key_x
    } else if axis == 1 {
        item.key_y
    } else {
        item.key_z
    }
}

/// Inserting an item into a run inserts its index into the run's indices.
proof fn lemma_ids_insert(items: Seq<BvhItem>, p: int, item: BvhItem)
    requires
        0 <= p <= items.len(),
    ensures
        item_ids(items.insert(p, item)) =~= item_ids(items).insert(p, item.id),
{
}

/// Sorts the items by their keys along the axis, keeping exactly the same
/// items (and so the same scene indices).
fn sort_items_by_axis(items: &Vec<BvhItem>, axis: usize) -> (out: Vec<BvhItem>)
    requires
        axis < 3,
    ensures
        out@.len() == items@.len(),
        sorted_by_axis(out@, axis as int),
        out@.to_multiset() == items@.to_multiset(),
        item_ids(out@).to_multiset() == item_ids(items@).to_multiset(),
{
    broadcast use group_to_multiset_ensures;
    broadcast use to_multiset_insert;

    let mut out: Vec<BvhItem> = Vec::new();
    let n = items.len();
    let mut i: usize = 0;
    proof {
        assert(items@.take(0) =~= Seq::<BvhItem>::empty());
        assert(item_ids(Seq::<BvhItem>::empty()) =~= Seq::<usize>::empty());
        assert(item_ids(out@) =~= Seq::<usize>::empty());
    }
    while i < n
        invariant
            i <= n,
            n == items@.len(),
            axis < 3,
            out@.len() == i,
            sorted_by_axis(out@, axis as int),
            out@.to_multiset() == items@.take(i as int).to_multiset(),
            item_ids(out@).to_multiset() == item_ids(items@.take(i as int)).to_multiset(),
        decreases n - i,
    {
        let item = items[i];
        let mut p: usize = 0;
        while p < out.len() && item_key_at(&out[p], axis) <= item_key_at(&item, axis)
            invariant
                p <= out@.len(),
                axis < 3,
                forall|q: int|
                    0 <= q < p ==> item_key(#[trigger] out@[q], axis as int) <= item_key(
                        item,
                        axis as int,
                    ),
            decreases out@.len() - p,
        {
            p = p + 1;
        }
        let ghost out_before = out@;
        out.insert(p, item);
        proof {
            broadcast use group_to_multiset_ensures;
            broadcast use to_multiset_insert;

            assert(out@ == out_before.insert(p as int, item));
            assert(out@.to_multiset() == out_before.to_multiset().insert(item));
            lemma_ids_insert(out_before, p as int, item);
            assert(item_ids(out@).to_multiset() == item_ids(out_before).to_multiset().insert(
                item.id,
            ));
            let taken = items@.take(i as int);
            assert(items@.take(i as int + 1) =~= taken.push(items@[i as int]));
            assert(taken.push(items@[i as int]).to_multiset() == taken.to_multiset().insert(
                items@[i as int],
            ));
            assert(item_ids(taken.push(items@[i as int])) =~= item_ids(taken).push(
                items@[i as int].id,
            ));
            assert(sorted_by_axis(out@, axis as int)) by {
                assert(forall|q: int|
                    0 <= q < out@.len() && q != p ==> out@[q] == if q < p {
                        out_before[q]
                    } else {
                        out_before[q - 1]
                    });
            }
        }
        i = i + 1;
    }
    proof {
        assert(items@.take(n as int) =~= items@);
    }
    out
}

/// Membership in a concatenation is membership in either part.
proof fn lemma_concat_contains(a: Seq<usize>, b: Seq<usize>, x: usize)
    ensures
        (a + b).contains(x) <==> a.contains(x) || b.contains(x),
{
    broadcast use group_seq_properties;

    if a.contains(x) {
        let i = choose|i: int| 0 <= i < a.len() && a[i] == x;
        assert((a + b)[i] == x);
    }
    if b.contains(x) {
        let i = choose|i: int| 0 <= i < b.len() && b[i] == x;
        assert((a + b)[a.len() + i] == x);
    }
    if (a + b).contains(x) {
        let i = choose|i: int| 0 <= i < (a + b).len() && (a + b)[i] == x;
        if i < a.len() {
            assert(a[i] == x);
        } else {
            assert(b[i - a.len()] == x);
        }
    }
}

/// Sequences with equal multisets hold the same elements.
proof fn lemma_multiset_eq_same_contains(a: Seq<usize>, b: Seq<usize>, x: usize)
    requires
        a.to_multiset() == b.to_multiset(),
    ensures
        a.contains(x) <==> b.contains(x),
{
    broadcast use group_to_multiset_ensures;

    assert(a.contains(x) <==> a.to_multiset().count(x) > 0);
    assert(b.contains(x) <==> b.to_multiset().count(x) > 0);
}

/// Builds the subtree for a non-empty run of children, as the renderer
/// does once per frame: draw a split axis at random, order the children
/// along it, halve, and recurse.  A single child fills both slots of its
/// node; a pair is ordered by the drawn axis; every input stays reachable
/// as a leaf and no other leaf appears.
pub fn sub_divide_children_into_node(children: &Vec<BvhItem>) -> (node: BVHNode)
    requires
        children@.len() >= 1,
    ensures
        built_from(node, children@),
        forall|id: usize|
            #[trigger] node_leaf_ids(node).contains(id) <==> item_ids(children@).contains(id),
        children@.len() <= node_leaf_ids(node).len() <= 2 * children@.len(),
        children@.len() == 1 ==> node.left == BvhChild::Leaf(children@[0]) && node.right
            == BvhChild::Leaf(children@[0]),
        children@.len() == 2 ==> node_leaf_ids(node).to_multiset() == item_ids(
            children@,
        ).to_multiset(),
    decreases children@.len(),
{
    let n = children.len();
    let axis = random_usize_between(0, 2);
    if n > 2 {
        let sorted = sort_items_by_axis(children, axis);
        let ghost sorted_view = sorted@;
        let mid = n / 2;
        let mut left_children = sorted;
        let right_children = left_children.split_off(mid);
        proof {
            assert(left_children@ + right_children@ =~= sorted_view);
            assert(item_ids(left_children@ + right_children@) == item_ids(sorted_view));
        }
        let left_node = sub_divide_children_into_node(&left_children);
        let right_node = sub_divide_children_into_node(&right_children);
        let node = BVHNode {
            left: BvhChild::Node(Box::new(left_node)),
            right: BvhChild::Node(Box::new(right_node)),
        };
        proof {
            lemma_build_leaf_ids(
                node,
                left_node,
                right_node,
                left_children@,
                right_children@,
                children@,
            );
            assert(sorted_run_of(children@, sorted_view, axis as int));
            assert(left_children@ == sorted_view.subrange(0, children@.len() as int / 2));
            assert(right_children@ == sorted_view.subrange(
                children@.len() as int / 2,
                sorted_view.len() as int,
            ));
            assert(built_from(node, children@));
        }
        node
    } else if n == 2 {
        let first = children[0];
        let second = children[1];
        let swap = item_key_at(&first, axis) > item_key_at(&second, axis);
        let (a, b) = if swap {
            (second, first)
        } else {
            (first, second)
        };
        let node = BVHNode { left: BvhChild::Leaf(a), right: BvhChild::Leaf(b) };
        proof {
            broadcast use group_to_multiset_ensures;

            assert(node_leaf_ids(node) =~= seq![a.id] + seq![b.id]);
            assert(item_ids(children@) =~= seq![first.id] + seq![second.id]);
            lemma_multiset_commutative(seq![a.id], seq![b.id]);
            lemma_multiset_commutative(seq![first.id], seq![second.id]);
            assert(node_leaf_ids(node).to_multiset() == item_ids(children@).to_multiset());
            assert(pair_split_by(node, children@, axis as int));
            assert(built_from(node, children@));
            assert forall|id: usize| #[trigger]
                node_leaf_ids(node).contains(id) <==> item_ids(children@).contains(id) by {
                lemma_multiset_eq_same_contains(node_leaf_ids(node), item_ids(children@), id);
            }
        }
        node
    } else {
        let only = children[0];
        let node = BVHNode { left: BvhChild::Leaf(only), right: BvhChild::Leaf(only) };
        proof {
            assert(built_from(node, children@));
            assert(node_leaf_ids(node) =~= seq![only.id, only.id]);
            assert(item_ids(children@) =~= seq![only.id]);
            assert forall|id: usize| #[trigger]
                node_leaf_ids(node).contains(id) <==> item_ids(children@).contains(id) by {
                if node_leaf_ids(node).contains(id) {
                    assert(id == only.id);
                    assert(item_ids(children@)[0] == id);
                }
                if item_ids(children@).contains(id) {
                    assert(id == only.id);
                    assert(node_leaf_ids(node)[0] == id);
                }
            }
        }
        node
    }
}

/// The leaves of a node over two recursively built halves hold exactly the
/// indices of the run it was built from.
proof fn lemma_build_leaf_ids(
    node: BVHNode,
    left_node: BVHNode,
    right_node: BVHNode,
    left_items: Seq<BvhItem>,
    right_items: Seq<BvhItem>,
    children: Seq<BvhItem>,
)
    requires
        node.left == BvhChild::Node(Box::new(left_node)),
        node.right == BvhChild::Node(Box::new(right_node)),
        forall|id: usize|
            #[trigger] node_leaf_ids(left_node).contains(id) <==> item_ids(left_items).contains(id),
        forall|id: usize|
            #[trigger] node_leaf_ids(right_node).contains(id) <==> item_ids(right_items).contains(
                id,
            ),
        item_ids(left_items + right_items).to_multiset() == item_ids(children).to_multiset(),
    ensures
        forall|id: usize|
            #[trigger] node_leaf_ids(node).contains(id) <==> item_ids(children).contains(id),
{
    assert(item_ids(left_items + right_items) =~= item_ids(left_items) + item_ids(right_items));
    assert forall|id: usize| #[trigger]
        node_leaf_ids(node).contains(id) <==> item_ids(children).contains(id) by {
        lemma_concat_contains(child_leaf_ids(node.left), child_leaf_ids(node.right), id);
        lemma_concat_contains(item_ids(left_items), item_ids(right_items), id);
        lemma_multiset_eq_same_contains(
            item_ids(left_items) + item_ids(right_items),
            item_ids(children),
            id,
        );
        assert(child_leaf_ids(node.left) == node_leaf_ids(left_node));
        assert(child_leaf_ids(node.right) == node_leaf_ids(right_node));
    }
}

impl BVHNode {
    /// Pairs two children into a node, as the geometry layer does when it
    /// attaches the union bounding box.
    pub fn new(left: BvhChild, right: BvhChild) -> (node: BVHNode)
        ensures
            node.left == left,
            node.right == right,
    {
        BVHNode { left, right }
    }

    /// Builds the whole hierarchy for a scene's colliders.  The scene is
    /// never empty; an empty build request is a programmer error, which the
    /// precondition rules out.
    pub fn build_tree(children: &Vec<BvhItem>) -> (node: BVHNode)
        requires
            children@.len() >= 1,
        ensures
            built_from(node, children@),
            forall|id: usize|
                #[trigger] node_leaf_ids(node).contains(id) <==> item_ids(children@).contains(id),
            children@.len() <= node_leaf_ids(node).len() <= 2 * children@.len(),
            children@.len() == 1 ==> node.left == BvhChild::Leaf(children@[0]) && node.right
                == BvhChild::Leaf(children@[0]),
            children@.len() == 2 ==> node_leaf_ids(node).to_multiset() == item_ids(
                children@,
            ).to_multiset(),
    {
        sub_divide_children_into_node(children)
    }
}

} // verus!


