use crate::arena::{Arena, Handle};
use crate::node::Node;
use crate::ordered_seq::{
    insert_sorted, strictly_sorted, lemma_insert_sorted_after, lemma_insert_sorted_before,
    lemma_insert_sorted_empty, offer,
};
use vstd::prelude::*;
use vstd::seq_lib::lemma_seq_concat_contains_all_elements;

verus! {

/// Slot by slot, what an arena of nodes holds: the node, if any, and the
/// slot's generation.
pub type Slots = Seq<(Option<Node<i64>>, u32)>;

/// The node in slot `i`.
pub open spec fn node_at(s: Slots, i: int) -> Node<i64> {
    s[i].0.unwrap()
}

/// Below the smallest key.
pub open spec fn key_floor() -> int {
    i64::MIN - 1
}

/// Above the largest key.
pub open spec fn key_ceiling() -> int {
    i64::MAX + 1
}

/// The link names slot `c` at the initial generation.
pub open spec fn links_to(link: Option<Handle>, c: int) -> bool {
    &&& link is Some
    &&& link.unwrap().index() == c
    &&& link.unwrap().generation() == 0
}

/// A child link out of slot `i` is absent, or names a later slot, at the
/// initial generation, whose node has slot `i` as its parent.
pub open spec fn link_ok(s: Slots, i: int, link: Option<Handle>) -> bool {
    link is Some ==> {
        &&& i < link.unwrap().index() < s.len()
        &&& link.unwrap().generation() == 0
        &&& links_to(node_at(s, link.unwrap().index() as int).parent, i)
    }
}

/// Every slot holds a node at the initial generation; child links name later
/// slots whose nodes name the linking node as parent; and every node but the
/// first has as parent an earlier node that links to it.
pub open spec fn linked(s: Slots) -> bool {
    forall|i: int|
        0 <= i < s.len() ==> {
            &&& #[trigger] s[i].0 is Some
            &&& s[i].1 == 0
            &&& link_ok(s, i, node_at(s, i).left)
            &&& link_ok(s, i, node_at(s, i).right)
            &&& (node_at(s, i).parent is None <==> i == 0)
            &&& node_at(s, i).parent is Some ==> {
                let p = node_at(s, i).parent.unwrap().index() as int;
                &&& p < i
                &&& node_at(s, i).parent.unwrap().generation() == 0
                &&& links_to(node_at(s, p).left, i) || links_to(node_at(s, p).right, i)
            }
        }
}

/// The keys of the subtree rooted in slot `i`, left subtree first, then the
/// node's own key, then the right subtree.
pub open spec fn inorder(s: Slots, i: int) -> Seq<i64>
    decreases s.len() - i,
{
    if 0 <= i < s.len() && s[i].0 is Some {
        let n = node_at(s, i);
        let l = if n.left is Some && i < n.left.unwrap().index() < s.len() {
            inorder(s, n.left.unwrap().index() as int)
        } else {
            Seq::empty()
        };
        let r = if n.right is Some && i < n.right.unwrap().index() < s.len() {
            inorder(s, n.right.unwrap().index() as int)
        } else {
            Seq::empty()
        };
        l + seq![n.key] + r
    } else {
        Seq::empty()
    }
}

/// The subtree rooted in slot `i` is a search tree whose keys lie strictly
/// between `lo` and `hi`: every key of a left subtree is below its node's key,
/// every key of a right subtree above it.
pub open spec fn bst(s: Slots, i: int, lo: int, hi: int) -> bool
    decreases s.len() - i,
{
    if 0 <= i < s.len() && s[i].0 is Some {
        let n = node_at(s, i);
        &&& lo < n.key < hi
        &&& if n.left is Some && i < n.left.unwrap().index() < s.len() {
            bst(s, n.left.unwrap().index() as int, lo, n.key as int)
        } else {
            n.left is None
        }
        &&& if n.right is Some && i < n.right.unwrap().index() < s.len() {
            bst(s, n.right.unwrap().index() as int, n.key as int, hi)
        } else {
            n.right is None
        }
    } else {
        false
    }
}

/// The slot where a search for `v` from slot `i` stops: at a node holding
/// `v`, or at one that lacks the child the search would go on to.
pub open spec fn search(s: Slots, i: int, v: i64) -> int
    decreases s.len() - i,
{
    if 0 <= i < s.len() && s[i].0 is Some {
        let n = node_at(s, i);
        if v < n.key && n.left is Some && i < n.left.unwrap().index() < s.len() {
            search(s, n.left.unwrap().index() as int, v)
        } else if v > n.key && n.right is Some && i < n.right.unwrap().index() < s.len() {
            search(s, n.right.unwrap().index() as int, v)
        } else {
            i
        }
    } else {
        i
    }
}

/// `s2` is `s` with a new node for `v` appended (childless, size 1, its
/// parent the node in slot `p`), and linked, in place of an absent link, as
/// the left (for `v` below its key) or right child of the node in slot `p`;
/// nothing else changes.
pub open spec fn grown(s: Slots, s2: Slots, p: int, v: i64) -> bool {
    let n = s.len() as int;
    let old_node = node_at(s, p);
    let new_node = node_at(s2, p);
    &&& s2.len() == n + 1
    &&& s2[n].0 is Some
    &&& s2[n].1 == 0
    &&& node_at(s2, n).key == v
    &&& node_at(s2, n).sz == 1
    &&& links_to(node_at(s2, n).parent, p)
    &&& node_at(s2, n).left is None
    &&& node_at(s2, n).right is None
    &&& forall|j: int| 0 <= j < n && j != p ==> s2[j] == s[j]
    &&& s2[p].0 is Some
    &&& s2[p].1 == s[p].1
    &&& new_node.key == old_node.key
    &&& new_node.sz == old_node.sz
    &&& new_node.parent == old_node.parent
    &&& if v < old_node.key {
        &&& old_node.left is None
        &&& links_to(new_node.left, n)
        &&& new_node.right == old_node.right
    } else {
        &&& old_node.right is None
        &&& links_to(new_node.right, n)
        &&& new_node.left == old_node.left
    }
}

/// A set of distinct `i64` keys kept as an unbalanced binary search tree.
/// Every node lives in the tree's own arena; nodes refer to their parent and
/// children by handle, and the tree knows the handle of its root.
#[allow(non_camel_case_types)]
pub struct gddset {
    root: Option<Handle>,
    storage: Arena<Node<i64>>,
}

impl View for gddset {
    /// The keys, in order.
    type V = Seq<i64>;

    open spec fn view(&self) -> Seq<i64> {
        inorder(self.arena()@, 0)
    }
}

impl gddset {
    /// The arena that holds the nodes.
    pub closed spec fn arena(&self) -> Arena<Node<i64>> {
        self.storage
    }

    /// The handle of the root node, if any.
    pub closed spec fn spec_root(&self) -> Option<Handle> {
        self.root
    }

    /// The arena holds a node in each slot, allocated in order and never
    /// freed; the root is the first of them, and the nodes form a search tree
    /// under it.
    pub open spec fn wf(&self) -> bool {
        let s = self.arena()@;
        &&& self.arena().wf()
        &&& self.arena().free_indices().len() == 0
        &&& linked(s)
        &&& (self.spec_root() is None <==> s.len() == 0)
        &&& self.spec_root() is Some ==> {
            &&& links_to(self.spec_root(), 0)
            &&& bst(s, 0, key_floor(), key_ceiling())
        }
    }

    /// The handle names a node of this tree.
    pub open spec fn has_node(&self, handle: Handle) -> bool {
        self.arena().spec_is_alive(handle)
    }

    /// How many slots the arena has: one per node.
    pub open spec fn slot_count(&self) -> int {
        self.arena()@.len() as int
    }

    /// The keys of the subtree whose root the handle names, in order.
    pub open spec fn subtree(&self, handle: Handle) -> Seq<i64> {
        inorder(self.arena()@, handle.index() as int)
    }

    /// The keys of a node's subtree are those of its left subtree, its own
    /// key, then those of its right subtree; its children are nodes of the
    /// tree too.
    pub proof fn lemma_subtree(self, handle: Handle)
        requires
            self.wf(),
            self.has_node(handle),
        ensures
            ({
                let n = self.arena().value_of(handle);
                &&& n.left is Some ==> self.has_node(n.left.unwrap())
                &&& n.right is Some ==> self.has_node(n.right.unwrap())
                &&& self.subtree(handle) == (if n.left is Some {
                    self.subtree(n.left.unwrap())
                } else {
                    Seq::empty()
                }) + seq![n.key] + (if n.right is Some {
                    self.subtree(n.right.unwrap())
                } else {
                    Seq::empty()
                })
            }),
    {
        let s = self.arena()@;
        let i = handle.index() as int;
        assert(s[i].0 is Some);
    }

    /// An empty tree: no root, and an empty arena.
    pub fn new() -> (r: Self)
        ensures
            r.wf(),
            r@ == Seq::<i64>::empty(),
            r.spec_root() is None,
            r.arena()@.len() == 0,
            r.arena().free_indices().len() == 0,
    {
        let r = gddset { root: None, storage: Arena::new() };
        assert(r@ =~= Seq::<i64>::empty());
        r
    }

    /// The handle of the root node, `None` for an empty tree.
    pub fn root(&self) -> (r: Option<Handle>)
        requires
            self.wf(),
        ensures
            r == self.spec_root(),
            r is None <==> self@.len() == 0,
            r is Some ==> self.has_node(r.unwrap()) && self.subtree(r.unwrap()) == self@,
    {
        self.root
    }

    /// The arena that holds the nodes; the handles it finds values for are
    /// exactly the tree's nodes.
    pub fn storage(&self) -> (r: &Arena<Node<i64>>)
        ensures
            *r == self.arena(),
    {
        &self.storage
    }

    /// In every well-formed tree the in-order keys are strictly increasing.
    pub proof fn lemma_view_sorted(self)
        requires
            self.wf(),
        ensures
            strictly_sorted(self@),
    {
        if self.root is Some {
            lemma_inorder_sorted(self.storage@, 0, key_floor(), key_ceiling());
        }
    }

    /// Adds `insert_value` as a new leaf where a search for it ends, without
    /// any rebalancing. Returns `false`, changing nothing, when the key is
    /// already present.
    pub fn insert(&mut self, insert_value: i64) -> (r: bool)
        requires
            old(self).wf(),
        ensures
            final(self).wf(),
            r == !old(self)@.contains(insert_value),
            final(self)@ == offer(old(self)@, insert_value),
            !r ==> *final(self) == *old(self),
            r && old(self).spec_root() is None ==> {
                &&& links_to(final(self).spec_root(), 0)
                &&& final(self).arena()@ == seq![
                    (
                        Some(
                            (Node {
                                key: insert_value,
                                sz: 1,
                                parent: None,
                                left: None,
                                right: None,
                            }),
                        ),
                        0u32,
                    ),
                ]
            },
            r && old(self).spec_root() is Some ==> {
                &&& final(self).spec_root() == old(self).spec_root()
                &&& grown(
                    old(self).arena()@,
                    final(self).arena()@,
                    search(old(self).arena()@, 0, insert_value),
                    insert_value,
                )
            },
    {
        let ghost v = insert_value;
        if self.root.is_none() {
            let handle = self.storage.allocate(Node::new(insert_value, None));
            self.root = Some(handle);
            proof {
                let s = self.storage@;
                assert(inorder(s, 0) =~= seq![v]);
                lemma_insert_sorted_empty(v);
                assert(!old(self)@.contains(v));
            }
            return true;
        }
        let ghost s = self.storage@;
        proof {
            lemma_search(s, 0, key_floor(), key_ceiling(), v);
        }
        let ghost j = search(s, 0, v);
        let mut pos_handle = self.root.unwrap();
        let mut go_left = false;
        loop
            invariant
                v == insert_value,
                *self == *old(self),
                self.wf(),
                s == self.storage@,
                0 <= j < s.len(),
                old(self)@.contains(v) <==> node_at(s, j).key == v,
                pos_handle.index() < s.len(),
                pos_handle.generation() == 0,
                search(s, pos_handle.index() as int, v) == j,
            ensures
                pos_handle.index() == j,
                node_at(s, j).key != v,
                go_left == (v < node_at(s, j).key),
            decreases s.len() - pos_handle.index(),
        {
            let ghost i = pos_handle.index() as int;
            assert(s[i].0 is Some);
            let pos_node = self.storage.get(pos_handle).unwrap();
            if insert_value == pos_node.key {
                proof {
                    assert(search(s, i, v) == i);
                    assert(old(self)@.contains(v));
                }
                return false;
            } else if insert_value < pos_node.key {
                if let Some(tar_handle) = pos_node.left {
                    pos_handle = tar_handle;
                } else {
                    go_left = true;
                    break;
                }
            } else {
                if let Some(tar_handle) = pos_node.right {
                    pos_handle = tar_handle;
                } else {
                    go_left = false;
                    break;
                }
            }
        }
        // link a new leaf under the node where the search stopped
        let tar_handle = self.storage.allocate(Node::new(insert_value, Some(pos_handle)));
        let pos_node = self.storage.get_mut(pos_handle).unwrap();
        if go_left {
            pos_node.left = Some(tar_handle);
        } else {
            pos_node.right = Some(tar_handle);
        }
        proof {
            let s2 = self.storage@;
            assert(grown(s, s2, j, v));
            lemma_insert(s, s2, 0, key_floor(), key_ceiling(), v);
            assert forall|i: int| 0 <= i < s2.len() implies {
                &&& #[trigger] s2[i].0 is Some
                &&& s2[i].1 == 0
                &&& link_ok(s2, i, node_at(s2, i).left)
                &&& link_ok(s2, i, node_at(s2, i).right)
                &&& (node_at(s2, i).parent is None <==> i == 0)
                &&& node_at(s2, i).parent is Some ==> node_at(s2, i).parent.unwrap().index() < i
            } by {
                if i < s.len() {
                    assert(s[i].0 is Some);
                }
            }
        }
        true
    }

    /// Appends to `out` the keys of the subtree rooted at `pos_handle`, in
    /// order: left subtree, the node's key, right subtree.
    pub fn debug_traverse(&self, pos_handle: Handle, out: &mut Vec<i64>)
        requires
            self.wf(),
            self.has_node(pos_handle),
        ensures
            final(out)@ == old(out)@ + self.subtree(pos_handle),
        decreases self.slot_count() - pos_handle.index(),
    {
        let ghost s = self.storage@;
        let ghost i = pos_handle.index() as int;
        let node = self.storage.get(pos_handle).unwrap();
        assert(s[i].0 is Some);
        if let Some(lc) = node.left {
            self.debug_traverse(lc, out);
        }
        out.push(node.key);
        if let Some(rc) = node.right {
            self.debug_traverse(rc, out);
        }
        proof {
            let n = node_at(s, i);
            let l = if n.left is Some {
                inorder(s, n.left.unwrap().index() as int)
            } else {
                Seq::empty()
            };
            let r = if n.right is Some {
                inorder(s, n.right.unwrap().index() as int)
            } else {
                Seq::empty()
            };
            assert(inorder(s, i) == l + seq![n.key] + r);
            assert(out@ =~= old(out)@ + inorder(s, i));
        }
    }
}

/// The keys of a search tree, read in order, strictly increase.
proof fn lemma_inorder_sorted(s: Slots, i: int, lo: int, hi: int)
    requires
        bst(s, i, lo, hi),
    ensures
        strictly_sorted(inorder(s, i)),
    decreases s.len() - i,
{
    let n = node_at(s, i);
    let (l, r) = subtrees(s, i);
    if n.left is Some {
        lemma_inorder_sorted(s, n.left.unwrap().index() as int, lo, n.key as int);
        lemma_bounds(s, n.left.unwrap().index() as int, lo, n.key as int);
    }
    if n.right is Some {
        lemma_inorder_sorted(s, n.right.unwrap().index() as int, n.key as int, hi);
        lemma_bounds(s, n.right.unwrap().index() as int, n.key as int, hi);
    }
    let t = inorder(s, i);
    let m = l.len() as int;
    assert forall|a: int, b: int| 0 <= a < b < t.len() implies t[a] < t[b] by {
        if b < m {
            assert(t[a] == l[a] && t[b] == l[b]);
        } else if a < m && b == m {
            assert(t[a] == l[a]);
        } else if a < m {
            assert(t[a] == l[a] && t[b] == r[b - m - 1]);
        } else if a == m {
            assert(t[b] == r[b - m - 1]);
        } else {
            assert(t[a] == r[a - m - 1] && t[b] == r[b - m - 1]);
        }
    }
}

/// Every key of a search tree lies within its bounds.
proof fn lemma_bounds(s: Slots, i: int, lo: int, hi: int)
    requires
        bst(s, i, lo, hi),
    ensures
        forall|k: int| 0 <= k < inorder(s, i).len() ==> lo < #[trigger] inorder(s, i)[k] < hi,
    decreases s.len() - i,
{
    let n = node_at(s, i);
    let (l, r) = subtrees(s, i);
    if n.left is Some {
        lemma_bounds(s, n.left.unwrap().index() as int, lo, n.key as int);
    }
    if n.right is Some {
        lemma_bounds(s, n.right.unwrap().index() as int, n.key as int, hi);
    }
    let t = inorder(s, i);
    assert forall|k: int| 0 <= k < t.len() implies lo < #[trigger] t[k] < hi by {
        if k < l.len() {
            assert(t[k] == l[k]);
        } else if k > l.len() {
            assert(t[k] == r[k - l.len() - 1]);
        }
    }
}

/// Where a search in a search tree stops: at a node of the tree, which holds
/// `v` exactly when the tree does, and which otherwise lacks the child that
/// the search would go on to.
proof fn lemma_search(s: Slots, i: int, lo: int, hi: int, v: i64)
    requires
        bst(s, i, lo, hi),
    ensures
        0 <= search(s, i, v) < s.len(),
        s[search(s, i, v)].0 is Some,
        lo < node_at(s, search(s, i, v)).key < hi,
        inorder(s, i).contains(v) <==> node_at(s, search(s, i, v)).key == v,
        v < node_at(s, search(s, i, v)).key ==> node_at(s, search(s, i, v)).left is None,
        v > node_at(s, search(s, i, v)).key ==> node_at(s, search(s, i, v)).right is None,
    decreases s.len() - i,
{
    let n = node_at(s, i);
    let (l, r) = subtrees(s, i);
    lemma_seq_concat_contains_all_elements(l + seq![n.key], r, v);
    lemma_seq_concat_contains_all_elements(l, seq![n.key], v);
    assert(seq![n.key].contains(v) <==> v == n.key) by {
        if v == n.key {
            assert(seq![n.key][0] == v);
        }
    }
    if v < n.key {
        if n.right is Some {
            lemma_bounds(s, n.right.unwrap().index() as int, n.key as int, hi);
        }
        assert(!r.contains(v));
        if n.left is Some {
            lemma_search(s, n.left.unwrap().index() as int, lo, n.key as int, v);
        }
    } else if v > n.key {
        if n.left is Some {
            lemma_bounds(s, n.left.unwrap().index() as int, lo, n.key as int);
        }
        assert(!l.contains(v));
        if n.right is Some {
            lemma_search(s, n.right.unwrap().index() as int, n.key as int, hi, v);
        }
    }
}

/// A search tree none of whose nodes is the one in slot `p` (whose key lies
/// outside the tree's bounds) reads the same in any `s2` that agrees with `s`
/// on every other slot.
proof fn lemma_frame(s: Slots, s2: Slots, i: int, lo: int, hi: int, p: int)
    requires
        bst(s, i, lo, hi),
        0 <= p < s.len(),
        s[p].0 is Some,
        !(lo < node_at(s, p).key < hi),
        s2.len() >= s.len(),
        forall|j: int| 0 <= j < s.len() && j != p ==> s2[j] == s[j],
    ensures
        bst(s2, i, lo, hi),
        inorder(s2, i) == inorder(s, i),
    decreases s.len() - i,
{
    let n = node_at(s, i);
    assert(s2[i] == s[i]);
    if n.left is Some && i < n.left.unwrap().index() < s.len() {
        lemma_frame(s, s2, n.left.unwrap().index() as int, lo, n.key as int, p);
    }
    if n.right is Some && i < n.right.unwrap().index() < s.len() {
        lemma_frame(s, s2, n.right.unwrap().index() as int, n.key as int, hi, p);
    }
}

/// Linking a new node for `v` where the search for `v` stops keeps the tree
/// a search tree, and places `v` among its keys in order.
proof fn lemma_insert(s: Slots, s2: Slots, i: int, lo: int, hi: int, v: i64)
    requires
        bst(s, i, lo, hi),
        lo < v < hi,
        node_at(s, search(s, i, v)).key != v,
        grown(s, s2, search(s, i, v), v),
    ensures
        bst(s2, i, lo, hi),
        inorder(s2, i) == insert_sorted(inorder(s, i), v),
    decreases s.len() - i,
{
    let p = search(s, i, v);
    let n = node_at(s, i);
    let k = n.key;
    let m = s.len() as int;
    lemma_search(s, i, lo, hi, v);
    let (l, r) = subtrees(s, i);
    if n.left is Some {
        lemma_bounds(s, n.left.unwrap().index() as int, lo, k as int);
    }
    if n.right is Some {
        lemma_bounds(s, n.right.unwrap().index() as int, k as int, hi);
    }
    // the new node, a leaf
    assert(inorder(s2, m) =~= seq![v]);
    if v < k {
        // the new key goes into the left subtree; the right one is untouched
        if p == i {
            assert(bst(s2, m, lo, k as int));
            lemma_insert_sorted_empty(v);
        } else {
            lemma_search(s, n.left.unwrap().index() as int, lo, k as int, v);
            lemma_insert(s, s2, n.left.unwrap().index() as int, lo, k as int, v);
            assert(s2[i] == s[i]);
        }
        if n.right is Some {
            lemma_frame(s, s2, n.right.unwrap().index() as int, k as int, hi, p);
        }
        assert(inorder(s2, i) == insert_sorted(l, v) + seq![k] + r);
        lemma_insert_sorted_before(l, k, r, v);
    } else {
        // the new key goes into the right subtree; the left one is untouched
        if p == i {
            assert(bst(s2, m, k as int, hi));
            lemma_insert_sorted_empty(v);
        } else {
            lemma_search(s, n.right.unwrap().index() as int, k as int, hi, v);
            lemma_insert(s, s2, n.right.unwrap().index() as int, k as int, hi, v);
            assert(s2[i] == s[i]);
        }
        if n.left is Some {
            lemma_frame(s, s2, n.left.unwrap().index() as int, lo, k as int, p);
        }
        assert(inorder(s2, i) == l + seq![k] + insert_sorted(r, v));
        lemma_insert_sorted_after(l, k, r, v);
    }
}

/// The keys of the two subtrees of the node in slot `i` of a search tree.
proof fn subtrees(s: Slots, i: int) -> (lr: (Seq<i64>, Seq<i64>))
    requires
        exists|lo: int, hi: int| bst(s, i, lo, hi),
    ensures
        inorder(s, i) == lr.0 + seq![node_at(s, i).key] + lr.1,
        node_at(s, i).left is None ==> lr.0 == Seq::<i64>::empty(),
        node_at(s, i).left is Some ==> lr.0 == inorder(s, node_at(s, i).left.unwrap().index() as int),
        node_at(s, i).right is None ==> lr.1 == Seq::<i64>::empty(),
        node_at(s, i).right is Some ==> lr.1 == inorder(s, node_at(s, i).right.unwrap().index() as int),
        node_at(s, i).left is Some ==> i < node_at(s, i).left.unwrap().index() < s.len(),
        node_at(s, i).right is Some ==> i < node_at(s, i).right.unwrap().index() < s.len(),
{
    let n = node_at(s, i);
    let l = if n.left is Some && i < n.left.unwrap().index() < s.len() {
        inorder(s, n.left.unwrap().index() as int)
    } else {
        Seq::empty()
    };
    let r = if n.right is Some && i < n.right.unwrap().index() < s.len() {
        inorder(s, n.right.unwrap().index() as int)
    } else {
        Seq::empty()
    };
    (l, r)
}

} // verus!
