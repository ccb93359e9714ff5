pub mod key_order;
pub mod links;
pub mod node;
pub mod node_image;
pub mod restore;
pub mod serialization;
pub mod split_proof;
pub mod storage;
use crate::errors::HaystackError;
use crate::structures::tree::key_order::TreeKey;
use crate::structures::tree::node::{
    keys_sorted, lemma_position, lower_bound, option_view, spec_holds, Node, NodeType,
};
use crate::structures::tree::node::NodeView;
use crate::structures::tree::node_image::{
    lemma_node_round_trip, node_encodable, spec_node_bytes, spec_node_parse, spec_parent_norm,
};
use crate::structures::tree::serialization::{
    lemma_parse_frames_to_end_of_frame_all, lemma_read_back,
};
use crate::structures::tree::serialization::{
    blob_views, frame_all, parse_frames_to_end, read_frames_to_end, read_i64, read_u64,
    spec_read_i64, spec_read_u64, spec_u64_of, write_frames, write_i64, write_u64,
    TreeDeserialization, TreeSerialization,
};
use vstd::bytes::*;
use crate::structures::tree::split_proof::{
    lemma_grow_keeps_all, lemma_le_le, lemma_lt_le, lemma_lt_strict, lemma_same_shape_keeps_all,
    lemma_slot_in_node_range, lemma_split_keeps_content, lemma_split_keeps_structure, same_shape,
    split_applied,
};
use crate::structures::tree::links::{
    child_link, grown_up, lemma_links_grow, lemma_links_same, lemma_links_split, links_ok,
    parent_link, split_up,
};
use crate::structures::tree::restore::{
    check_nodes, frame_ok, in_order, lemma_shape_of_node, lemma_sink_is_height, lemma_sink_same,
    lemma_views_in_order, shape_ok,
};
use crate::structures::tree::storage::StorageManager;
use vstd::prelude::*;

verus! {

/// Largest fan-out of a tree.
pub const MAX_FANOUT: usize = 65536;

/// The fan-out of a new tree.
pub const DEFAULT_FANOUT: usize = 128;

/// Whether an empty tree has room for `m` insertions.
pub open spec fn empty_room(m: nat) -> bool {
    1 + m * (m + 3) <= i64::MAX && m <= usize::MAX
}

/// An empty tree has room for three thousand million insertions, and for
/// fewer.
pub proof fn lemma_empty_room(m: nat)
    requires
        m <= 3_000_000_000,
    ensures
        empty_room(m),
{
    assert(m * (m + 3) <= 3_000_000_000 * 3_000_000_003) by (nonlinear_arith)
        requires
            m <= 3_000_000_000,
    ;
}

/// The half-open range of keys that a node is responsible for, and the
/// node's height above the leaves. A missing bound is unbounded.
pub ghost struct Bounds<T> {
    pub lo: Option<T>,
    pub hi: Option<T>,
    pub height: nat,
}

/// `k` is not before the lower bound.
pub open spec fn above<K: TreeKey>(lo: Option<K::V>, k: K::V) -> bool {
    match lo {
        Some(l) => !K::key_lt(k, l),
        None => true,
    }
}

/// `k` is before the upper bound.
pub open spec fn below<K: TreeKey>(k: K::V, hi: Option<K::V>) -> bool {
    match hi {
        Some(h) => K::key_lt(k, h),
        None => true,
    }
}

/// `k` lies in the range.
pub open spec fn in_range<K: TreeKey>(b: Bounds<K::V>, k: K::V) -> bool {
    above::<K>(b.lo, k) && below::<K>(k, b.hi)
}

/// No key lies in both ranges.
pub open spec fn disjoint<K: TreeKey>(a: Bounds<K::V>, b: Bounds<K::V>) -> bool {
    forall|k: K::V| !(#[trigger] in_range::<K>(a, k) && #[trigger] in_range::<K>(b, k))
}

/// Two different nodes of one height have disjoint ranges.
pub open spec fn pair_ok<K: TreeKey>(bounds: Seq<Bounds<K::V>>, a: int, b: int) -> bool {
    a != b && bounds[a].height == bounds[b].height ==> disjoint::<K>(bounds[a], bounds[b])
}

/// `j` is a slot of the leaf at `i`.
pub open spec fn leaf_slot<K, V>(nodes: Seq<Node<K, V>>, i: int, j: int) -> bool {
    &&& 0 <= i < nodes.len()
    &&& nodes[i].node_type == NodeType::Leaf
    &&& 0 <= j < nodes[i].keys@.len()
}

/// The child in slot `j` of the internal node at `i` is a node one level
/// lower, responsible for the keys between the separators around the slot.
pub open spec fn slot_ok<K: TreeKey, V>(
    nodes: Seq<Node<K, V>>,
    bounds: Seq<Bounds<K::V>>,
    i: int,
    j: int,
) -> bool {
    let c = nodes[i].children@[j] as int;
    &&& 0 <= c < nodes.len()
    &&& bounds[c].height + 1 == bounds[i].height
    &&& bounds[c].lo == (if j == 0 {
        bounds[i].lo
    } else {
        Some(nodes[i].keys@[j - 1]@)
    })
    &&& bounds[c].hi == (if j == nodes[i].keys@.len() {
        bounds[i].hi
    } else {
        Some(nodes[i].keys@[j]@)
    })
}

/// The node at `i` is in order: at most `b` keys, strictly ascending, all in
/// the node's range; a leaf has a value for each key and no child; an
/// internal node has one child more than keys, each in its place.
pub open spec fn node_ok<K: TreeKey, V>(
    nodes: Seq<Node<K, V>>,
    bounds: Seq<Bounds<K::V>>,
    b: usize,
    i: int,
) -> bool {
    let nd = nodes[i];
    &&& nd.keys@.len() <= b
    &&& keys_sorted(nd.keys@)
    &&& forall|j: int| 0 <= j < nd.keys@.len() ==> in_range::<K>(bounds[i], #[trigger] nd.keys@[j]@)
    &&& match nd.node_type {
        NodeType::Leaf => {
            &&& nd.values@.len() == nd.keys@.len()
            &&& nd.children@.len() == 0
            &&& bounds[i].height == 0
            &&& forall|j: int| 0 <= j < nd.values@.len() ==> (#[trigger] nd.values@[j]) is Some
        },
        NodeType::Internal => {
            &&& nd.children@.len() == nd.keys@.len() + 1
            &&& nd.values@.len() == 0
            &&& forall|j: int|
                0 <= j < nd.children@.len() ==> #[trigger] slot_ok(nodes, bounds, i, j)
        },
    }
}

/// Whether `slots` is a walk down from the node at `top`: each step goes
/// from an internal node to the child in a slot of it.
pub open spec fn walk_ok<K, V>(nodes: Seq<Node<K, V>>, top: int, slots: Seq<int>) -> bool
    decreases slots.len(),
{
    if slots.len() == 0 {
        0 <= top < nodes.len()
    } else {
        &&& 0 <= top < nodes.len()
        &&& nodes[top].node_type == NodeType::Internal
        &&& 0 <= slots[0] < nodes[top].children@.len()
        &&& walk_ok(nodes, nodes[top].children@[slots[0]] as int, slots.drop_first())
    }
}

/// The node at which a walk down from the node at `top` ends.
pub open spec fn walk_end<K, V>(nodes: Seq<Node<K, V>>, top: int, slots: Seq<int>) -> int
    decreases slots.len(),
{
    if slots.len() == 0 {
        top
    } else {
        walk_end(nodes, nodes[top].children@[slots[0]] as int, slots.drop_first())
    }
}

/// Whether `c` is in one of the first `upto` slots of the node at `parent`.
pub open spec fn child_before<K, V>(nodes: Seq<Node<K, V>>, parent: int, upto: int, c: int) -> bool {
    exists|t: int| 0 <= t < upto && (#[trigger] nodes[parent].children@[t]) == c
}

/// What the node at `i` records of its place after the first `upto`
/// children of the node at `parent` recorded that node as their parent: a
/// child records `parent`, any other node what it recorded before; the
/// offset and the mark of the root stay.
pub open spec fn parent_recorded<K, V>(
    before: Seq<Node<K, V>>,
    after: Seq<Node<K, V>>,
    parent: int,
    upto: int,
    i: int,
) -> bool {
    &&& after[i].offset == before[i].offset
    &&& after[i].is_root == before[i].is_root
    &&& after[i].parent_offset == (if child_before(before, parent, upto, i) {
        Some(parent as i64)
    } else {
        before[i].parent_offset
    })
}

/// One of the leaves before the node at `n` holds the key.
pub open spec fn slot_before<K: TreeKey, V>(nodes: Seq<Node<K, V>>, n: int, k: K::V) -> bool {
    exists|i: int, j: int| i < n && #[trigger] leaf_slot(nodes, i, j) && nodes[i].keys@[j]@ == k
}

/// One of the leaves before the node at `n` holds the key with the value.
pub open spec fn slot_holds<K: TreeKey, V: View>(
    nodes: Seq<Node<K, V>>,
    n: int,
    k: K::V,
    v: V::V,
) -> bool {
    exists|i: int, j: int|
        i < n && #[trigger] leaf_slot(nodes, i, j) && nodes[i].keys@[j]@ == k && option_view(
            nodes[i].values@[j],
        ) == Some(v)
}

/// Some leaf holds the key.
pub open spec fn held<K: TreeKey, V>(nodes: Seq<Node<K, V>>, k: K::V) -> bool {
    exists|i: int, j: int| #[trigger] leaf_slot(nodes, i, j) && nodes[i].keys@[j]@ == k
}

/// The structure of a tree: every node in order, the root responsible for
/// all keys and higher than every other node, with fewer levels below it
/// than there are nodes, nodes of one height responsible for disjoint
/// ranges.
pub open spec fn structure_ok<K: TreeKey, V>(
    nodes: Seq<Node<K, V>>,
    bounds: Seq<Bounds<K::V>>,
    b: usize,
    root: i64,
) -> bool {
    &&& 3 <= b <= MAX_FANOUT
    &&& bounds.len() == nodes.len()
    &&& nodes.len() <= i64::MAX
    &&& 0 <= root < nodes.len()
    &&& bounds[root as int].lo is None
    &&& bounds[root as int].hi is None
    &&& bounds[root as int].height < nodes.len()
    &&& forall|i: int|
        0 <= i < nodes.len() && i != root ==> (#[trigger] bounds[i]).height
            < bounds[root as int].height
    &&& forall|i: int| 0 <= i < nodes.len() ==> #[trigger] node_ok(nodes, bounds, b, i)
    &&& forall|x: int, y: int|
        0 <= x < nodes.len() && 0 <= y < nodes.len() ==> #[trigger] pair_ok::<K>(bounds, x, y)
}

/// The leaves hold exactly the entries of the map.
pub open spec fn content_ok<K: TreeKey, V: View>(
    nodes: Seq<Node<K, V>>,
    map: Map<K::V, V::V>,
) -> bool {
    &&& forall|i: int, j: int| #[trigger]
        leaf_slot(nodes, i, j) ==> map.contains_key(nodes[i].keys@[j]@) && Some(
            map[nodes[i].keys@[j]@],
        ) == option_view(nodes[i].values@[j])
    &&& forall|k: K::V| map.contains_key(k) ==> #[trigger] held(nodes, k)
}

/// An ordered map from keys to values, kept as a B+-tree whose nodes live in
/// a flat array and name each other by offset. Beside the nodes stand, for
/// the proofs only, the range and the height of every node, the slot that
/// holds it, and the map.
pub struct Tree<K: TreeKey + TreeSerialization, V: TreeSerialization> {
    pub b: usize,
    pub storage_manager: StorageManager<K, V>,
    pub count: usize,
    pub levels: u64,
    pub bounds: Ghost<Seq<Bounds<K::V>>>,
    pub up: Ghost<Seq<(int, int)>>,
    pub map: Ghost<Map<K::V, V::V>>,
}

impl<K: TreeKey + TreeSerialization, V: TreeSerialization> View for Tree<K, V> {
    type V = Map<K::V, V::V>;

    closed spec fn view(&self) -> Map<K::V, V::V> {
        self.map@
    }
}

/// The number of keys that are not behind `key` in a sorted list: the slot
/// of the child that is responsible for `key`.
pub fn child_slot<K: TreeKey>(keys: &Vec<K>, key: &K) -> (idx: usize)
    requires
        keys_sorted(keys@),
    ensures
        idx <= keys@.len(),
        forall|j: int| 0 <= j < idx ==> !K::key_lt(key@, #[trigger] keys@[j]@),
        forall|j: int| idx <= j < keys@.len() ==> K::key_lt(key@, #[trigger] keys@[j]@),
{
    let pos = lower_bound(keys, key);
    if pos < keys.len() && !key.less_than(&keys[pos]) {
        assert forall|j: int| 0 <= j < pos + 1 implies !K::key_lt(key@, #[trigger] keys@[j]@) by {
            if j < pos {
                K::lemma_key_order(key@, keys@[j]@, key@);
            }
        }
        assert forall|j: int| pos + 1 <= j < keys@.len() implies K::key_lt(
            key@,
            #[trigger] keys@[j]@,
        ) by {
            K::lemma_key_order(keys@[pos as int]@, key@, keys@[j]@);
            K::lemma_key_order(key@, keys@[pos as int]@, keys@[j]@);
        }
        pos + 1
    } else {
        assert forall|j: int| 0 <= j < pos implies !K::key_lt(key@, #[trigger] keys@[j]@) by {
            K::lemma_key_order(key@, keys@[j]@, key@);
        }
        assert forall|j: int| pos <= j < keys@.len() implies K::key_lt(
            key@,
            #[trigger] keys@[j]@,
        ) by {
            K::lemma_key_order(key@, keys@[pos as int]@, keys@[j]@);
        }
        pos
    }
}

/// The map after putting each entry in turn: a later entry wins over an
/// earlier one with the same key.
pub open spec fn fold_entries<A, B>(m: Map<A, B>, entries: Seq<(A, B)>) -> Map<A, B>
    decreases entries.len(),
{
    if entries.len() == 0 {
        m
    } else {
        fold_entries(m, entries.drop_last()).insert(entries.last().0, entries.last().1)
    }
}

/// The views of a list of entries.
pub open spec fn entry_views<K: View, V: View>(entries: Seq<(K, V)>) -> Seq<(K::V, V::V)> {
    Seq::new(entries.len(), |i: int| (entries[i].0@, entries[i].1@))
}

/// Whether one of the entries has the key `k`.
pub open spec fn key_listed<K: View, V>(all: Seq<(K, V)>, k: K::V) -> bool {
    exists|x: int| 0 <= x < all.len() && (#[trigger] all[x]).0@ == k
}

/// `k` lies in the half-open range from `start` to `end`.
pub open spec fn between<K: TreeKey>(start: K::V, k: K::V, end: K::V) -> bool {
    !K::key_lt(k, start) && K::key_lt(k, end)
}

/// The keys of the entries ascend strictly.
pub open spec fn entries_ascend<K: TreeKey, V>(all: Seq<(K, V)>) -> bool {
    forall|x: int, y: int|
        0 <= x < y < all.len() ==> K::key_lt((#[trigger] all[x]).0@, (#[trigger] all[y]).0@)
}

/// Every entry is before the bound; where there is no bound, there is no
/// entry.
pub open spec fn all_before<K: TreeKey, V>(all: Seq<(K, V)>, bound: Option<K::V>) -> bool {
    match bound {
        Some(b) => forall|x: int| 0 <= x < all.len() ==> K::key_lt((#[trigger] all[x]).0@, b),
        None => all.len() == 0,
    }
}

/// A key that is listed stays listed when the list grows at its end.
pub proof fn lemma_stays_listed<K: View, V>(before: Seq<(K, V)>, after: Seq<(K, V)>, k: K::V)
    requires
        key_listed(before, k),
        before.len() <= after.len(),
        forall|x: int| 0 <= x < before.len() ==> after[x] == before[x],
    ensures
        key_listed(after, k),
{
    let x = choose|x: int| 0 <= x < before.len() && (#[trigger] before[x]).0@ == k;
    assert(after[x] == before[x]);
}

/// The index that an offset stands for.
pub fn index_of(offset: i64, len: usize) -> (index: usize)
    requires
        0 <= offset < len,
    ensures
        index == offset,
{
    offset as u64 as usize
}

/// The offset that an index stands for.
pub fn offset_of(index: usize) -> (offset: i64)
    requires
        index <= i64::MAX,
    ensures
        offset == index,
{
    index as u64 as i64
}

impl<K: TreeKey + TreeSerialization, V: TreeSerialization> Tree<K, V> {
    /// The nodes of the tree, by offset.
    pub closed spec fn nodes(&self) -> Seq<Node<K, V>> {
        self.storage_manager.data@
    }

    /// The invariant of the tree: the nodes are in order, every node but
    /// the root is the child in one slot, the leaves hold exactly the
    /// entries of the map, and the count of keys and the number of levels
    /// are those of the tree.
    pub closed spec fn wf(&self) -> bool {
        &&& structure_ok(self.nodes(), self.bounds@, self.b, self.storage_manager.root_offset)
        &&& links_ok(self.nodes(), self.up@, self.storage_manager.root_offset)
        &&& content_ok(self.nodes(), self.map@)
        &&& self.map@.dom().finite()
        &&& self.count == self.map@.dom().len()
        &&& self.levels == self.bounds@[self.storage_manager.root_offset as int].height
    }

    /// The structure alone: what the invariant says of the nodes and their
    /// ranges.
    pub closed spec fn framed(&self) -> bool {
        structure_ok(self.nodes(), self.bounds@, self.b, self.storage_manager.root_offset)
    }

    /// The number of levels above the leaves.
    pub closed spec fn depth(&self) -> nat {
        self.bounds@[self.storage_manager.root_offset as int].height
    }

    /// The number of nodes.
    pub closed spec fn node_count(&self) -> nat {
        self.nodes().len()
    }

    /// No node is the child in two slots, and the root is the child in
    /// none.
    pub proof fn lemma_one_parent(&self, p: int, s: int, q: int, t: int)
        requires
            self.wf(),
            0 <= p < self.nodes().len(),
            0 <= s < self.nodes()[p].children@.len(),
            0 <= q < self.nodes().len(),
            0 <= t < self.nodes()[q].children@.len(),
            self.nodes()[p].children@[s] == self.nodes()[q].children@[t],
        ensures
            p == q,
            s == t,
            self.nodes()[p].children@[s] != self.storage_manager.root_offset,
    {
        let root = self.storage_manager.root_offset;
        assert(child_link(self.nodes(), self.up@, root, p, s));
        assert(child_link(self.nodes(), self.up@, root, q, t));
    }

    /// Every node but the root is the child in a slot of a node.
    pub proof fn lemma_has_parent(&self, i: int) -> (at: (int, int))
        requires
            self.wf(),
            0 <= i < self.nodes().len(),
            i != self.storage_manager.root_offset,
        ensures
            0 <= at.0 < self.nodes().len(),
            0 <= at.1 < self.nodes()[at.0].children@.len(),
            self.nodes()[at.0].children@[at.1] == i,
    {
        assert(parent_link(self.nodes(), self.up@, i));
        self.up@[i]
    }

    /// A tree has finitely many keys, and no more than can be counted.
    pub proof fn lemma_count_fits(&self)
        requires
            self.wf(),
        ensures
            self@.dom().finite(),
            self@.dom().len() <= usize::MAX,
    {
    }

    /// The number of nodes is the length of the array of nodes.
    pub proof fn lemma_node_count(&self)
        ensures
            self.node_count() == self.nodes().len(),
    {
    }

    /// An empty tree: one leaf, which is the root.
    pub fn new() -> (r: Result<Self, HaystackError>)
        ensures
            r is Ok,
            r.unwrap().wf(),
            r.unwrap()@ == Map::<K::V, V::V>::empty(),
            r.unwrap().b == DEFAULT_FANOUT,
            forall|m: nat| #[trigger] r.unwrap().room(m) <==> empty_room(m),
    {
        Ok(Tree::empty(DEFAULT_FANOUT))
    }

    /// An empty tree with the fan-out `b`: one leaf, which is the root.
    pub fn empty(b: usize) -> (tree: Self)
        requires
            3 <= b <= MAX_FANOUT,
        ensures
            tree.wf(),
            tree@ == Map::<K::V, V::V>::empty(),
            tree.b == b,
            forall|m: nat| #[trigger] tree.room(m) <==> empty_room(m),
    {
        let mut storage_manager = StorageManager::<K, V>::new();
        let mut root = Node::<K, V>::new_leaf(-1);
        root.is_root = true;
        root.offset = 0;
        storage_manager.data.push(root);
        storage_manager.set_root_offset(0);
        let bounds = Ghost(Seq::empty().push(Bounds { lo: None, hi: None, height: 0 }));
        let map = Ghost(Map::empty());
        let up = Ghost(Seq::empty().push((0int, 0int)));
        let tree = Tree { b, storage_manager, count: 0, levels: 0, bounds, up, map };
        proof {
            let nodes = tree.nodes();
            assert(node_ok(nodes, tree.bounds@, tree.b, 0));
            assert forall|k: K::V| tree.map@.contains_key(k) implies #[trigger] held(nodes, k) by {}
            assert forall|m: nat| #[trigger] tree.room(m) <==> empty_room(m) by {
                assert(m * (0 + m + 3) == m * (m + 3)) by (nonlinear_arith);
            }
        }
        tree
    }

    /// The offset of the leaf that is responsible for `key`.
    fn find_leaf(&self, key: &K) -> (leaf: usize)
        requires
            self.wf(),
        ensures
            leaf < self.nodes().len(),
            self.nodes()[leaf as int].node_type == NodeType::Leaf,
            in_range::<K>(self.bounds@[leaf as int], key@),
    {
        let n: usize = self.storage_manager.data.len();
        self.descend(index_of(self.storage_manager.root_offset, n), key)
    }

    /// The value under `key`, if the tree has the key.
    pub fn search(&mut self, key: K) -> (r: Result<Option<V>, HaystackError>)
        requires
            old(self).wf(),
        ensures
            *final(self) == *old(self),
            r is Ok,
            match r.unwrap() {
                Some(v) => old(self)@.contains_key(key@) && old(self)@[key@] == v@,
                None => !old(self)@.contains_key(key@),
            },
    {
        Ok(self.lookup(&key))
    }

    /// The value under `key`, if the tree has the key.
    pub fn lookup(&self, key: &K) -> (r: Option<V>)
        requires
            self.wf(),
        ensures
            match r {
                Some(v) => self@.contains_key(key@) && self@[key@] == v@,
                None => !self@.contains_key(key@),
            },
    {
        let leaf = self.find_leaf(key);
        assert(node_ok(self.nodes(), self.bounds@, self.b, leaf as int));
        let node = &self.storage_manager.data[leaf];
        let pos = lower_bound(&node.keys, key);
        proof {
            lemma_position(node.keys@, key@, pos as int);
        }
        if pos < node.keys.len() && !key.less_than(&node.keys[pos]) {
            proof {
                K::lemma_key_order(key@, node.keys@[pos as int]@, key@);
                assert(leaf_slot(self.nodes(), leaf as int, pos as int));
            }
            match &node.values[pos] {
                Some(v) => Some(v.duplicate()),
                None => None,
            }
        } else {
            proof {
                if pos < node.keys@.len() {
                    K::lemma_key_order(key@, node.keys@[pos as int]@, key@);
                }
                if self.map@.contains_key(key@) {
                    self.lemma_only_in_own_leaf(leaf as int, key@);
                }
            }
            None
        }
    }

    /// A key of the map that lies in a leaf's range is held by that leaf.
    proof fn lemma_only_in_own_leaf(&self, leaf: int, k: K::V)
        requires
            self.wf(),
            0 <= leaf < self.nodes().len(),
            self.nodes()[leaf].node_type == NodeType::Leaf,
            in_range::<K>(self.bounds@[leaf], k),
            self.map@.contains_key(k),
        ensures
            spec_holds(self.nodes()[leaf].keys@, k),
    {
        let nodes = self.nodes();
        assert(held(nodes, k));
        let (i, j) = choose|i: int, j: int| #[trigger]
            leaf_slot(nodes, i, j) && nodes[i].keys@[j]@ == k;
        assert(node_ok(nodes, self.bounds@, self.b, i));
        assert(node_ok(nodes, self.bounds@, self.b, leaf));
        assert(pair_ok::<K>(self.bounds@, i, leaf));
        assert(in_range::<K>(self.bounds@[i], nodes[i].keys@[j]@));
        assert(i == leaf);
    }

    /// Puts `value` under `key` in the leaf that is responsible for the key
    /// and has room. Fails, changing nothing, when the key is new and the
    /// count of keys cannot grow.
    fn insert_into_leaf(&mut self, leaf: usize, key: K, value: V) -> (r: Result<
        (),
        HaystackError,
    >)
        requires
            old(self).wf(),
            leaf < old(self).nodes().len(),
            old(self).nodes()[leaf as int].node_type == NodeType::Leaf,
            old(self).nodes()[leaf as int].keys@.len() < old(self).b,
            in_range::<K>(old(self).bounds@[leaf as int], key@),
        ensures
            final(self).wf(),
            final(self).b == old(self).b,
            final(self).nodes().len() == old(self).nodes().len(),
            final(self).depth() == old(self).depth(),
            final(self).count <= old(self).count + 1,
            match r {
                Ok(()) => final(self)@ == old(self)@.insert(key@, value@),
                Err(e) => e == HaystackError::OutOfBounds && final(self)@ == old(self)@ && old(self).count == usize::MAX && !old(self)@.contains_key(key@),
            },
    {
        let ghost nodes = self.nodes();
        let ghost bounds = self.bounds@;
        let ghost map = self.map@;
        let ghost kv = key@;
        let ghost vv = value@;
        assert(node_ok(nodes, bounds, self.b, leaf as int));
        let pos = lower_bound(&self.storage_manager.data[leaf].keys, &key);
        let n: usize = self.storage_manager.data[leaf].keys.len();
        let found = pos < n && !key.less_than(&self.storage_manager.data[leaf].keys[pos]);
        proof {
            lemma_position(nodes[leaf as int].keys@, kv, pos as int);
            if pos < n {
                K::lemma_key_order(kv, nodes[leaf as int].keys@[pos as int]@, kv);
            }
            if found {
                assert(leaf_slot(nodes, leaf as int, pos as int));
            } else if map.contains_key(kv) {
                self.lemma_only_in_own_leaf(leaf as int, kv);
            }
            assert(found == map.contains_key(kv));
        }
        if found {
            self.storage_manager.data[leaf].values[pos] = Some(value);
        } else {
            if self.count == usize::MAX {
                return Err(HaystackError::OutOfBounds);
            }
            proof {
                assert forall|j: int| pos <= j < n implies K::key_lt(
                    kv,
                    #[trigger] nodes[leaf as int].keys@[j]@,
                ) by {
                    K::lemma_key_order(
                        kv,
                        nodes[leaf as int].keys@[pos as int]@,
                        nodes[leaf as int].keys@[j]@,
                    );
                }
                crate::structures::tree::node::lemma_insert_keeps_sorted(
                    nodes[leaf as int].keys@,
                    key,
                    pos as int,
                );
            }
            self.storage_manager.data[leaf].keys.insert(pos, key);
            self.storage_manager.data[leaf].values.insert(pos, Some(value));
            self.count = self.count + 1;
        }
        self.map = Ghost(map.insert(kv, vv));
        proof {
            let after = self.nodes();
            let new_map = self.map@;
            assert forall|i: int| 0 <= i < nodes.len() implies (#[trigger] after[i]).children@
                == nodes[i].children@ by {}
            lemma_links_same(nodes, after, self.up@, self.storage_manager.root_offset);
            let old_leaf = nodes[leaf as int];
            let new_leaf = after[leaf as int];
            // Every key of the changed leaf but the inserted one stands where
            // an old key stood.
            assert forall|j: int| 0 <= j < new_leaf.keys@.len() implies (if found {
                new_leaf.keys@[j] == old_leaf.keys@[j] && (j != pos ==> new_leaf.values@[j]
                    == old_leaf.values@[j] && new_leaf.keys@[j]@ != kv)
            } else if j < pos {
                new_leaf.keys@[j] == old_leaf.keys@[j] && new_leaf.values@[j] == old_leaf.values@[j]
                    && new_leaf.keys@[j]@ != kv
            } else if j > pos {
                new_leaf.keys@[j] == old_leaf.keys@[j - 1] && new_leaf.values@[j]
                    == old_leaf.values@[j - 1] && new_leaf.keys@[j]@ != kv
            } else {
                new_leaf.keys@[j]@ == kv
            }) by {
                if found {
                    if j != pos {
                        K::lemma_key_order(old_leaf.keys@[j]@, old_leaf.keys@[pos as int]@, kv);
                        K::lemma_key_order(old_leaf.keys@[pos as int]@, old_leaf.keys@[j]@, kv);
                    }
                } else if j < pos {
                    K::lemma_key_order(old_leaf.keys@[j]@, kv, kv);
                } else if j > pos {
                    K::lemma_key_order(kv, old_leaf.keys@[j - 1]@, kv);
                }
            }
            assert forall|i: int| 0 <= i < after.len() implies #[trigger] node_ok(
                after,
                bounds,
                self.b,
                i,
            ) by {
                assert(node_ok(nodes, bounds, self.b, i));
                if i != leaf {
                    assert(after[i] == nodes[i]);
                    if after[i].node_type == NodeType::Internal {
                        assert forall|j: int| 0 <= j < after[i].children@.len() implies #[trigger] slot_ok(
                            after,
                            bounds,
                            i,
                            j,
                        ) by {
                            assert(slot_ok(nodes, bounds, i, j));
                        }
                    }
                } else {
                    assert forall|j: int| 0 <= j < new_leaf.keys@.len() implies in_range::<K>(
                        bounds[i],
                        #[trigger] new_leaf.keys@[j]@,
                    ) by {
                        if found {
                            assert(in_range::<K>(bounds[i], old_leaf.keys@[j]@));
                        } else if j < pos {
                            assert(in_range::<K>(bounds[i], old_leaf.keys@[j]@));
                        } else if j > pos {
                            assert(in_range::<K>(bounds[i], old_leaf.keys@[j - 1]@));
                        }
                    }
                    assert forall|j: int| 0 <= j < new_leaf.values@.len() implies (
                    #[trigger] new_leaf.values@[j]) is Some by {
                        if found {
                            if j != pos {
                                assert(old_leaf.values@[j] is Some);
                            }
                        } else if j < pos {
                            assert(old_leaf.values@[j] is Some);
                        } else if j > pos {
                            assert(old_leaf.values@[j - 1] is Some);
                        }
                    }
                }
            }
            assert forall|x: int, y: int| 0 <= x < after.len() && 0 <= y < after.len() implies #[trigger] pair_ok::<
                K,
            >(bounds, x, y) by {
                assert(pair_ok::<K>(bounds, x, y));
            }
            assert forall|i: int, j: int| #[trigger] leaf_slot(after, i, j) implies new_map.contains_key(
                after[i].keys@[j]@,
            ) && Some(new_map[after[i].keys@[j]@]) == option_view(after[i].values@[j]) by {
                if i != leaf {
                    assert(after[i] == nodes[i]);
                    assert(leaf_slot(nodes, i, j));
                    if nodes[i].keys@[j]@ == kv {
                        assert(node_ok(nodes, bounds, self.b, i));
                        assert(in_range::<K>(bounds[i], nodes[i].keys@[j]@));
                        assert(pair_ok::<K>(bounds, i, leaf as int));
                        assert(false);
                    }
                } else if found {
                    assert(leaf_slot(nodes, i, j));
                } else if j < pos {
                    assert(leaf_slot(nodes, i, j));
                } else if j > pos {
                    assert(leaf_slot(nodes, i, j - 1));
                }
            }
            assert forall|k: K::V| new_map.contains_key(k) implies #[trigger] held(after, k) by {
                if k == kv {
                    assert(leaf_slot(after, leaf as int, pos as int));
                } else {
                    assert(held(nodes, k));
                    let (i, j) = choose|i: int, j: int| #[trigger]
                        leaf_slot(nodes, i, j) && nodes[i].keys@[j]@ == k;
                    if i != leaf {
                        assert(after[i] == nodes[i]);
                        assert(leaf_slot(after, i, j));
                    } else if found || j < pos {
                        assert(leaf_slot(after, i, j));
                    } else {
                        assert(leaf_slot(after, i, j + 1));
                    }
                }
            }
        }
        Ok(())
    }

    /// Makes `parent` the recorded parent of every child of the node at
    /// `parent`. The recorded parents are a cache: nothing else changes.
    fn refresh_parents(&mut self, parent: usize)
        requires
            old(self).wf(),
            parent < old(self).nodes().len(),
        ensures
            final(self).wf(),
            final(self)@ == old(self)@,
            final(self).b == old(self).b,
            final(self).count == old(self).count,
            final(self).levels == old(self).levels,
            final(self).bounds == old(self).bounds,
            final(self).storage_manager.root_offset == old(self).storage_manager.root_offset,
            final(self).nodes().len() == old(self).nodes().len(),
            forall|i: int|
                0 <= i < old(self).nodes().len() ==> same_shape(
                    #[trigger] old(self).nodes()[i],
                    final(self).nodes()[i],
                ),
            forall|i: int|
                0 <= i < old(self).nodes().len() ==> #[trigger] parent_recorded(
                    old(self).nodes(),
                    final(self).nodes(),
                    parent as int,
                    old(self).nodes()[parent as int].children@.len() as int,
                    i,
                ),
    {
        let n: usize = self.storage_manager.data.len();
        let total: usize = self.storage_manager.data[parent].children.len();
        let ghost first = self.nodes();
        let mut j: usize = 0;
        while j < total
            invariant
                j <= total,
                self.wf(),
                parent < n,
                n == self.nodes().len(),
                n == old(self).nodes().len(),
                first == old(self).nodes(),
                total == first[parent as int].children@.len(),
                self@ == old(self)@,
                self.b == old(self).b,
                self.count == old(self).count,
                self.levels == old(self).levels,
                self.bounds == old(self).bounds,
                self.storage_manager.root_offset == old(self).storage_manager.root_offset,
                forall|i: int|
                    0 <= i < n ==> same_shape(#[trigger] old(self).nodes()[i], self.nodes()[i]),
                forall|i: int|
                    0 <= i < n ==> #[trigger] parent_recorded(
                        first,
                        self.nodes(),
                        parent as int,
                        j as int,
                        i,
                    ),
            decreases total - j,
        {
            let ghost before = self.nodes();
            proof {
                assert(same_shape(first[parent as int], before[parent as int]));
                assert(node_ok(before, self.bounds@, self.b, parent as int));
                assert(before[parent as int].node_type == NodeType::Internal);
                assert(slot_ok(before, self.bounds@, parent as int, j as int));
            }
            let c = index_of(self.storage_manager.data[parent].children[j], n);
            self.storage_manager.data[c].parent_offset = Some(offset_of(parent));
            proof {
                let after = self.nodes();
                assert forall|i: int| 0 <= i < n implies same_shape(
                    #[trigger] before[i],
                    after[i],
                ) by {}
                lemma_same_shape_keeps_all(
                    before,
                    after,
                    self.bounds@,
                    self.b,
                    self.storage_manager.root_offset,
                    self.map@,
                );
                assert forall|i: int| 0 <= i < n implies (#[trigger] after[i]).children@
                    == before[i].children@ by {
                    assert(same_shape(before[i], after[i]));
                }
                lemma_links_same(before, after, self.up@, self.storage_manager.root_offset);
                assert forall|i: int| 0 <= i < n implies same_shape(
                    #[trigger] old(self).nodes()[i],
                    after[i],
                ) by {
                    assert(same_shape(old(self).nodes()[i], before[i]));
                }
                assert(first[parent as int].children@[j as int] == c);
                assert forall|i: int| 0 <= i < n implies #[trigger] parent_recorded(
                    first,
                    after,
                    parent as int,
                    j + 1,
                    i,
                ) by {
                    assert(parent_recorded(first, before, parent as int, j as int, i));
                    if i == c {
                        assert(child_before(first, parent as int, j + 1, i));
                    } else {
                        assert(after[i] == before[i]);
                        if child_before(first, parent as int, j + 1, i) {
                            let t = choose|t: int|
                                0 <= t < j + 1 && (#[trigger] first[parent as int].children@[t])
                                    == i;
                            assert(t < j);
                            assert(child_before(first, parent as int, j as int, i));
                        }
                    }
                }
            }
            j = j + 1;
        }
    }

    /// Puts a new root above the root, with the old root as its only child.
    fn grow_root(&mut self)
        requires
            old(self).wf(),
            old(self).nodes().len() < i64::MAX,
            old(self).levels < u64::MAX,
        ensures
            final(self).wf(),
            final(self)@ == old(self)@,
            final(self).b == old(self).b,
            final(self).count == old(self).count,
            final(self).nodes().len() == old(self).nodes().len() + 1,
            final(self).storage_manager.root_offset == old(self).nodes().len(),
            final(self).depth() == old(self).depth() + 1,
            final(self).nodes()[old(self).nodes().len() as int].node_type == NodeType::Internal,
            final(self).nodes()[old(self).nodes().len() as int].keys@.len() == 0,
            final(self).nodes()[old(self).nodes().len() as int].children@ == seq![
                old(self).storage_manager.root_offset,
            ],
            same_shape(
                old(self).nodes()[old(self).storage_manager.root_offset as int],
                final(self).nodes()[old(self).storage_manager.root_offset as int],
            ),
    {
        let n: usize = self.storage_manager.data.len();
        let old_root = index_of(self.storage_manager.root_offset, n);
        let ghost before = self.nodes();
        let mut root = Node::<K, V>::new_internal(-1);
        root.is_root = true;
        root.offset = offset_of(n);
        root.children.push(self.storage_manager.root_offset);
        self.storage_manager.data.push(root);
        self.storage_manager.data[old_root].is_root = false;
        self.storage_manager.data[old_root].parent_offset = Some(offset_of(n));
        proof {
            let after = self.nodes();
            assert(after[n as int].children@ =~= seq![self.storage_manager.root_offset]);
            assert forall|i: int| 0 <= i < n implies same_shape(#[trigger] before[i], after[i]) by {}
            lemma_grow_keeps_all(
                before,
                after,
                self.bounds@,
                self.b,
                self.storage_manager.root_offset,
                self.map@,
            );
            assert forall|i: int| 0 <= i < n implies (#[trigger] after[i]).children@
                == before[i].children@ by {
                assert(same_shape(before[i], after[i]));
            }
            lemma_links_grow(before, after, self.up@, self.storage_manager.root_offset);
        }
        self.up = Ghost(grown_up(self.up@, self.storage_manager.root_offset));
        self.bounds = Ghost(
            self.bounds@.push(
                Bounds {
                    lo: None,
                    hi: None,
                    height: self.bounds@[self.storage_manager.root_offset as int].height + 1,
                },
            ),
        );
        self.storage_manager.set_root_offset(offset_of(n));
        self.levels = self.levels + 1;
    }

    /// Splits the full child in slot `slot` of the node at `parent`, which
    /// has room for one more key. Gives the offset of the new sibling.
    fn split_child(&mut self, parent: usize, slot: usize) -> (sibling: usize)
        requires
            old(self).wf(),
            old(self).nodes().len() < i64::MAX,
            parent < old(self).nodes().len(),
            old(self).nodes()[parent as int].node_type == NodeType::Internal,
            old(self).nodes()[parent as int].keys@.len() < old(self).b,
            slot < old(self).nodes()[parent as int].children@.len(),
            old(self).nodes()[old(self).nodes()[parent as int].children@[slot as int] as int].keys@.len()
                >= old(self).b,
        ensures
            final(self).wf(),
            final(self)@ == old(self)@,
            final(self).b == old(self).b,
            final(self).count == old(self).count,
            final(self).storage_manager.root_offset == old(self).storage_manager.root_offset,
            final(self).depth() == old(self).depth(),
            final(self).nodes().len() == old(self).nodes().len() + 1,
            sibling == old(self).nodes().len(),
            ({
                let c = old(self).nodes()[parent as int].children@[slot as int] as int;
                let sep = final(self).nodes()[parent as int].keys@[slot as int]@;
                let was = old(self).bounds@[c];
                &&& final(self).nodes()[parent as int].node_type == NodeType::Internal
                &&& final(self).nodes()[parent as int].keys@.len() == old(self).nodes()[parent as int].keys@.len() + 1
                &&& final(self).bounds@[parent as int] == old(self).bounds@[parent as int]
                &&& final(self).bounds@[c] == (Bounds { lo: was.lo, hi: Some(sep), height: was.height })
                &&& final(self).bounds@[sibling as int] == (Bounds {
                    lo: Some(sep),
                    hi: was.hi,
                    height: was.height,
                })
                &&& final(self).nodes()[c].keys@.len() < final(self).b
                &&& final(self).nodes()[sibling as int].keys@.len() < final(self).b
            }),
    {
        let n: usize = self.storage_manager.data.len();
        let ghost before = self.nodes();
        let ghost bounds = self.bounds@;
        let ghost root = self.storage_manager.root_offset;
        proof {
            assert(node_ok(before, bounds, self.b, parent as int));
            assert(slot_ok(before, bounds, parent as int, slot as int));
        }
        let c = index_of(self.storage_manager.data[parent].children[slot], n);
        proof {
            assert(node_ok(before, bounds, self.b, c as int));
        }
        let (median, mut sibling_node) = self.storage_manager.data[c].split_at_middle();
        sibling_node.offset = offset_of(n);
        sibling_node.parent_offset = Some(offset_of(parent));
        let ghost m = median@;
        let ghost med = median;
        self.storage_manager.data.push(sibling_node);
        self.storage_manager.data[parent].keys.insert(slot, median);
        self.storage_manager.data[parent].children.insert(slot + 1, offset_of(n));
        let ghost was = bounds[c as int];
        let ghost bounds2 = bounds.update(
            c as int,
            Bounds { lo: was.lo, hi: Some(m), height: was.height },
        ).push(Bounds { lo: Some(m), hi: was.hi, height: was.height });
        self.bounds = Ghost(bounds2);
        let ghost up = self.up@;
        self.up = Ghost(split_up(before, up, parent as int, slot as int));
        proof {
            let after = self.nodes();
            assert(split_applied(before, bounds, after, bounds2, parent as int, slot as int, med));
            lemma_links_split(before, after, up, root, parent as int, slot as int, med);
            lemma_split_keeps_structure(
                before,
                bounds,
                after,
                bounds2,
                self.b,
                root,
                parent as int,
                slot as int,
                med,
            );
            lemma_split_keeps_content(
                before,
                bounds,
                after,
                bounds2,
                self.map@,
                parent as int,
                slot as int,
                med,
            );
        }
        self.refresh_parents(n);
        n
    }

    /// Whether an insertion is sure to find room: for the nodes that splits
    /// may add, and for one more key in the count.
    pub closed spec fn has_room(&self) -> bool {
        self.room(1)
    }

    /// Whether the next `m` insertions are sure to find room.
    pub closed spec fn room(&self, m: nat) -> bool {
        &&& self.node_count() + m * (self.depth() + m + 3) <= i64::MAX
        &&& self.count + m <= usize::MAX
        &&& self.depth() + m <= u64::MAX
    }

    /// A tree has room for no insertion, and none has room for more
    /// insertions than a `usize` counts.
    pub proof fn lemma_room_bounds(&self, m: nat)
        requires
            self.wf(),
        ensures
            self.room(0),
            self.room(m) ==> m <= usize::MAX,
    {
        assert(0 * (self.depth() + 0 + 3) == 0) by (nonlinear_arith);
    }

    /// Whether the next `m` insertions are sure to find room.
    pub fn has_room_for(&self, m: usize) -> (r: bool)
        requires
            self.wf(),
        ensures
            r == self.room(m as nat),
    {
        let n: usize = self.storage_manager.data.len();
        let ghost d = self.depth();
        proof {
            self.lemma_room_bounds(m as nat);
        }
        if m == 0 {
            return true;
        }
        if self.count > usize::MAX - m || self.levels > u64::MAX - m as u64 {
            return false;
        }
        let most: u128 = i64::MAX as u128;
        let steps: u128 = m as u128;
        let each: u128 = self.levels as u128 + steps + 3;
        if steps > most || each > most {
            proof {
                assert(m * (d + m + 3) >= m && m * (d + m + 3) >= d + m + 3) by (nonlinear_arith)
                    requires
                        m >= 1,
                ;
            }
            return false;
        }
        proof {
            assert(steps * each <= 0x7fff_ffff_ffff_ffff * 0x7fff_ffff_ffff_ffff)
                by (nonlinear_arith)
                requires
                    steps <= 0x7fff_ffff_ffff_ffff,
                    each <= 0x7fff_ffff_ffff_ffff,
            ;
            assert(steps * each == m * (d + m + 3)) by (nonlinear_arith)
                requires
                    steps == m,
                    each == d + m + 3,
            ;
        }
        let need: u128 = steps * each;
        n as u128 + need <= most
    }

    /// Room for `m` insertions is room for fewer.
    pub proof fn lemma_room_less(&self, m: nat, fewer: nat)
        requires
            self.room(m),
            fewer <= m,
        ensures
            self.room(fewer),
    {
        assert(fewer * (self.depth() + fewer + 3) <= m * (self.depth() + m + 3))
            by (nonlinear_arith)
            requires
                fewer <= m,
        ;
    }

    /// An insertion takes the room of one.
    pub proof fn lemma_room_step(&self, after: &Self, m: nat)
        requires
            m >= 1,
            self.room(m),
            after.node_count() <= self.node_count() + self.depth() + 3,
            after.depth() <= self.depth() + 1,
            after.count <= self.count + 1,
        ensures
            after.room((m - 1) as nat),
    {
        let n = self.node_count() as int;
        let d = self.depth() as int;
        let n2 = after.node_count() as int;
        let d2 = after.depth() as int;
        assert(n2 + (m - 1) * (d2 + (m - 1) + 3) <= n + m * (d + m + 3)) by (nonlinear_arith)
            requires
                m >= 1,
                n2 <= n + d + 3,
                d2 <= d + 1,
                d >= 0,
                d2 >= 0,
        ;
    }

    /// Puts `value` under `key`, in place of the value that the key had.
    /// Full nodes on the way to the key's leaf are split, the root first;
    /// a split root gets a new root above it. Fails with `OutOfBounds`,
    /// leaving the entries as they were, only when there is no room.
    pub fn insert_entry(&mut self, key: K, value: V) -> (r: Result<(), HaystackError>)
        requires
            old(self).wf(),
        ensures
            final(self).wf(),
            final(self).b == old(self).b,
            final(self).node_count() <= old(self).node_count() + old(self).depth() + 3,
            final(self).depth() <= old(self).depth() + 1,
            final(self).count <= old(self).count + 1,
            forall|m: nat|
                m >= 1 && #[trigger] old(self).room(m) ==> r is Ok && final(self).room((m - 1) as nat),
            match r {
                Ok(()) => final(self)@ == old(self)@.insert(key@, value@),
                Err(e) => e == HaystackError::OutOfBounds && final(self)@ == old(self)@ && !old(self).has_room(),
            },
    {
        let n0: usize = self.storage_manager.data.len();
        let root = index_of(self.storage_manager.root_offset, n0);
        let ghost limit = old(self).node_count() + old(self).depth() + 3;
        proof {
            assert(node_ok(self.nodes(), self.bounds@, self.b, root as int));
        }
        proof {
            assert(1 * (self.depth() + 1 + 3) == self.depth() + 4) by (nonlinear_arith);
            assert forall|m: nat| m >= 1 && #[trigger] self.room(m) implies self.room(1) by {
                assert(m * (self.depth() + m + 3) >= 1 * (self.depth() + 1 + 3))
                    by (nonlinear_arith)
                    requires
                        m >= 1,
                ;
            }
        }
        if self.storage_manager.data[root].keys.len() >= self.b {
            if n0 as u64 + 2 > i64::MAX as u64 || self.levels == u64::MAX {
                return Err(HaystackError::OutOfBounds);
            }
            self.grow_root();
            self.split_child(n0, 0);
        }
        let mut cur: usize = index_of(
            self.storage_manager.root_offset,
            self.storage_manager.data.len(),
        );
        proof {
            assert(node_ok(self.nodes(), self.bounds@, self.b, cur as int));
        }
        loop
            invariant
                self.wf(),
                self.b == old(self).b,
                self@ == old(self)@,
                self.count == old(self).count,
                self.depth() <= old(self).depth() + 1,
                self.nodes().len() >= old(self).nodes().len(),
                forall|m: nat| m >= 1 && #[trigger] old(self).room(m) ==> old(self).room(1),
                cur < self.nodes().len(),
                in_range::<K>(self.bounds@[cur as int], key@),
                self.nodes()[cur as int].keys@.len() < self.b,
                self.nodes().len() + self.bounds@[cur as int].height <= limit,
                limit == old(self).node_count() + old(self).depth() + 3,
            decreases self.bounds@[cur as int].height,
        {
            let n: usize = self.storage_manager.data.len();
            proof {
                assert(node_ok(self.nodes(), self.bounds@, self.b, cur as int));
            }
            match self.storage_manager.data[cur].node_type {
                NodeType::Leaf => {
                    let r = self.insert_into_leaf(cur, key, value);
                    proof {
                        assert forall|m: nat| m >= 1 && #[trigger] old(self).room(m) implies r is Ok
                            && self.room((m - 1) as nat) by {
                            old(self).lemma_room_step(self, m);
                        }
                    }
                    return r;
                },
                NodeType::Internal => {
                    let idx = child_slot(&self.storage_manager.data[cur].keys, &key);
                    proof {
                        assert(slot_ok(self.nodes(), self.bounds@, cur as int, idx as int));
                    }
                    let c = index_of(self.storage_manager.data[cur].children[idx], n);
                    if self.storage_manager.data[c].keys.len() >= self.b {
                        if n as u64 >= i64::MAX as u64 {
                            return Err(HaystackError::OutOfBounds);
                        }
                        let s = self.split_child(cur, idx);
                        if key.less_than(&self.storage_manager.data[cur].keys[idx]) {
                            cur = c;
                        } else {
                            cur = s;
                        }
                    } else {
                        cur = c;
                    }
                },
            }
        }
    }

    /// Puts `value` under `key`, in place of the value that the key had.
    pub fn insert(&mut self, key: K, value: V) -> (r: Result<(), HaystackError>)
        requires
            old(self).wf(),
        ensures
            final(self).wf(),
            final(self).b == old(self).b,
            forall|m: nat|
                m >= 1 && #[trigger] old(self).room(m) ==> r is Ok && final(self).room((m - 1) as nat),
            match r {
                Ok(()) => final(self)@ == old(self)@.insert(key@, value@),
                Err(e) => e == HaystackError::OutOfBounds && final(self)@ == old(self)@ && !old(self).has_room(),
            },
    {
        self.insert_entry(key, value)
    }

    /// Puts every entry in turn, a later one in place of an earlier one with
    /// the same key. Succeeds where the tree has room for as many
    /// insertions as there are entries. Fails with `OutOfBounds` when there
    /// is no room for an entry: the entries before it are in the tree then.
    pub fn batch_insert(&mut self, entries: Vec<(K, V)>) -> (r: Result<(), HaystackError>)
        requires
            old(self).wf(),
        ensures
            final(self).wf(),
            final(self).b == old(self).b,
            forall|m: nat|
                m >= entries@.len() && #[trigger] old(self).room(m) ==> r is Ok && final(self).room(
                    (m - entries@.len()) as nat,
                ),
            match r {
                Ok(()) => final(self)@ == fold_entries(old(self)@, entry_views(entries@)),
                Err(e) => e == HaystackError::OutOfBounds && exists|i: int|
                    0 <= i < entries@.len() && final(self)@ == #[trigger] fold_entries(
                        old(self)@,
                        entry_views(entries@).subrange(0, i),
                    ),
            },
    {
        let ghost all = entry_views(entries@);
        let mut i: usize = 0;
        while i < entries.len()
            invariant
                i <= entries@.len(),
                all == entry_views(entries@),
                self.wf(),
                self.b == old(self).b,
                self@ == fold_entries(old(self)@, all.subrange(0, i as int)),
                forall|m: nat|
                    m >= entries@.len() && #[trigger] old(self).room(m) ==> self.room(
                        (m - i) as nat,
                    ),
            decreases entries@.len() - i,
        {
            let key = entries[i].0.duplicate();
            let value = entries[i].1.duplicate();
            let ghost start = *self;
            let put = self.insert_entry(key, value);
            proof {
                assert forall|m: nat|
                    m >= entries@.len() && #[trigger] old(self).room(m) implies put is Ok
                    && self.room((m - (i + 1)) as nat) by {
                    assert(start.room((m - i) as nat));
                }
            }
            match put {
                Ok(()) => {},
                Err(e) => {
                    return Err(e);
                },
            }
            proof {
                let next = all.subrange(0, i + 1);
                assert(next.drop_last() =~= all.subrange(0, i as int));
                assert(next.last() == all[i as int]);
            }
            i = i + 1;
        }
        assert(all.subrange(0, i as int) =~= all);
        Ok(())
    }

    /// Two different slots of leaves hold different keys.
    proof fn lemma_slots_differ(&self, a: int, b: int, c: int, d: int)
        requires
            self.framed(),
            leaf_slot(self.nodes(), a, b),
            leaf_slot(self.nodes(), c, d),
            a != c || b != d,
        ensures
            self.nodes()[a].keys@[b]@ != self.nodes()[c].keys@[d]@,
    {
        let nodes = self.nodes();
        assert(node_ok(nodes, self.bounds@, self.b, a));
        assert(node_ok(nodes, self.bounds@, self.b, c));
        if a == c {
            if b < d {
                lemma_lt_strict::<K>(nodes[a].keys@[b]@, nodes[a].keys@[d]@);
            } else {
                lemma_lt_strict::<K>(nodes[a].keys@[d]@, nodes[a].keys@[b]@);
            }
        } else {
            assert(pair_ok::<K>(self.bounds@, a, c));
            assert(in_range::<K>(self.bounds@[a], nodes[a].keys@[b]@));
            assert(in_range::<K>(self.bounds@[c], nodes[c].keys@[d]@));
        }
    }

    /// All entries of the tree: every key once, with its value, in the
    /// order of the leaves in the array.
    pub fn entries(&self) -> (all: Vec<(K, V)>)
        requires
            self.wf(),
        ensures
            forall|x: int|
                0 <= x < all@.len() ==> self@.contains_key((#[trigger] all@[x]).0@)
                    && self@[all@[x].0@] == all@[x].1@,
            forall|k: K::V| self@.contains_key(k) ==> #[trigger] key_listed(all@, k),
            forall|x: int, y: int|
                0 <= x < y < all@.len() ==> (#[trigger] all@[x]).0@ != (#[trigger] all@[y]).0@,
    {
        let mut all: Vec<(K, V)> = Vec::new();
        let ghost from: Seq<(int, int)> = Seq::empty();
        let mut i: usize = 0;
        while i < self.storage_manager.data.len()
            invariant
                i <= self.nodes().len(),
                self.wf(),
                from.len() == all@.len(),
                forall|x: int|
                    0 <= x < all@.len() ==> self@.contains_key((#[trigger] all@[x]).0@)
                        && self@[all@[x].0@] == all@[x].1@,
                forall|x: int|
                    0 <= x < all@.len() ==> leaf_slot(self.nodes(), (#[trigger] from[x]).0, from[x].1)
                        && from[x].0 < i && all@[x].0@ == self.nodes()[from[x].0].keys@[from[x].1]@,
                forall|x: int, y: int|
                    0 <= x < y < all@.len() ==> (#[trigger] from[x]) != (#[trigger] from[y]),
                forall|a: int, b: int|
                    0 <= a < i && #[trigger] leaf_slot(self.nodes(), a, b) ==> key_listed(
                        all@,
                        self.nodes()[a].keys@[b]@,
                    ),
            decreases self.nodes().len() - i,
        {
            proof {
                assert(node_ok(self.nodes(), self.bounds@, self.b, i as int));
            }
            let node = &self.storage_manager.data[i];
            match node.node_type {
                NodeType::Internal => {},
                NodeType::Leaf => {
                    let mut j: usize = 0;
                    while j < node.keys.len()
                        invariant
                            j <= node.keys@.len(),
                            i < self.nodes().len(),
                            self.wf(),
                            node == &self.nodes()[i as int],
                            node.node_type == NodeType::Leaf,
                            node.values@.len() == node.keys@.len(),
                            from.len() == all@.len(),
                            forall|x: int|
                                0 <= x < all@.len() ==> self@.contains_key(
                                    (#[trigger] all@[x]).0@,
                                ) && self@[all@[x].0@] == all@[x].1@,
                            forall|x: int|
                                0 <= x < all@.len() ==> leaf_slot(
                                    self.nodes(),
                                    (#[trigger] from[x]).0,
                                    from[x].1,
                                ) && (from[x].0 < i || (from[x].0 == i && from[x].1 < j))
                                    && all@[x].0@ == self.nodes()[from[x].0].keys@[from[x].1]@,
                            forall|x: int, y: int|
                                0 <= x < y < all@.len() ==> (#[trigger] from[x]) != (
                                #[trigger] from[y]),
                            forall|a: int, b: int|
                                0 <= a < i && #[trigger] leaf_slot(self.nodes(), a, b)
                                    ==> key_listed(all@, self.nodes()[a].keys@[b]@),
                            forall|b: int|
                                0 <= b < j ==> key_listed(all@, (#[trigger] node.keys@[b])@),
                        decreases node.keys@.len() - j,
                    {
                        proof {
                            assert(leaf_slot(self.nodes(), i as int, j as int));
                        }
                        let ghost before = all@;
                        let ghost origin = from;
                        let key = node.keys[j].duplicate();
                        match &node.values[j] {
                            Some(v) => {
                                all.push((key, v.duplicate()));
                                proof {
                                    from = origin.push((i as int, j as int));
                                    assert(all@[before.len() as int].0@ == node.keys@[j as int]@);
                                    assert forall|k: K::V| key_listed(before, k) implies key_listed(
                                        all@,
                                        k,
                                    ) by {
                                        let x = choose|x: int|
                                            0 <= x < before.len() && (#[trigger] before[x]).0@ == k;
                                        assert(all@[x] == before[x]);
                                    }
                                    assert forall|x: int| 0 <= x < all@.len() implies leaf_slot(
                                        self.nodes(),
                                        (#[trigger] from[x]).0,
                                        from[x].1,
                                    ) && (from[x].0 < i || (from[x].0 == i && from[x].1 < j + 1))
                                        && all@[x].0@
                                        == self.nodes()[from[x].0].keys@[from[x].1]@ by {
                                        if x < before.len() {
                                            assert(from[x] == origin[x]);
                                            assert(all@[x] == before[x]);
                                        }
                                    }
                                    assert forall|x: int, y: int|
                                        0 <= x < y < all@.len() implies (#[trigger] from[x]) != (
                                    #[trigger] from[y]) by {
                                        assert(from[x] == origin[x]);
                                        if y < before.len() {
                                            assert(from[y] == origin[y]);
                                        }
                                    }
                                }
                            },
                            None => {
                                proof {
                                    assert(false);
                                }
                            },
                        }
                        j = j + 1;
                    }
                },
            }
            i = i + 1;
        }
        proof {
            assert forall|k: K::V| self@.contains_key(k) implies #[trigger] key_listed(all@, k) by {
                assert(held(self.nodes(), k));
                let (a, b) = choose|a: int, b: int| #[trigger]
                    leaf_slot(self.nodes(), a, b) && self.nodes()[a].keys@[b]@ == k;
            }
            assert forall|x: int, y: int| 0 <= x < y < all@.len() implies (#[trigger] all@[x]).0@ != (
            #[trigger] all@[y]).0@ by {
                assert(from[x] != from[y]);
                self.lemma_slots_differ(from[x].0, from[x].1, from[y].0, from[y].1);
            }
        }
        all
    }

    /// Whether the tree has the key.
    pub fn has_key(&mut self, key: K) -> (r: Result<bool, HaystackError>)
        requires
            old(self).wf(),
        ensures
            *final(self) == *old(self),
            r == Ok::<bool, HaystackError>(old(self)@.contains_key(key@)),
    {
        Ok(self.lookup(&key).is_some())
    }

    /// The leaf that a descent from the node at `from` reaches for `key`:
    /// a leaf below that node, responsible for the key where the node is.
    fn descend(&self, from: usize, key: &K) -> (leaf: usize)
        requires
            self.wf(),
            from < self.nodes().len(),
        ensures
            leaf < self.nodes().len(),
            self.nodes()[leaf as int].node_type == NodeType::Leaf,
            in_range::<K>(self.bounds@[from as int], key@) ==> in_range::<K>(
                self.bounds@[leaf as int],
                key@,
            ),
            forall|w: K::V| #[trigger]
                in_range::<K>(self.bounds@[leaf as int], w) ==> in_range::<K>(
                    self.bounds@[from as int],
                    w,
                ),
    {
        let n: usize = self.storage_manager.data.len();
        let mut cur: usize = from;
        loop
            invariant
                self.wf(),
                n == self.nodes().len(),
                from < self.nodes().len(),
                cur < self.nodes().len(),
                in_range::<K>(self.bounds@[from as int], key@) ==> in_range::<K>(
                    self.bounds@[cur as int],
                    key@,
                ),
                forall|w: K::V| #[trigger]
                    in_range::<K>(self.bounds@[cur as int], w) ==> in_range::<K>(
                        self.bounds@[from as int],
                        w,
                    ),
            ensures
                self.nodes()[cur as int].node_type == NodeType::Leaf,
            decreases self.bounds@[cur as int].height,
        {
            assert(node_ok(self.nodes(), self.bounds@, self.b, cur as int));
            let node = &self.storage_manager.data[cur];
            match node.node_type {
                NodeType::Leaf => {
                    break ;
                },
                NodeType::Internal => {
                    let idx = child_slot(&node.keys, key);
                    assert(slot_ok(self.nodes(), self.bounds@, cur as int, idx as int));
                    let next = index_of(node.children[idx], n);
                    proof {
                        assert forall|w: K::V| #[trigger]
                            in_range::<K>(self.bounds@[next as int], w) implies in_range::<K>(
                            self.bounds@[from as int],
                            w,
                        ) by {
                            lemma_slot_in_node_range(
                                self.nodes(),
                                self.bounds@,
                                self.b,
                                cur as int,
                                idx as int,
                                w,
                            );
                        }
                    }
                    cur = next;
                },
            }
        }
        cur
    }

    /// Whether a descent from the node at `node_offset` finds the key: the
    /// tree has the key, and the node is responsible for it. Fails with
    /// `OutOfBounds` exactly when no node has the offset.
    pub fn has_key_node(&mut self, node_offset: i64, key: K) -> (r: Result<bool, HaystackError>)
        requires
            old(self).wf(),
        ensures
            *final(self) == *old(self),
            match r {
                Ok(found) => {
                    &&& 0 <= node_offset < old(self).node_count()
                    &&& found == (old(self)@.contains_key(key@) && in_range::<K>(
                        old(self).bounds@[node_offset as int],
                        key@,
                    ))
                },
                Err(e) => e == HaystackError::OutOfBounds && !(0 <= node_offset
                    < old(self).node_count()),
            },
    {
        let n: usize = self.storage_manager.data.len();
        if node_offset < 0 || node_offset as u64 >= n as u64 {
            return Err(HaystackError::OutOfBounds);
        }
        let from = index_of(node_offset, n);
        let leaf = self.descend(from, &key);
        assert(node_ok(self.nodes(), self.bounds@, self.b, leaf as int));
        let node = &self.storage_manager.data[leaf];
        let pos = lower_bound(&node.keys, &key);
        proof {
            lemma_position(node.keys@, key@, pos as int);
        }
        if pos < node.keys.len() && !key.less_than(&node.keys[pos]) {
            proof {
                K::lemma_key_order(key@, node.keys@[pos as int]@, key@);
                assert(leaf_slot(self.nodes(), leaf as int, pos as int));
                assert(in_range::<K>(self.bounds@[leaf as int], node.keys@[pos as int]@));
            }
            Ok(true)
        } else {
            proof {
                if pos < node.keys@.len() {
                    K::lemma_key_order(key@, node.keys@[pos as int]@, key@);
                }
                if self.map@.contains_key(key@) && in_range::<K>(
                    self.bounds@[node_offset as int],
                    key@,
                ) {
                    self.lemma_only_in_own_leaf(leaf as int, key@);
                }
            }
            Ok(false)
        }
    }

    /// Appends to `out`, in ascending order, the entries below the node at
    /// `at` whose keys lie between `start` and `end`.
    fn get_range_node(&self, at: usize, start: &K, end: &K, out: &mut Vec<(K, V)>)
        requires
            self.wf(),
            at < self.nodes().len(),
            entries_ascend::<K, V>(old(out)@),
            all_before::<K, V>(old(out)@, self.bounds@[at as int].lo),
        ensures
            old(out)@.len() <= final(out)@.len(),
            forall|x: int| 0 <= x < old(out)@.len() ==> final(out)@[x] == old(out)@[x],
            entries_ascend::<K, V>(final(out)@),
            forall|x: int|
                old(out)@.len() <= x < final(out)@.len() ==> {
                    let e = #[trigger] final(out)@[x];
                    &&& self@.contains_key(e.0@)
                    &&& self@[e.0@] == e.1@
                    &&& between::<K>(start@, e.0@, end@)
                    &&& in_range::<K>(self.bounds@[at as int], e.0@)
                },
            forall|k: K::V|
                self@.contains_key(k) && #[trigger] between::<K>(start@, k, end@) && in_range::<K>(
                    self.bounds@[at as int],
                    k,
                ) ==> key_listed(final(out)@, k),
        decreases self.bounds@[at as int].height,
    {
        let n: usize = self.storage_manager.data.len();
        let ghost first = out@;
        let ghost own = self.bounds@[at as int];
        assert(node_ok(self.nodes(), self.bounds@, self.b, at as int));
        let node = &self.storage_manager.data[at];
        match node.node_type {
            NodeType::Leaf => {
                let pos = lower_bound(&node.keys, start);
                let mut j: usize = pos;
                while j < node.keys.len() && node.keys[j].less_than(end)
                    invariant
                        self.wf(),
                        at < self.nodes().len(),
                        node == &self.nodes()[at as int],
                        node.node_type == NodeType::Leaf,
                        node.values@.len() == node.keys@.len(),
                        keys_sorted(node.keys@),
                        own == self.bounds@[at as int],
                        first == old(out)@,
                        all_before::<K, V>(first, own.lo),
                        pos <= j <= node.keys@.len(),
                        forall|i: int| 0 <= i < pos ==> K::key_lt(#[trigger] node.keys@[i]@, start@),
                        forall|i: int|
                            pos <= i < node.keys@.len() ==> !K::key_lt(
                                #[trigger] node.keys@[i]@,
                                start@,
                            ),
                        forall|i: int|
                            0 <= i < node.keys@.len() ==> in_range::<K>(
                                own,
                                #[trigger] node.keys@[i]@,
                            ),
                        out@.len() == first.len() + (j - pos),
                        forall|x: int| 0 <= x < first.len() ==> out@[x] == first[x],
                        entries_ascend::<K, V>(out@),
                        forall|x: int|
                            first.len() <= x < out@.len() ==> {
                                let e = #[trigger] out@[x];
                                &&& e.0@ == node.keys@[pos + x - first.len()]@
                                &&& self@.contains_key(e.0@)
                                &&& self@[e.0@] == e.1@
                                &&& between::<K>(start@, e.0@, end@)
                                &&& in_range::<K>(own, e.0@)
                            },
                    decreases node.keys@.len() - j,
                {
                    proof {
                        assert(leaf_slot(self.nodes(), at as int, j as int));
                    }
                    let ghost before = out@;
                    let key = node.keys[j].duplicate();
                    match &node.values[j] {
                        Some(v) => {
                            out.push((key, v.duplicate()));
                            proof {
                                let k = node.keys@[j as int]@;
                                assert(in_range::<K>(own, k));
                                assert forall|x: int, y: int| 0 <= x < y < out@.len() implies K::key_lt(
                                    (#[trigger] out@[x]).0@,
                                    (#[trigger] out@[y]).0@,
                                ) by {
                                    if y == before.len() {
                                        if x < first.len() {
                                            assert(out@[x] == first[x]);
                                            lemma_lt_le::<K>(
                                                first[x].0@,
                                                own.lo.unwrap(),
                                                k,
                                            );
                                        } else {
                                            assert(out@[x] == before[x]);
                                        }
                                    } else {
                                        assert(out@[x] == before[x]);
                                        assert(out@[y] == before[y]);
                                    }
                                }
                            }
                        },
                        None => {
                            proof {
                                assert(false);
                            }
                        },
                    }
                    j = j + 1;
                }
                proof {
                    assert forall|k: K::V|
                        self@.contains_key(k) && #[trigger] between::<K>(start@, k, end@)
                            && in_range::<K>(own, k) implies key_listed(out@, k) by {
                        self.lemma_only_in_own_leaf(at as int, k);
                        let i = choose|i: int| 0 <= i < node.keys@.len() && (#[trigger] node.keys@[i])@ == k;
                        if i >= j {
                            if i > j {
                                lemma_lt_strict::<K>(
                                    node.keys@[j as int]@,
                                    node.keys@[i]@,
                                );
                                lemma_le_le::<K>(
                                    end@,
                                    node.keys@[j as int]@,
                                    k,
                                );
                            }
                            assert(false);
                        }
                        assert(out@[first.len() + i - pos].0@ == k);
                    }
                }
            },
            NodeType::Internal => {
                let mut idx = child_slot(&node.keys, start);
                assert(slot_ok(self.nodes(), self.bounds@, at as int, idx as int));
                let child = index_of(node.children[idx], n);
                proof {
                    if idx > 0 && own.lo is Some {
                        assert(in_range::<K>(own, node.keys@[idx - 1]@));
                        assert forall|x: int| 0 <= x < first.len() implies K::key_lt(
                            (#[trigger] first[x]).0@,
                            node.keys@[idx - 1]@,
                        ) by {
                            lemma_lt_le::<K>(
                                first[x].0@,
                                own.lo.unwrap(),
                                node.keys@[idx - 1]@,
                            );
                        }
                    }
                }
                self.get_range_node(child, start, end, out);
                proof {
                    self.lemma_range_step(at as int, idx as int, start@, end@, first, first, out@, true);
                }
                while idx < node.keys.len() && node.keys[idx].less_than(end)
                    invariant
                        self.wf(),
                        n == self.nodes().len(),
                        at < self.nodes().len(),
                        node == &self.nodes()[at as int],
                        node.node_type == NodeType::Internal,
                        own == self.bounds@[at as int],
                        first == old(out)@,
                        all_before::<K, V>(first, own.lo),
                        idx <= node.keys@.len(),
                        self.range_done(at as int, idx as int, start@, end@, first, out@),
                    decreases node.keys@.len() - idx,
                {
                    assert(node_ok(self.nodes(), self.bounds@, self.b, at as int));
                    assert(slot_ok(self.nodes(), self.bounds@, at as int, idx + 1));
                    let child = index_of(node.children[idx + 1], n);
                    let ghost before = out@;
                    self.get_range_node(child, start, end, out);
                    proof {
                        self.lemma_range_step(
                            at as int,
                            idx + 1,
                            start@,
                            end@,
                            first,
                            before,
                            out@,
                            false,
                        );
                    }
                    idx = idx + 1;
                }
                proof {
                    assert forall|k: K::V|
                        self@.contains_key(k) && #[trigger] between::<K>(start@, k, end@)
                            && in_range::<K>(own, k) implies key_listed(out@, k) by {
                        if idx < node.keys@.len() {
                            lemma_lt_le::<K>(
                                k,
                                end@,
                                node.keys@[idx as int]@,
                            );
                        }
                    }
                }
            },
        }
    }

    /// What holds of the list while the children of the internal node at
    /// `at` are visited, after the child in slot `idx`: the list has grown
    /// at its end and ascends, its new entries are entries of the tree
    /// between `start` and `end` in the node's range, every entry is before
    /// the separator behind the slot, and every wanted key before that
    /// separator is listed.
    pub closed spec fn range_done(
        &self,
        at: int,
        idx: int,
        start: K::V,
        end: K::V,
        first: Seq<(K, V)>,
        out: Seq<(K, V)>,
    ) -> bool {
        let keys = self.nodes()[at].keys@;
        let own = self.bounds@[at];
        &&& first.len() <= out.len()
        &&& forall|x: int| 0 <= x < first.len() ==> out[x] == first[x]
        &&& entries_ascend::<K, V>(out)
        &&& forall|x: int|
            first.len() <= x < out.len() ==> {
                let e = #[trigger] out[x];
                &&& self@.contains_key(e.0@)
                &&& self@[e.0@] == e.1@
                &&& between::<K>(start, e.0@, end)
                &&& in_range::<K>(own, e.0@)
            }
        &&& idx < keys.len() ==> forall|x: int|
            0 <= x < out.len() ==> K::key_lt((#[trigger] out[x]).0@, keys[idx]@)
        &&& forall|k: K::V|
            self@.contains_key(k) && #[trigger] between::<K>(start, k, end) && in_range::<K>(own, k)
                && (idx < keys.len() ==> K::key_lt(k, keys[idx]@)) ==> key_listed(out, k)
    }

    /// Visiting the child in slot `idx` of the internal node at `at` keeps
    /// what holds of the list. The first child visited is the one that is
    /// responsible for `start`; each later one follows the one before it.
    proof fn lemma_range_step(
        &self,
        at: int,
        idx: int,
        start: K::V,
        end: K::V,
        first: Seq<(K, V)>,
        before: Seq<(K, V)>,
        out: Seq<(K, V)>,
        opening: bool,
    )
        requires
            self.wf(),
            0 <= at < self.nodes().len(),
            self.nodes()[at].node_type == NodeType::Internal,
            0 <= idx < self.nodes()[at].children@.len(),
            all_before::<K, V>(first, self.bounds@[at].lo),
            if opening {
                &&& before == first
                &&& entries_ascend::<K, V>(first)
                &&& forall|j: int|
                    0 <= j < idx ==> !K::key_lt(start, #[trigger] self.nodes()[at].keys@[j]@)
            } else {
                &&& idx >= 1
                &&& self.range_done(at, idx - 1, start, end, first, before)
            },
            before.len() <= out.len(),
            forall|x: int| 0 <= x < before.len() ==> out[x] == before[x],
            entries_ascend::<K, V>(out),
            forall|x: int|
                before.len() <= x < out.len() ==> {
                    let e = #[trigger] out[x];
                    &&& self@.contains_key(e.0@)
                    &&& self@[e.0@] == e.1@
                    &&& between::<K>(start, e.0@, end)
                    &&& in_range::<K>(self.bounds@[self.nodes()[at].children@[idx] as int], e.0@)
                },
            forall|k: K::V|
                self@.contains_key(k) && #[trigger] between::<K>(start, k, end) && in_range::<K>(
                    self.bounds@[self.nodes()[at].children@[idx] as int],
                    k,
                ) ==> key_listed(out, k),
        ensures
            self.range_done(at, idx, start, end, first, out),
    {
        let nodes = self.nodes();
        let keys = nodes[at].keys@;
        let own = self.bounds@[at];
        let c = nodes[at].children@[idx] as int;
        let sub = self.bounds@[c];
        assert(node_ok(nodes, self.bounds@, self.b, at));
        assert(slot_ok(nodes, self.bounds@, at, idx));
        assert forall|x: int| before.len() <= x < out.len() implies in_range::<K>(
            own,
            (#[trigger] out[x]).0@,
        ) by {
            lemma_slot_in_node_range(nodes, self.bounds@, self.b, at, idx, out[x].0@);
        }
        if idx < keys.len() {
            assert(in_range::<K>(own, keys[idx]@));
            assert forall|x: int| 0 <= x < out.len() implies K::key_lt(
                (#[trigger] out[x]).0@,
                keys[idx]@,
            ) by {
                if x < before.len() {
                    assert(out[x] == before[x]);
                    if opening {
                        lemma_lt_le::<K>(
                            first[x].0@,
                            own.lo.unwrap(),
                            keys[idx]@,
                        );
                    } else {
                        K::lemma_key_order(before[x].0@, keys[idx - 1]@, keys[idx]@);
                    }
                }
            }
        }
        assert forall|k: K::V|
            self@.contains_key(k) && #[trigger] between::<K>(start, k, end) && in_range::<K>(own, k)
                && (idx < keys.len() ==> K::key_lt(k, keys[idx]@)) implies key_listed(out, k) by {
            if opening {
                if idx > 0 {
                    lemma_le_le::<K>(keys[idx - 1]@, start, k);
                }
                assert(in_range::<K>(sub, k));
            } else {
                if K::key_lt(k, keys[idx - 1]@) {
                    lemma_stays_listed(before, out, k);
                } else {
                    assert(in_range::<K>(sub, k));
                }
            }
        }
    }

    /// The entries whose keys lie in the half-open range from `start` to
    /// `end`, in ascending order of their keys.
    pub fn get_range(&mut self, start: K, end: K) -> (r: Result<Vec<(K, V)>, HaystackError>)
        requires
            old(self).wf(),
        ensures
            *final(self) == *old(self),
            r is Ok,
            entries_ascend::<K, V>(r.unwrap()@),
            forall|x: int|
                0 <= x < r.unwrap()@.len() ==> {
                    let e = #[trigger] r.unwrap()@[x];
                    &&& old(self)@.contains_key(e.0@)
                    &&& old(self)@[e.0@] == e.1@
                    &&& between::<K>(start@, e.0@, end@)
                },
            forall|k: K::V|
                old(self)@.contains_key(k) && #[trigger] between::<K>(start@, k, end@)
                    ==> key_listed(r.unwrap()@, k),
    {
        let mut result: Vec<(K, V)> = Vec::new();
        let n: usize = self.storage_manager.data.len();
        let root = index_of(self.storage_manager.root_offset, n);
        self.get_range_node(root, &start, &end, &mut result);
        Ok(result)
    }

    /// The number of keys.
    pub fn len(&self) -> (n: usize)
        requires
            self.wf(),
        ensures
            n == self@.dom().len(),
            self@.dom().finite(),
    {
        self.count
    }

    /// No node holds more keys than the fan-out; a leaf holds a value for
    /// each key and an internal node one child more than keys.
    pub proof fn lemma_fanout(&self, i: int)
        requires
            self.wf(),
            0 <= i < self.storage_manager.data@.len(),
        ensures
            3 <= self.b <= MAX_FANOUT,
            self.storage_manager.data@[i].keys@.len() <= self.b,
            match self.storage_manager.data@[i].node_type {
                NodeType::Leaf => self.storage_manager.data@[i].values@.len()
                    == self.storage_manager.data@[i].keys@.len(),
                NodeType::Internal => self.storage_manager.data@[i].children@.len()
                    == self.storage_manager.data@[i].keys@.len() + 1,
            },
    {
        assert(node_ok(self.nodes(), self.bounds@, self.b, i));
    }

    /// A walk down from a node does not leave the node's range: a key in
    /// the range of the node at the end lies in the range of the node at
    /// the start.
    pub proof fn lemma_walk_in_range(&self, top: int, slots: Seq<int>, w: K::V)
        requires
            self.wf(),
            walk_ok(self.nodes(), top, slots),
            in_range::<K>(self.bounds@[walk_end(self.nodes(), top, slots)], w),
        ensures
            0 <= walk_end(self.nodes(), top, slots) < self.nodes().len(),
            in_range::<K>(self.bounds@[top], w),
        decreases slots.len(),
    {
        if slots.len() > 0 {
            let nodes = self.nodes();
            let c = nodes[top].children@[slots[0]] as int;
            assert(node_ok(nodes, self.bounds@, self.b, top));
            assert(slot_ok(nodes, self.bounds@, top, slots[0]));
            self.lemma_walk_in_range(c, slots.drop_first(), w);
            lemma_slot_in_node_range(nodes, self.bounds@, self.b, top, slots[0], w);
        }
    }

    /// The keys of every node ascend strictly, and every key of the
    /// subtree in one slot of an internal node comes strictly before every
    /// key of the subtree in the next slot: the separator between the two
    /// slots is above the one and not above the other. The nodes at `u` and
    /// `v` are nodes of the two subtrees, reached by the walks `left` and
    /// `right` from the children in the slots.
    pub proof fn lemma_keys_in_order(
        &self,
        i: int,
        j: int,
        left: Seq<int>,
        right: Seq<int>,
        x: int,
        y: int,
    )
        requires
            self.wf(),
            0 <= i < self.nodes().len(),
            self.nodes()[i].node_type == NodeType::Internal,
            0 <= j,
            j + 1 < self.nodes()[i].children@.len(),
            walk_ok(self.nodes(), self.nodes()[i].children@[j] as int, left),
            walk_ok(self.nodes(), self.nodes()[i].children@[j + 1] as int, right),
            0 <= x < self.nodes()[walk_end(
                self.nodes(),
                self.nodes()[i].children@[j] as int,
                left,
            )].keys@.len(),
            0 <= y < self.nodes()[walk_end(
                self.nodes(),
                self.nodes()[i].children@[j + 1] as int,
                right,
            )].keys@.len(),
        ensures
            keys_sorted(self.nodes()[i].keys@),
            ({
                let nodes = self.nodes();
                let u = walk_end(nodes, nodes[i].children@[j] as int, left);
                let v = walk_end(nodes, nodes[i].children@[j + 1] as int, right);
                &&& keys_sorted(nodes[u].keys@)
                &&& keys_sorted(nodes[v].keys@)
                &&& K::key_lt(nodes[u].keys@[x]@, nodes[i].keys@[j]@)
                &&& !K::key_lt(nodes[v].keys@[y]@, nodes[i].keys@[j]@)
                &&& K::key_lt(nodes[u].keys@[x]@, nodes[v].keys@[y]@)
            }),
    {
        let nodes = self.nodes();
        let l = nodes[i].children@[j] as int;
        let r = nodes[i].children@[j + 1] as int;
        let u = walk_end(nodes, l, left);
        let v = walk_end(nodes, r, right);
        assert(node_ok(nodes, self.bounds@, self.b, i));
        assert(slot_ok(nodes, self.bounds@, i, j));
        assert(slot_ok(nodes, self.bounds@, i, j + 1));
        self.lemma_walk_ends_in_tree(l, left);
        self.lemma_walk_ends_in_tree(r, right);
        assert(node_ok(nodes, self.bounds@, self.b, u));
        assert(node_ok(nodes, self.bounds@, self.b, v));
        assert(in_range::<K>(self.bounds@[u], nodes[u].keys@[x]@));
        assert(in_range::<K>(self.bounds@[v], nodes[v].keys@[y]@));
        self.lemma_walk_in_range(l, left, nodes[u].keys@[x]@);
        self.lemma_walk_in_range(r, right, nodes[v].keys@[y]@);
        lemma_lt_le::<K>(nodes[u].keys@[x]@, nodes[i].keys@[j]@, nodes[v].keys@[y]@);
    }

    /// A walk down from a node of the tree ends at a node of the tree.
    pub proof fn lemma_walk_ends_in_tree(&self, top: int, slots: Seq<int>)
        requires
            self.wf(),
            0 <= top < self.nodes().len(),
            walk_ok(self.nodes(), top, slots),
        ensures
            0 <= walk_end(self.nodes(), top, slots) < self.nodes().len(),
        decreases slots.len(),
    {
        if slots.len() > 0 {
            let nodes = self.nodes();
            let c = nodes[top].children@[slots[0]] as int;
            assert(node_ok(nodes, self.bounds@, self.b, top));
            assert(slot_ok(nodes, self.bounds@, top, slots[0]));
            self.lemma_walk_ends_in_tree(c, slots.drop_first());
        }
    }
}

/// The entries of a node: those of a leaf with a value for each key, none
/// of an internal node.
pub open spec fn node_entries<A, B>(v: NodeView<A, B>) -> Option<Seq<(A, B)>> {
    match v.node_type {
        NodeType::Internal => Some(Seq::empty()),
        NodeType::Leaf => if v.values.len() == v.keys.len() && (forall|j: int|
            0 <= j < v.values.len() ==> (#[trigger] v.values[j]) is Some) {
            Some(Seq::new(v.keys.len(), |j: int| (v.keys[j], v.values[j].unwrap())))
        } else {
            None
        },
    }
}

/// The entries of all nodes, in the order of the nodes.
pub open spec fn all_entries<A, B>(nodes: Seq<NodeView<A, B>>) -> Option<Seq<(A, B)>>
    decreases nodes.len(),
{
    if nodes.len() == 0 {
        Some(Seq::empty())
    } else {
        match (all_entries(nodes.drop_last()), node_entries(nodes.last())) {
            (Some(a), Some(b)) => Some(a + b),
            _ => None,
        }
    }
}

/// The nodes that a list of images stands for, if each is an image.
pub open spec fn parse_nodes<K: TreeDeserialization, V: TreeDeserialization>(
    blobs: Seq<Seq<u8>>,
) -> Option<Seq<NodeView<K::V, V::V>>> {
    if forall|i: int| 0 <= i < blobs.len() ==> (#[trigger] spec_node_parse::<K, V>(blobs[i])) is Some {
        Some(Seq::new(blobs.len(), |i: int| spec_node_parse::<K, V>(blobs[i]).unwrap()))
    } else {
        None
    }
}

/// The image of every node.
pub open spec fn node_blobs<K: TreeSerialization, V: TreeSerialization>(
    nodes: Seq<NodeView<K::V, V::V>>,
) -> Seq<Seq<u8>> {
    Seq::new(nodes.len(), |i: int| spec_node_bytes::<K, V>(nodes[i]))
}

/// The image of a tree: the fan-out and the offset of the root in eight
/// bytes each, then the image of every node behind its length in eight
/// bytes, in the order of the offsets.
pub open spec fn spec_tree_bytes<K: TreeSerialization, V: TreeSerialization>(
    b: usize,
    root: i64,
    nodes: Seq<NodeView<K::V, V::V>>,
) -> Seq<u8> {
    spec_u64_to_le_bytes(b as u64) + spec_u64_to_le_bytes(spec_u64_of(root)) + frame_all(
        true,
        node_blobs::<K, V>(nodes),
    )
}

/// The entries that an image of a tree holds: with the fan-out, the
/// entries of the leaves in the order of the nodes.
pub open spec fn spec_tree_parse<K: TreeDeserialization, V: TreeDeserialization>(
    s: Seq<u8>,
) -> Option<(usize, Seq<(K::V, V::V)>)> {
    match (spec_read_u64(s, 0), spec_read_i64(s, 8), parse_frames_to_end(true, s, 16)) {
        (Some(b), Some(root), Some(blobs)) => match parse_nodes::<K, V>(blobs) {
            Some(nodes) => match all_entries(nodes) {
                Some(entries) => if 3 <= b <= MAX_FANOUT && 0 <= root < nodes.len() {
                    Some((b as usize, entries))
                } else {
                    None
                },
                None => None,
            },
            None => None,
        },
        _ => None,
    }
}

/// What an image of a tree holds: the fan-out, the offset of the root, and
/// the nodes.
pub open spec fn spec_tree_nodes<K: TreeDeserialization, V: TreeDeserialization>(
    s: Seq<u8>,
) -> Option<(usize, i64, Seq<NodeView<K::V, V::V>>)> {
    match (spec_read_u64(s, 0), spec_read_i64(s, 8), parse_frames_to_end(true, s, 16)) {
        (Some(b), Some(root), Some(blobs)) => match parse_nodes::<K, V>(blobs) {
            Some(nodes) => if 3 <= b <= MAX_FANOUT && 0 <= root < nodes.len() {
                Some((b as usize, root, nodes))
            } else {
                None
            },
            None => None,
        },
        _ => None,
    }
}

/// The nodes as an image keeps them: a parent offset of -1 stands for no
/// parent.
pub open spec fn kept_views<A, B>(views: Seq<NodeView<A, B>>) -> Seq<NodeView<A, B>> {
    Seq::new(
        views.len(),
        |i: int| NodeView { parent_offset: spec_parent_norm(views[i].parent_offset), ..views[i] },
    )
}

/// Whether the nodes are nodes of a tree with the fan-out `b` and the root
/// at `root` that have the views `views`, with no more entries than can be
/// counted.
pub open spec fn stands_for<K: TreeKey + TreeSerialization, V: TreeSerialization>(
    nodes: Seq<Node<K, V>>,
    b: usize,
    root: i64,
    views: Seq<NodeView<K::V, V::V>>,
) -> bool {
    &&& in_order(nodes, b, root)
    &&& node_views(nodes) == views
    &&& all_entries(views) is Some
    &&& all_entries(views).unwrap().len() <= usize::MAX
}

/// Whether `s` is the image of a tree in order: its nodes go together.
/// Every node has at most as many keys as the fan-out, strictly ascending
/// and between the separators around the slots that lead to the node; a
/// leaf has a value for each key; an internal node has one child more than
/// keys; all leaves stand at one depth; and every node but the root is the
/// child of one slot.
pub open spec fn image_in_order<K: TreeKey + TreeDeserialization, V: TreeDeserialization>(
    s: Seq<u8>,
) -> bool {
    spec_tree_nodes::<K, V>(s) is Some && exists|nodes: Seq<Node<K, V>>|
        #[trigger] stands_for(
            nodes,
            spec_tree_nodes::<K, V>(s).unwrap().0,
            spec_tree_nodes::<K, V>(s).unwrap().1,
            spec_tree_nodes::<K, V>(s).unwrap().2,
        )
}

/// The views of a list of nodes.
pub open spec fn node_views<K: TreeKey + TreeSerialization, V: TreeSerialization>(
    nodes: Seq<Node<K, V>>,
) -> Seq<NodeView<K::V, V::V>> {
    Seq::new(nodes.len(), |i: int| nodes[i]@)
}

impl<K: TreeKey + TreeDeserialization, V: TreeDeserialization> Tree<K, V> {
    /// The image of the tree.
    pub closed spec fn image(&self) -> Seq<u8> {
        spec_tree_bytes::<K, V>(
            self.b,
            self.storage_manager.root_offset,
            node_views(self.nodes()),
        )
    }

    /// Whether the lengths inside every node fit the length fields of the
    /// image. Every tree in memory does.
    pub closed spec fn encodable(&self) -> bool {
        forall|i: int|
            0 <= i < self.nodes().len() ==> node_encodable::<K, V>(
                #[trigger] node_views(self.nodes())[i],
            ) && spec_node_bytes::<K, V>(node_views(self.nodes())[i]).len() <= u64::MAX
    }

    /// Reading the image of a tree gives its fan-out, and entries that make
    /// up the map of the tree.
    pub proof fn lemma_image_round_trip(&self)
        requires
            self.wf(),
            self.encodable(),
        ensures
            spec_tree_parse::<K, V>(self.image()) is Some,
            spec_tree_parse::<K, V>(self.image()).unwrap().0 == self.b,
            fold_entries(Map::empty(), spec_tree_parse::<K, V>(self.image()).unwrap().1) == self@,
            spec_tree_parse::<K, V>(self.image()).unwrap().1.len() == self@.dom().len(),
    {
        lemma_auto_spec_u64_to_from_le_bytes();
        let nodes = self.nodes();
        let views = node_views(nodes);
        let blobs = node_blobs::<K, V>(views);
        let root = self.storage_manager.root_offset;
        let a = spec_u64_to_le_bytes(self.b as u64);
        let c = spec_u64_to_le_bytes(spec_u64_of(root));
        let f = frame_all(true, blobs);
        let s = self.image();
        let z = Seq::<u8>::empty();
        assert(s =~= z + a + (c + f));
        lemma_read_back(z, c + f);
        assert(s =~= a + c + f);
        lemma_read_back(a, f);
        assert(s =~= (a + c) + f);
        assert forall|i: int| 0 <= i < blobs.len() implies (#[trigger] blobs[i]).len() <= u64::MAX by {
            assert(node_encodable::<K, V>(views[i]));
        }
        lemma_parse_frames_to_end_of_frame_all(true, a + c, blobs);
        let parsed = Seq::new(
            views.len(),
            |i: int| NodeView { parent_offset: spec_parent_norm(views[i].parent_offset), ..views[i] },
        );
        assert forall|i: int| 0 <= i < blobs.len() implies (#[trigger] spec_node_parse::<K, V>(
            blobs[i],
        )) == Some(parsed[i]) by {
            assert(node_encodable::<K, V>(views[i]));
            lemma_node_round_trip::<K, V>(views[i]);
        }
        assert(Seq::new(blobs.len(), |i: int| spec_node_parse::<K, V>(blobs[i]).unwrap())
            =~= parsed);
        self.lemma_entries_of_nodes(parsed, nodes.len());
        assert(parsed.subrange(0, nodes.len() as int) =~= parsed);
        let entries = all_entries(parsed).unwrap();
        let keys = Seq::new(entries.len(), |x: int| entries[x].0);
        assert(keys.no_duplicates()) by {
            assert forall|x: int, y: int|
                0 <= x < keys.len() && 0 <= y < keys.len() && x != y implies keys[x] != keys[y] by {
                if x < y {
                    assert(entries[x].0 != entries[y].0);
                } else {
                    assert(entries[y].0 != entries[x].0);
                }
            }
        }
        keys.unique_seq_to_set();
        assert(keys.to_set() =~= self@.dom()) by {
            assert forall|k: K::V| keys.to_set().contains(k) == self@.dom().contains(k) by {
                if keys.to_set().contains(k) {
                    let x = choose|x: int| 0 <= x < keys.len() && keys[x] == k;
                    assert(self@.contains_key(entries[x].0));
                }
                if self@.dom().contains(k) {
                    assert(held(nodes, k));
                    let (i, j) = choose|i: int, j: int| #[trigger]
                        leaf_slot(nodes, i, j) && nodes[i].keys@[j]@ == k;
                    assert(pair_listed(entries, k));
                    let x = choose|x: int| 0 <= x < entries.len() && (#[trigger] entries[x]).0 == k;
                    assert(keys[x] == k);
                }
            }
        }
        assert forall|k: K::V| self@.contains_key(k) <==> fold_entries(
            Map::<K::V, V::V>::empty(),
            entries,
        ).contains_key(k) by {
            lemma_fold_keys(Map::<K::V, V::V>::empty(), entries, k);
            if self@.contains_key(k) {
                assert(held(nodes, k));
                let (i, j) = choose|i: int, j: int| #[trigger]
                    leaf_slot(nodes, i, j) && nodes[i].keys@[j]@ == k;
                assert(pair_listed(entries, k));
            }
            if pair_listed(entries, k) {
                let x = choose|x: int| 0 <= x < entries.len() && (#[trigger] entries[x]).0 == k;
            }
        }
        assert forall|k: K::V| self@.contains_key(k) implies fold_entries(
            Map::<K::V, V::V>::empty(),
            entries,
        )[k] == self@[k] by {
            lemma_fold_value(Map::<K::V, V::V>::empty(), entries, k, self@[k]);
        }
        assert(fold_entries(Map::<K::V, V::V>::empty(), entries) =~= self@);
    }

    /// Reading the image of a tree gives the tree back: the image is one of
    /// a tree in order, with the fan-out, the root and the nodes of the
    /// tree at their offsets, a parent offset of -1 read as none; and the
    /// image of what was read is the image again.
    pub proof fn lemma_image_restores(&self)
        requires
            self.wf(),
            self.encodable(),
        ensures
            image_in_order::<K, V>(self.image()),
            spec_tree_nodes::<K, V>(self.image()) == Some(
                (
                    self.b,
                    self.storage_manager.root_offset,
                    kept_views(node_views(self.nodes())),
                ),
            ),
            spec_tree_bytes::<K, V>(
                self.b,
                self.storage_manager.root_offset,
                kept_views(node_views(self.nodes())),
            ) == self.image(),
    {
        lemma_auto_spec_u64_to_from_le_bytes();
        let nodes = self.nodes();
        let views = node_views(nodes);
        let blobs = node_blobs::<K, V>(views);
        let root = self.storage_manager.root_offset;
        let a = spec_u64_to_le_bytes(self.b as u64);
        let c = spec_u64_to_le_bytes(spec_u64_of(root));
        let f = frame_all(true, blobs);
        let s = self.image();
        let z = Seq::<u8>::empty();
        assert(s =~= z + a + (c + f));
        lemma_read_back(z, c + f);
        assert(s =~= a + c + f);
        lemma_read_back(a, f);
        assert(s =~= (a + c) + f);
        assert forall|i: int| 0 <= i < blobs.len() implies (#[trigger] blobs[i]).len() <= u64::MAX by {
            assert(node_encodable::<K, V>(views[i]));
        }
        lemma_parse_frames_to_end_of_frame_all(true, a + c, blobs);
        let kept = kept_views(views);
        assert forall|i: int| 0 <= i < blobs.len() implies (#[trigger] spec_node_parse::<K, V>(
            blobs[i],
        )) == Some(kept[i]) by {
            assert(node_encodable::<K, V>(views[i]));
            lemma_node_round_trip::<K, V>(views[i]);
        }
        assert(Seq::new(blobs.len(), |i: int| spec_node_parse::<K, V>(blobs[i]).unwrap())
            =~= kept);
        assert(spec_tree_nodes::<K, V>(s) == Some((self.b, root, kept)));
        let w = Seq::new(
            nodes.len(),
            |i: int| Node { parent_offset: spec_parent_norm(nodes[i].parent_offset), ..nodes[i] },
        );
        assert(node_views(w) =~= kept);
        assert forall|i: int| 0 <= i < nodes.len() implies same_shape(#[trigger] nodes[i], w[i]) by {}
        lemma_same_shape_keeps_all(nodes, w, self.bounds@, self.b, root, self.map@);
        assert forall|i: int| 0 <= i < nodes.len() implies (#[trigger] w[i]).children@
            == nodes[i].children@ by {}
        lemma_links_same(nodes, w, self.up@, root);
        assert(frame_ok(w, self.bounds@, self.b, root));
        assert(in_order(w, self.b, root));
        self.lemma_image_round_trip();
        assert(all_entries(kept) is Some && all_entries(kept).unwrap().len() <= usize::MAX);
        assert(stands_for(w, self.b, root, kept));
        let found = spec_tree_nodes::<K, V>(s).unwrap();
        assert(stands_for(w, found.0, found.1, found.2));
        assert(node_blobs::<K, V>(kept) =~= blobs) by {
            assert forall|i: int| 0 <= i < blobs.len() implies node_blobs::<K, V>(kept)[i]
                == blobs[i] by {
                assert(spec_node_bytes::<K, V>(kept[i]) == spec_node_bytes::<K, V>(views[i]));
            }
        }
    }

    /// A tree that holds what the image of this tree holds has the same
    /// image, and as many nodes.
    pub proof fn lemma_same_image(&self, other: &Self)
        requires
            self.wf(),
            self.encodable(),
            spec_tree_nodes::<K, V>(self.image()) == Some(
                (other.b, other.storage_manager.root_offset, node_views(other.nodes())),
            ),
        ensures
            other.image() == self.image(),
            other.nodes().len() == self.nodes().len(),
    {
        self.lemma_image_restores();
        assert(node_views(other.nodes()).len() == other.nodes().len());
        assert(kept_views(node_views(self.nodes())).len() == self.nodes().len());
    }

    /// A tree in order that holds what the image of this tree holds is
    /// the same map, and has the same room.
    pub proof fn lemma_same_tree(&self, other: &Self)
        requires
            self.wf(),
            self.encodable(),
            other.wf(),
            spec_tree_nodes::<K, V>(self.image()) == Some(
                (other.b, other.storage_manager.root_offset, node_views(other.nodes())),
            ),
        ensures
            other@ == self@,
            forall|m: nat| other.room(m) == self.room(m),
    {
        self.lemma_image_restores();
        self.lemma_image_round_trip();
        let mine = self.nodes();
        let theirs = other.nodes();
        let kept = kept_views(node_views(mine));
        let root = self.storage_manager.root_offset;
        let n = mine.len();
        assert(node_views(theirs).len() == theirs.len());
        assert(kept.len() == mine.len());
        assert forall|i: int| 0 <= i < n implies (#[trigger] theirs[i])@.keys == mine[i]@.keys
            && theirs[i]@.values == mine[i]@.values && theirs[i].node_type == mine[i].node_type
            && theirs[i].children@ == mine[i].children@ by {
            assert(node_views(theirs)[i] == theirs[i]@);
            assert(kept[i].keys == mine[i]@.keys);
        }
        assert forall|i: int| 0 <= i < n implies shape_ok(mine, self.b, i) by {
            assert(node_ok(mine, self.bounds@, self.b, i));
            lemma_shape_of_node(mine, self.bounds@, self.b, i);
        }
        lemma_sink_same(mine, theirs, self.b, root as int, n);
        lemma_sink_is_height(mine, self.bounds@, self.b, root as int, n);
        lemma_sink_is_height(theirs, other.bounds@, other.b, root as int, n);
        assert(other.depth() == self.depth());
        let views = node_views(theirs);
        assert forall|i: int| 0 <= i < views.len() implies (#[trigger] views[i]).keys
            == theirs[i]@.keys && views[i].values == theirs[i]@.values && views[i].node_type
            == theirs[i].node_type by {}
        other.lemma_entries_make_map(views);
        let found = fold_entries(Map::<K::V, V::V>::empty(), all_entries(views).unwrap());
        lemma_content_is_one(theirs, found, other@);
        assert(found == self@);
        assert(other.count == self.count);
    }

    /// The entries of the first `n` nodes of the image are the entries of
    /// the leaf slots of these nodes.
    proof fn lemma_entries_of_nodes(&self, parsed: Seq<NodeView<K::V, V::V>>, n: nat)
        requires
            self.framed(),
            n <= self.nodes().len(),
            parsed.len() == self.nodes().len(),
            forall|i: int|
                0 <= i < parsed.len() ==> (#[trigger] parsed[i]).keys == self.nodes()[i]@.keys
                    && parsed[i].values == self.nodes()[i]@.values && parsed[i].node_type
                    == self.nodes()[i].node_type,
        ensures
            all_entries(parsed.subrange(0, n as int)) is Some,
            content_ok(self.nodes(), self@) ==> entries_in_map(
                all_entries(parsed.subrange(0, n as int)).unwrap(),
                self@,
            ),
            forall|x: int|
                0 <= x < all_entries(parsed.subrange(0, n as int)).unwrap().len() ==> slot_holds(
                    self.nodes(),
                    n as int,
                    (#[trigger] all_entries(parsed.subrange(0, n as int)).unwrap()[x]).0,
                    all_entries(parsed.subrange(0, n as int)).unwrap()[x].1,
                ),
            forall|i: int, j: int|
                0 <= i < n && #[trigger] leaf_slot(self.nodes(), i, j) ==> pair_listed(
                    all_entries(parsed.subrange(0, n as int)).unwrap(),
                    self.nodes()[i].keys@[j]@,
                ),
            forall|x: int|
                0 <= x < all_entries(parsed.subrange(0, n as int)).unwrap().len() ==> slot_before(
                    self.nodes(),
                    n as int,
                    (#[trigger] all_entries(parsed.subrange(0, n as int)).unwrap()[x]).0,
                ),
            forall|x: int, y: int|
                0 <= x < y < all_entries(parsed.subrange(0, n as int)).unwrap().len() ==> (
                #[trigger] all_entries(parsed.subrange(0, n as int)).unwrap()[x]).0 != (
                #[trigger] all_entries(parsed.subrange(0, n as int)).unwrap()[y]).0,
        decreases n,
    {
        let nodes = self.nodes();
        let prefix = parsed.subrange(0, n as int);
        if n > 0 {
            self.lemma_entries_of_nodes(parsed, (n - 1) as nat);
            assert(prefix.drop_last() =~= parsed.subrange(0, n - 1));
            assert(prefix.last() == parsed[n - 1]);
            let before = all_entries(prefix.drop_last()).unwrap();
            let v = parsed[n - 1];
            assert(node_ok(nodes, self.bounds@, self.b, n - 1));
            assert forall|x: int| 0 <= x < before.len() implies slot_holds(
                nodes,
                n as int,
                (#[trigger] before[x]).0,
                before[x].1,
            ) by {
                assert(slot_holds(nodes, n - 1, before[x].0, before[x].1));
                let (i, j) = choose|i: int, j: int|
                    i < n - 1 && #[trigger] leaf_slot(nodes, i, j) && nodes[i].keys@[j]@
                        == before[x].0 && option_view(nodes[i].values@[j]) == Some(before[x].1);
                assert(i < n && leaf_slot(nodes, i, j));
            }
            assert forall|x: int| 0 <= x < before.len() implies slot_before(
                nodes,
                n as int,
                (#[trigger] before[x]).0,
            ) by {
                assert(slot_before(nodes, n - 1, before[x].0));
                let (i, j) = choose|i: int, j: int|
                    i < n - 1 && #[trigger] leaf_slot(nodes, i, j) && nodes[i].keys@[j]@
                        == before[x].0;
                assert(i < n && leaf_slot(nodes, i, j));
            }
            match v.node_type {
                NodeType::Internal => {
                    assert(before + Seq::<(K::V, V::V)>::empty() =~= before);
                },
                NodeType::Leaf => {
                    assert forall|j: int| 0 <= j < v.values.len() implies (
                    #[trigger] v.values[j]) is Some by {
                        assert(nodes[n - 1].values@[j] is Some);
                    }
                    let mine = node_entries(v).unwrap();
                    let all = before + mine;
                    assert forall|x: int| 0 <= x < all.len() implies slot_holds(
                        nodes,
                        n as int,
                        (#[trigger] all[x]).0,
                        all[x].1,
                    ) by {
                        if x >= before.len() {
                            let j = x - before.len();
                            assert(leaf_slot(nodes, n - 1, j));
                            assert(all[x] == mine[j]);
                            assert(v.values[j] == option_view(nodes[n - 1].values@[j]));
                        } else {
                            assert(all[x] == before[x]);
                        }
                    }
                    assert forall|x: int| 0 <= x < all.len() implies slot_before(
                        nodes,
                        n as int,
                        (#[trigger] all[x]).0,
                    ) by {
                        if x >= before.len() {
                            let j = x - before.len();
                            assert(leaf_slot(nodes, n - 1, j));
                            assert(all[x].0 == nodes[n - 1].keys@[j]@);
                        } else {
                            assert(all[x] == before[x]);
                        }
                    }
                    assert forall|x: int, y: int| 0 <= x < y < all.len() implies (#[trigger] all[x]).0
                        != (#[trigger] all[y]).0 by {
                        if y < before.len() {
                            assert(all[x] == before[x] && all[y] == before[y]);
                        } else {
                            let d = y - before.len();
                            assert(leaf_slot(nodes, n - 1, d));
                            assert(all[y].0 == nodes[n - 1].keys@[d]@);
                            if x >= before.len() {
                                let c = x - before.len();
                                assert(leaf_slot(nodes, n - 1, c));
                                assert(all[x].0 == nodes[n - 1].keys@[c]@);
                                self.lemma_slots_differ(n - 1, c, n - 1, d);
                            } else {
                                assert(all[x] == before[x]);
                                assert(slot_before(nodes, n - 1, before[x].0));
                                let (i, j) = choose|i: int, j: int|
                                    i < n - 1 && #[trigger] leaf_slot(nodes, i, j)
                                        && nodes[i].keys@[j]@ == before[x].0;
                                self.lemma_slots_differ(i, j, n - 1, d);
                            }
                        }
                    }
                    if content_ok(nodes, self@) {
                        assert forall|x: int| 0 <= x < all.len() implies self@.contains_key(
                            (#[trigger] all[x]).0,
                        ) && self@[all[x].0] == all[x].1 by {
                            if x >= before.len() {
                                let j = x - before.len();
                                assert(leaf_slot(nodes, n - 1, j));
                            } else {
                                assert(all[x] == before[x]);
                            }
                        }
                    }
                    assert forall|i: int, j: int|
                        0 <= i < n && #[trigger] leaf_slot(nodes, i, j) implies pair_listed(
                        all,
                        nodes[i].keys@[j]@,
                    ) by {
                        if i == n - 1 {
                            assert(all[before.len() + j] == mine[j]);
                            assert(all[before.len() + j].0 == nodes[i].keys@[j]@);
                        } else {
                            let x = choose|x: int|
                                0 <= x < before.len() && (#[trigger] before[x]).0
                                    == nodes[i].keys@[j]@;
                            assert(all[x] == before[x]);
                            assert(all[x].0 == nodes[i].keys@[j]@);
                        }
                    }
                },
            }
        }
    }

    /// The entries of the image of a structure make up a map of which the
    /// leaves hold exactly the entries, with as many keys as there are
    /// entries.
    proof fn lemma_entries_make_map(&self, parsed: Seq<NodeView<K::V, V::V>>)
        requires
            self.framed(),
            parsed.len() == self.nodes().len(),
            forall|i: int|
                0 <= i < parsed.len() ==> (#[trigger] parsed[i]).keys == self.nodes()[i]@.keys
                    && parsed[i].values == self.nodes()[i]@.values && parsed[i].node_type
                    == self.nodes()[i].node_type,
        ensures
            all_entries(parsed) is Some,
            content_ok(
                self.nodes(),
                fold_entries(Map::<K::V, V::V>::empty(), all_entries(parsed).unwrap()),
            ),
            fold_entries(Map::<K::V, V::V>::empty(), all_entries(parsed).unwrap()).dom().finite(),
            fold_entries(Map::<K::V, V::V>::empty(), all_entries(parsed).unwrap()).dom().len()
                == all_entries(parsed).unwrap().len(),
    {
        let nodes = self.nodes();
        self.lemma_entries_of_nodes(parsed, nodes.len());
        assert(parsed.subrange(0, nodes.len() as int) =~= parsed);
        let entries = all_entries(parsed).unwrap();
        let m = fold_entries(Map::<K::V, V::V>::empty(), entries);
        let keys = Seq::new(entries.len(), |x: int| entries[x].0);
        assert(keys.no_duplicates()) by {
            assert forall|x: int, y: int|
                0 <= x < keys.len() && 0 <= y < keys.len() && x != y implies keys[x] != keys[y] by {
                if x < y {
                    assert(entries[x].0 != entries[y].0);
                } else {
                    assert(entries[y].0 != entries[x].0);
                }
            }
        }
        keys.unique_seq_to_set();
        vstd::seq_lib::seq_to_set_is_finite(keys);
        assert(keys.to_set() =~= m.dom()) by {
            assert forall|k: K::V| keys.to_set().contains(k) == m.dom().contains(k) by {
                lemma_fold_keys(Map::<K::V, V::V>::empty(), entries, k);
                if keys.to_set().contains(k) {
                    let x = choose|x: int| 0 <= x < keys.len() && keys[x] == k;
                    assert(entries[x].0 == k);
                }
                if pair_listed(entries, k) {
                    let x = choose|x: int| 0 <= x < entries.len() && (#[trigger] entries[x]).0 == k;
                    assert(keys[x] == k);
                }
            }
        }
        assert forall|i: int, j: int| #[trigger] leaf_slot(nodes, i, j) implies m.contains_key(
            nodes[i].keys@[j]@,
        ) && Some(m[nodes[i].keys@[j]@]) == option_view(nodes[i].values@[j]) by {
            let k = nodes[i].keys@[j]@;
            lemma_fold_keys(Map::<K::V, V::V>::empty(), entries, k);
            assert(pair_listed(entries, k));
            let x = choose|x: int| 0 <= x < entries.len() && (#[trigger] entries[x]).0 == k;
            assert forall|y: int| 0 <= y < entries.len() && (#[trigger] entries[y]).0
                == k implies entries[y].1 == entries[x].1 by {
                if y < x {
                    assert(entries[y].0 != entries[x].0);
                } else if x < y {
                    assert(entries[x].0 != entries[y].0);
                }
            }
            lemma_fold_value(Map::<K::V, V::V>::empty(), entries, k, entries[x].1);
            assert(slot_holds(nodes, nodes.len() as int, entries[x].0, entries[x].1));
            let (a, c) = choose|a: int, c: int|
                a < nodes.len() && #[trigger] leaf_slot(nodes, a, c) && nodes[a].keys@[c]@ == k
                    && option_view(nodes[a].values@[c]) == Some(entries[x].1);
            if a != i || c != j {
                self.lemma_slots_differ(a, c, i, j);
            }
        }
        assert forall|k: K::V| m.contains_key(k) implies #[trigger] held(nodes, k) by {
            lemma_fold_keys(Map::<K::V, V::V>::empty(), entries, k);
            let x = choose|x: int| 0 <= x < entries.len() && (#[trigger] entries[x]).0 == k;
            assert(slot_holds(nodes, nodes.len() as int, entries[x].0, entries[x].1));
        }
    }

    /// The image of the tree.
    pub fn to_binary(&mut self) -> (bytes: Vec<u8>)
        requires
            old(self).wf(),
        ensures
            *final(self) == *old(self),
            bytes@ == old(self).image(),
            old(self).encodable(),
    {
        let mut out: Vec<u8> = Vec::new();
        write_u64(&mut out, self.b as u64);
        write_i64(&mut out, self.storage_manager.root_offset);
        let mut blobs: Vec<Vec<u8>> = Vec::new();
        let mut i: usize = 0;
        let ghost views = node_views(self.nodes());
        while i < self.storage_manager.data.len()
            invariant
                i <= self.nodes().len(),
                self.wf(),
                *self == *old(self),
                views == node_views(self.nodes()),
                blobs@.len() == i,
                forall|j: int|
                    0 <= j < i ==> (#[trigger] blobs@[j])@ == spec_node_bytes::<K, V>(views[j])
                        && node_encodable::<K, V>(views[j]),
            decreases self.nodes().len() - i,
        {
            proof {
                assert(node_ok(self.nodes(), self.bounds@, self.b, i as int));
            }
            blobs.push(self.storage_manager.data[i].serialize());
            i = i + 1;
        }
        write_frames(&mut out, &blobs, true);
        proof {
            assert(blob_views(blobs@) =~= node_blobs::<K, V>(views));
            assert forall|i: int| 0 <= i < self.nodes().len() implies node_encodable::<K, V>(
                #[trigger] node_views(self.nodes())[i],
            ) && spec_node_bytes::<K, V>(node_views(self.nodes())[i]).len() <= u64::MAX by {
                assert(blobs@[i]@.len() <= u64::MAX);
            }
        }
        out
    }

    /// The tree that `data` is the image of: the nodes of the image at
    /// their offsets, with the image's fan-out and the image's root. The
    /// nodes are held against the invariant of the tree. Fails with
    /// `Corruption` exactly when `data` is no image of a tree in order.
    pub fn from_binary(data: Vec<u8>) -> (r: Result<Tree<K, V>, HaystackError>)
        ensures
            match r {
                Ok(tree) => {
                    &&& tree.wf()
                    &&& image_in_order::<K, V>(data@)
                    &&& spec_tree_nodes::<K, V>(data@) == Some(
                        (tree.b, tree.storage_manager.root_offset, node_views(tree.nodes())),
                    )
                    &&& spec_tree_parse::<K, V>(data@) is Some
                    &&& tree.b == spec_tree_parse::<K, V>(data@).unwrap().0
                    &&& tree@ == fold_entries(
                        Map::empty(),
                        spec_tree_parse::<K, V>(data@).unwrap().1,
                    )
                },
                Err(e) => e == HaystackError::Corruption && !image_in_order::<K, V>(data@),
            },
    {
        let bytes = data.as_slice();
        let b = match read_u64(bytes, 0) {
            Some(x) => x,
            None => {
                return Err(HaystackError::Corruption);
            },
        };
        let root = match read_i64(bytes, 8) {
            Some(x) => x,
            None => {
                return Err(HaystackError::Corruption);
            },
        };
        let blobs = match read_frames_to_end(bytes, 16, true) {
            Some(x) => x,
            None => {
                return Err(HaystackError::Corruption);
            },
        };
        // All nodes are read, then held against the invariant as a whole.
        let mut nodes: Vec<Node<K, V>> = Vec::new();
        let mut i: usize = 0;
        let ghost all = blob_views(blobs@);
        while i < blobs.len()
            invariant
                i <= blobs@.len(),
                all == blob_views(blobs@),
                spec_read_u64(data@, 0) == Some(b),
                spec_read_i64(data@, 8) == Some(root),
                parse_frames_to_end(true, data@, 16) == Some(all),
                nodes@.len() == i,
                forall|j: int|
                    0 <= j < i ==> (#[trigger] spec_node_parse::<K, V>(all[j])) == Some(nodes@[j]@),
                all_entries(node_views(nodes@)) is Some,
            decreases blobs@.len() - i,
        {
            let node = match Node::<K, V>::deserialize(blobs[i].as_slice()) {
                Ok(x) => x,
                Err(_) => {
                    assert(spec_node_parse::<K, V>(all[i as int]) is None);
                    return Err(HaystackError::Corruption);
                },
            };
            let ghost before = node_views(nodes@);
            let ghost view = node@;
            let fits = leaf_is_aligned(&node);
            nodes.push(node);
            proof {
                let after = node_views(nodes@);
                assert(after.drop_last() =~= before);
                assert(after.last() == view);
            }
            if !fits {
                proof {
                    lemma_entries_stay_broken::<K, V>(
                        Seq::new(all.len(), |i: int| spec_node_parse::<K, V>(all[i]).unwrap()),
                        node_views(nodes@),
                    );
                }
                return Err(HaystackError::Corruption);
            }
            i = i + 1;
        }
        proof {
            assert(Seq::new(all.len(), |i: int| spec_node_parse::<K, V>(all[i]).unwrap())
                =~= node_views(nodes@));
        }
        if b < 3 || b > MAX_FANOUT as u64 || root < 0 || root as u64 >= nodes.len() as u64 {
            return Err(HaystackError::Corruption);
        }
        let ghost views = node_views(nodes@);
        let ghost entries = all_entries(views).unwrap();
        assert(views.subrange(0, 0) =~= Seq::empty());
        assert(spec_tree_parse::<K, V>(data@) == Some((b as usize, entries)));
        assert(spec_tree_nodes::<K, V>(data@) == Some((b as usize, root, views)));
        let mut total: usize = 0;
        let mut i: usize = 0;
        while i < nodes.len()
            invariant
                i <= nodes@.len(),
                views == node_views(nodes@),
                entries == all_entries(views).unwrap(),
                all_entries(views) is Some,
                3 <= b <= MAX_FANOUT,
                spec_tree_nodes::<K, V>(data@) == Some((b as usize, root, views)),
                all_entries(views.subrange(0, i as int)) is Some,
                total == all_entries(views.subrange(0, i as int)).unwrap().len(),
            decreases nodes@.len() - i,
        {
            proof {
                lemma_entries_step(views, i + 1);
            }
            match nodes[i].node_type {
                NodeType::Internal => {
                    assert(node_entries(views[i as int]).unwrap().len() == 0);
                },
                NodeType::Leaf => {
                    let more: usize = nodes[i].keys.len();
                    assert(node_entries(views[i as int]).unwrap().len() == more);
                    if more > usize::MAX - total {
                        proof {
                            lemma_entries_step(views, i + 1);
                        }
                        return Err(HaystackError::Corruption);
                    }
                    total = total + more;
                },
            }
            i = i + 1;
        }
        assert(views.subrange(0, i as int) =~= views);
        let (levels, bounds, up) = match check_nodes(&nodes, b as usize, root) {
            Some(x) => x,
            None => {
                proof {
                    assert forall|other: Seq<Node<K, V>>| !(#[trigger] stands_for(
                        other,
                        b as usize,
                        root,
                        views,
                    )) by {
                        if stands_for(other, b as usize, root, views) {
                            lemma_views_in_order(other, nodes@, b as usize, root);
                        }
                    }
                }
                return Err(HaystackError::Corruption);
            },
        };
        let storage_manager = StorageManager { data: nodes, root_offset: root };
        let mut tree = Tree {
            b: b as usize,
            storage_manager,
            count: total,
            levels,
            bounds,
            up,
            map: Ghost(Map::empty()),
        };
        proof {
            assert(tree.framed());
            assert forall|i: int| 0 <= i < views.len() implies (#[trigger] views[i]).keys
                == tree.nodes()[i]@.keys && views[i].values == tree.nodes()[i]@.values
                && views[i].node_type == tree.nodes()[i].node_type by {}
            tree.lemma_entries_make_map(views);
        }
        tree.map = Ghost(fold_entries(Map::empty(), entries));
        proof {
            assert(tree.framed());
            assert(frame_ok(tree.nodes(), tree.bounds@, b as usize, root));
            assert(links_ok(tree.nodes(), tree.up@, root));
            assert(in_order(tree.nodes(), b as usize, root));
            assert(stands_for(tree.nodes(), b as usize, root, views));
            let found = spec_tree_nodes::<K, V>(data@).unwrap();
            assert(stands_for(tree.nodes(), found.0, found.1, found.2));
            assert(tree.wf());
        }
        Ok(tree)
    }
}

/// The leaves hold exactly the entries of one map.
pub proof fn lemma_content_is_one<K: TreeKey, V: View>(
    nodes: Seq<Node<K, V>>,
    a: Map<K::V, V::V>,
    b: Map<K::V, V::V>,
)
    requires
        content_ok(nodes, a),
        content_ok(nodes, b),
    ensures
        a == b,
{
    assert forall|k: K::V| #[trigger] a.dom().contains(k) implies b.dom().contains(k) && a[k]
        == b[k] by {
        assert(held(nodes, k));
        let (i, j) = choose|i: int, j: int| #[trigger]
            leaf_slot(nodes, i, j) && nodes[i].keys@[j]@ == k;
        assert(leaf_slot(nodes, i, j));
        assert(Some(a[k]) == option_view(nodes[i].values@[j]));
        assert(Some(b[k]) == option_view(nodes[i].values@[j]));
    }
    assert forall|k: K::V| #[trigger] b.dom().contains(k) implies a.dom().contains(k) by {
        assert(held(nodes, k));
        let (i, j) = choose|i: int, j: int| #[trigger]
            leaf_slot(nodes, i, j) && nodes[i].keys@[j]@ == k;
        assert(leaf_slot(nodes, i, j));
    }
    assert(a =~= b);
}

/// The first `n` nodes of a list have the entries of the nodes before the
/// last of them and the entries of that one, and no more than all nodes.
pub proof fn lemma_entries_step<A, B>(nodes: Seq<NodeView<A, B>>, n: int)
    requires
        0 < n <= nodes.len(),
        all_entries(nodes) is Some,
    ensures
        all_entries(nodes.subrange(0, n)) is Some,
        all_entries(nodes.subrange(0, n - 1)) is Some,
        node_entries(nodes[n - 1]) is Some,
        all_entries(nodes.subrange(0, n)).unwrap().len() == all_entries(
            nodes.subrange(0, n - 1),
        ).unwrap().len() + node_entries(nodes[n - 1]).unwrap().len(),
        all_entries(nodes.subrange(0, n)).unwrap().len() <= all_entries(nodes).unwrap().len(),
{
    lemma_entries_of_prefix(nodes, n);
    lemma_entries_prefix_len(nodes, n);
    assert(nodes.subrange(0, n).drop_last() =~= nodes.subrange(0, n - 1));
    assert(nodes.subrange(0, n).last() == nodes[n - 1]);
}

/// The first nodes of a list have no more entries than all of them.
pub proof fn lemma_entries_prefix_len<A, B>(nodes: Seq<NodeView<A, B>>, n: int)
    requires
        0 <= n <= nodes.len(),
        all_entries(nodes) is Some,
    ensures
        all_entries(nodes.subrange(0, n)) is Some,
        all_entries(nodes.subrange(0, n)).unwrap().len() <= all_entries(nodes).unwrap().len(),
    decreases nodes.len(),
{
    if n == nodes.len() {
        assert(nodes.subrange(0, n) =~= nodes);
    } else {
        assert(nodes.drop_last().subrange(0, n) =~= nodes.subrange(0, n));
        lemma_entries_prefix_len(nodes.drop_last(), n);
    }
}

/// Every entry is an entry of the map.
pub open spec fn entries_in_map<A, B>(entries: Seq<(A, B)>, m: Map<A, B>) -> bool {
    forall|x: int|
        0 <= x < entries.len() ==> m.contains_key((#[trigger] entries[x]).0) && m[entries[x].0]
            == entries[x].1
}

/// Whether one of the entries has the key `k`.
pub open spec fn pair_listed<A, B>(entries: Seq<(A, B)>, k: A) -> bool {
    exists|x: int| 0 <= x < entries.len() && (#[trigger] entries[x]).0 == k
}

/// An entry is listed in a list with one entry more if it is the last one
/// or is listed in the list without it.
pub proof fn lemma_pair_listed_step<A, B>(entries: Seq<(A, B)>, k: A)
    requires
        entries.len() > 0,
    ensures
        pair_listed(entries, k) <==> entries.last().0 == k || pair_listed(entries.drop_last(), k),
{
    let rest = entries.drop_last();
    if pair_listed(entries, k) {
        let x = choose|x: int| 0 <= x < entries.len() && (#[trigger] entries[x]).0 == k;
        if x < rest.len() {
            assert(rest[x].0 == k);
        }
    }
    if pair_listed(rest, k) {
        let x = choose|x: int| 0 <= x < rest.len() && (#[trigger] rest[x]).0 == k;
        assert(entries[x].0 == k);
    }
    if entries.last().0 == k {
        assert(entries[entries.len() - 1].0 == k);
    }
}

/// The keys of a map after entries were put are the keys it had and the
/// keys of the entries.
pub proof fn lemma_fold_keys<A, B>(m: Map<A, B>, entries: Seq<(A, B)>, k: A)
    ensures
        fold_entries(m, entries).contains_key(k) <==> m.contains_key(k) || pair_listed(entries, k),
    decreases entries.len(),
{
    if entries.len() > 0 {
        lemma_fold_keys(m, entries.drop_last(), k);
        lemma_pair_listed_step(entries, k);
    }
}

/// A key that all entries which have it give the same value has that value
/// after the entries were put, if one of them has it.
pub proof fn lemma_fold_value<A, B>(m: Map<A, B>, entries: Seq<(A, B)>, k: A, v: B)
    requires
        forall|x: int| 0 <= x < entries.len() && (#[trigger] entries[x]).0 == k ==> entries[x].1 == v,
        !m.contains_key(k),
        fold_entries(m, entries).contains_key(k),
    ensures
        fold_entries(m, entries)[k] == v,
    decreases entries.len(),
{
    if entries.len() > 0 {
        let rest = entries.drop_last();
        if entries.last().0 == k {
            assert(entries[entries.len() - 1].0 == k);
        } else {
            assert forall|x: int| 0 <= x < rest.len() && (#[trigger] rest[x]).0 == k implies rest[x].1
                == v by {
                assert(rest[x] == entries[x]);
            }
            lemma_fold_value(m, rest, k, v);
        }
    }
}

/// Whether the node, if it is a leaf, has a value for each key.
pub fn leaf_is_aligned<K: TreeKey + TreeSerialization, V: TreeSerialization>(
    node: &Node<K, V>,
) -> (r: bool)
    ensures
        r == node_entries(node@) is Some,
{
    match node.node_type {
        NodeType::Internal => true,
        NodeType::Leaf => {
            if node.values.len() != node.keys.len() {
                return false;
            }
            let mut j: usize = 0;
            while j < node.values.len()
                invariant
                    j <= node.values@.len(),
                    node.node_type == NodeType::Leaf,
                    node.values@.len() == node.keys@.len(),
                    forall|x: int| 0 <= x < j ==> (#[trigger] node@.values[x]) is Some,
                decreases node.values@.len() - j,
            {
                assert(node@.values[j as int] == option_view(node.values@[j as int]));
                if node.values[j].is_none() {
                    return false;
                }
                j = j + 1;
            }
            true
        },
    }
}

/// A list of nodes has entries only if each of its prefixes has.
pub proof fn lemma_entries_of_prefix<A, B>(nodes: Seq<NodeView<A, B>>, n: int)
    requires
        0 <= n <= nodes.len(),
        all_entries(nodes) is Some,
    ensures
        all_entries(nodes.subrange(0, n)) is Some,
        n > 0 ==> node_entries(nodes[n - 1]) is Some,
    decreases nodes.len(),
{
    if n == nodes.len() {
        assert(nodes.subrange(0, n) =~= nodes);
    } else {
        assert(nodes.drop_last().subrange(0, n) =~= nodes.subrange(0, n));
        lemma_entries_of_prefix(nodes.drop_last(), n);
    }
}

/// A list of nodes with a prefix without entries has none.
pub proof fn lemma_entries_stay_broken<K: TreeDeserialization, V: TreeDeserialization>(
    nodes: Seq<NodeView<K::V, V::V>>,
    prefix: Seq<NodeView<K::V, V::V>>,
)
    requires
        prefix.len() <= nodes.len(),
        forall|i: int| 0 <= i < prefix.len() ==> prefix[i] == nodes[i],
        all_entries(prefix) is None,
    ensures
        all_entries(nodes) is None,
{
    if all_entries(nodes) is Some {
        lemma_entries_of_prefix(nodes, prefix.len() as int);
        assert(nodes.subrange(0, prefix.len() as int) =~= prefix);
    }
}

} // verus!
