pub mod bag;
pub mod k_modes;
pub mod node;
pub mod node_image;
pub mod restore;
pub mod storage;
use crate::constants::{ALPHA, C, K, QUANTIZED_VECTOR_SIZE};
use crate::errors::HaystackError;
use crate::math::{hamming_distance, spec_hamming};
use crate::structures::ann_tree::bag::{
    bag,
    entry_seq,
    lemma_bag_concat,
    lemma_cancel,
    lemma_node_bag,
    lemma_push_entry,
    lemma_split_entries,
};
use crate::structures::ann_tree::k_modes::{
    clustered,
    find_modes,
    lemma_pick_disjoint,
    lemma_pick_distinct,
    lemma_pick_pairs,
    lemma_mode_unique,
    spec_mode,
    lemma_count_flags,
    lemma_pick_covers,
    lemma_pick_elem,
    pick,
    Vector,
};
use crate::structures::ann_tree::node::{
    aligned,
    fair,
    lemma_split_by_aligned,
    Node,
    NodeType,
    NodeView,
};
use crate::structures::tree::serialization::{duplicate_all, elem_views};
use crate::structures::metadata_index::attributes_fit;
use crate::structures::ann_tree::storage::StorageManager;
use crate::structures::dense_vector_list::{copy_vector, vector_views};
use crate::structures::metadata_index::{kvs_fit, KVPair, KVPairView};
use crate::structures::top_k::{
    insert_bounded, lemma_top_is_seen, lemma_top_sorted, top_of, Hit,
};
use crate::structures::ann_tree::node_image::{
    lemma_node_round_trip, node_fits, spec_node_bytes, spec_node_parse,
};
use crate::structures::tree::node_image::spec_parent_norm;
use crate::structures::tree::serialization::{
    lemma_parse_frames_to_end_of_frame_all, lemma_read_back,
};
use crate::structures::filters::{spec_matches, Filter, Filters};
use crate::structures::tree::serialization::{
    blob_views, frame_all, parse_frames_to_end, read_frames_to_end, read_i64, read_u64,
    spec_read_i64, spec_read_u64, spec_u64_of, write_frames, write_i64, write_u64,
};
use vstd::bytes::*;
use crate::structures::tree::{index_of, offset_of};
use rayon::iter::{IntoParallelRefIterator, ParallelIterator};
use vstd::multiset::Multiset;
use vstd::prelude::*;

verus! {

/// Smallest cap on the entries of a node.
pub const MIN_K: usize = 8;

/// Largest cap on the entries of a node.
pub const MAX_K: usize = 65536;

/// An entry of the tree: a vector, its id and its attributes.
pub ghost struct EntryView {
    pub vector: Seq<u8>,
    pub id: u128,
    pub metadata: Seq<KVPairView>,
}

/// The entry at place `j` of a leaf.
pub open spec fn entry_at(v: NodeView, j: int) -> EntryView {
    EntryView { vector: v.vectors[j], id: v.ids[j], metadata: v.metadata[j] }
}

/// The first `n` entries of a leaf.
pub open spec fn entries_upto(v: NodeView, n: nat) -> Multiset<EntryView>
    decreases n,
{
    if n == 0 {
        Multiset::empty()
    } else {
        entries_upto(v, (n - 1) as nat).insert(entry_at(v, n - 1))
    }
}

/// The entries of a node: those of a leaf, none of an internal node.
pub open spec fn node_entries(v: NodeView) -> Multiset<EntryView> {
    match v.node_type {
        NodeType::Leaf => entries_upto(v, v.vectors.len()),
        NodeType::Internal => Multiset::empty(),
    }
}

/// The entries of the first `n` nodes.
pub open spec fn entries_of(nodes: Seq<Node>, n: nat) -> Multiset<EntryView>
    decreases n,
{
    if n == 0 {
        Multiset::empty()
    } else {
        entries_of(nodes, (n - 1) as nat).add(node_entries(nodes[n - 1]@))
    }
}

/// The child in slot `j` of the node at `i` is a node that stands lower.
pub open spec fn child_ok(nodes: Seq<Node>, heights: Seq<nat>, i: int, j: int) -> bool {
    let c = nodes[i].children@[j] as int;
    0 <= c < nodes.len() && heights[c] < heights[i]
}

/// The node at `i` is in order: its lists go together, it holds no more than
/// `k` entries, a leaf's attributes fit the image, an internal node has a
/// child at least and every child stands lower.
pub open spec fn node_ok(nodes: Seq<Node>, heights: Seq<nat>, k: usize, i: int) -> bool {
    let v = nodes[i]@;
    &&& aligned(v)
    &&& v.k == k
    &&& v.vectors.len() <= k
    &&& match v.node_type {
        NodeType::Leaf => heights[i] == 0 && forall|j: int|
            0 <= j < v.metadata.len() ==> kvs_fit(#[trigger] v.metadata[j]),
        NodeType::Internal => v.vectors.len() >= 1 && v.children.no_duplicates() && forall|j: int|
            0 <= j < v.children.len() ==> #[trigger] child_ok(nodes, heights, i, j),
    }
}

/// Every node is in order, the root is one of them, and no node stands
/// as high as there are nodes.
pub open spec fn nodes_ok(nodes: Seq<Node>, heights: Seq<nat>, k: usize, root: i64) -> bool {
    &&& MIN_K <= k <= MAX_K
    &&& heights.len() == nodes.len()
    &&& nodes.len() <= i64::MAX
    &&& 0 <= root < nodes.len()
    &&& forall|i: int| 0 <= i < nodes.len() ==> #[trigger] node_ok(nodes, heights, k, i)
    &&& forall|i: int| 0 <= i < nodes.len() ==> (#[trigger] heights[i]) < nodes.len()
}

/// The way from the root to the node at `target`: each step names a node
/// and the slot of the child that the next step names, the last step the
/// slot of `target`.
pub open spec fn path_ok(nodes: Seq<Node>, root: i64, path: Seq<(usize, usize)>, target: int) -> bool {
    &&& 0 <= target < nodes.len()
    &&& if path.len() == 0 {
        target == root
    } else {
        path[0].0 == root
    }
    &&& forall|d: int|
        0 <= d < path.len() ==> {
            let p = (#[trigger] path[d]).0 as int;
            let s = path[d].1 as int;
            &&& 0 <= p < nodes.len()
            &&& nodes[p].node_type == NodeType::Internal
            &&& 0 <= s < nodes[p].children@.len()
            &&& nodes[p].children@[s] == (if d + 1 < path.len() {
                path[d + 1].0 as int
            } else {
                target
            })
        }
}

/// What the node at `p` holds after the centroid in its slot `s` became
/// the bitwise majority of the vectors of the child in that slot.
pub open spec fn with_centroid(nodes: Seq<Node>, p: int, s: int) -> NodeView {
    let v = nodes[p]@;
    NodeView { vectors: v.vectors.update(s, spec_mode(nodes[v.children[s] as int]@.vectors)), ..v }
}

/// Whether `c` is in one of the first `upto` slots of the node at `parent`.
pub open spec fn child_before(nodes: Seq<Node>, parent: int, upto: int, c: int) -> bool {
    exists|t: int| 0 <= t < upto && (#[trigger] nodes[parent].children@[t]) == c
}

/// What the node at `i` holds after the first `upto` children of the node
/// at `parent` recorded that node as their parent.
pub open spec fn with_parent(nodes: Seq<Node>, parent: int, upto: int, i: int) -> NodeView {
    if child_before(nodes, parent, upto, i) {
        NodeView { parent_offset: Some(parent as i64), ..nodes[i]@ }
    } else {
        nodes[i]@
    }
}

/// The node at `parent` is an internal node with `c` in its slot `s`.
pub open spec fn holds_child(nodes: Seq<Node>, parent: int, s: int, c: int) -> bool {
    &&& 0 <= parent < nodes.len()
    &&& nodes[parent].node_type == NodeType::Internal
    &&& 0 <= s < nodes[parent].children@.len()
    &&& nodes[parent].children@[s] == c
}

/// One of `parents` has `c` as a child.
pub open spec fn adopted(nodes: Seq<Node>, parents: Seq<usize>, c: int) -> bool {
    exists|p: int, s: int|
        0 <= p < parents.len() && #[trigger] holds_child(nodes, parents[p] as int, s, c)
}

/// The node at `target` hangs `h` steps below the node at `top`.
pub open spec fn hangs(nodes: Seq<Node>, top: int, h: nat, target: int) -> bool {
    exists|path: Seq<(usize, usize)>|
        path.len() == h && #[trigger] path_ok(nodes, top as i64, path, target)
}

/// The node at `target` hangs `h` steps below one of the nodes of `level`.
pub open spec fn hangs_below(nodes: Seq<Node>, level: Seq<usize>, h: nat, target: int) -> bool {
    exists|x: int| 0 <= x < level.len() && hangs(nodes, #[trigger] level[x] as int, h, target)
}

/// Every leaf hangs `h` steps below one of the nodes of `level`.
pub open spec fn leaves_hang(nodes: Seq<Node>, level: Seq<usize>, h: nat) -> bool {
    forall|i: int|
        0 <= i < nodes.len() && (#[trigger] nodes[i]).node_type == NodeType::Leaf ==> hangs_below(
            nodes,
            level,
            h,
            i,
        )
}

/// The node at `target` can be reached from the node at `top`.
pub open spec fn reach(nodes: Seq<Node>, top: int, target: int) -> bool {
    exists|path: Seq<(usize, usize)>| #[trigger] path_ok(nodes, top as i64, path, target)
}

/// Every leaf can be reached from the node at `top`, or from one of the
/// nodes at `first` and `second`, which wait for a parent. No node is at
/// -1.
pub open spec fn leaves_reach(nodes: Seq<Node>, top: int, first: int, second: int) -> bool {
    forall|i: int|
        0 <= i < nodes.len() && (#[trigger] nodes[i]).node_type == NodeType::Leaf ==> reach(
            nodes,
            top,
            i,
        ) || reach(nodes, first, i) || reach(nodes, second, i)
}

/// Nothing can be reached from -1.
pub proof fn lemma_nowhere(nodes: Seq<Node>, target: int)
    ensures
        !reach(nodes, -1, target),
{
    assert forall|path: Seq<(usize, usize)>| !#[trigger] path_ok(nodes, (-1) as i64, path, target) by {
        if path.len() > 0 {
            assert(path[0].0 >= 0);
        }
    }
}

/// The node `w` has the children of the node `v` in their slots, and
/// perhaps more behind them.
pub open spec fn slots_kept(v: Node, w: Node) -> bool {
    &&& v.children@.len() <= w.children@.len()
    &&& forall|t: int| 0 <= t < v.children@.len() ==> (#[trigger] w.children@[t]) == v.children@[t]
}

/// The nodes of `b` from the first on have the kind of those of `a`, and
/// their children in their slots, but for the node at `p`, which has its
/// kind.
pub open spec fn links_kept(a: Seq<Node>, b: Seq<Node>, p: int) -> bool {
    &&& a.len() <= b.len()
    &&& forall|i: int|
        0 <= i < a.len() ==> (#[trigger] b[i]).node_type == a[i].node_type && (i != p
            ==> slots_kept(a[i], b[i]))
}

/// Nodes that keep their content keep their links.
pub proof fn lemma_links_of_content(a: Seq<Node>, b: Seq<Node>, p: int)
    requires
        a.len() <= b.len(),
        forall|i: int| 0 <= i < a.len() && i != p ==> same_content(#[trigger] a[i]@, b[i]@),
        0 <= p < a.len() ==> b[p].node_type == a[p].node_type,
    ensures
        links_kept(a, b, p),
{
    assert forall|i: int| 0 <= i < a.len() implies (#[trigger] b[i]).node_type == a[i].node_type
        && (i != p ==> slots_kept(a[i], b[i])) by {
        if i != p {
            assert(same_content(a[i]@, b[i]@));
        }
    }
}

/// A way that does not pass the node whose children changed is a way
/// still.
pub proof fn lemma_way_kept(
    a: Seq<Node>,
    b: Seq<Node>,
    p: int,
    top: int,
    path: Seq<(usize, usize)>,
    target: int,
)
    requires
        links_kept(a, b, p),
        path_ok(a, top as i64, path, target),
        forall|d: int| 0 <= d < path.len() ==> (#[trigger] path[d]).0 != p,
    ensures
        path_ok(b, top as i64, path, target),
{
    assert forall|d: int| 0 <= d < path.len() implies {
        let q = (#[trigger] path[d]).0 as int;
        let t = path[d].1 as int;
        &&& 0 <= q < b.len()
        &&& b[q].node_type == NodeType::Internal
        &&& 0 <= t < b[q].children@.len()
        &&& b[q].children@[t] == (if d + 1 < path.len() {
            path[d + 1].0 as int
        } else {
            target
        })
    } by {
        let q = path[d].0 as int;
        assert(b[q].node_type == a[q].node_type);
        assert(slots_kept(a[q], b[q]));
    }
}

/// What could be reached can be reached when no node changes its children.
pub proof fn lemma_reach_kept(a: Seq<Node>, b: Seq<Node>, top: int, target: int)
    requires
        links_kept(a, b, -1),
        reach(a, top, target),
    ensures
        reach(b, top, target),
{
    let path = choose|path: Seq<(usize, usize)>| #[trigger] path_ok(a, top as i64, path, target);
    lemma_way_kept(a, b, -1, top, path, target);
}

/// What can be reached from a child can be reached from its parent.
pub proof fn lemma_reach_up(nodes: Seq<Node>, parent: int, s: int, c: int, target: int)
    requires
        holds_child(nodes, parent, s, c),
        parent <= usize::MAX,
        nodes.len() <= i64::MAX,
        reach(nodes, c, target),
    ensures
        reach(nodes, parent, target),
{
    let path = choose|path: Seq<(usize, usize)>| #[trigger] path_ok(nodes, c as i64, path, target);
    assert(hangs(nodes, c, path.len(), target));
    lemma_hangs_up(nodes, parent, s, c, path.len(), target);
}

/// A way without its last step is the way to the node of that step.
pub proof fn lemma_way_shorter(nodes: Seq<Node>, top: int, path: Seq<(usize, usize)>, target: int)
    requires
        path_ok(nodes, top as i64, path, target),
        path.len() > 0,
    ensures
        path_ok(nodes, top as i64, path.drop_last(), path.last().0 as int),
{
    let short = path.drop_last();
    assert forall|d: int| 0 <= d < short.len() implies {
        let q = (#[trigger] short[d]).0 as int;
        let t = short[d].1 as int;
        &&& 0 <= q < nodes.len()
        &&& nodes[q].node_type == NodeType::Internal
        &&& 0 <= t < nodes[q].children@.len()
        &&& nodes[q].children@[t] == (if d + 1 < short.len() {
            short[d + 1].0 as int
        } else {
            path.last().0 as int
        })
    } by {
        assert(short[d] == path[d]);
        if d + 1 < short.len() {
            assert(short[d + 1] == path[d + 1]);
        }
    }
    if short.len() > 0 {
        assert(short[0] == path[0]);
    }
    assert(path[path.len() - 1] == path.last());
}

/// The way to a node and the way on from it make a way.
pub proof fn lemma_reach_on(nodes: Seq<Node>, top: int, mid: int, target: int)
    requires
        reach(nodes, top, mid),
        reach(nodes, mid, target),
        nodes.len() <= i64::MAX,
    ensures
        reach(nodes, top, target),
{
    let first = choose|path: Seq<(usize, usize)>| #[trigger] path_ok(nodes, top as i64, path, mid);
    let second = choose|path: Seq<(usize, usize)>|
        #[trigger] path_ok(nodes, mid as i64, path, target);
    let whole = first + second;
    assert forall|d: int| 0 <= d < whole.len() implies {
        let q = (#[trigger] whole[d]).0 as int;
        let t = whole[d].1 as int;
        &&& 0 <= q < nodes.len()
        &&& nodes[q].node_type == NodeType::Internal
        &&& 0 <= t < nodes[q].children@.len()
        &&& nodes[q].children@[t] == (if d + 1 < whole.len() {
            whole[d + 1].0 as int
        } else {
            target
        })
    } by {
        if d < first.len() {
            assert(whole[d] == first[d]);
            if d + 1 < first.len() {
                assert(whole[d + 1] == first[d + 1]);
            } else if second.len() > 0 {
                assert(whole[d + 1] == second[0]);
            }
        } else {
            assert(whole[d] == second[d - first.len()]);
            if d + 1 < whole.len() {
                assert(whole[d + 1] == second[d + 1 - first.len()]);
            }
        }
    }
    if first.len() > 0 {
        assert(whole[0] == first[0]);
    } else if second.len() > 0 {
        assert(whole[0] == second[0]);
    }
    assert(path_ok(nodes, top as i64, whole, target));
}

/// The leaves can be reached from where they could when nodes keep their
/// links and every new node is an internal node.
pub proof fn lemma_leaves_kept(a: Seq<Node>, b: Seq<Node>, top: int, first: int, second: int)
    requires
        links_kept(a, b, -1),
        forall|i: int| a.len() <= i < b.len() ==> (#[trigger] b[i]).node_type == NodeType::Internal,
        leaves_reach(a, top, first, second),
    ensures
        leaves_reach(b, top, first, second),
{
    assert forall|i: int|
        0 <= i < b.len() && (#[trigger] b[i]).node_type == NodeType::Leaf implies reach(b, top, i)
        || reach(b, first, i) || reach(b, second, i) by {
        assert(a[i].node_type == NodeType::Leaf);
        if reach(a, top, i) {
            lemma_reach_kept(a, b, top, i);
        } else if reach(a, first, i) {
            lemma_reach_kept(a, b, first, i);
        } else {
            lemma_reach_kept(a, b, second, i);
        }
    }
}

/// When the node at `sib` has got a parent that can be reached, the
/// leaves can be reached without it.
pub proof fn lemma_leaves_after_push(
    a: Seq<Node>,
    b: Seq<Node>,
    top: int,
    sib: int,
    other: int,
    parent: int,
    t: int,
)
    requires
        links_kept(a, b, -1),
        a.len() == b.len(),
        b.len() <= i64::MAX,
        b.len() <= usize::MAX,
        holds_child(b, parent, t, sib),
        reach(b, top, parent) || reach(b, other, parent),
        leaves_reach(a, top, sib, other),
    ensures
        leaves_reach(b, top, other, -1),
{
    assert forall|i: int|
        0 <= i < b.len() && (#[trigger] b[i]).node_type == NodeType::Leaf implies reach(b, top, i)
        || reach(b, other, i) || reach(b, -1, i) by {
        assert(a[i].node_type == NodeType::Leaf);
        if reach(a, top, i) {
            lemma_reach_kept(a, b, top, i);
        } else if reach(a, other, i) {
            lemma_reach_kept(a, b, other, i);
        } else {
            lemma_reach_kept(a, b, sib, i);
            lemma_reach_up(b, parent, t, sib, i);
            if reach(b, top, parent) {
                lemma_reach_on(b, top, parent, i);
            } else {
                lemma_reach_on(b, other, parent, i);
            }
        }
    }
}

/// After the node at `p` was split, the leaves can be reached from where
/// they could, or from the new node.
pub proof fn lemma_leaves_after_split(a: Seq<Node>, b: Seq<Node>, p: int, top: int, loose: int)
    requires
        links_kept(a, b, p),
        b.len() == a.len() + 1,
        b.len() <= i64::MAX,
        b.len() <= usize::MAX,
        0 <= p < a.len(),
        b[a.len() as int].node_type == a[p].node_type,
        forall|s: int| 0 <= s < a[p].children@.len() ==> #[trigger] child_placed(a, b, p, s),
        leaves_reach(a, top, loose, -1),
    ensures
        leaves_reach(b, top, loose, a.len() as int),
{
    let m = a.len() as int;
    assert forall|i: int|
        0 <= i < b.len() && (#[trigger] b[i]).node_type == NodeType::Leaf implies reach(b, top, i)
        || reach(b, loose, i) || reach(b, m, i) by {
        if i == m {
            assert(path_ok(b, m as i64, Seq::<(usize, usize)>::empty(), i));
        } else {
            assert(a[i].node_type == NodeType::Leaf);
            lemma_nowhere(a, i);
            let from = if reach(a, top, i) {
                top
            } else {
                loose
            };
            let path = choose|path: Seq<(usize, usize)>|
                #[trigger] path_ok(a, from as i64, path, i);
            lemma_reach_after_split(a, b, p, from, path, i);
        }
    }
}

/// When a new root has the old root and the node that waited as its
/// children, every leaf can be reached from the new root.
pub proof fn lemma_leaves_after_grow(a: Seq<Node>, b: Seq<Node>, top: int, loose: int)
    requires
        links_kept(a, b, -1),
        b.len() == a.len() + 1,
        b.len() <= i64::MAX,
        b.len() <= usize::MAX,
        holds_child(b, a.len() as int, 0, top),
        holds_child(b, a.len() as int, 1, loose),
        leaves_reach(a, top, loose, -1),
    ensures
        leaves_reach(b, a.len() as int, -1, -1),
{
    let n = a.len() as int;
    assert forall|i: int|
        0 <= i < b.len() && (#[trigger] b[i]).node_type == NodeType::Leaf implies reach(b, n, i) by {
        assert(i != n);
        assert(a[i].node_type == NodeType::Leaf);
        lemma_nowhere(a, i);
        if reach(a, top, i) {
            lemma_reach_kept(a, b, top, i);
            lemma_reach_up(b, n, 0, top, i);
        } else {
            lemma_reach_kept(a, b, loose, i);
            lemma_reach_up(b, n, 1, loose, i);
        }
    }
}

/// The child that the node at `p` had in slot `s` is a child of that node
/// or of the last node.
pub open spec fn child_placed(a: Seq<Node>, b: Seq<Node>, p: int, s: int) -> bool {
    has_child(b, p, a[p].children@[s] as int) || has_child(b, b.len() - 1, a[p].children@[s] as int)
}

/// The node at `parent` is an internal node with `c` in one of its slots.
pub open spec fn has_child(nodes: Seq<Node>, parent: int, c: int) -> bool {
    exists|t: int| #[trigger] holds_child(nodes, parent, t, c)
}

/// After the node at `p` was split, whatever could be reached can be
/// reached from where it could, or from the new node: each child of the
/// node is a child of the node still, or one of the new node.
pub proof fn lemma_reach_after_split(
    a: Seq<Node>,
    b: Seq<Node>,
    p: int,
    top: int,
    path: Seq<(usize, usize)>,
    target: int,
)
    requires
        links_kept(a, b, p),
        b.len() == a.len() + 1,
        b.len() <= i64::MAX,
        b.len() <= usize::MAX,
        0 <= p < a.len(),
        b[a.len() as int].node_type == a[p].node_type,
        forall|s: int| 0 <= s < a[p].children@.len() ==> #[trigger] child_placed(a, b, p, s),
        path_ok(a, top as i64, path, target),
    ensures
        reach(b, top, target) || reach(b, a.len() as int, target),
    decreases path.len(),
{
    if path.len() == 0 {
        assert(path_ok(b, top as i64, path, target));
    } else {
        let q = path[0].0 as int;
        let s = path[0].1 as int;
        let rest = path.drop_first();
        let c = a[q].children@[s] as int;
        assert forall|d: int| 0 <= d < rest.len() implies {
            let u = (#[trigger] rest[d]).0 as int;
            let t = rest[d].1 as int;
            &&& 0 <= u < a.len()
            &&& a[u].node_type == NodeType::Internal
            &&& 0 <= t < a[u].children@.len()
            &&& a[u].children@[t] == (if d + 1 < rest.len() {
                rest[d + 1].0 as int
            } else {
                target
            })
        } by {
            assert(rest[d] == path[d + 1]);
            if d + 1 < rest.len() {
                assert(rest[d + 1] == path[d + 2]);
            }
        }
        if rest.len() > 0 {
            assert(rest[0] == path[1]);
        }
        assert(path_ok(a, c as i64, rest, target));
        lemma_reach_after_split(a, b, p, c, rest, target);
        if reach(b, c, target) {
            if q == p {
                assert(child_placed(a, b, p, s));
                if has_child(b, p, c) {
                    let t = choose|t: int| #[trigger] holds_child(b, p, t, c);
                    lemma_reach_up(b, p, t, c, target);
                } else {
                    let t = choose|t: int| #[trigger] holds_child(b, b.len() - 1, t, c);
                    lemma_reach_up(b, a.len() as int, t, c, target);
                }
            } else {
                assert(b[q].node_type == a[q].node_type);
                assert(slots_kept(a[q], b[q]));
                assert(holds_child(b, q, s, c));
                lemma_reach_up(b, q, s, c, target);
            }
        }
    }
}

/// The nodes of `b` from the first on are those of `a` with their content.
pub open spec fn grown_from(a: Seq<Node>, b: Seq<Node>) -> bool {
    &&& a.len() <= b.len()
    &&& forall|i: int| 0 <= i < a.len() ==> same_content(#[trigger] a[i]@, b[i]@)
}

/// A node hangs where it hung when nodes are added and the others keep
/// their content.
pub proof fn lemma_hangs_kept(a: Seq<Node>, b: Seq<Node>, top: int, h: nat, target: int)
    requires
        grown_from(a, b),
        hangs(a, top, h, target),
    ensures
        hangs(b, top, h, target),
{
    let path = choose|path: Seq<(usize, usize)>|
        path.len() == h && #[trigger] path_ok(a, top as i64, path, target);
    assert forall|d: int| 0 <= d < path.len() implies {
        let q = (#[trigger] path[d]).0 as int;
        let t = path[d].1 as int;
        &&& 0 <= q < b.len()
        &&& b[q].node_type == NodeType::Internal
        &&& 0 <= t < b[q].children@.len()
        &&& b[q].children@[t] == (if d + 1 < path.len() {
            path[d + 1].0 as int
        } else {
            target
        })
    } by {
        let q = path[d].0 as int;
        assert(same_content(a[q]@, b[q]@));
    }
    assert(path_ok(b, top as i64, path, target));
}

/// What hangs below a child hangs one step further below the parent.
pub proof fn lemma_hangs_up(nodes: Seq<Node>, parent: int, s: int, c: int, h: nat, target: int)
    requires
        holds_child(nodes, parent, s, c),
        parent <= usize::MAX,
        nodes.len() <= i64::MAX,
        hangs(nodes, c, h, target),
    ensures
        hangs(nodes, parent, h + 1, target),
{
    let path = choose|path: Seq<(usize, usize)>|
        path.len() == h && #[trigger] path_ok(nodes, c as i64, path, target);
    assert(nodes[parent].children@.len() == nodes[parent].children.len());
    let step = (parent as usize, s as usize);
    assert(step.0 == parent && step.1 == s);
    let longer = seq![step] + path;
    assert(longer[0] == step);
    assert forall|d: int| 0 <= d < longer.len() implies {
        let q = (#[trigger] longer[d]).0 as int;
        let t = longer[d].1 as int;
        &&& 0 <= q < nodes.len()
        &&& nodes[q].node_type == NodeType::Internal
        &&& 0 <= t < nodes[q].children@.len()
        &&& nodes[q].children@[t] == (if d + 1 < longer.len() {
            longer[d + 1].0 as int
        } else {
            target
        })
    } by {
        if d > 0 {
            assert(longer[d] == path[d - 1]);
            if d + 1 < longer.len() {
                assert(longer[d + 1] == path[d]);
            }
        } else if path.len() > 0 {
            assert(longer[1] == path[0]);
        }
    }
    assert(path_ok(nodes, parent as i64, longer, target));
}

/// When every node of a level has got a parent among new internal nodes,
/// every leaf hangs one step further below one of the parents.
pub proof fn lemma_level_up(
    a: Seq<Node>,
    b: Seq<Node>,
    level: Seq<usize>,
    parents: Seq<usize>,
    h: nat,
)
    requires
        grown_from(a, b),
        b.len() <= i64::MAX,
        forall|i: int| a.len() <= i < b.len() ==> (#[trigger] b[i]).node_type == NodeType::Internal,
        leaves_hang(a, level, h),
        forall|x: int| 0 <= x < level.len() ==> adopted(b, parents, #[trigger] level[x] as int),
    ensures
        leaves_hang(b, parents, h + 1),
{
    assert forall|i: int|
        0 <= i < b.len() && (#[trigger] b[i]).node_type == NodeType::Leaf implies hangs_below(
        b,
        parents,
        h + 1,
        i,
    ) by {
        assert(same_content(a[i]@, b[i]@));
        assert(a[i].node_type == NodeType::Leaf);
        assert(hangs_below(a, level, h, i));
        let x = choose|x: int| 0 <= x < level.len() && hangs(a, #[trigger] level[x] as int, h, i);
        lemma_hangs_kept(a, b, level[x] as int, h, i);
        assert(adopted(b, parents, level[x] as int));
        let (p, s) = choose|p: int, s: int|
            0 <= p < parents.len() && #[trigger] holds_child(
                b,
                parents[p] as int,
                s,
                level[x] as int,
            );
        lemma_hangs_up(b, parents[p] as int, s, level[x] as int, h, i);
        assert(hangs(b, parents[p] as int, h + 1, i));
    }
}

/// A child keeps its parent when nodes and parents are added and the
/// other nodes keep their content.
pub proof fn lemma_adopted_kept(
    a: Seq<Node>,
    b: Seq<Node>,
    parents: Seq<usize>,
    more: Seq<usize>,
    c: int,
)
    requires
        grown_from(a, b),
        adopted(a, parents, c),
        parents.len() <= more.len(),
        forall|p: int| 0 <= p < parents.len() ==> more[p] == parents[p],
    ensures
        adopted(b, more, c),
{
    let (p, s) = choose|p: int, s: int|
        0 <= p < parents.len() && #[trigger] holds_child(a, parents[p] as int, s, c);
    assert(same_content(a[parents[p] as int]@, b[parents[p] as int]@));
    assert(holds_child(b, more[p] as int, s, c));
}

/// The distance of each item to the query, with the item's index as tag.
pub open spec fn item_hits(items: Seq<Seq<u8>>, query: Seq<u8>) -> Seq<Hit> {
    Seq::new(items.len(), |i: int| (spec_hamming(query, items[i]) as u16, i as u128))
}

/// Computes the distance of the query to every vector, on the threads of
/// rayon's pool: `par_iter().map(..).collect()` on a slice gives the results
/// of the closure in the order of the slice.
#[verifier::external_body]
pub(crate) fn par_distances(query: &Vector, items: &[Vector]) -> (d: Vec<u16>)
    ensures
        d@.len() == items@.len(),
        forall|i: int| 0 <= i < items@.len() ==> (#[trigger] d@[i]) == spec_hamming(query@, items@[i]@),
{
    items.par_iter().map(|v| hamming_distance(query, v)).collect()
}

/// A hierarchical clustering index over quantized vectors: the leaves hold
/// the entries, an internal node holds for each child the bitwise majority
/// of what the child holds.
pub struct Tree {
    pub k: usize,
    pub storage_manager: StorageManager,
    pub heights: Ghost<Seq<nat>>,
}

impl Tree {
    /// The nodes of the tree, by offset.
    pub closed spec fn nodes(&self) -> Seq<Node> {
        self.storage_manager.data@
    }

    /// Whether every node is in order: the lists of every node go together,
    /// so that an internal node has as many children as centroids; no node
    /// holds more entries than the cap; every child of an internal node is
    /// a node that stands lower.
    pub closed spec fn sound(&self) -> bool {
        nodes_ok(self.nodes(), self.heights@, self.k, self.storage_manager.root_offset)
    }

    /// The invariant of the tree: every node is in order, and every leaf
    /// can be reached from the root.
    pub closed spec fn wf(&self) -> bool {
        &&& self.sound()
        &&& leaves_reach(self.nodes(), self.storage_manager.root_offset as int, -1, -1)
    }

    /// The entries that the leaves hold, with their multiplicity.
    pub closed spec fn entries(&self) -> Multiset<EntryView> {
        entries_of(self.nodes(), self.nodes().len())
    }

    /// The number of levels above the leaves.
    pub closed spec fn depth(&self) -> nat {
        self.heights@[self.storage_manager.root_offset as int]
    }

    /// The number of nodes.
    pub closed spec fn node_count(&self) -> nat {
        self.nodes().len()
    }

    /// An empty tree: one leaf, which is the root.
    pub fn new() -> (r: Result<Self, HaystackError>)
        ensures
            r is Ok,
            r.unwrap().wf(),
            r.unwrap().entries() == Multiset::<EntryView>::empty(),
            r.unwrap().k == K,
            r.unwrap().balanced(),
            forall|m: nat| #[trigger] r.unwrap().spare(m) <==> 1 + m * (m + 3) <= i64::MAX,
            forall|m: nat| #[trigger] r.unwrap().room(m) <==> 1 + m * (m + 2) <= i64::MAX,
    {
        let mut storage_manager = StorageManager::new();
        let mut root = Node::new_leaf();
        root.is_root = true;
        root.offset = 0;
        storage_manager.data.push(root);
        storage_manager.set_root_offset(0);
        let heights = Ghost(Seq::empty().push(0nat));
        let tree = Tree { k: K, storage_manager, heights };
        proof {
            assert(node_ok(tree.nodes(), tree.heights@, tree.k, 0));
            assert(entries_of(tree.nodes(), 0) =~= Multiset::<EntryView>::empty());
            assert(tree.entries() =~= Multiset::<EntryView>::empty());
            let top = seq![tree.storage_manager.root_offset as usize];
            assert(top[0] == 0);
            tree.lemma_leaves_hang_on_themselves(top);
            tree.lemma_balanced_is_rooted();
            assert forall|m: nat| #[trigger] tree.spare(m) <==> 1 + m * (m + 3) <= i64::MAX by {
                assert(m * (1 + m + 2) == m * (m + 3)) by (nonlinear_arith);
            }
            assert forall|m: nat| #[trigger] tree.room(m) <==> 1 + m * (m + 2) <= i64::MAX by {
                assert(m * (0 + m + 2) == m * (m + 2)) by (nonlinear_arith);
            }
        }
        Ok(tree)
    }

    /// The number of entries that the leaves hold.
    pub fn len(&self) -> (n: usize)
        requires
            self.wf(),
        ensures
            n == self.entries().len() || (n == usize::MAX && self.entries().len() > usize::MAX),
    {
        let mut total: usize = 0;
        let mut i: usize = 0;
        let mut over = false;
        while i < self.storage_manager.data.len()
            invariant
                i <= self.nodes().len(),
                self.sound(),
                !over ==> total == entries_of(self.nodes(), i as nat).len(),
                over ==> entries_of(self.nodes(), i as nat).len() > usize::MAX,
            decreases self.nodes().len() - i,
        {
            proof {
                assert(node_ok(self.nodes(), self.heights@, self.k, i as int));
                lemma_node_entries_len(self.nodes()[i as int]@);
            }
            match self.storage_manager.data[i].node_type {
                NodeType::Leaf => {
                    let m: usize = self.storage_manager.data[i].ids.len();
                    if over || m > usize::MAX - total {
                        over = true;
                    } else {
                        total = total + m;
                    }
                },
                NodeType::Internal => {},
            }
            i = i + 1;
        }
        if over {
            usize::MAX
        } else {
            total
        }
    }
}

/// The hits that a list of places and distances stands for.
pub open spec fn place_hits(places: Seq<(usize, u16)>) -> Seq<Hit> {
    Seq::new(places.len(), |i: int| (places[i].1, places[i].0 as u128))
}

/// The places of the `k` items nearest to the query, with their distances,
/// the nearest first; of two items at the same distance the earlier comes
/// first.
pub fn collect_top_k(query: &Vector, items: &Vec<Vector>, k: usize) -> (places: Vec<(usize, u16)>)
    ensures
        place_hits(places@) == top_of(item_hits(vector_views(items@), query@), k as int),
        places@.len() == if items@.len() > k {
            k as int
        } else {
            items@.len() as int
        },
        forall|r: int|
            0 <= r < places@.len() ==> (#[trigger] places@[r]).0 < items@.len() && places@[r].1
                == spec_hamming(query@, items@[places@[r].0 as int]@),
{
    let ghost seen = item_hits(vector_views(items@), query@);
    let d = par_distances(query, items.as_slice());
    let mut best: Vec<Hit> = Vec::new();
    let mut i: usize = 0;
    assert(seen.subrange(0, 0) =~= Seq::<Hit>::empty());
    while i < items.len()
        invariant
            i <= items@.len(),
            d@.len() == items@.len(),
            seen == item_hits(vector_views(items@), query@),
            forall|x: int|
                0 <= x < items@.len() ==> (#[trigger] d@[x]) == spec_hamming(query@, items@[x]@),
            best@ == top_of(seen.subrange(0, i as int), k as int),
            best@.len() <= k,
        decreases items@.len() - i,
    {
        proof {
            let next = seen.subrange(0, i + 1);
            assert(next.drop_last() =~= seen.subrange(0, i as int));
            assert(next.last() == (d@[i as int], i as u128));
        }
        if k > 0 {
            insert_bounded(&mut best, (d[i], i as u128), k);
        }
        i = i + 1;
    }
    assert(seen.subrange(0, i as int) =~= seen);
    proof {
        lemma_top_sorted(seen, k as int);
    }
    let mut places: Vec<(usize, u16)> = Vec::new();
    let mut r: usize = 0;
    let n: usize = items.len();
    while r < best.len()
        invariant
            r <= best@.len(),
            n == items@.len(),
            best@ == top_of(seen, k as int),
            seen == item_hits(vector_views(items@), query@),
            places@.len() == r,
            forall|x: int|
                0 <= x < r ==> (#[trigger] places@[x]).0 < items@.len() && places@[x].1
                    == spec_hamming(query@, items@[places@[x].0 as int]@) && (
                places@[x].1,
                places@[x].0 as u128,
            ) == best@[x],
        decreases best@.len() - r,
    {
        proof {
            lemma_top_is_seen(seen, k as int, r as int);
            let j = choose|j: int| 0 <= j < seen.len() && (#[trigger] seen[j]) == best@[r as int];
            crate::math::lemma_hamming_bound(query@, items@[j]@);
            assert(seen[j] == (spec_hamming(query@, items@[j]@) as u16, j as u128));
            assert(0 <= j < n);
            assert(best@[r as int].1 as usize == j);
        }
        let hit = best[r];
        places.push((hit.1 as usize, hit.0));
        r = r + 1;
    }
    assert(place_hits(places@) =~= best@);
    places
}

/// The least distance of the query to a vector of the list, and the largest
/// distance there is if the list is empty.
pub open spec fn spec_nearest(items: Seq<Seq<u8>>, query: Seq<u8>) -> int
    decreases items.len(),
{
    if items.len() == 0 {
        u16::MAX as int
    } else {
        let rest = spec_nearest(items.drop_last(), query);
        let here = spec_hamming(query, items.last()) as int;
        if here < rest {
            here
        } else {
            rest
        }
    }
}

/// The least distance of the query to a vector of the list, and the largest
/// distance there is if the list is empty.
pub fn nearest_distance(query: &Vector, items: &Vec<Vector>) -> (d: u16)
    ensures
        d == spec_nearest(vector_views(items@), query@),
        forall|i: int| 0 <= i < items@.len() ==> d <= spec_hamming(query@, #[trigger] items@[i]@),
        items@.len() == 0 ==> d == u16::MAX,
        items@.len() > 0 ==> exists|i: int|
            0 <= i < items@.len() && d == spec_hamming(query@, #[trigger] items@[i]@),
{
    let ghost vs = vector_views(items@);
    let mut d: u16 = u16::MAX;
    let mut i: usize = 0;
    assert(vs.subrange(0, 0) =~= Seq::<Seq<u8>>::empty());
    while i < items.len()
        invariant
            i <= items@.len(),
            vs == vector_views(items@),
            d == spec_nearest(vs.subrange(0, i as int), query@),
            forall|x: int| 0 <= x < i ==> d <= spec_hamming(query@, #[trigger] items@[x]@),
            i == 0 ==> d == u16::MAX,
            i > 0 ==> exists|x: int| 0 <= x < i && d == spec_hamming(query@, #[trigger] items@[x]@),
        decreases items@.len() - i,
    {
        let here = hamming_distance(query, &items[i]);
        proof {
            let next = vs.subrange(0, i + 1);
            assert(next.drop_last() =~= vs.subrange(0, i as int));
            assert(next.last() == items@[i as int]@);
        }
        if here < d || i == 0 {
            d = here;
        }
        i = i + 1;
    }
    assert(vs.subrange(0, i as int) =~= vs);
    d
}

/// The least distance of the query to what the child in slot `slot` of the
/// node at `cur` holds.
pub open spec fn near_child(nodes: Seq<Node>, cur: int, query: Seq<u8>, slot: int) -> int {
    spec_nearest(nodes[nodes[cur].children@[slot] as int]@.vectors, query)
}

/// The children that a descent for an insertion looks into below the node
/// at `cur`: the `C` whose centroids are nearest to the query, the nearest
/// first, each as the distance and the slot.
pub open spec fn looked_into(nodes: Seq<Node>, cur: int, query: Seq<u8>) -> Seq<Hit> {
    top_of(item_hits(nodes[cur]@.vectors, query), C as int)
}

/// Whether the child at place `r` of those looked into holds the vector
/// nearest to the query, and is the first that does.
pub open spec fn choice_at(nodes: Seq<Node>, cur: int, query: Seq<u8>, r: int) -> bool {
    let cand = looked_into(nodes, cur, query);
    &&& 0 <= r < cand.len()
    &&& forall|x: int|
        0 <= x < cand.len() ==> near_child(nodes, cur, query, cand[r].1 as int) <= near_child(
            nodes,
            cur,
            query,
            (#[trigger] cand[x]).1 as int,
        )
    &&& forall|x: int|
        0 <= x < r ==> near_child(nodes, cur, query, cand[r].1 as int) < near_child(
            nodes,
            cur,
            query,
            (#[trigger] cand[x]).1 as int,
        )
}

/// No node has the node at `c` as a child.
pub open spec fn orphan(nodes: Seq<Node>, c: int) -> bool {
    forall|i: int, t: int|
        0 <= i < nodes.len() && 0 <= t < nodes[i].children@.len() ==> (
        #[trigger] nodes[i].children@[t]) != c
}

/// A node without a parent has none when no node changes its children.
pub proof fn lemma_orphan_kept(a: Seq<Node>, b: Seq<Node>, c: int)
    requires
        orphan(a, c),
        a.len() == b.len(),
        forall|i: int| 0 <= i < a.len() ==> (#[trigger] b[i]).children@ == a[i].children@,
    ensures
        orphan(b, c),
{
    assert forall|i: int, t: int| 0 <= i < b.len() && 0 <= t < b[i].children@.len() implies (
    #[trigger] b[i].children@[t]) != c by {
        assert(b[i].children@ == a[i].children@);
        assert(a[i].children@[t] != c);
    }
}

/// After a node was split, the new node has no parent, and a node
/// without a parent has none still.
pub proof fn lemma_orphans_after_split(
    a: Seq<Node>,
    b: Seq<Node>,
    heights: Seq<nat>,
    k: usize,
    root: i64,
    p: int,
    side: Seq<bool>,
    c: int,
)
    requires
        nodes_ok(a, heights, k, root),
        0 <= p < a.len(),
        b.len() == a.len() + 1,
        forall|i: int| 0 <= i < a.len() && i != p ==> same_content(#[trigger] a[i]@, b[i]@),
        side.len() == a[p]@.children.len() || a[p]@.children.len() == 0,
        b[p]@.children == pick(a[p]@.children, side, false),
        b[a.len() as int]@.children == pick(a[p]@.children, side, true),
        b[p].node_type == a[p].node_type,
    ensures
        orphan(b, a.len() as int),
        orphan(a, c) ==> orphan(b, c),
{
    let m = a.len() as int;
    assert forall|i: int, t: int| 0 <= i < b.len() && 0 <= t < b[i].children@.len() implies (
    #[trigger] b[i].children@[t]) != m && (orphan(a, c) ==> b[i].children@[t] != c) by {
        assert(node_ok(a, heights, k, p));
        if i == p || i == m {
            let which = i == m;
            assert(a[p]@.children.len() > 0);
            lemma_pick_elem(a[p]@.children, side, which, t);
            let x = choose|x: int|
                0 <= x < a[p]@.children.len() && (#[trigger] a[p]@.children[x]) == pick(
                    a[p]@.children,
                    side,
                    which,
                )[t];
            assert(a[p].children@[x] == b[i].children@[t]);
            assert(aligned(a[p]@));
            assert(child_ok(a, heights, p, x));
        } else {
            assert(same_content(a[i]@, b[i]@));
            assert(node_ok(a, heights, k, i));
            assert(aligned(a[i]@));
            assert(a[i].children@[t] == b[i].children@[t]);
            assert(child_ok(a, heights, i, t));
        }
    }
}

/// A node without a parent has none after another node became a child.
pub proof fn lemma_orphan_after_push(a: Seq<Node>, b: Seq<Node>, parent: int, sib: int, c: int)
    requires
        orphan(a, c),
        c != sib,
        0 <= sib <= i64::MAX,
        a.len() == b.len(),
        0 <= parent < a.len(),
        b[parent]@.children == a[parent]@.children.push(sib as i64),
        forall|i: int| 0 <= i < a.len() && i != parent ==> same_content(#[trigger] a[i]@, b[i]@),
    ensures
        orphan(b, c),
{
    assert forall|i: int, t: int| 0 <= i < b.len() && 0 <= t < b[i].children@.len() implies (
    #[trigger] b[i].children@[t]) != c by {
        if i == parent {
            assert(b[parent].children@ == a[parent].children@.push(sib as i64));
            if t < a[parent].children@.len() {
                assert(a[parent].children@[t] != c);
            } else {
                assert(b[parent].children@[t] == sib as i64);
            }
        } else {
            assert(same_content(a[i]@, b[i]@));
            assert(a[i].children@[t] != c);
        }
    }
}

/// The centroid in slot `j` of the node at `i` is the bitwise majority of
/// the vectors of the child in that slot, and the child records the node
/// as its parent.
pub open spec fn slot_tidy(nodes: Seq<Node>, i: int, j: int) -> bool {
    let c = nodes[i].children@[j] as int;
    &&& 0 <= c
    &&& nodes[i]@.vectors[j] == spec_mode(nodes[c]@.vectors)
    &&& nodes[c].parent_offset == Some(i as i64)
}

/// Every slot of the node at `i` is in order, and every child of the node
/// stands before `low`.
pub open spec fn tidy(nodes: Seq<Node>, i: int, low: int) -> bool {
    forall|j: int|
        0 <= j < nodes[i].children@.len() ==> #[trigger] slot_tidy(nodes, i, j)
            && nodes[i].children@[j] < low
}

/// Every node from `first` on is in order; the children of those before
/// `start` stand before `low`, the children of the others before `start`.
pub open spec fn built(nodes: Seq<Node>, first: int, low: int, start: int) -> bool {
    forall|i: int| first <= i < nodes.len() ==> #[trigger] tidy_at(nodes, i, low, start)
}

/// The node at `i` is in order; its children stand before `low` if it
/// stands before `start`, and before `start` if not.
pub open spec fn tidy_at(nodes: Seq<Node>, i: int, low: int, start: int) -> bool {
    tidy(
        nodes,
        i,
        if i < start {
            low
        } else {
            start
        },
    )
}

/// Every centroid of the node is the bitwise majority of the vectors of
/// the child beside it.
pub open spec fn pairs_ok(nodes: Seq<Node>, v: NodeView) -> bool {
    forall|j: int|
        0 <= j < v.children.len() ==> v.vectors[j] == spec_mode(
            nodes[(#[trigger] v.children[j]) as int]@.vectors,
        )
}

/// No child of a node from `start` on is one of `others`.
pub open spec fn apart(nodes: Seq<Node>, start: int, others: Seq<i64>) -> bool {
    forall|i: int, j: int, t: int|
        start <= i < nodes.len() && 0 <= j < nodes[i].children@.len() && 0 <= t < others.len() ==> (
        #[trigger] nodes[i].children@[j]) != (#[trigger] others[t])
}

/// Storing one node more, in order itself, whose children are no
/// children of the nodes stored since `start`, leaves the nodes from
/// `first` on in order.
pub proof fn lemma_built_step(a: Seq<Node>, b: Seq<Node>, first: int, low: int, start: int)
    requires
        b.len() == a.len() + 1,
        0 <= first <= start <= a.len(),
        low <= start,
        built(a, first, low, start),
        forall|i: int| 0 <= i < a.len() ==> same_content(#[trigger] a[i]@, b[i]@),
        forall|i: int|
            0 <= i < a.len() && !child_before(
                b,
                a.len() as int,
                b[a.len() as int].children@.len() as int,
                i,
            ) ==> (#[trigger] b[i]).parent_offset == a[i].parent_offset,
        tidy(b, a.len() as int, start),
        forall|t: int|
            0 <= t < b[a.len() as int].children@.len() ==> low <= #[trigger] b[a.len() as int].children@[t],
        apart(a, start, b[a.len() as int].children@),
    ensures
        built(b, first, low, start),
{
    let n = a.len() as int;
    assert forall|i: int| first <= i < b.len() implies #[trigger] tidy_at(b, i, low, start) by {
        if i < n {
            let bound = if i < start {
                low
            } else {
                start
            };
            assert(tidy_at(a, i, low, start));
            assert(same_content(a[i]@, b[i]@));
            assert forall|j: int| 0 <= j < b[i].children@.len() implies #[trigger] slot_tidy(b, i, j)
                && b[i].children@[j] < bound by {
                assert(slot_tidy(a, i, j));
                let c = a[i].children@[j] as int;
                assert(a[i].children@[j] == b[i].children@[j]);
                assert(0 <= c < a.len());
                assert(same_content(a[c]@, b[c]@));
                if child_before(b, n, b[n].children@.len() as int, c) {
                    let t = choose|t: int|
                        0 <= t < b[n].children@.len() && (#[trigger] b[n].children@[t]) == c;
                    if i < start {
                        assert(low <= b[n].children@[t]);
                    } else {
                        assert(a[i].children@[j] != b[n].children@[t]);
                    }
                }
            }
        }
    }
}

/// No child of a node from `start` on is one of the nodes of `level` from
/// the place `done` on.
pub open spec fn clear_of(nodes: Seq<Node>, start: int, level: Seq<usize>, done: int) -> bool {
    forall|i: int, j: int, x: int|
        start <= i < nodes.len() && 0 <= j < nodes[i].children@.len() && done <= x < level.len()
            ==> (#[trigger] nodes[i].children@[j]) != (#[trigger] level[x])
}

/// Every child of a node from `start` on is one of `others`.
pub open spec fn among(nodes: Seq<Node>, start: int, others: Seq<i64>) -> bool {
    forall|i: int, j: int|
        start <= i < nodes.len() && 0 <= j < nodes[i].children@.len() ==> others.contains(
            #[trigger] nodes[i].children@[j],
        )
}

/// After a round that began with `start` nodes, the nodes from `first` on
/// are in order with all their children before `start`.
pub proof fn lemma_built_round(nodes: Seq<Node>, first: int, low: int, start: int)
    requires
        built(nodes, first, low, start),
        low <= start,
    ensures
        built(nodes, first, start, nodes.len() as int),
{
    assert forall|i: int| first <= i < nodes.len() implies #[trigger] tidy_at(
        nodes,
        i,
        start,
        nodes.len() as int,
    ) by {
        assert(tidy_at(nodes, i, low, start));
    }
}

/// Nodes in order stay in order when a node that is no child of them
/// records another parent.
pub proof fn lemma_built_kept(a: Seq<Node>, b: Seq<Node>, first: int, low: int, changed: int)
    requires
        built(a, first, low, a.len() as int),
        a.len() == b.len(),
        0 <= first,
        low <= a.len(),
        low <= changed,
        forall|i: int| 0 <= i < a.len() ==> same_content(#[trigger] a[i]@, b[i]@),
        forall|i: int|
            0 <= i < a.len() && i != changed ==> (#[trigger] b[i]).parent_offset
                == a[i].parent_offset,
    ensures
        built(b, first, low, b.len() as int),
{
    assert forall|i: int| first <= i < b.len() implies #[trigger] tidy_at(
        b,
        i,
        low,
        b.len() as int,
    ) by {
        assert(tidy_at(a, i, low, a.len() as int));
        assert(same_content(a[i]@, b[i]@));
        assert forall|j: int| 0 <= j < b[i].children@.len() implies #[trigger] slot_tidy(b, i, j)
            && b[i].children@[j] < low by {
            assert(slot_tidy(a, i, j));
            let c = a[i].children@[j] as int;
            assert(a[i].children@[j] == b[i].children@[j]);
            assert(same_content(a[c]@, b[c]@));
        }
    }
}

/// The lists of a leaf: its vectors, ids and lists of attributes.
pub open spec fn lists_of(v: NodeView) -> (Seq<Seq<u8>>, Seq<u128>, Seq<Seq<KVPairView>>) {
    (v.vectors, v.ids, v.metadata)
}

/// What the flag `which` picks from the lists of a leaf.
pub open spec fn picked_lists(v: NodeView, side: Seq<bool>, which: bool) -> (
    Seq<Seq<u8>>,
    Seq<u128>,
    Seq<Seq<KVPairView>>,
) {
    (pick(v.vectors, side, which), pick(v.ids, side, which), pick(v.metadata, side, which))
}

/// Lists with an entry more at their end.
pub open spec fn lists_with(
    l: (Seq<Seq<u8>>, Seq<u128>, Seq<Seq<KVPairView>>),
    e: EntryView,
) -> (Seq<Seq<u8>>, Seq<u128>, Seq<Seq<KVPairView>>) {
    (l.0.push(e.vector), l.1.push(e.id), l.2.push(e.metadata))
}

/// Whether the second cluster of a split leaf takes the entry: its
/// centroid is nearer to the entry's vector than that of the first.
pub open spec fn right_takes(v: NodeView, side: Seq<bool>, e: EntryView) -> bool {
    spec_hamming(e.vector, spec_mode(pick(v.vectors, side, true))) < spec_hamming(
        e.vector,
        spec_mode(pick(v.vectors, side, false)),
    )
}

/// What a full leaf and its new sibling hold after the leaf was split by
/// the flags `side` and one of the two took the entry.
pub open spec fn split_took_by(
    was: NodeView,
    leaf: NodeView,
    sibling: NodeView,
    e: EntryView,
    side: Seq<bool>,
) -> bool {
    &&& clustered(was.vectors, side)
    &&& if right_takes(was, side, e) {
        lists_of(leaf) == picked_lists(was, side, false) && lists_of(sibling) == lists_with(
            picked_lists(was, side, true),
            e,
        )
    } else {
        lists_of(leaf) == lists_with(picked_lists(was, side, false), e) && lists_of(sibling)
            == picked_lists(was, side, true)
    }
}

/// What a full leaf and its new sibling hold after an insertion: the leaf
/// was split in two clusters, and the cluster whose centroid is nearer to
/// the entry's vector took the entry at its end.
pub open spec fn split_took(was: NodeView, leaf: NodeView, sibling: NodeView, e: EntryView) -> bool {
    exists|side: Seq<bool>| #[trigger] split_took_by(was, leaf, sibling, e, side)
}

/// What the leaf at `leaf` holds after an insertion that reached it: a
/// leaf with room took the entry at its end; a full leaf was split, a new
/// node at the end of the array is its sibling, and one of the two took
/// the entry.
pub open spec fn took_entry(
    before: Seq<Node>,
    after: Seq<Node>,
    k: usize,
    leaf: int,
    e: EntryView,
) -> bool {
    if before[leaf]@.vectors.len() < k {
        after[leaf]@ == with_entry(before[leaf]@, e)
    } else {
        before.len() < after.len() && split_took(
            before[leaf]@,
            after[leaf]@,
            after[before.len() as int]@,
            e,
        )
    }
}

/// The leaves of `a` are leaves of `b` with the content they had.
pub open spec fn leaves_same(a: Seq<Node>, b: Seq<Node>) -> bool {
    &&& a.len() <= b.len()
    &&& forall|i: int|
        0 <= i < a.len() && (#[trigger] a[i]).node_type == NodeType::Leaf ==> same_content(
            a[i]@,
            b[i]@,
        )
}

/// Leaves keep their content through a step that changes the content of
/// an internal node at most.
pub proof fn lemma_leaves_same_step(a: Seq<Node>, b: Seq<Node>, c: Seq<Node>, p: int)
    requires
        leaves_same(a, b),
        b.len() <= c.len(),
        forall|i: int| 0 <= i < b.len() && i != p ==> same_content(#[trigger] b[i]@, c[i]@),
        0 <= p < a.len() ==> b[p].node_type == NodeType::Internal,
    ensures
        leaves_same(a, c),
{
    assert forall|i: int|
        0 <= i < a.len() && (#[trigger] a[i]).node_type == NodeType::Leaf implies same_content(
        a[i]@,
        c[i]@,
    ) by {
        assert(same_content(a[i]@, b[i]@));
        assert(same_content(b[i]@, c[i]@));
    }
}

/// What a leaf holds after it took an entry at its end.
pub open spec fn with_entry(v: NodeView, e: EntryView) -> NodeView {
    NodeView {
        vectors: v.vectors.push(e.vector),
        ids: v.ids.push(e.id),
        metadata: v.metadata.push(e.metadata),
        ..v
    }
}

/// Whether the node at `leaf` is the leaf that a descent for an insertion
/// of `query` reaches from the root, by the way `path`.
pub open spec fn entry_leaf(
    nodes: Seq<Node>,
    root: i64,
    path: Seq<(usize, usize)>,
    leaf: int,
    query: Seq<u8>,
) -> bool {
    &&& path_ok(nodes, root, path, leaf)
    &&& nodes[leaf].node_type == NodeType::Leaf
    &&& greedy(nodes, path, query)
}

/// Whether every step of a way takes the slot that a descent for an
/// insertion takes.
pub open spec fn greedy(nodes: Seq<Node>, path: Seq<(usize, usize)>, query: Seq<u8>) -> bool {
    forall|d: int|
        0 <= d < path.len() ==> is_choice(nodes, (#[trigger] path[d]).0 as int, query, path[d].1 as int)
}

/// Whether `slot` is the slot that a descent for an insertion takes below
/// the node at `cur`: of the children looked into, that of the first one
/// that holds the vector nearest to the query.
pub open spec fn is_choice(nodes: Seq<Node>, cur: int, query: Seq<u8>, slot: int) -> bool {
    exists|r: int|
        #[trigger] choice_at(nodes, cur, query, r) && looked_into(nodes, cur, query)[r].1 == slot
}

impl Tree {
    /// The slot of the child to descend into from the internal node at
    /// `cur`: of the `C` children whose centroids are nearest to the query,
    /// the one that holds the vector nearest to the query, the first of
    /// them.
    fn choose_child(&self, cur: usize, query: &Vector) -> (slot: usize)
        requires
            self.sound(),
            cur < self.nodes().len(),
            self.nodes()[cur as int].node_type == NodeType::Internal,
        ensures
            slot < self.nodes()[cur as int].children@.len(),
            is_choice(self.nodes(), cur as int, query@, slot as int),
    {
        let n: usize = self.storage_manager.data.len();
        proof {
            assert(node_ok(self.nodes(), self.heights@, self.k, cur as int));
        }
        let node = &self.storage_manager.data[cur];
        let closest = collect_top_k(query, &node.vectors, C);
        let ghost nodes = self.nodes();
        let ghost cand = looked_into(nodes, cur as int, query@);
        proof {
            assert(place_hits(closest@) == cand);
            assert(place_hits(closest@).len() == closest@.len());
        }
        let mut slot: usize = closest[0].0;
        let mut best: u16 = u16::MAX;
        let ghost at: int = 0;
        let mut r: usize = 0;
        while r < closest.len()
            invariant
                r <= closest@.len(),
                closest@.len() >= 1,
                self.sound(),
                nodes == self.nodes(),
                n == self.nodes().len(),
                cur < n,
                node == &self.nodes()[cur as int],
                node.node_type == NodeType::Internal,
                node_ok(self.nodes(), self.heights@, self.k, cur as int),
                slot < node.children@.len(),
                cand == looked_into(nodes, cur as int, query@),
                place_hits(closest@) == cand,
                cand.len() == closest@.len(),
                forall|x: int|
                    0 <= x < closest@.len() ==> (#[trigger] closest@[x]).0 < node.vectors@.len(),
                0 <= at < closest@.len(),
                slot == closest@[at].0,
                r == 0 ==> at == 0 && best == u16::MAX,
                r > 0 ==> at < r && best == near_child(nodes, cur as int, query@, slot as int),
                forall|x: int|
                    0 <= x < r ==> best <= near_child(
                        nodes,
                        cur as int,
                        query@,
                        (#[trigger] cand[x]).1 as int,
                    ),
                forall|x: int|
                    0 <= x < at ==> best < near_child(
                        nodes,
                        cur as int,
                        query@,
                        (#[trigger] cand[x]).1 as int,
                    ),
            decreases closest@.len() - r,
        {
            let idx: usize = closest[r].0;
            proof {
                assert(child_ok(self.nodes(), self.heights@, cur as int, idx as int));
                assert(cand[r as int].1 == idx);
            }
            let child = index_of(node.children[idx], n);
            let d = nearest_distance(query, &self.storage_manager.data[child].vectors);
            proof {
                assert(d == near_child(nodes, cur as int, query@, idx as int));
            }
            if d < best {
                best = d;
                slot = idx;
                proof {
                    at = r as int;
                }
            }
            r = r + 1;
        }
        proof {
            assert(cand[at].1 == slot);
            assert(choice_at(nodes, cur as int, query@, at));
        }
        slot
    }

    /// The leaf that a greedy descent from the root reaches for the vector,
    /// and the way to it.
    fn find_entrypoint(&self, vector: &Vector) -> (r: (usize, Vec<(usize, usize)>))
        requires
            self.sound(),
        ensures
            path_ok(self.nodes(), self.storage_manager.root_offset, r.1@, r.0 as int),
            self.nodes()[r.0 as int].node_type == NodeType::Leaf,
            r.1@.len() <= self.depth(),
            greedy(self.nodes(), r.1@, vector@),
    {
        let n: usize = self.storage_manager.data.len();
        let mut cur: usize = index_of(self.storage_manager.root_offset, n);
        let mut path: Vec<(usize, usize)> = Vec::new();
        loop
            invariant
                self.sound(),
                n == self.nodes().len(),
                cur < n,
                path_ok(self.nodes(), self.storage_manager.root_offset, path@, cur as int),
                path@.len() + self.heights@[cur as int] <= self.depth(),
                greedy(self.nodes(), path@, vector@),
            ensures
                self.nodes()[cur as int].node_type == NodeType::Leaf,
            decreases self.heights@[cur as int],
        {
            proof {
                assert(node_ok(self.nodes(), self.heights@, self.k, cur as int));
            }
            match self.storage_manager.data[cur].node_type {
                NodeType::Leaf => {
                    break ;
                },
                NodeType::Internal => {
                    let slot = self.choose_child(cur, vector);
                    proof {
                        assert(child_ok(self.nodes(), self.heights@, cur as int, slot as int));
                    }
                    let next = index_of(self.storage_manager.data[cur].children[slot], n);
                    let ghost before = path@;
                    path.push((cur, slot));
                    proof {
                        assert forall|d: int| 0 <= d < path@.len() implies is_choice(
                            self.nodes(),
                            (#[trigger] path@[d]).0 as int,
                            vector@,
                            path@[d].1 as int,
                        ) by {
                            if d < before.len() {
                                assert(path@[d] == before[d]);
                            }
                        }
                        assert forall|d: int| 0 <= d < path@.len() implies {
                            let p = (#[trigger] path@[d]).0 as int;
                            let s = path@[d].1 as int;
                            &&& 0 <= p < self.nodes().len()
                            &&& self.nodes()[p].node_type == NodeType::Internal
                            &&& 0 <= s < self.nodes()[p].children@.len()
                            &&& self.nodes()[p].children@[s] == (if d + 1 < path@.len() {
                                path@[d + 1].0 as int
                            } else {
                                next as int
                            })
                        } by {
                            if d < before.len() {
                                assert(path@[d] == before[d]);
                            }
                        }
                    }
                    cur = next;
                },
            }
        }
        (cur, path)
    }
}

impl Tree {
    /// What every step of an insertion keeps: the invariant, the entries,
    /// the cap, the nodes that were there and their heights.
    pub closed spec fn kept(&self, before: &Tree) -> bool {
        &&& self.sound()
        &&& self.entries() == before.entries()
        &&& self.k == before.k
        &&& self.nodes().len() >= before.nodes().len()
        &&& forall|i: int|
            0 <= i < before.nodes().len() ==> (#[trigger] self.heights@[i]) == before.heights@[i]
    }

    /// All nodes that were there but the one at `changed` have the content
    /// they had.
    pub closed spec fn others_same(&self, before: &Tree, changed: int) -> bool {
        forall|i: int|
            0 <= i < before.nodes().len() && i != changed ==> same_content(
                #[trigger] before.nodes()[i]@,
                self.nodes()[i]@,
            )
    }

    /// The nodes that were there have the content they had, and every new
    /// node is an internal node.
    pub closed spec fn new_above(&self, before: &Tree) -> bool {
        &&& grown_from(before.nodes(), self.nodes())
        &&& forall|i: int|
            before.nodes().len() <= i < self.nodes().len() ==> (#[trigger] self.nodes()[i]).node_type
                == NodeType::Internal
    }

    /// The nodes of `before` are the first nodes of the tree, with their
    /// content and their heights; the root and the cap are the same.
    pub closed spec fn extends(&self, before: &Tree) -> bool {
        &&& grown_from(before.nodes(), self.nodes())
        &&& self.heights@.len() == self.nodes().len()
        &&& forall|i: int|
            0 <= i < before.nodes().len() ==> (#[trigger] self.heights@[i]) == before.heights@[i]
        &&& self.storage_manager.root_offset == before.storage_manager.root_offset
        &&& self.k == before.k
    }

    /// What a step keeps of what a step kept was kept.
    proof fn lemma_kept_next(&self, mid: &Tree, before: &Tree)
        requires
            mid.kept(before),
            self.kept(mid),
        ensures
            self.kept(before),
    {
        assert forall|i: int| 0 <= i < before.nodes().len() implies (#[trigger] self.heights@[i])
            == before.heights@[i] by {
            assert(mid.heights@[i] == before.heights@[i]);
        }
    }

    /// Nothing is kept as it is.
    proof fn lemma_kept_self(&self)
        requires
            self.sound(),
        ensures
            self.kept(self),
    {
    }

    /// A tree extends itself.
    proof fn lemma_extends_self(&self)
        requires
            self.sound(),
        ensures
            self.extends(self),
    {
    }

    /// A tree that keeps the content of the nodes and the root extends
    /// what it was.
    proof fn lemma_extends_of_kept(&self, before: &Tree)
        requires
            self.kept(before),
            self.new_above(before),
            self.storage_manager.root_offset == before.storage_manager.root_offset,
        ensures
            self.extends(before),
    {
    }

    /// What extends an extension extends the tree.
    proof fn lemma_extends_next(&self, mid: &Tree, before: &Tree)
        requires
            mid.extends(before),
            self.extends(mid),
        ensures
            self.extends(before),
    {
        assert forall|i: int| 0 <= i < before.nodes().len() implies same_content(
            #[trigger] before.nodes()[i]@,
            self.nodes()[i]@,
        ) by {
            assert(same_content(before.nodes()[i]@, mid.nodes()[i]@));
            assert(same_content(mid.nodes()[i]@, self.nodes()[i]@));
        }
        assert forall|i: int| 0 <= i < before.nodes().len() implies (#[trigger] self.heights@[i])
            == before.heights@[i] by {
            assert(mid.heights@[i] == before.heights@[i]);
        }
    }

    /// Nothing new is new internal nodes.
    proof fn lemma_new_above_self(&self)
        ensures
            self.new_above(self),
    {
    }

    /// New internal nodes after new internal nodes are new internal nodes.
    proof fn lemma_new_above_next(&self, mid: &Tree, before: &Tree)
        requires
            mid.new_above(before),
            grown_from(mid.nodes(), self.nodes()),
            forall|i: int|
                mid.nodes().len() <= i < self.nodes().len() ==> (#[trigger] self.nodes()[i]).node_type
                    == NodeType::Internal,
        ensures
            self.new_above(before),
    {
        assert forall|i: int| 0 <= i < before.nodes().len() implies same_content(
            #[trigger] before.nodes()[i]@,
            self.nodes()[i]@,
        ) by {
            assert(same_content(before.nodes()[i]@, mid.nodes()[i]@));
            assert(same_content(mid.nodes()[i]@, self.nodes()[i]@));
        }
        assert forall|i: int| before.nodes().len() <= i < self.nodes().len() implies (
        #[trigger] self.nodes()[i]).node_type == NodeType::Internal by {
            if i < mid.nodes().len() {
                assert(same_content(mid.nodes()[i]@, self.nodes()[i]@));
            }
        }
    }

    /// Whether the nodes from the one at `first` on are in order as a
    /// rebuild leaves them: each centroid is the bitwise majority of the
    /// vectors of the child beside it, each child records the node as its
    /// parent, and the root records no parent.
    pub open spec fn rebuilt_from(&self, first: nat) -> bool {
        let nodes = self.storage_manager.data@;
        &&& forall|i: int, j: int|
            first <= i < nodes.len() && 0 <= j < nodes[i].children@.len() ==> #[trigger] slot_tidy(
                nodes,
                i,
                j,
            )
        &&& nodes[self.storage_manager.root_offset as int].parent_offset is None
        &&& nodes[self.storage_manager.root_offset as int].is_root
    }

    /// Whether the levels above the leaves are sure to be rebuilt: the
    /// array has room for as many nodes again as it holds.
    pub closed spec fn can_rebuild(&self) -> bool {
        2 * self.node_count() < i64::MAX
    }

    /// Whether a bulk load of `m` entries is sure to find room: for a leaf
    /// for each entry and for as many nodes again as the array holds then.
    pub closed spec fn can_bulk(&self, m: nat) -> bool {
        2 * (self.node_count() + m) < i64::MAX
    }

    /// Whether a bulk load of `m` entries is sure to find room.
    pub fn has_room_for_bulk(&self, m: usize) -> (r: bool)
        requires
            self.wf(),
        ensures
            r == self.can_bulk(m as nat),
    {
        let n: usize = self.storage_manager.data.len();
        let most: u64 = (i64::MAX as u64 - 1) / 2;
        n as u64 <= most && m as u64 <= most - n as u64
    }

    /// Whether the levels above the leaves are sure to be rebuilt.
    pub fn has_room_to_rebuild(&self) -> (r: bool)
        requires
            self.wf(),
        ensures
            r == self.can_rebuild(),
    {
        let n: usize = self.storage_manager.data.len();
        n as u64 <= (i64::MAX as u64 - 1) / 2
    }

    /// Whether the tree is balanced: every leaf hangs below the root, and
    /// all of them as many steps below it.
    pub open spec fn balanced(&self) -> bool {
        exists|h: nat|
            #[trigger] leaves_hang(
                self.storage_manager.data@,
                seq![self.storage_manager.root_offset as usize],
                h,
            )
    }

    /// Makes `parent` the recorded parent of every child of the node at
    /// `parent`. The recorded parents are a cache: nothing else changes.
    fn refresh_parents(&mut self, parent: usize)
        requires
            old(self).sound(),
            parent < old(self).nodes().len(),
        ensures
            final(self).kept(old(self)),
            final(self).others_same(old(self), -1),
            final(self).nodes().len() == old(self).nodes().len(),
            final(self).storage_manager.root_offset == old(self).storage_manager.root_offset,
            final(self).heights == old(self).heights,
            links_kept(old(self).nodes(), final(self).nodes(), -1),
            forall|i: int|
                0 <= i < old(self).nodes().len() ==> (#[trigger] final(self).nodes()[i])@
                    == with_parent(
                    old(self).nodes(),
                    parent as int,
                    old(self).nodes()[parent as int].children@.len() as int,
                    i,
                ),
    {
        let n: usize = self.storage_manager.data.len();
        let total: usize = self.storage_manager.data[parent].children.len();
        let ghost first = self.nodes();
        let mut j: usize = 0;
        proof {
            self.lemma_kept_self();
        }
        while j < total
            invariant
                j <= total,
                parent < n,
                n == self.nodes().len(),
                n == old(self).nodes().len(),
                first == old(self).nodes(),
                total == first[parent as int].children@.len(),
                self.nodes()[parent as int].children@ == first[parent as int].children@,
                self.kept(old(self)),
                self.others_same(old(self), -1),
                self.storage_manager.root_offset == old(self).storage_manager.root_offset,
                self.heights == old(self).heights,
                forall|i: int|
                    0 <= i < n ==> (#[trigger] self.nodes()[i])@ == with_parent(
                        first,
                        parent as int,
                        j as int,
                        i,
                    ),
            decreases total - j,
        {
            let ghost before = self.nodes();
            proof {
                assert(node_ok(before, self.heights@, self.k, parent as int));
                assert(aligned(before[parent as int]@));
                assert(child_ok(before, self.heights@, parent as int, j as int));
            }
            let c = index_of(self.storage_manager.data[parent].children[j], n);
            self.storage_manager.data[c].parent_offset = Some(offset_of(parent));
            proof {
                let after = self.nodes();
                assert forall|i: int| 0 <= i < n implies same_content(
                    #[trigger] before[i]@,
                    after[i]@,
                ) by {}
                lemma_same_content(
                    before,
                    after,
                    self.heights@,
                    self.k,
                    self.storage_manager.root_offset,
                );
                assert forall|i: int| 0 <= i < n implies same_content(
                    #[trigger] old(self).nodes()[i]@,
                    after[i]@,
                ) by {
                    assert(same_content(old(self).nodes()[i]@, before[i]@));
                }
                assert(first[parent as int].children@[j as int] == c);
                assert forall|i: int| 0 <= i < n implies (#[trigger] after[i])@ == with_parent(
                    first,
                    parent as int,
                    j + 1,
                    i,
                ) by {
                    assert(before[i]@ == with_parent(first, parent as int, j as int, i));
                    if i == c {
                        assert(child_before(first, parent as int, j + 1, i));
                    } else {
                        assert(after[i] == before[i]);
                        if child_before(first, parent as int, j + 1, i) {
                            let t = choose|t: int|
                                0 <= t < j + 1 && (#[trigger] first[parent as int].children@[t])
                                    == i;
                            assert(t < j);
                            assert(child_before(first, parent as int, j as int, i));
                        }
                    }
                }
            }
            j = j + 1;
        }
        proof {
            lemma_links_of_content(old(self).nodes(), self.nodes(), -1);
        }
    }

    /// Makes the centroid in slot `s` of the node at `p` the bitwise
    /// majority of what the child in that slot holds.
    fn set_centroid(&mut self, p: usize, s: usize)
        requires
            old(self).sound(),
            p < old(self).nodes().len(),
            old(self).nodes()[p as int].node_type == NodeType::Internal,
            s < old(self).nodes()[p as int]@.children.len(),
        ensures
            final(self).kept(old(self)),
            final(self).others_same(old(self), p as int),
            final(self).nodes().len() == old(self).nodes().len(),
            final(self).storage_manager.root_offset == old(self).storage_manager.root_offset,
            final(self).nodes()[p as int]@.children == old(self).nodes()[p as int]@.children,
            final(self).nodes()[p as int]@.vectors.len() == old(self).nodes()[p as int]@.vectors.len(),
            final(self).nodes()[p as int].node_type == NodeType::Internal,
            links_kept(old(self).nodes(), final(self).nodes(), -1),
            final(self).heights == old(self).heights,
            final(self).nodes()[p as int]@ == with_centroid(old(self).nodes(), p as int, s as int),
            forall|i: int|
                0 <= i < old(self).nodes().len() && i != p ==> (#[trigger] final(self).nodes()[i])@
                    == old(self).nodes()[i]@,
    {
        let n: usize = self.storage_manager.data.len();
        let ghost before = self.nodes();
        proof {
            assert(node_ok(before, self.heights@, self.k, p as int));
            assert(child_ok(before, self.heights@, p as int, s as int));
        }
        let c = index_of(self.storage_manager.data[p].children[s], n);
        let centroid = find_modes(&self.storage_manager.data[c].vectors);
        proof {
            lemma_mode_unique(before[c as int]@.vectors, centroid@, spec_mode(before[c as int]@.vectors));
        }
        self.storage_manager.data[p].vectors[s] = centroid;
        proof {
            let after = self.nodes();
            assert(after[p as int]@.vectors =~= before[p as int]@.vectors.update(
                s as int,
                spec_mode(before[c as int]@.vectors),
            ));
            assert(after[p as int]@ == with_centroid(before, p as int, s as int));
            assert(after[p as int]@.vectors.len() == before[p as int]@.vectors.len());
            assert(after[p as int]@.metadata =~= before[p as int]@.metadata);
            assert forall|i: int| 0 <= i < after.len() implies #[trigger] node_ok(
                after,
                self.heights@,
                self.k,
                i,
            ) by {
                assert(node_ok(before, self.heights@, self.k, i));
                if after[i].node_type == NodeType::Internal {
                    assert forall|j: int| 0 <= j < after[i]@.children.len() implies #[trigger] child_ok(
                        after,
                        self.heights@,
                        i,
                        j,
                    ) by {
                        assert(child_ok(before, self.heights@, i, j));
                    }
                }
            }
            lemma_entries_same(after, before, n as nat);
            lemma_links_of_content(before, after, p as int);
            assert(slots_kept(before[p as int], after[p as int]));
        }
    }

    /// Appends a slot for the node at `sib` to the internal node at
    /// `parent`, which has room and stands higher: the centroid is the
    /// bitwise majority of what the node at `sib` holds.
    fn push_slot(&mut self, parent: usize, sib: usize)
        requires
            old(self).sound(),
            parent < old(self).nodes().len(),
            sib < old(self).nodes().len(),
            old(self).nodes()[parent as int].node_type == NodeType::Internal,
            old(self).nodes()[parent as int]@.vectors.len() < old(self).k,
            old(self).heights@[sib as int] < old(self).heights@[parent as int],
            !child_before(
                old(self).nodes(),
                parent as int,
                old(self).nodes()[parent as int].children@.len() as int,
                sib as int,
            ),
        ensures
            final(self).kept(old(self)),
            final(self).others_same(old(self), parent as int),
            final(self).nodes().len() == old(self).nodes().len(),
            final(self).storage_manager.root_offset == old(self).storage_manager.root_offset,
            final(self).nodes()[parent as int].node_type == NodeType::Internal,
            final(self).nodes()[parent as int]@.children == old(self).nodes()[parent as int]@.children.push(sib as i64),
            links_kept(old(self).nodes(), final(self).nodes(), -1),
            holds_child(
                final(self).nodes(),
                parent as int,
                old(self).nodes()[parent as int].children@.len() as int,
                sib as int,
            ),
            final(self).heights == old(self).heights,
    {
        let n: usize = self.storage_manager.data.len();
        let ghost before = self.nodes();
        proof {
            assert(node_ok(before, self.heights@, self.k, parent as int));
        }
        let centroid = find_modes(&self.storage_manager.data[sib].vectors);
        self.storage_manager.data[parent].vectors.push(centroid);
        self.storage_manager.data[parent].children.push(offset_of(sib));
        proof {
            let mid = self.nodes();
            assert(mid[parent as int]@.vectors.len() == before[parent as int]@.vectors.len() + 1);
            assert(mid[parent as int]@.metadata =~= before[parent as int]@.metadata);
            assert(mid[parent as int]@.children.no_duplicates()) by {
                let was = before[parent as int]@.children;
                let now = mid[parent as int]@.children;
                assert(now =~= was.push(sib as i64));
                assert forall|a: int, b: int|
                    0 <= a < now.len() && 0 <= b < now.len() && a != b implies now[a] != now[b] by {
                    if a < was.len() && b < was.len() {
                        assert(now[a] == was[a] && now[b] == was[b]);
                    } else if a < was.len() {
                        assert(before[parent as int].children@[a] == was[a]);
                    } else {
                        assert(before[parent as int].children@[b] == was[b]);
                    }
                }
            }
            assert forall|i: int| 0 <= i < mid.len() implies #[trigger] node_ok(
                mid,
                self.heights@,
                self.k,
                i,
            ) by {
                assert(node_ok(before, self.heights@, self.k, i));
                if mid[i].node_type == NodeType::Internal {
                    assert forall|j: int| 0 <= j < mid[i]@.children.len() implies #[trigger] child_ok(
                        mid,
                        self.heights@,
                        i,
                        j,
                    ) by {
                        if i != parent || j < before[i]@.children.len() {
                            assert(child_ok(before, self.heights@, i, j));
                        }
                    }
                }
            }
            lemma_entries_same(mid, before, n as nat);
        }
        let ghost mid = self.nodes();
        self.storage_manager.data[sib].parent_offset = Some(offset_of(parent));
        proof {
            let after = self.nodes();
            assert forall|i: int| 0 <= i < n implies same_content(#[trigger] mid[i]@, after[i]@) by {}
            lemma_same_content(
                mid,
                after,
                self.heights@,
                self.k,
                self.storage_manager.root_offset,
            );
            lemma_links_of_content(before, after, parent as int);
            assert(slots_kept(before[parent as int], after[parent as int]));
        }
    }

    /// Puts a new root above the nodes at `a` and `b`, with a slot for each.
    fn grow_root(&mut self, a: usize, b: usize)
        requires
            old(self).sound(),
            old(self).nodes().len() < i64::MAX,
            a < old(self).nodes().len(),
            b < old(self).nodes().len(),
            a != b,
            old(self).heights@[b as int] <= old(self).heights@[a as int],
        ensures
            final(self).kept(old(self)),
            final(self).others_same(old(self), -1),
            final(self).nodes().len() == old(self).nodes().len() + 1,
            final(self).storage_manager.root_offset == old(self).nodes().len(),
            links_kept(old(self).nodes(), final(self).nodes(), -1),
            holds_child(final(self).nodes(), old(self).nodes().len() as int, 0, a as int),
            holds_child(final(self).nodes(), old(self).nodes().len() as int, 1, b as int),
            final(self).heights@[old(self).nodes().len() as int] == old(self).heights@[a as int] + 1,
    {
        let n: usize = self.storage_manager.data.len();
        let ghost before = self.nodes();
        let ghost heights = self.heights@;
        let mut root = Node::new_internal();
        assert(root.vectors@.len() == root@.vectors.len());
        root.k = self.k;
        root.is_root = true;
        root.offset = offset_of(n);
        root.vectors.push(find_modes(&self.storage_manager.data[a].vectors));
        root.vectors.push(find_modes(&self.storage_manager.data[b].vectors));
        root.children.push(offset_of(a));
        root.children.push(offset_of(b));
        proof {
            assert(root@.metadata =~= Seq::<Seq<KVPairView>>::empty());
            assert(root.vectors@.len() == 2);
            assert(root@.vectors.len() == 2);
        }
        self.storage_manager.data.push(root);
        self.storage_manager.data[a].is_root = false;
        self.storage_manager.data[a].parent_offset = Some(offset_of(n));
        self.storage_manager.data[b].is_root = false;
        self.storage_manager.data[b].parent_offset = Some(offset_of(n));
        let ghost h = heights[a as int] + 1;
        self.heights = Ghost(heights.push(h as nat));
        proof {
            let after = self.nodes();
            assert forall|i: int| 0 <= i < n implies same_content(#[trigger] before[i]@, after[i]@) by {}
            assert(node_ok(after, self.heights@, self.k, n as int)) by {
                assert(child_ok(after, self.heights@, n as int, 0));
                assert(child_ok(after, self.heights@, n as int, 1));
            }
            lemma_node_added(
                before,
                after,
                heights,
                h as nat,
                self.k,
                self.storage_manager.root_offset,
            );
            assert(entries_of(after, after.len()) =~= entries_of(before, before.len()));
            lemma_links_of_content(before, after, -1);
        }
        self.storage_manager.set_root_offset(offset_of(n));
    }

    /// Splits the node at `p` in two clusters: the node keeps the first, a
    /// new node at the end of the array takes the second. Gives the flags
    /// that say which entry went where.
    fn split_node(&mut self, p: usize) -> (side: Vec<bool>)
        requires
            old(self).sound(),
            old(self).nodes().len() < i64::MAX,
            p < old(self).nodes().len(),
            old(self).nodes()[p as int]@.vectors.len() >= 2,
        ensures
            final(self).kept(old(self)),
            final(self).others_same(old(self), p as int),
            final(self).nodes().len() == old(self).nodes().len() + 1,
            final(self).storage_manager.root_offset == old(self).storage_manager.root_offset,
            final(self).heights@[old(self).nodes().len() as int] == old(self).heights@[p as int],
            side@.len() == old(self).nodes()[p as int]@.vectors.len(),
            final(self).nodes()[p as int]@.children == pick(
                old(self).nodes()[p as int]@.children,
                side@,
                false,
            ),
            final(self).nodes()[old(self).nodes().len() as int]@.children == pick(
                old(self).nodes()[p as int]@.children,
                side@,
                true,
            ),
            final(self).nodes()[p as int].node_type == old(self).nodes()[p as int].node_type,
            final(self).nodes()[old(self).nodes().len() as int].node_type == old(self).nodes()[p as int].node_type,
            fair(side@),
            final(self).nodes()[p as int]@.vectors.len() < final(self).k,
            final(self).nodes()[old(self).nodes().len() as int]@.vectors.len() < final(self).k,
            links_kept(old(self).nodes(), final(self).nodes(), p as int),
            final(self).heights@ == old(self).heights@.push(old(self).heights@[p as int]),
            clustered(old(self).nodes()[p as int]@.vectors, side@),
            old(self).nodes()[p as int].node_type == NodeType::Leaf ==> lists_of(
                final(self).nodes()[p as int]@,
            ) == picked_lists(old(self).nodes()[p as int]@, side@, false) && lists_of(
                final(self).nodes()[old(self).nodes().len() as int]@,
            ) == picked_lists(old(self).nodes()[p as int]@, side@, true),
            forall|s: int|
                0 <= s < old(self).nodes()[p as int].children@.len() ==> #[trigger] child_placed(
                    old(self).nodes(),
                    final(self).nodes(),
                    p as int,
                    s,
                ),
    {
        let n: usize = self.storage_manager.data.len();
        let ghost before = self.nodes();
        let ghost heights = self.heights@;
        proof {
            assert(node_ok(before, heights, self.k, p as int));
        }
        let (mut sibling, side) = self.storage_manager.data[p].split_in_two();
        let ghost left = self.nodes()[p as int]@;
        let ghost right = sibling@;
        sibling.offset = offset_of(n);
        self.storage_manager.data.push(sibling);
        self.heights = Ghost(heights.push(heights[p as int]));
        proof {
            let after = self.nodes();
            let hs = self.heights@;
            lemma_split_by_aligned(before[p as int]@, left, right, side@);
            lemma_count_flags(side@);
            lemma_split_entries(before[p as int]@, left, right, side@);
            assert forall|i: int| 0 <= i < after.len() implies #[trigger] node_ok(
                after,
                hs,
                self.k,
                i,
            ) by {
                if i == p || i == n {
                    let which = i == n;
                    if before[p as int].node_type == NodeType::Internal {
                        lemma_pick_distinct(before[p as int]@.children, side@, which);
                    }
                    assert forall|j: int| 0 <= j < after[i]@.metadata.len() implies kvs_fit(
                        #[trigger] after[i]@.metadata[j],
                    ) by {
                        lemma_pick_elem(before[p as int]@.metadata, side@, which, j);
                    }
                    assert forall|j: int| 0 <= j < after[i]@.children.len() implies #[trigger] child_ok(
                        after,
                        hs,
                        i,
                        j,
                    ) by {
                        lemma_pick_elem(before[p as int]@.children, side@, which, j);
                        let x = choose|x: int|
                            0 <= x < before[p as int]@.children.len()
                                && (#[trigger] before[p as int]@.children[x]) == pick(
                                before[p as int]@.children,
                                side@,
                                which,
                            )[j];
                        assert(child_ok(before, heights, p as int, x));
                    }
                } else {
                    assert(node_ok(before, heights, self.k, i));
                    if after[i].node_type == NodeType::Internal {
                        assert forall|j: int| 0 <= j < after[i]@.children.len() implies #[trigger] child_ok(
                            after,
                            hs,
                            i,
                            j,
                        ) by {
                            assert(child_ok(before, heights, i, j));
                        }
                    }
                }
            }
            lemma_entries_changed(before, after, n as nat, p as int);
            lemma_entries_by_content(right, after[n as int]@, right.vectors.len());
            assert(node_entries(after[n as int]@) == node_entries(right));
            assert(after[p as int]@ == left);
            let x = node_entries(before[p as int]@);
            let l = node_entries(left);
            let r = node_entries(right);
            let a_n = entries_of(after, n as nat);
            let b_n = entries_of(before, n as nat);
            assert(entries_of(after, after.len()) == a_n.add(r));
            assert(a_n.add(x) == b_n.add(l));
            assert(x == l.add(r));
            assert(a_n.add(r).add(x) =~= a_n.add(x).add(r));
            assert(b_n.add(l).add(r) =~= b_n.add(l.add(r)));
            assert(entries_of(after, after.len()).add(x) == entries_of(before, before.len()).add(
                x,
            ));
            lemma_cancel(entries_of(after, after.len()), entries_of(before, before.len()), x);
        }
        let ghost mid = *self;
        self.refresh_parents(n);
        proof {
            assert(same_content(mid.nodes()[p as int]@, self.nodes()[p as int]@));
            assert(same_content(mid.nodes()[n as int]@, self.nodes()[n as int]@));
            assert forall|i: int| 0 <= i < n && i != p implies same_content(
                #[trigger] before[i]@,
                self.nodes()[i]@,
            ) by {
                assert(same_content(mid.nodes()[i]@, self.nodes()[i]@));
            }
            let after = self.nodes();
            lemma_links_of_content(before, after, p as int);
            assert forall|s: int| 0 <= s < before[p as int].children@.len() implies #[trigger] child_placed(
                before,
                after,
                p as int,
                s,
            ) by {
                let slots = before[p as int]@.children;
                lemma_pick_covers(slots, side@, s);
                let t = choose|t: int|
                    0 <= t < pick(slots, side@, side@[s]).len() && (#[trigger] pick(
                        slots,
                        side@,
                        side@[s],
                    )[t]) == slots[s];
                assert(node_ok(before, heights, self.k, p as int));
                if side@[s] {
                    assert(holds_child(after, after.len() - 1, t, slots[s] as int));
                } else {
                    assert(holds_child(after, p as int, t, slots[s] as int));
                }
            }
        }
        side
    }
}

impl Tree {
    /// Appends an entry to the leaf at `leaf`, which has room.
    fn push_entry(&mut self, leaf: usize, vector: Vector, id: u128, metadata: Vec<KVPair>)
        requires
            old(self).sound(),
            leaf < old(self).nodes().len(),
            old(self).nodes()[leaf as int].node_type == NodeType::Leaf,
            old(self).nodes()[leaf as int]@.vectors.len() < old(self).k,
            kvs_fit(elem_views(metadata@)),
        ensures
            final(self).sound(),
            final(self).k == old(self).k,
            final(self).entries() == old(self).entries().insert(
                EntryView { vector: vector@, id, metadata: elem_views(metadata@) },
            ),
            final(self).others_same(old(self), leaf as int),
            final(self).nodes().len() == old(self).nodes().len(),
            final(self).storage_manager.root_offset == old(self).storage_manager.root_offset,
            final(self).heights == old(self).heights,
            final(self).nodes()[leaf as int].node_type == NodeType::Leaf,
            links_kept(old(self).nodes(), final(self).nodes(), -1),
            final(self).nodes()[leaf as int]@ == with_entry(
                old(self).nodes()[leaf as int]@,
                EntryView { vector: vector@, id, metadata: elem_views(metadata@) },
            ),
    {
        let n: usize = self.storage_manager.data.len();
        let ghost before = self.nodes();
        let ghost e = EntryView { vector: vector@, id, metadata: elem_views(metadata@) };
        proof {
            assert(node_ok(before, self.heights@, self.k, leaf as int));
        }
        self.storage_manager.data[leaf].vectors.push(vector);
        self.storage_manager.data[leaf].ids.push(id);
        self.storage_manager.data[leaf].metadata.push(metadata);
        proof {
            let after = self.nodes();
            let v = before[leaf as int]@;
            let w = after[leaf as int]@;
            assert(w.vectors =~= v.vectors.push(e.vector));
            assert(w.metadata =~= v.metadata.push(e.metadata));
            lemma_push_entry(v, w, e);
            assert forall|i: int| 0 <= i < after.len() implies #[trigger] node_ok(
                after,
                self.heights@,
                self.k,
                i,
            ) by {
                assert(node_ok(before, self.heights@, self.k, i));
                if i == leaf {
                    assert forall|j: int| 0 <= j < w.metadata.len() implies kvs_fit(
                        #[trigger] w.metadata[j],
                    ) by {
                        if j < v.metadata.len() {
                            assert(w.metadata[j] == v.metadata[j]);
                        }
                    }
                } else if after[i].node_type == NodeType::Internal {
                    assert forall|j: int| 0 <= j < after[i]@.children.len() implies #[trigger] child_ok(
                        after,
                        self.heights@,
                        i,
                        j,
                    ) by {
                        assert(child_ok(before, self.heights@, i, j));
                    }
                }
            }
            lemma_entries_changed(before, after, n as nat, leaf as int);
            let x = node_entries(v);
            assert(entries_of(after, n as nat).add(x) =~= entries_of(before, n as nat).insert(
                e,
            ).add(x));
            lemma_cancel(entries_of(after, n as nat), entries_of(before, n as nat).insert(e), x);
            lemma_links_of_content(before, after, leaf as int);
            assert(slots_kept(before[leaf as int], after[leaf as int]));
        }
    }

    /// Whether an insertion is sure to find room for the nodes that splits
    /// may add.
    pub closed spec fn has_room(&self) -> bool {
        self.node_count() + self.depth() + 2 <= i64::MAX
    }

    /// Whether the next `m` insertions are sure to find room.
    pub closed spec fn room(&self, m: nat) -> bool {
        self.node_count() + m * (self.depth() + m + 2) <= i64::MAX
    }

    /// Whether the tree is far enough from its limits to take `m`
    /// insertions whatever its depth: it would have room with as many
    /// levels as it has nodes.
    pub closed spec fn spare(&self, m: nat) -> bool {
        self.node_count() + m * (self.node_count() + m + 2) <= i64::MAX
    }

    /// A tree that is far enough from its limits has room.
    pub proof fn lemma_spare_is_room(&self, m: nat)
        requires
            self.wf(),
            self.spare(m),
        ensures
            self.room(m),
    {
        let root = self.storage_manager.root_offset as int;
        assert(self.heights@[root] < self.nodes().len());
        assert(m * (self.depth() + m + 2) <= m * (self.node_count() + m + 2)) by (nonlinear_arith)
            requires
                self.depth() <= self.node_count(),
        ;
    }

    /// Room for insertions is room for one, and room for fewer.
    pub proof fn lemma_room_less(&self, m: nat, fewer: nat)
        requires
            self.room(m),
            fewer <= m,
        ensures
            self.room(fewer),
            m >= 1 ==> self.has_room(),
    {
        assert(fewer * (self.depth() + fewer + 2) <= m * (self.depth() + m + 2))
            by (nonlinear_arith)
            requires
                fewer <= m,
        ;
        if m >= 1 {
            assert(m * (self.depth() + m + 2) >= self.depth() + 3) by (nonlinear_arith)
                requires
                    m >= 1,
            ;
        }
    }

    /// An insertion takes the room of one.
    pub proof fn lemma_room_step(&self, after: &Self, m: nat)
        requires
            m >= 1,
            self.room(m),
            after.node_count() <= self.node_count() + self.depth() + 2,
            after.depth() <= self.depth() + 1,
        ensures
            after.room((m - 1) as nat),
    {
        let n = self.node_count() as int;
        let d = self.depth() as int;
        let n2 = after.node_count() as int;
        let d2 = after.depth() as int;
        assert(n2 + (m - 1) * (d2 + (m - 1) + 2) <= n + m * (d + m + 2)) by (nonlinear_arith)
            requires
                m >= 1,
                n2 <= n + d + 2,
                d2 <= d + 1,
                d >= 0,
                d2 >= 0,
        ;
    }

    /// Whether the tree is far enough from its limits to take `m`
    /// insertions.
    pub fn has_room_for(&self, m: usize) -> (r: bool)
        requires
            self.wf(),
        ensures
            r == self.spare(m as nat),
            r ==> self.room(m as nat),
            r && m >= 1 ==> self.has_room(),
    {
        proof {
            if self.spare(m as nat) {
                self.lemma_spare_is_room(m as nat);
                self.lemma_room_less(m as nat, m as nat);
            }
        }
        let n: usize = self.storage_manager.data.len();
        if m == 0 {
            proof {
                assert(0 * (n + 0 + 2) == 0) by (nonlinear_arith);
            }
            return true;
        }
        let most: u128 = i64::MAX as u128;
        let steps: u128 = m as u128;
        let each: u128 = n as u128 + steps + 2;
        if steps > most || each > most {
            proof {
                assert(m * (n + m + 2) >= m && m * (n + m + 2) >= n + m + 2) by (nonlinear_arith)
                    requires
                        m >= 1,
                ;
            }
            return false;
        }
        proof {
            assert(steps * each <= 0x7fff_ffff_ffff_ffff * 0x7fff_ffff_ffff_ffff)
                by (nonlinear_arith)
                requires
                    steps <= 0x7fff_ffff_ffff_ffff,
                    each <= 0x7fff_ffff_ffff_ffff,
            ;
            assert(steps * each == m * (n + m + 2)) by (nonlinear_arith)
                requires
                    steps == m,
                    each == n + m + 2,
            ;
        }
        let need: u128 = steps * each;
        n as u128 + need <= most
    }

    /// Makes the node at `sib`, which came from a split of the node at
    /// `child`, a child of the parent of that node, and splits the parents
    /// on the way up that are full. A split root gets a new root above it.
    #[verifier::rlimit(60)]
    fn attach(&mut self, route: Vec<(usize, usize)>, child: usize, sib: usize)
        requires
            old(self).sound(),
            path_ok(
                old(self).nodes(),
                old(self).storage_manager.root_offset,
                route@,
                child as int,
            ),
            sib < old(self).nodes().len(),
            old(self).heights@[sib as int] == old(self).heights@[child as int],
            old(self).nodes().len() + route@.len() + 1 <= i64::MAX,
            orphan(old(self).nodes(), sib as int),
            child != sib,
            leaves_reach(
                old(self).nodes(),
                old(self).storage_manager.root_offset as int,
                sib as int,
                -1,
            ),
        ensures
            final(self).wf(),
            final(self).k == old(self).k,
            final(self).entries() == old(self).entries(),
            final(self).nodes().len() <= old(self).nodes().len() + route@.len() + 1,
            final(self).depth() <= old(self).depth() + 1,
            leaves_same(old(self).nodes(), final(self).nodes()),
    {
        let ghost steps = route@.len();
        let ghost top = self.storage_manager.root_offset as int;
        let mut path = route;
        let mut child = child;
        let mut sib = sib;
        while path.len() > 0
            invariant
                self.sound(),
                steps == route@.len(),
                leaves_same(old(self).nodes(), self.nodes()),
                orphan(self.nodes(), sib as int),
                child != sib,
                self.nodes().len() + path@.len() <= old(self).nodes().len() + steps,
                self.storage_manager.root_offset == top,
                top == old(self).storage_manager.root_offset,
                0 <= top < old(self).nodes().len(),
                self.heights@[top] == old(self).heights@[top],
                self.k == old(self).k,
                self.entries() == old(self).entries(),
                path_ok(self.nodes(), self.storage_manager.root_offset, path@, child as int),
                sib < self.nodes().len(),
                self.heights@[sib as int] == self.heights@[child as int],
                self.nodes().len() + path@.len() + 1 <= i64::MAX,
                leaves_reach(self.nodes(), self.storage_manager.root_offset as int, sib as int, -1),
            decreases path@.len(),
        {
            let ghost start = *self;
            let ghost whole = path@;
            let last: usize = path.len() - 1;
            let (p, s) = path[last];
            path.truncate(last);
            proof {
                assert(path@ =~= whole.drop_last());
                assert(whole[last as int] == (p, s));
                lemma_path_heights(
                    start.nodes(),
                    start.heights@,
                    start.k,
                    start.storage_manager.root_offset,
                    whole,
                    child as int,
                );
                assert(node_ok(start.nodes(), start.heights@, start.k, p as int));
                assert(child_ok(start.nodes(), start.heights@, p as int, s as int));
            }
            self.set_centroid(p, s);
            let ghost mid = *self;
            let ghost root = self.storage_manager.root_offset as int;
            proof {
                assert(mid.heights@ == start.heights@);
                assert(mid.nodes().len() == start.nodes().len());
                lemma_leaves_same_step(old(self).nodes(), start.nodes(), mid.nodes(), p as int);
                assert forall|i: int| 0 <= i < start.nodes().len() implies (
                #[trigger] mid.nodes()[i]).children@ == start.nodes()[i].children@ by {
                    if i != p {
                        assert(same_content(start.nodes()[i]@, mid.nodes()[i]@));
                    }
                }
                lemma_orphan_kept(start.nodes(), mid.nodes(), sib as int);
                lemma_leaves_kept(start.nodes(), mid.nodes(), root, sib as int, -1);
                lemma_way_shorter(start.nodes(), root, whole, child as int);
                lemma_way_kept(start.nodes(), mid.nodes(), -1, root, path@, p as int);
            }
            if self.storage_manager.data[p].vectors.len() < self.k {
                self.push_slot(p, sib);
                proof {
                    assert(self.heights@ == mid.heights@);
                    assert(self.nodes().len() == mid.nodes().len());
                    lemma_leaves_same_step(old(self).nodes(), mid.nodes(), self.nodes(), p as int);
                    lemma_way_kept(mid.nodes(), self.nodes(), -1, root, path@, p as int);
                    assert(self.nodes().len() == self.storage_manager.data.len());
                    lemma_leaves_after_push(
                        mid.nodes(),
                        self.nodes(),
                        root,
                        sib as int,
                        -1,
                        p as int,
                        mid.nodes()[p as int].children@.len() as int,
                    );
                }
                return ;
            }
            proof {
                assert(node_ok(mid.nodes(), mid.heights@, mid.k, p as int));
            }
            let m: usize = self.storage_manager.data.len();
            let side = self.split_node(p);
            let ghost cut = *self;
            proof {
                assert(cut.nodes().len() == self.storage_manager.data.len());
                assert(cut.nodes().len() == mid.nodes().len() + 1);
                assert(cut.heights@[top] == mid.heights@[top]);
                lemma_leaves_same_step(old(self).nodes(), mid.nodes(), cut.nodes(), p as int);
                assert(aligned(mid.nodes()[p as int]@));
                lemma_orphans_after_split(
                    mid.nodes(),
                    cut.nodes(),
                    mid.heights@,
                    mid.k,
                    mid.storage_manager.root_offset,
                    p as int,
                    side@,
                    sib as int,
                );
                lemma_leaves_after_split(mid.nodes(), cut.nodes(), p as int, root, sib as int);
            }
            let taker: usize = if side[s] {
                m
            } else {
                p
            };
            self.push_slot(taker, sib);
            proof {
                assert(self.nodes().len() == cut.nodes().len());
                assert(self.heights@ == cut.heights@);
                lemma_leaves_same_step(old(self).nodes(), cut.nodes(), self.nodes(), taker as int);
                lemma_orphan_after_push(
                    cut.nodes(),
                    self.nodes(),
                    taker as int,
                    sib as int,
                    m as int,
                );
            }
            proof {
                let nodes = self.nodes();
                assert forall|d: int| 0 <= d < path@.len() implies {
                    let q = (#[trigger] path@[d]).0 as int;
                    let t = path@[d].1 as int;
                    &&& 0 <= q < nodes.len()
                    &&& nodes[q].node_type == NodeType::Internal
                    &&& 0 <= t < nodes[q].children@.len()
                    &&& nodes[q].children@[t] == (if d + 1 < path@.len() {
                        path@[d + 1].0 as int
                    } else {
                        p as int
                    })
                } by {
                    let q = path@[d].0 as int;
                    assert(path@[d] == whole[d]);
                    assert(q != p);
                    assert(same_content(start.nodes()[q]@, mid.nodes()[q]@));
                    assert(same_content(mid.nodes()[q]@, cut.nodes()[q]@));
                    assert(same_content(cut.nodes()[q]@, nodes[q]@));
                    if d + 1 < path@.len() {
                        assert(path@[d + 1] == whole[d + 1]);
                    }
                }
                assert(path_ok(nodes, root as i64, path@, p as int));
                assert(path_ok(nodes, m as i64, Seq::<(usize, usize)>::empty(), m as int));
                assert(nodes.len() == self.storage_manager.data.len());
                lemma_leaves_after_push(
                    cut.nodes(),
                    nodes,
                    root,
                    sib as int,
                    m as int,
                    taker as int,
                    cut.nodes()[taker as int].children@.len() as int,
                );
            }
            child = p;
            sib = m;
        }
        let ghost before = self.nodes();
        self.grow_root(child, sib);
        proof {
            assert(self.nodes().len() == self.storage_manager.data.len());
            lemma_leaves_after_grow(before, self.nodes(), child as int, sib as int);
            lemma_leaves_same_step(old(self).nodes(), before, self.nodes(), -1);
        }
    }

    /// Adds an entry: the vector, its id and its attributes. A greedy
    /// descent finds the leaf: below each node it looks into the `C`
    /// children whose centroids are nearest and takes the first that holds
    /// the nearest vector. A leaf with room takes the entry at its end; a
    /// full leaf is split in two clusters first, and the cluster whose
    /// centroid is nearer takes it. Fails, changing nothing, with
    /// `BadMetadata` when the attributes do not fit the image, and with
    /// `OutOfBounds` only when there is no room for new nodes.
    #[verifier::rlimit(80)]
    pub fn insert(&mut self, vector: Vector, id: u128, metadata: Vec<KVPair>) -> (r: Result<
        (),
        HaystackError,
    >)
        requires
            old(self).wf(),
        ensures
            final(self).wf(),
            final(self).k == old(self).k,
            final(self).node_count() <= old(self).node_count() + old(self).depth() + 2,
            final(self).depth() <= old(self).depth() + 1,
            forall|m: nat|
                m >= 1 && #[trigger] old(self).room(m) && kvs_fit(elem_views(metadata@)) ==> r is Ok
                    && final(self).room((m - 1) as nat),
            r is Ok ==> exists|path: Seq<(usize, usize)>, leaf: int|
                #[trigger] entry_leaf(
                    old(self).storage_manager.data@,
                    old(self).storage_manager.root_offset,
                    path,
                    leaf,
                    vector@,
                ) && took_entry(
                    old(self).storage_manager.data@,
                    final(self).storage_manager.data@,
                    old(self).k,
                    leaf,
                    EntryView { vector: vector@, id, metadata: elem_views(metadata@) },
                ),
            match r {
                Ok(()) => final(self).entries() == old(self).entries().insert(
                    EntryView { vector: vector@, id, metadata: elem_views(metadata@) },
                ),
                Err(e) => *final(self) == *old(self) && if !kvs_fit(elem_views(metadata@)) {
                    e == HaystackError::BadMetadata
                } else {
                    e == HaystackError::OutOfBounds && !old(self).has_room()
                },
            },
    {
        proof {
            assert forall|m: nat| m >= 1 && #[trigger] self.room(m) implies self.has_room() by {
                self.lemma_room_less(m, m);
            }
        }
        if !attributes_fit(&metadata) {
            return Err(HaystackError::BadMetadata);
        }
        let n: usize = self.storage_manager.data.len();
        let (leaf, path) = self.find_entrypoint(&vector);
        proof {
            assert(node_ok(self.nodes(), self.heights@, self.k, leaf as int));
            assert(entry_leaf(
                old(self).nodes(),
                old(self).storage_manager.root_offset,
                path@,
                leaf as int,
                vector@,
            ));
        }
        let ghost root = self.storage_manager.root_offset as int;
        let ghost kvs = metadata@;
        if self.storage_manager.data[leaf].vectors.len() < self.k {
            self.push_entry(leaf, vector, id, metadata);
            proof {
                lemma_leaves_kept(old(self).nodes(), self.nodes(), root, -1, -1);
                assert forall|m: nat| m >= 1 && #[trigger] old(self).room(m) implies self.room(
                    (m - 1) as nat,
                ) by {
                    old(self).lemma_room_step(self, m);
                }
            }
            return Ok(());
        }
        if n as u64 > i64::MAX as u64 - 2 || path.len() as u64 > i64::MAX as u64 - 2 - n as u64 {
            return Err(HaystackError::OutOfBounds);
        }
        let side = self.split_node(leaf);
        let ghost cut = *self;
        proof {
            assert(cut.nodes().len() == self.storage_manager.data.len());
            lemma_leaves_after_split(old(self).nodes(), cut.nodes(), leaf as int, root, -1);
            assert(aligned(old(self).nodes()[leaf as int]@));
            lemma_orphans_after_split(
                old(self).nodes(),
                cut.nodes(),
                old(self).heights@,
                old(self).k,
                old(self).storage_manager.root_offset,
                leaf as int,
                side@,
                -1,
            );
        }
        let left = find_modes(&self.storage_manager.data[leaf].vectors);
        let right = find_modes(&self.storage_manager.data[n].vectors);
        let target: usize = if hamming_distance(&vector, &right) < hamming_distance(
            &vector,
            &left,
        ) {
            n
        } else {
            leaf
        };
        self.push_entry(target, vector, id, metadata);
        proof {
            assert forall|i: int| 0 <= i < cut.nodes().len() implies (
            #[trigger] self.nodes()[i]).children@ == cut.nodes()[i].children@ by {
                if i != target {
                    assert(same_content(cut.nodes()[i]@, self.nodes()[i]@));
                }
            }
            lemma_orphan_kept(cut.nodes(), self.nodes(), n as int);
            lemma_leaves_kept(cut.nodes(), self.nodes(), root, -1, n as int);
            let nodes = self.nodes();
            assert forall|d: int| 0 <= d < path@.len() implies {
                let q = (#[trigger] path@[d]).0 as int;
                let t = path@[d].1 as int;
                &&& 0 <= q < nodes.len()
                &&& nodes[q].node_type == NodeType::Internal
                &&& 0 <= t < nodes[q].children@.len()
                &&& nodes[q].children@[t] == (if d + 1 < path@.len() {
                    path@[d + 1].0 as int
                } else {
                    leaf as int
                })
            } by {
                let q = path@[d].0 as int;
                assert(q != leaf);
                assert(q != n);
                assert(same_content(old(self).nodes()[q]@, cut.nodes()[q]@));
                assert(same_content(cut.nodes()[q]@, nodes[q]@));
            }
        }
        let ghost way = path@.len();
        let ghost pushed = self.nodes();
        self.attach(path, leaf, n);
        proof {
            let was = old(self).nodes()[leaf as int]@;
            let e = EntryView { vector: vector@, id, metadata: elem_views(kvs) };
            let after = self.nodes();
            assert(pushed[leaf as int].node_type == NodeType::Leaf);
            assert(pushed[n as int].node_type == NodeType::Leaf);
            assert(same_content(pushed[leaf as int]@, after[leaf as int]@));
            assert(same_content(pushed[n as int]@, after[n as int]@));
            lemma_mode_unique(
                cut.nodes()[leaf as int]@.vectors,
                left@,
                spec_mode(cut.nodes()[leaf as int]@.vectors),
            );
            lemma_mode_unique(
                cut.nodes()[n as int]@.vectors,
                right@,
                spec_mode(cut.nodes()[n as int]@.vectors),
            );
            if target == n {
                assert(same_content(cut.nodes()[leaf as int]@, pushed[leaf as int]@));
            } else {
                assert(same_content(cut.nodes()[n as int]@, pushed[n as int]@));
            }
            assert(split_took_by(was, after[leaf as int]@, after[n as int]@, e, side@));
            assert(way <= old(self).depth());
            assert forall|m: nat| m >= 1 && #[trigger] old(self).room(m) implies self.room(
                (m - 1) as nat,
            ) by {
                old(self).lemma_room_step(self, m);
            }
        }
        Ok(())
    }
}

/// `h` is the hit of an entry of a leaf that satisfies the filter: the
/// entry's distance to the query and its id.
pub open spec fn entry_hit(nodes: Seq<Node>, query: Seq<u8>, filter: Filter, h: Hit) -> bool {
    exists|i: int, j: int|
        {
            &&& 0 <= i < nodes.len()
            &&& (#[trigger] nodes[i]).node_type == NodeType::Leaf
            &&& 0 <= j < nodes[i]@.vectors.len()
            &&& h == (spec_hamming(query, (#[trigger] nodes[i]@.vectors[j])) as u16, nodes[i]@.ids[j])
            &&& spec_matches(filter, nodes[i]@.metadata[j])
        }
}

/// Every one of the hits is the hit of an entry that satisfies the filter.
pub open spec fn entry_hits(nodes: Seq<Node>, query: Seq<u8>, filter: Filter, seen: Seq<Hit>) -> bool {
    forall|x: int| 0 <= x < seen.len() ==> entry_hit(nodes, query, filter, #[trigger] seen[x])
}

/// The tags of a list of hits.
pub open spec fn hit_tags(hits: Seq<Hit>) -> Seq<u128> {
    Seq::new(hits.len(), |i: int| hits[i].1)
}

/// The number of children to visit below a node at `depth`: `ALPHA`
/// halved for each level, one at least, and four from the third level on.
pub open spec fn spec_beam(depth: usize) -> usize {
    if depth > 2 {
        4
    } else {
        let a: usize = ALPHA >> depth;
        if a <= 1 {
            1
        } else {
            a
        }
    }
}

/// The depth one level below `depth`.
pub open spec fn deeper(depth: usize) -> usize {
    if depth < usize::MAX {
        (depth + 1) as usize
    } else {
        depth
    }
}

/// The children that a descent visits below an internal node at `depth`:
/// as many as the beam allows of those whose centroids are nearest to the
/// query, the nearest first, each as the distance and the slot.
pub open spec fn chosen(v: NodeView, query: Seq<u8>, depth: usize) -> Seq<Hit> {
    top_of(item_hits(v.vectors, query), spec_beam(depth) as int)
}

/// The number of steps of a visit to a node: one for each entry of a
/// leaf, one for each chosen child of an internal node.
pub open spec fn visit_steps(v: NodeView, query: Seq<u8>, depth: usize) -> int {
    match v.node_type {
        NodeType::Leaf => v.vectors.len() as int,
        NodeType::Internal => chosen(v, query, depth).len() as int,
    }
}

/// The hits that the first `steps` steps of a visit to the node at `node`
/// collect. A step at a leaf takes the next entry if it satisfies the
/// filter; a step at an internal node visits the next chosen child, all of
/// it.
pub open spec fn beam_hits(
    nodes: Seq<Node>,
    heights: Seq<nat>,
    query: Seq<u8>,
    filter: Filter,
    node: int,
    depth: usize,
    steps: int,
) -> Seq<Hit>
    decreases heights[node], steps,
{
    if steps <= 0 {
        Seq::empty()
    } else {
        let v = nodes[node]@;
        let rest = beam_hits(nodes, heights, query, filter, node, depth, steps - 1);
        match v.node_type {
            NodeType::Leaf => if spec_matches(filter, v.metadata[steps - 1]) {
                rest.push((spec_hamming(query, v.vectors[steps - 1]) as u16, v.ids[steps - 1]))
            } else {
                rest
            },
            NodeType::Internal => {
                let c = v.children[chosen(v, query, depth)[steps - 1].1 as int] as int;
                if heights[c] < heights[node] {
                    rest + beam_hits(
                        nodes,
                        heights,
                        query,
                        filter,
                        c,
                        deeper(depth),
                        visit_steps(nodes[c]@, query, deeper(depth)),
                    )
                } else {
                    rest
                }
            },
        }
    }
}

impl Tree {
    /// Whether `ids` is what a search hands out for some leaves visited:
    /// the ids of the `top_k` nearest of the entries of these leaves that
    /// satisfy the filter, the nearest first, the smaller id first among
    /// equally near ones.
    pub closed spec fn result_of(
        &self,
        query: Seq<u8>,
        filter: Filter,
        top_k: usize,
        ids: Seq<u128>,
    ) -> bool {
        exists|seen: Seq<Hit>| #[trigger]
            entry_hits(self.nodes(), query, filter, seen) && ids == hit_tags(
                top_of(seen, top_k as int),
            )
    }

    /// The hits of a beam descent from the root: of every leaf visited, the
    /// entries that satisfy the filter, in the order of the visit.
    pub open spec fn visited_hits(&self, query: Seq<u8>, filter: Filter) -> Seq<Hit> {
        let nodes = self.storage_manager.data@;
        let root = self.storage_manager.root_offset as int;
        beam_hits(nodes, self.heights@, query, filter, root, 0, visit_steps(nodes[root]@, query, 0))
    }

    /// The number of children to visit below a node at `depth`: `ALPHA`
    /// halved for each level, one at least, and four from the third level
    /// on.
    pub fn beam(depth: usize) -> (alpha: usize)
        ensures
            alpha == spec_beam(depth),
            alpha >= 1,
    {
        if depth > 2 {
            4
        } else {
            let a: usize = ALPHA >> depth;
            if a <= 1 {
                1
            } else {
                a
            }
        }
    }

    /// Visits the node at `node` and, below an internal node, the children
    /// whose centroids are nearest to the query, as many as the beam at this
    /// depth allows. Every entry of a visited leaf that satisfies the filter
    /// is put among the best hits.
    fn traverse(
        &self,
        vector: &Vector,
        node: usize,
        top_k: usize,
        depth: usize,
        filter: &Filter,
        best: &mut Vec<Hit>,
        seen: Ghost<Seq<Hit>>,
    ) -> (r: Ghost<Seq<Hit>>)
        requires
            self.sound(),
            node < self.nodes().len(),
            old(best)@ == top_of(seen@, top_k as int),
            entry_hits(self.nodes(), vector@, *filter, seen@),
        ensures
            final(best)@ == top_of(r@, top_k as int),
            entry_hits(self.nodes(), vector@, *filter, r@),
            r@ == seen@ + beam_hits(
                self.nodes(),
                self.heights@,
                vector@,
                *filter,
                node as int,
                depth,
                visit_steps(self.nodes()[node as int]@, vector@, depth),
            ),
        decreases self.heights@[node as int],
    {
        let n: usize = self.storage_manager.data.len();
        proof {
            assert(node_ok(self.nodes(), self.heights@, self.k, node as int));
            lemma_top_sorted(seen@, top_k as int);
        }
        let here = &self.storage_manager.data[node];
        let ghost first = seen@;
        let mut seen = seen;
        match here.node_type {
            NodeType::Leaf => {
                let mut j: usize = 0;
                assert(seen@ =~= first + Seq::<Hit>::empty());
                while j < here.vectors.len()
                    invariant
                        j <= here.vectors@.len(),
                        node < self.nodes().len(),
                        here == &self.nodes()[node as int],
                        here.node_type == NodeType::Leaf,
                        aligned(here@),
                        best@ == top_of(seen@, top_k as int),
                        entry_hits(self.nodes(), vector@, *filter, seen@),
                        seen@ == first + beam_hits(
                            self.nodes(),
                            self.heights@,
                            vector@,
                            *filter,
                            node as int,
                            depth,
                            j as int,
                        ),
                    decreases here.vectors@.len() - j,
                {
                    let ghost so_far = beam_hits(
                        self.nodes(),
                        self.heights@,
                        vector@,
                        *filter,
                        node as int,
                        depth,
                        j as int,
                    );
                    proof {
                        assert(here@.vectors[j as int] == here.vectors@[j as int]@);
                        assert(here@.metadata[j as int] == elem_views(here.metadata@[j as int]@));
                        assert(here@.ids[j as int] == here.ids@[j as int]);
                        if spec_matches(*filter, here@.metadata[j as int]) {
                            assert(first + so_far.push(
                                (
                                    spec_hamming(vector@, here@.vectors[j as int]) as u16,
                                    here@.ids[j as int],
                                ),
                            ) =~= (first + so_far).push(
                                (
                                    spec_hamming(vector@, here@.vectors[j as int]) as u16,
                                    here@.ids[j as int],
                                ),
                            ));
                        }
                    }
                    if Filters::matches(filter, &here.metadata[j]) {
                        let d = hamming_distance(vector, &here.vectors[j]);
                        let hit: Hit = (d, here.ids[j]);
                        let ghost before = seen@;
                        proof {
                            lemma_top_sorted(before, top_k as int);
                            seen@ = before.push(hit);
                            assert(seen@.drop_last() =~= before);
                            assert(here@.vectors[j as int] == here.vectors@[j as int]@);
                            assert(here@.metadata[j as int] == elem_views(
                                here.metadata@[j as int]@,
                            ));
                            assert(entry_hit(self.nodes(), vector@, *filter, hit));
                        }
                        if top_k > 0 {
                            insert_bounded(best, hit, top_k);
                        }
                    }
                    j = j + 1;
                }
            },
            NodeType::Internal => {
                let alpha = Tree::beam(depth);
                let nearest = collect_top_k(vector, &here.vectors, alpha);
                let below: usize = if depth < usize::MAX {
                    depth + 1
                } else {
                    depth
                };
                let mut r: usize = 0;
                assert(seen@ =~= first + Seq::<Hit>::empty());
                while r < nearest.len()
                    invariant
                        r <= nearest@.len(),
                        self.sound(),
                        n == self.nodes().len(),
                        node < n,
                        here == &self.nodes()[node as int],
                        here.node_type == NodeType::Internal,
                        node_ok(self.nodes(), self.heights@, self.k, node as int),
                        below == deeper(depth),
                        place_hits(nearest@) == chosen(here@, vector@, depth),
                        forall|x: int|
                            0 <= x < nearest@.len() ==> (#[trigger] nearest@[x]).0
                                < here.vectors@.len(),
                        best@ == top_of(seen@, top_k as int),
                        entry_hits(self.nodes(), vector@, *filter, seen@),
                        seen@ == first + beam_hits(
                            self.nodes(),
                            self.heights@,
                            vector@,
                            *filter,
                            node as int,
                            depth,
                            r as int,
                        ),
                    decreases nearest@.len() - r,
                {
                    let idx: usize = nearest[r].0;
                    proof {
                        assert(child_ok(self.nodes(), self.heights@, node as int, idx as int));
                        assert(place_hits(nearest@)[r as int].1 == idx as u128);
                    }
                    let child = index_of(here.children[idx], n);
                    let ghost so_far = beam_hits(
                        self.nodes(),
                        self.heights@,
                        vector@,
                        *filter,
                        node as int,
                        depth,
                        r as int,
                    );
                    let ghost more = beam_hits(
                        self.nodes(),
                        self.heights@,
                        vector@,
                        *filter,
                        child as int,
                        below,
                        visit_steps(self.nodes()[child as int]@, vector@, below),
                    );
                    seen = self.traverse(vector, child, top_k, below, filter, best, seen);
                    proof {
                        assert((first + so_far) + more =~= first + (so_far + more));
                    }
                    r = r + 1;
                }
                proof {
                    assert(place_hits(nearest@).len() == nearest@.len());
                }
            },
        }
        seen
    }

    /// The ids of the nearest entries that a beam descent from the root
    /// finds: of the entries of the leaves it visits that satisfy the
    /// filter, the `top_k` nearest to the vector, the nearest first, the
    /// smaller id first among equally near ones.
    pub fn search(&mut self, vector: Vector, top_k: usize, filters: Filter) -> (ids: Vec<u128>)
        requires
            old(self).wf(),
        ensures
            *final(self) == *old(self),
            ids@ == hit_tags(top_of(old(self).visited_hits(vector@, filters), top_k as int)),
            old(self).result_of(vector@, filters, top_k, ids@),
            ids@.len() <= top_k,
    {
        let n: usize = self.storage_manager.data.len();
        let root = index_of(self.storage_manager.root_offset, n);
        let mut best: Vec<Hit> = Vec::new();
        let seen = self.traverse(&vector, root, top_k, 0, &filters, &mut best, Ghost(Seq::empty()));
        assert(seen@ =~= self.visited_hits(vector@, filters));
        let mut ids: Vec<u128> = Vec::new();
        let mut i: usize = 0;
        while i < best.len()
            invariant
                i <= best@.len(),
                ids@.len() == i,
                forall|x: int| 0 <= x < i ==> (#[trigger] ids@[x]) == best@[x].1,
            decreases best@.len() - i,
        {
            ids.push(best[i].1);
            i = i + 1;
        }
        proof {
            assert(ids@ =~= hit_tags(best@));
            lemma_top_sorted(seen@, top_k as int);
            assert(entry_hits(self.nodes(), vector@, filters, seen@));
        }
        ids
    }
}

/// The number of entries that three lists give together: the length of the
/// shortest.
pub open spec fn zip_len(a: int, b: int, c: int) -> int {
    if a <= b && a <= c {
        a
    } else if b <= c {
        b
    } else {
        c
    }
}

/// The first `n` entries that three lists give, place by place.
pub open spec fn zipped(
    vectors: Seq<Vector>,
    ids: Seq<u128>,
    metadata: Seq<Vec<KVPair>>,
    n: int,
) -> Seq<EntryView> {
    Seq::new(
        n as nat,
        |j: int| EntryView { vector: vectors[j]@, id: ids[j], metadata: elem_views(metadata[j]@) },
    )
}

impl Tree {
    /// Adds the entries that the three lists give, place by place, one
    /// after the other, as `insert` does. Succeeds where the attributes of
    /// every entry fit the image and the tree has room for as many
    /// insertions as there are entries. Stops at the first entry that
    /// fails, with `BadMetadata` where its attributes do not fit and with
    /// `OutOfBounds` where the tree has no room for it: the entries before
    /// it are in the tree then.
    pub fn batch_insert(
        &mut self,
        vectors: Vec<Vector>,
        ids: Vec<u128>,
        metadata: Vec<Vec<KVPair>>,
    ) -> (r: Result<(), HaystackError>)
        requires
            old(self).wf(),
        ensures
            final(self).wf(),
            final(self).k == old(self).k,
            ({
                let m = zip_len(vectors@.len() as int, ids@.len() as int, metadata@.len() as int);
                match r {
                    Ok(()) => final(self).entries() == old(self).entries().add(
                        bag(zipped(vectors@, ids@, metadata@, m)),
                    ),
                    Err(e) => exists|c: int|
                        0 <= c < m && final(self).entries() == old(self).entries().add(
                            bag(#[trigger] zipped(vectors@, ids@, metadata@, c)),
                        ) && if !kvs_fit(elem_views(metadata@[c]@)) {
                            e == HaystackError::BadMetadata
                        } else {
                            e == HaystackError::OutOfBounds && !final(self).has_room()
                        },
                }
            }),
            forall|n: nat|
                n >= zip_len(vectors@.len() as int, ids@.len() as int, metadata@.len() as int)
                    && #[trigger] old(self).room(n) && (forall|j: int|
                    0 <= j < zip_len(vectors@.len() as int, ids@.len() as int, metadata@.len() as int)
                        ==> kvs_fit(elem_views(#[trigger] metadata@[j]@))) ==> r is Ok && final(self).room(
                    (n - zip_len(
                        vectors@.len() as int,
                        ids@.len() as int,
                        metadata@.len() as int,
                    )) as nat,
                ),
    {
        let mut m: usize = vectors.len();
        if ids.len() < m {
            m = ids.len();
        }
        if metadata.len() < m {
            m = metadata.len();
        }
        let mut i: usize = 0;
        proof {
            assert(old(self).entries().add(bag(zipped(vectors@, ids@, metadata@, 0)))
                =~= old(self).entries());
        }
        while i < m
            invariant
                i <= m,
                m == zip_len(vectors@.len() as int, ids@.len() as int, metadata@.len() as int),
                self.wf(),
                self.k == old(self).k,
                self.entries() == old(self).entries().add(
                    bag(zipped(vectors@, ids@, metadata@, i as int)),
                ),
                forall|n: nat| n >= m && #[trigger] old(self).room(n) ==> self.room((n - i) as nat),
            decreases m - i,
        {
            let v = copy_vector(&vectors[i]);
            let kvs = duplicate_all(&metadata[i]);
            let ghost start = *self;
            proof {
                let next = zipped(vectors@, ids@, metadata@, i + 1);
                assert(next.drop_last() =~= zipped(vectors@, ids@, metadata@, i as int));
                assert(next.last() == (EntryView {
                    vector: v@,
                    id: ids@[i as int],
                    metadata: elem_views(kvs@),
                }));
                assert(old(self).entries().add(bag(next.drop_last()).insert(next.last()))
                    =~= old(self).entries().add(bag(next.drop_last())).insert(next.last()));
            }
            let put = self.insert(v, ids[i], kvs);
            proof {
                assert forall|n: nat| n >= m && #[trigger] old(self).room(n) implies self.room(
                    (n - (i + 1)) as nat,
                ) by {
                    assert(start.room((n - i) as nat));
                    start.lemma_room_step(self, (n - i) as nat);
                }
                assert forall|n: nat|
                    n >= m && #[trigger] old(self).room(n) && kvs_fit(
                        elem_views(metadata@[i as int]@),
                    ) implies put is Ok by {
                    assert(start.room((n - i) as nat));
                }
            }
            match put {
                Ok(()) => {},
                Err(e) => {
                    return Err(e);
                },
            }
            i = i + 1;
        }
        Ok(())
    }

    /// The offsets of all leaves, in ascending order.
    fn collect_leaf_nodes(&self) -> (leaves: Vec<usize>)
        requires
            self.sound(),
        ensures
            leaves@.no_duplicates(),
            leaves@.len() <= self.nodes().len(),
            forall|x: int|
                0 <= x < leaves@.len() ==> (#[trigger] leaves@[x]) < self.nodes().len()
                    && self.heights@[leaves@[x] as int] == 0,
            forall|i: int|
                0 <= i < self.nodes().len() && self.nodes()[i].node_type == NodeType::Leaf
                    ==> exists|x: int| 0 <= x < leaves@.len() && (#[trigger] leaves@[x]) == i,
    {
        let mut leaves: Vec<usize> = Vec::new();
        let mut i: usize = 0;
        while i < self.storage_manager.data.len()
            invariant
                i <= self.nodes().len(),
                self.sound(),
                leaves@.len() <= i,
                leaves@.no_duplicates(),
                forall|x: int| 0 <= x < leaves@.len() ==> (#[trigger] leaves@[x]) < i,
                forall|x: int|
                    0 <= x < leaves@.len() ==> (#[trigger] leaves@[x]) < self.nodes().len()
                        && self.heights@[leaves@[x] as int] == 0,
                forall|y: int|
                    0 <= y < i && self.nodes()[y].node_type == NodeType::Leaf ==> exists|x: int|
                        0 <= x < leaves@.len() && (#[trigger] leaves@[x]) == y,
            decreases self.nodes().len() - i,
        {
            proof {
                assert(node_ok(self.nodes(), self.heights@, self.k, i as int));
            }
            match self.storage_manager.data[i].node_type {
                NodeType::Leaf => {
                    let ghost before = leaves@;
                    leaves.push(i);
                    proof {
                        assert(leaves@[before.len() as int] == i);
                        assert forall|y: int|
                            0 <= y < i + 1 && self.nodes()[y].node_type
                                == NodeType::Leaf implies exists|x: int|
                            0 <= x < leaves@.len() && (#[trigger] leaves@[x]) == y by {
                            if y < i {
                                let x = choose|x: int|
                                    0 <= x < before.len() && (#[trigger] before[x]) == y;
                                assert(leaves@[x] == y);
                            }
                        }
                    }
                },
                NodeType::Internal => {},
            }
            i = i + 1;
        }
        leaves
    }

    /// Stores a new internal node above the nodes `level[from..to]`, with a
    /// slot for each, and gives its offset.
    fn store_parent(&mut self, level: &Vec<usize>, from: usize, to: usize, h: Ghost<nat>) -> (r:
        Result<usize, HaystackError>)
        requires
            old(self).sound(),
            from < to <= level@.len(),
            to - from <= old(self).k,
            h@ < old(self).nodes().len(),
            level@.no_duplicates(),
            forall|x: int|
                0 <= x < level@.len() ==> (#[trigger] level@[x]) < old(self).nodes().len() && old(self).heights@[level@[x] as int] <= h@,
        ensures
            final(self).kept(old(self)),
            final(self).others_same(old(self), -1),
            final(self).storage_manager.root_offset == old(self).storage_manager.root_offset,
            match r {
                Ok(offset) => {
                    &&& offset == old(self).nodes().len()
                    &&& final(self).nodes().len() == old(self).nodes().len() + 1
                    &&& final(self).heights@[offset as int] == h@ + 1
                    &&& final(self).nodes()[offset as int].children@.len() == to - from
                    &&& forall|x: int|
                        from <= x < to ==> holds_child(
                            final(self).nodes(),
                            offset as int,
                            x - from,
                            #[trigger] level@[x] as int,
                        )
                    &&& tidy(final(self).nodes(), offset as int, old(self).nodes().len() as int)
                    &&& forall|i: int|
                        0 <= i < old(self).nodes().len() && !child_before(
                            final(self).nodes(),
                            offset as int,
                            to - from,
                            i,
                        ) ==> (#[trigger] final(self).nodes()[i]).parent_offset == old(self).nodes()[i].parent_offset
                },
                Err(e) => e == HaystackError::OutOfBounds && final(self).nodes().len() == old(self).nodes().len() && old(self).nodes().len() >= i64::MAX
                    && final(self).nodes() == old(self).nodes(),
            },
    {
        let n: usize = self.storage_manager.data.len();
        let ghost before = self.nodes();
        let mut parent = Node::new_internal();
        assert(parent.vectors@.len() == parent@.vectors.len());
        assert(parent.metadata@.len() == parent@.metadata.len());
        parent.k = self.k;
        let mut x: usize = from;
        while x < to
            invariant
                from <= x <= to <= level@.len(),
                self.sound(),
                *self == *old(self),
                before == self.nodes(),
                n == self.nodes().len(),
                parent.k == self.k,
                parent.node_type == NodeType::Internal,
                parent.vectors@.len() == x - from,
                parent.children@.len() == x - from,
                parent.ids@.len() == 0,
                parent.metadata@.len() == 0,
                forall|y: int|
                    0 <= y < level@.len() ==> (#[trigger] level@[y]) < n && self.heights@[level@[y] as int]
                        <= h@,
                forall|j: int|
                    0 <= j < x - from ==> 0 <= (#[trigger] parent.children@[j]) < n
                        && self.heights@[parent.children@[j] as int] <= h@
                        && parent.children@[j] == level@[from + j]
                        && parent.vectors@[j]@ == spec_mode(before[level@[from + j] as int]@.vectors),
            decreases to - x,
        {
            let c: usize = level[x];
            let centroid = find_modes(&self.storage_manager.data[c].vectors);
            proof {
                lemma_mode_unique(before[c as int]@.vectors, centroid@, spec_mode(before[c as int]@.vectors));
            }
            parent.vectors.push(centroid);
            parent.children.push(offset_of(c));
            x = x + 1;
        }
        let ghost slots = parent.children@;
        let ghost view = parent@;
        proof {
            assert(view.metadata =~= Seq::<Seq<KVPairView>>::empty());
            assert(view.children.no_duplicates()) by {
                assert forall|a: int, b: int|
                    0 <= a < slots.len() && 0 <= b < slots.len() && a != b implies slots[a]
                    != slots[b] by {
                    assert(slots[a] == level@[from + a]);
                    assert(slots[b] == level@[from + b]);
                }
            }
            assert(pairs_ok(before, view)) by {
                assert forall|j: int| 0 <= j < view.children.len() implies view.vectors[j]
                    == spec_mode(before[(#[trigger] view.children[j]) as int]@.vectors) by {
                    assert(parent.children@[j] == level@[from + j]);
                    assert(view.vectors[j] == parent.vectors@[j]@);
                }
            }
            assert(node_entries(view) =~= Multiset::<EntryView>::empty());
        }
        let r = self.store_new(parent, Ghost((h@ + 1) as nat));
        proof {
            assert(old(self).entries().add(Multiset::<EntryView>::empty()) =~= old(self).entries());
            if r is Ok {
                assert forall|x: int| from <= x < to implies holds_child(
                    self.nodes(),
                    n as int,
                    x - from,
                    #[trigger] level@[x] as int,
                ) by {
                    assert(slots[x - from] == level@[from + (x - from)]);
                }
            }
        }
        r
    }

    /// Makes the node at `root` the root.
    fn set_root(&mut self, root: usize)
        requires
            old(self).sound(),
            root < old(self).nodes().len(),
        ensures
            final(self).kept(old(self)),
            final(self).others_same(old(self), -1),
            final(self).storage_manager.root_offset == root,
            final(self).nodes().len() == old(self).nodes().len(),
            final(self).nodes()[root as int].is_root,
            final(self).nodes()[root as int].parent_offset is None,
            forall|i: int|
                0 <= i < old(self).nodes().len() && i != root ==> (
                #[trigger] final(self).nodes()[i]).parent_offset == old(self).nodes()[i].parent_offset,
    {
        let n: usize = self.storage_manager.data.len();
        let was = index_of(self.storage_manager.root_offset, n);
        let ghost before = self.nodes();
        self.storage_manager.data[was].is_root = false;
        self.storage_manager.data[root].is_root = true;
        self.storage_manager.data[root].parent_offset = None;
        proof {
            let after = self.nodes();
            assert forall|i: int| 0 <= i < n implies same_content(#[trigger] before[i]@, after[i]@) by {}
            lemma_same_content(
                before,
                after,
                self.heights@,
                self.k,
                self.storage_manager.root_offset,
            );
        }
        self.storage_manager.set_root_offset(offset_of(root));
    }

    /// Builds one level of parents above the nodes of `level`, which all
    /// stand at the height `h`: each parent takes the next `k` nodes, the
    /// last what is left. Gives the offsets of the parents.
    fn build_balanced_tree(
        &mut self,
        level: &Vec<usize>,
        h: Ghost<nat>,
        first: Ghost<int>,
        low: Ghost<int>,
    ) -> (r: Result<Vec<usize>, HaystackError>)
        requires
            old(self).sound(),
            level@.len() >= 1,
            h@ < old(self).nodes().len(),
            level@.no_duplicates(),
            0 <= first@ <= old(self).nodes().len(),
            built(old(self).nodes(), first@, low@, old(self).nodes().len() as int),
            forall|x: int| 0 <= x < level@.len() ==> low@ <= #[trigger] level@[x],
            forall|x: int|
                0 <= x < level@.len() ==> (#[trigger] level@[x]) < old(self).nodes().len() && old(self).heights@[level@[x] as int] <= h@,
        ensures
            r is Ok ==> r.unwrap()@.no_duplicates(),
            final(self).kept(old(self)),
            final(self).new_above(old(self)),
            final(self).storage_manager.root_offset == old(self).storage_manager.root_offset,
            final(self).nodes().len() <= old(self).nodes().len() + level@.len(),
            r is Err ==> final(self).nodes().len() >= i64::MAX,
            built(final(self).nodes(), first@, low@, old(self).nodes().len() as int),
            match r {
                Ok(parents) => {
                    &&& parents@.len() >= 1
                    &&& forall|x: int|
                        0 <= x < parents@.len() ==> (#[trigger] parents@[x]) >= old(self).nodes().len()
                    &&& final(self).nodes().len() == old(self).nodes().len() + parents@.len()
                    &&& level@.len() <= old(self).k ==> parents@.len() == 1
                    &&& level@.len() > old(self).k ==> 2 * parents@.len() <= level@.len()
                    &&& 4 * parents@.len() <= level@.len() + 7
                    &&& forall|x: int|
                        0 <= x < parents@.len() ==> (#[trigger] parents@[x]) < final(self).nodes().len() && final(self).heights@[parents@[x] as int] <= h@ + 1
                    &&& forall|x: int|
                        0 <= x < level@.len() ==> adopted(
                            final(self).nodes(),
                            parents@,
                            #[trigger] level@[x] as int,
                        )
                },
                Err(e) => e == HaystackError::OutOfBounds,
            },
    {
        let mut parents: Vec<usize> = Vec::new();
        let mut done: usize = 0;
        let total: usize = level.len();
        while done < total
            invariant
                done <= total,
                total == level@.len(),
                total >= 1,
                MIN_K <= self.k,
                self.k == old(self).k,
                h@ < self.nodes().len(),
                self.nodes().len() == old(self).nodes().len() + parents@.len(),
                parents@.len() <= done,
                level@.no_duplicates(),
                0 <= first@ <= old(self).nodes().len(),
                forall|x: int| 0 <= x < level@.len() ==> low@ <= #[trigger] level@[x],
                built(self.nodes(), first@, low@, old(self).nodes().len() as int),
                clear_of(self.nodes(), old(self).nodes().len() as int, level@, done as int),
                forall|x: int|
                    0 <= x < parents@.len() ==> (#[trigger] parents@[x]) == old(self).nodes().len() + x,
                self.kept(old(self)),
                self.new_above(old(self)),
                forall|x: int|
                    0 <= x < done ==> adopted(self.nodes(), parents@, #[trigger] level@[x] as int),
                self.storage_manager.root_offset == old(self).storage_manager.root_offset,
                forall|x: int|
                    0 <= x < level@.len() ==> (#[trigger] level@[x]) < old(self).nodes().len()
                        && old(self).heights@[level@[x] as int] <= h@,
                forall|x: int|
                    0 <= x < parents@.len() ==> (#[trigger] parents@[x]) < self.nodes().len()
                        && self.heights@[parents@[x] as int] <= h@ + 1,
                done > 0 ==> parents@.len() >= 1,
                done == 0 ==> parents@.len() == 0,
                done < total ==> 4 * parents@.len() <= done + 3 && done == parents@.len() * self.k,
                done == total ==> 4 * parents@.len() <= total + 7,
                done == total && total <= self.k ==> parents@.len() == 1,
            decreases total - done,
        {
            let left: usize = total - done;
            let take: usize = if left > self.k {
                self.k
            } else {
                left
            };
            let ghost start = *self;
            let offset = match self.store_parent(level, done, done + take, h) {
                Ok(o) => o,
                Err(e) => {
                    proof {
                        self.lemma_new_above_next(&start, old(self));
                    }
                    return Err(e);
                },
            };
            proof {
                assert(parents@.len() * self.k + self.k == (parents@.len() + 1) * self.k)
                    by (nonlinear_arith);
                assert(done == 0 ==> parents@.len() * self.k == 0) by (nonlinear_arith)
                    requires
                        done == 0 ==> parents@.len() == 0,
                ;
                assert(done > 0 ==> parents@.len() * self.k >= self.k) by (nonlinear_arith)
                    requires
                        done > 0 ==> parents@.len() >= 1,
                ;
            }
            let ghost earlier = parents@;
            parents.push(offset);
            proof {
                let a = start.nodes();
                let b = self.nodes();
                let base = old(self).nodes().len() as int;
                let n = a.len() as int;
                assert(low@ <= level@[0] && level@[0] < base);
                assert forall|t: int| 0 <= t < b[n].children@.len() implies b[n].children@[t]
                    == level@[done + t] by {
                    assert(holds_child(b, n, (done + t) - done, level@[done + t] as int));
                }
                assert(tidy(b, n, base)) by {
                    assert(tidy(b, n, n));
                    assert forall|j: int| 0 <= j < b[n].children@.len() implies #[trigger] slot_tidy(
                        b,
                        n,
                        j,
                    ) && b[n].children@[j] < base by {
                        assert(b[n].children@[j] == level@[done + j]);
                    }
                }
                assert(apart(a, base, b[n].children@)) by {
                    assert forall|i: int, j: int, t: int|
                        base <= i < a.len() && 0 <= j < a[i].children@.len() && 0 <= t
                            < b[n].children@.len() implies (#[trigger] a[i].children@[j]) != (
                    #[trigger] b[n].children@[t]) by {
                        assert(b[n].children@[t] == level@[done + t]);
                        assert(a[i].children@[j] != level@[done + t]);
                    }
                }
                assert forall|t: int| 0 <= t < b[n].children@.len() implies low@
                    <= #[trigger] b[n].children@[t] by {
                    assert(b[n].children@[t] == level@[done + t]);
                }
                lemma_built_step(a, b, first@, low@, base);
                assert(clear_of(b, base, level@, done + take)) by {
                    assert forall|i: int, j: int, x: int|
                        base <= i < b.len() && 0 <= j < b[i].children@.len() && done + take <= x
                            < level@.len() implies (#[trigger] b[i].children@[j]) != (
                    #[trigger] level@[x]) by {
                        if i < n {
                            assert(same_content(a[i]@, b[i]@));
                            assert(a[i].children@[j] != level@[x]);
                        } else {
                            assert(b[n].children@[j] == level@[done + j]);
                        }
                    }
                }
                assert(grown_from(start.nodes(), self.nodes()));
                assert(holds_child(self.nodes(), offset as int, 0, level@[done as int] as int));
                self.lemma_new_above_next(&start, old(self));
                assert forall|x: int| 0 <= x < done + take implies adopted(
                    self.nodes(),
                    parents@,
                    #[trigger] level@[x] as int,
                ) by {
                    if x < done {
                        lemma_adopted_kept(
                            start.nodes(),
                            self.nodes(),
                            earlier,
                            parents@,
                            level@[x] as int,
                        );
                    } else {
                        assert(holds_child(
                            self.nodes(),
                            parents@[earlier.len() as int] as int,
                            x - done,
                            level@[x] as int,
                        ));
                    }
                }
            }
            done = done + take;
        }
        Ok(parents)
    }

    /// Rebuilds the levels above the leaves, by packing or by clustering:
    /// every leaf gets a parent, the parents get parents, and so on up to
    /// a single node, which becomes the root.
    fn rebuild(&mut self, cluster: bool) -> (r: Result<(), HaystackError>)
        requires
            old(self).sound(),
        ensures
            final(self).kept(old(self)),
            final(self).new_above(old(self)),
            final(self).nodes().len() <= 2 * old(self).nodes().len(),
            r is Ok ==> final(self).balanced(),
            r is Ok ==> final(self).rebuilt_from(old(self).nodes().len()),
            r is Err ==> r == Err::<(), HaystackError>(HaystackError::OutOfBounds) && final(self).storage_manager.root_offset == old(self).storage_manager.root_offset,
            r is Err ==> !old(self).can_rebuild(),
    {
        let mut level = self.collect_leaf_nodes();
        let ghost most = 2 * self.nodes().len();
        let ghost first = self.nodes().len() as int;
        let ghost low: int = 0;
        proof {
            self.lemma_new_above_self();
            self.lemma_kept_self();
        }
        if level.len() == 0 {
            proof {
                self.lemma_has_leaf(self.storage_manager.root_offset as int);
            }
            return Ok(());
        }
        let mut h: Ghost<nat> = Ghost(0);
        proof {
            self.lemma_leaves_hang_on_themselves(level@);
        }
        while level.len() > 1
            invariant
                level@.len() >= 1,
                self.kept(old(self)),
                self.storage_manager.root_offset == old(self).storage_manager.root_offset,
                forall|x: int|
                    0 <= x < level@.len() ==> (#[trigger] level@[x]) < self.nodes().len()
                        && self.heights@[level@[x] as int] <= h@,
                leaves_hang(self.nodes(), level@, h@),
                self.new_above(old(self)),
                h@ < self.nodes().len(),
                MIN_K <= self.k,
                level@.no_duplicates(),
                first == old(self).nodes().len(),
                0 <= low <= self.nodes().len(),
                built(self.nodes(), first, low, self.nodes().len() as int),
                forall|x: int| 0 <= x < level@.len() ==> low <= #[trigger] level@[x],
                most == 2 * old(self).nodes().len(),
                self.nodes().len() + level@.len() <= most,
            decreases level@.len(),
        {
            let ghost before = self.nodes();
            let ghost start = *self;
            let built = if cluster {
                self.cluster_level(&level, h, Ghost(first), Ghost(low))
            } else {
                self.build_balanced_tree(&level, h, Ghost(first), Ghost(low))
            };
            proof {
                self.lemma_new_above_next(&start, old(self));
                self.lemma_kept_next(&start, old(self));
                lemma_built_round(self.nodes(), first, low, before.len() as int);
                low = before.len() as int;
            }
            let parents = match built {
                Ok(p) => p,
                Err(e) => {
                    return Err(e);
                },
            };
            proof {
                lemma_level_up(before, self.nodes(), level@, parents@, h@);
            }
            level = parents;
            proof {
                h@ = h@ + 1;
            }
        }
        let ghost before = self.nodes();
        let ghost start = *self;
        self.set_root(level[0]);
        proof {
            self.lemma_root_holds_all(before, level@, h@);
            assert(grown_from(start.nodes(), self.nodes()));
            lemma_built_kept(before, self.nodes(), first, low, level@[0] as int);
            let nodes = self.nodes();
            assert(nodes == self.storage_manager.data@);
            assert forall|i: int, j: int|
                first <= i < nodes.len() && 0 <= j < nodes[i].children@.len() implies #[trigger] slot_tidy(
                nodes,
                i,
                j,
            ) by {
                assert(tidy_at(nodes, i, low, nodes.len() as int));
            }
            self.lemma_new_above_next(&start, old(self));
            self.lemma_kept_next(&start, old(self));
        }
        Ok(())
    }

    /// Rebuilds the levels above the leaves: every leaf gets a parent, each
    /// parent the next `k` nodes of its level, and so on up to a single
    /// node, which becomes the root. The entries stay what they were; the
    /// tree is balanced then, every centroid of a new node is the bitwise
    /// majority of the vectors of the child beside it, and every child of
    /// a new node records that node as its parent. Fails with `OutOfBounds`
    /// only when the array has no room for as many nodes again as it
    /// holds: the root stays what it was then.
    pub fn calibrate(&mut self) -> (r: Result<(), HaystackError>)
        requires
            old(self).wf(),
        ensures
            final(self).wf(),
            final(self).k == old(self).k,
            final(self).entries() == old(self).entries(),
            r is Ok ==> final(self).balanced(),
            r is Ok ==> final(self).rebuilt_from(old(self).storage_manager.data@.len()),
            r is Err ==> r == Err::<(), HaystackError>(HaystackError::OutOfBounds) && final(self).storage_manager.root_offset == old(self).storage_manager.root_offset,
            r is Err ==> !old(self).can_rebuild(),
    {
        let r = self.rebuild(false);
        proof {
            if r is Ok {
                self.lemma_balanced_is_rooted();
            } else {
                self.lemma_rooted_still(old(self));
            }
        }
        r
    }

    /// In a balanced tree every leaf can be reached from the root.
    proof fn lemma_balanced_is_rooted(&self)
        requires
            self.sound(),
            self.balanced(),
        ensures
            self.wf(),
    {
        let nodes = self.nodes();
        let root = self.storage_manager.root_offset as int;
        let top = seq![self.storage_manager.root_offset as usize];
        let h = choose|h: nat| #[trigger] leaves_hang(nodes, top, h);
        assert forall|i: int|
            0 <= i < nodes.len() && (#[trigger] nodes[i]).node_type == NodeType::Leaf implies reach(
            nodes,
            root,
            i,
        ) by {
            assert(hangs_below(nodes, top, h, i));
            let x = choose|x: int| 0 <= x < top.len() && hangs(nodes, #[trigger] top[x] as int, h, i);
            assert(nodes.len() == self.storage_manager.data.len());
            assert(top[x] == root);
        }
    }

    /// When the nodes that were there keep their content, every new node
    /// is an internal node and the root stays, every leaf can be reached
    /// from the root as before.
    proof fn lemma_rooted_still(&self, before: &Tree)
        requires
            before.wf(),
            self.sound(),
            self.new_above(before),
            self.storage_manager.root_offset == before.storage_manager.root_offset,
        ensures
            self.wf(),
    {
        lemma_links_of_content(before.nodes(), self.nodes(), -1);
        lemma_leaves_kept(
            before.nodes(),
            self.nodes(),
            self.storage_manager.root_offset as int,
            -1,
            -1,
        );
    }

    /// In a tree every leaf can be reached from the root.
    pub proof fn lemma_leaves_are_reached(&self, i: int)
        requires
            self.wf(),
            0 <= i < self.storage_manager.data@.len(),
            self.storage_manager.data@[i].node_type == NodeType::Leaf,
        ensures
            reach(self.storage_manager.data@, self.storage_manager.root_offset as int, i),
    {
        lemma_nowhere(self.nodes(), i);
    }

    /// Some node is a leaf.
    proof fn lemma_has_leaf(&self, i: int)
        requires
            self.sound(),
            0 <= i < self.nodes().len(),
        ensures
            exists|l: int|
                0 <= l < self.nodes().len() && (#[trigger] self.nodes()[l]).node_type
                    == NodeType::Leaf,
        decreases self.heights@[i],
    {
        assert(node_ok(self.nodes(), self.heights@, self.k, i));
        match self.nodes()[i].node_type {
            NodeType::Leaf => {},
            NodeType::Internal => {
                assert(child_ok(self.nodes(), self.heights@, i, 0));
                self.lemma_has_leaf(self.nodes()[i].children@[0] as int);
            },
        }
    }

    /// Every leaf hangs no step below itself.
    proof fn lemma_leaves_hang_on_themselves(&self, leaves: Seq<usize>)
        requires
            self.sound(),
            forall|i: int|
                0 <= i < self.nodes().len() && self.nodes()[i].node_type == NodeType::Leaf
                    ==> exists|x: int| 0 <= x < leaves.len() && (#[trigger] leaves[x]) == i,
        ensures
            leaves_hang(self.nodes(), leaves, 0),
    {
        let nodes = self.nodes();
        assert forall|i: int|
            0 <= i < nodes.len() && (#[trigger] nodes[i]).node_type == NodeType::Leaf implies hangs_below(
            nodes,
            leaves,
            0,
            i,
        ) by {
            let x = choose|x: int| 0 <= x < leaves.len() && (#[trigger] leaves[x]) == i;
            let path = Seq::<(usize, usize)>::empty();
            assert(path_ok(nodes, i as i64, path, i));
            assert(hangs(nodes, leaves[x] as int, 0, i));
        }
    }

    /// When every leaf hung below the one node of the last level, and that
    /// node is the root now, the tree is balanced.
    proof fn lemma_root_holds_all(&self, before: Seq<Node>, level: Seq<usize>, h: nat)
        requires
            self.sound(),
            grown_from(before, self.nodes()),
            before.len() == self.nodes().len(),
            leaves_hang(before, level, h),
            level.len() == 1,
            level[0] == self.storage_manager.root_offset,
        ensures
            self.balanced(),
    {
        let nodes = self.nodes();
        let top = seq![self.storage_manager.root_offset as usize];
        assert forall|i: int|
            0 <= i < nodes.len() && (#[trigger] nodes[i]).node_type == NodeType::Leaf implies hangs_below(
            nodes,
            top,
            h,
            i,
        ) by {
            assert(same_content(before[i]@, nodes[i]@));
            assert(before[i].node_type == NodeType::Leaf);
            assert(hangs_below(before, level, h, i));
            let x = choose|x: int| 0 <= x < level.len() && hangs(before, #[trigger] level[x] as int, h, i);
            lemma_hangs_kept(before, nodes, level[0] as int, h, i);
            assert(top[0] == level[0]);
        }
        assert(leaves_hang(nodes, top, h));
    }
}

/// What a line of the summary of a tree says of a node.
#[derive(Debug, Clone, Copy)]
pub struct NodeSummary {
    pub depth: usize,
    pub node_type: NodeType,
    pub offset: i64,
    pub children: usize,
    pub vectors: usize,
}

impl Tree {
    /// Stores a node that is not in the array yet at its end: an internal
    /// node whose children stand lower than `h`, or a leaf, for which `h`
    /// is zero.
    fn store_new(&mut self, node: Node, h: Ghost<nat>) -> (r: Result<usize, HaystackError>)
        requires
            old(self).sound(),
            aligned(node@),
            node.k == old(self).k,
            node@.vectors.len() <= old(self).k,
            h@ <= old(self).nodes().len(),
            node@.children.no_duplicates(),
            match node.node_type {
                NodeType::Leaf => h@ == 0 && forall|j: int|
                    0 <= j < node@.metadata.len() ==> kvs_fit(#[trigger] node@.metadata[j]),
                NodeType::Internal => node@.vectors.len() >= 1 && forall|j: int|
                    0 <= j < node@.children.len() ==> 0 <= (#[trigger] node@.children[j]) < old(self).nodes().len() && old(self).heights@[node@.children[j] as int] < h@,
            },
        ensures
            final(self).sound(),
            final(self).k == old(self).k,
            final(self).others_same(old(self), -1),
            final(self).extends(old(self)),
            final(self).storage_manager.root_offset == old(self).storage_manager.root_offset,
            final(self).nodes().len() >= old(self).nodes().len(),
            forall|i: int|
                0 <= i < old(self).nodes().len() ==> (#[trigger] final(self).heights@[i]) == old(self).heights@[i],
            match r {
                Ok(offset) => {
                    &&& offset == old(self).nodes().len()
                    &&& final(self).nodes().len() == old(self).nodes().len() + 1
                    &&& final(self).heights@[offset as int] == h@
                    &&& final(self).entries() == old(self).entries().add(node_entries(node@))
                    &&& final(self).nodes()[offset as int].node_type == node.node_type
                    &&& final(self).nodes()[offset as int].children@ == node.children@
                    &&& pairs_ok(old(self).nodes(), node@) ==> tidy(
                        final(self).nodes(),
                        offset as int,
                        old(self).nodes().len() as int,
                    )
                    &&& forall|i: int|
                        0 <= i < old(self).nodes().len() && !child_before(
                            final(self).nodes(),
                            offset as int,
                            node.children@.len() as int,
                            i,
                        ) ==> (#[trigger] final(self).nodes()[i]).parent_offset == old(self).nodes()[i].parent_offset
                },
                Err(e) => e == HaystackError::OutOfBounds && final(self).entries() == old(self).entries()
                    && final(self).nodes().len() == old(self).nodes().len() && old(self).nodes().len() >= i64::MAX
                    && final(self).nodes() == old(self).nodes(),
            },
    {
        let n: usize = self.storage_manager.data.len();
        let ghost before = self.nodes();
        let ghost heights = self.heights@;
        let ghost view = node@;
        if n as u64 >= i64::MAX as u64 {
            proof {
                assert forall|i: int| 0 <= i < n implies same_content(
                    #[trigger] before[i]@,
                    before[i]@,
                ) by {}
            }
            return Err(HaystackError::OutOfBounds);
        }
        let mut node = node;
        node.offset = offset_of(n);
        self.storage_manager.data.push(node);
        self.heights = Ghost(heights.push(h@));
        proof {
            let after = self.nodes();
            assert forall|i: int| 0 <= i < n implies same_content(#[trigger] before[i]@, after[i]@) by {}
            assert(same_content(view, after[n as int]@));
            assert(node_ok(after, self.heights@, self.k, n as int)) by {
                assert forall|j: int| 0 <= j < after[n as int]@.children.len() implies #[trigger] child_ok(
                    after,
                    self.heights@,
                    n as int,
                    j,
                ) by {
                    assert(0 <= view.children[j] < n);
                }
            }
            lemma_node_added(before, after, heights, h@, self.k, self.storage_manager.root_offset);
            lemma_entries_by_content(view, after[n as int]@, view.vectors.len());
        }
        let ghost mid = *self;
        self.refresh_parents(n);
        proof {
            assert forall|i: int| 0 <= i < n implies same_content(
                #[trigger] before[i]@,
                self.nodes()[i]@,
            ) by {
                assert(same_content(mid.nodes()[i]@, self.nodes()[i]@));
            }
            assert(same_content(mid.nodes()[n as int]@, self.nodes()[n as int]@));
            let after = self.nodes();
            let slots = mid.nodes()[n as int].children@;
            assert(after[n as int].children@ == slots);
            assert(aligned(view));
            assert forall|i: int|
                0 <= i < n && !child_before(after, n as int, slots.len() as int, i) implies (
            #[trigger] after[i]).parent_offset == before[i].parent_offset by {
                assert(after[i]@ == with_parent(mid.nodes(), n as int, slots.len() as int, i));
                assert(!child_before(mid.nodes(), n as int, slots.len() as int, i)) by {
                    if child_before(mid.nodes(), n as int, slots.len() as int, i) {
                        let t = choose|t: int|
                            0 <= t < slots.len() && (#[trigger] mid.nodes()[n as int].children@[t])
                                == i;
                        assert(after[n as int].children@[t] == i);
                    }
                }
                assert(mid.nodes()[i] == before[i]);
            }
            if pairs_ok(before, view) {
                assert forall|j: int| 0 <= j < after[n as int].children@.len() implies #[trigger] slot_tidy(
                    after,
                    n as int,
                    j,
                ) && after[n as int].children@[j] < n by {
                    let c = slots[j] as int;
                    assert(view.children[j] == slots[j]);
                    assert(view.node_type == NodeType::Internal);
                    assert(0 <= view.children[j] < n);
                    assert(mid.nodes()[n as int].children@[j] == c);
                    assert(child_before(mid.nodes(), n as int, slots.len() as int, c));
                    assert(after[c]@ == with_parent(mid.nodes(), n as int, slots.len() as int, c));
                    assert(same_content(before[c]@, after[c]@));
                    assert(view.vectors[j] == spec_mode(before[c]@.vectors));
                    assert(after[n as int]@.vectors == view.vectors);
                }
            }
        }
        Ok(n)
    }

    /// Stores an internal node that is not in the array yet, split in so
    /// many pieces that none holds more than `k` children. The offsets of
    /// the pieces go to the end of `out`.
    fn store_pieces(
        &mut self,
        node: Node,
        h: Ghost<nat>,
        out: &mut Vec<usize>,
        first: Ghost<int>,
        low: Ghost<int>,
        base: Ghost<int>,
    ) -> (r: Result<(), HaystackError>)
        requires
            old(self).sound(),
            0 <= first@ <= base@ <= old(self).nodes().len(),
            low@ <= base@,
            built(old(self).nodes(), first@, low@, base@),
            pairs_ok(old(self).nodes(), node@),
            forall|t: int| 0 <= t < node@.children.len() ==> low@ <= (#[trigger] node@.children[t]) < base@,
            apart(old(self).nodes(), base@, node@.children),
            node.node_type == NodeType::Internal,
            aligned(node@),
            node.k == old(self).k,
            node@.vectors.len() >= 1,
            h@ <= old(self).nodes().len(),
            node@.children.no_duplicates(),
            old(out)@.no_duplicates(),
            forall|j: int|
                0 <= j < node@.children.len() ==> 0 <= (#[trigger] node@.children[j]) < old(self).nodes().len() && old(self).heights@[node@.children[j] as int] < h@,
            forall|x: int|
                0 <= x < old(out)@.len() ==> (#[trigger] old(out)@[x]) < old(self).nodes().len()
                    && old(self).heights@[old(out)@[x] as int] <= h@,
        ensures
            final(self).nodes().len() <= old(self).nodes().len() + node@.vectors.len(),
            r is Err ==> final(self).nodes().len() >= i64::MAX,
            r is Ok ==> final(self).nodes().len() - old(self).nodes().len() == final(out)@.len()
                - old(out)@.len(),
            r is Ok ==> final(out)@.no_duplicates(),
            built(final(self).nodes(), first@, low@, base@),
            among(final(self).nodes(), old(self).nodes().len() as int, node@.children),
            r is Ok ==> forall|x: int|
                old(out)@.len() <= x < final(out)@.len() ==> (#[trigger] final(out)@[x]) >= old(self).nodes().len(),
            final(self).sound(),
            final(self).k == old(self).k,
            final(self).entries() == old(self).entries(),
            final(self).storage_manager.root_offset == old(self).storage_manager.root_offset,
            final(self).nodes().len() >= old(self).nodes().len(),
            final(self).new_above(old(self)),
            forall|i: int|
                0 <= i < old(self).nodes().len() ==> (#[trigger] final(self).heights@[i]) == old(self).heights@[i],
            match r {
                Ok(()) => {
                    let added = final(out)@.len() - old(out)@.len();
                    &&& added >= 1
                    &&& node@.vectors.len() <= old(self).k ==> added == 1
                    &&& node@.vectors.len() > old(self).k ==> 2 * added <= node@.vectors.len()
                    &&& forall|x: int|
                        0 <= x < final(out)@.len() ==> (#[trigger] final(out)@[x]) < final(self).nodes().len() && final(self).heights@[final(out)@[x] as int] <= h@
                    &&& forall|x: int| 0 <= x < old(out)@.len() ==> final(out)@[x] == old(out)@[x]
                    &&& forall|j: int|
                        0 <= j < node@.children.len() ==> adopted(
                            final(self).nodes(),
                            final(out)@,
                            #[trigger] node@.children[j] as int,
                        )
                },
                Err(e) => e == HaystackError::OutOfBounds,
            },
        decreases node@.vectors.len(),
    {
        let m: usize = node.vectors.len();
        assert(m == node@.vectors.len());
        if m <= self.k {
            let ghost empty = node_entries(node@);
            let ghost slots = node@.children;
            let ghost view = node@;
            let offset = match self.store_new(node, h) {
                Ok(o) => o,
                Err(e) => {
                    return Err(e);
                },
            };
            proof {
                assert(old(self).entries().add(empty) =~= old(self).entries());
                let a = old(self).nodes();
                let b = self.nodes();
                let n = a.len() as int;
                assert(b[n].children@ == slots);
                assert(view.children == slots);
                assert(tidy(b, n, base@)) by {
                    assert(tidy(b, n, n));
                    assert forall|j: int| 0 <= j < b[n].children@.len() implies #[trigger] slot_tidy(
                        b,
                        n,
                        j,
                    ) && b[n].children@[j] < base@ by {
                        assert(view.children[j] < base@);
                    }
                }
                assert forall|t: int| 0 <= t < b[n].children@.len() implies low@
                    <= #[trigger] b[n].children@[t] by {
                    assert(low@ <= view.children[t]);
                }
                lemma_built_step(a, b, first@, low@, base@);
                assert(among(b, n, slots)) by {
                    assert forall|i: int, j: int|
                        n <= i < b.len() && 0 <= j < b[i].children@.len() implies slots.contains(
                        #[trigger] b[i].children@[j],
                    ) by {
                        assert(slots[j] == b[i].children@[j]);
                    }
                }
            }
            out.push(offset);
            proof {
                assert forall|j: int| 0 <= j < slots.len() implies adopted(
                    self.nodes(),
                    out@,
                    #[trigger] slots[j] as int,
                ) by {
                    assert(holds_child(
                        self.nodes(),
                        out@[out@.len() - 1] as int,
                        j,
                        slots[j] as int,
                    ));
                }
            }
            return Ok(());
        }
        let mut node = node;
        let ghost whole = node@;
        let (sibling, side) = node.split_in_two();
        proof {
            lemma_split_by_aligned(whole, node@, sibling@, side@);
            lemma_count_flags(side@);
            lemma_pick_distinct(whole.children, side@, false);
            lemma_pick_distinct(whole.children, side@, true);
            let nodes = self.nodes();
            let l = node@;
            let r = sibling@;
            assert(whole.children.len() == whole.vectors.len());
            assert forall|j: int| 0 <= j < l.children.len() implies l.vectors[j] == spec_mode(
                nodes[(#[trigger] l.children[j]) as int]@.vectors,
            ) && low@ <= l.children[j] < base@ by {
                lemma_pick_pairs(whole.children, whole.vectors, side@, false, j);
                let x = choose|x: int|
                    0 <= x < whole.children.len() && (#[trigger] whole.children[x]) == pick(
                        whole.children,
                        side@,
                        false,
                    )[j] && whole.vectors[x] == pick(whole.vectors, side@, false)[j];
                assert(whole.vectors[x] == spec_mode(nodes[whole.children[x] as int]@.vectors));
            }
            assert forall|j: int| 0 <= j < r.children.len() implies r.vectors[j] == spec_mode(
                nodes[(#[trigger] r.children[j]) as int]@.vectors,
            ) && low@ <= r.children[j] < base@ by {
                lemma_pick_pairs(whole.children, whole.vectors, side@, true, j);
                let x = choose|x: int|
                    0 <= x < whole.children.len() && (#[trigger] whole.children[x]) == pick(
                        whole.children,
                        side@,
                        true,
                    )[j] && whole.vectors[x] == pick(whole.vectors, side@, true)[j];
                assert(whole.vectors[x] == spec_mode(nodes[whole.children[x] as int]@.vectors));
            }
            assert(apart(nodes, base@, l.children)) by {
                assert forall|i: int, j: int, t: int|
                    base@ <= i < nodes.len() && 0 <= j < nodes[i].children@.len() && 0 <= t
                        < l.children.len() implies (#[trigger] nodes[i].children@[j]) != (
                #[trigger] l.children[t]) by {
                    lemma_pick_elem(whole.children, side@, false, t);
                    let x = choose|x: int|
                        0 <= x < whole.children.len() && (#[trigger] whole.children[x])
                            == l.children[t];
                    assert(nodes[i].children@[j] != whole.children[x]);
                }
            }
            assert forall|j: int| 0 <= j < node@.children.len() implies 0 <= (
            #[trigger] node@.children[j]) < self.nodes().len()
                && self.heights@[node@.children[j] as int] < h@ by {
                lemma_pick_elem(whole.children, side@, false, j);
            }
            assert forall|j: int| 0 <= j < sibling@.children.len() implies 0 <= (
            #[trigger] sibling@.children[j]) < self.nodes().len()
                && self.heights@[sibling@.children[j] as int] < h@ by {
                lemma_pick_elem(whole.children, side@, true, j);
            }
        }
        let ghost left = node@;
        let ghost right = sibling@;
        let ghost begin = self.nodes();
        let done_left = self.store_pieces(node, h, out, first, low, base);
        proof {
            let nodes = self.nodes();
            assert(among(nodes, begin.len() as int, whole.children)) by {
                assert forall|i: int, j: int|
                    begin.len() <= i < nodes.len() && 0 <= j
                        < nodes[i].children@.len() implies whole.children.contains(
                    #[trigger] nodes[i].children@[j],
                ) by {
                    assert(left.children.contains(nodes[i].children@[j]));
                    let t = choose|t: int|
                        0 <= t < left.children.len() && left.children[t] == nodes[i].children@[j];
                    lemma_pick_elem(whole.children, side@, false, t);
                }
            }
        }
        match done_left {
            Ok(()) => {},
            Err(e) => {
                return Err(e);
            },
        }
        let ghost mid = *self;
        let ghost some = out@;
        proof {
            let nodes = mid.nodes();
            assert(grown_from(begin, nodes));
            assert(pairs_ok(nodes, right)) by {
                assert forall|j: int| 0 <= j < right.children.len() implies right.vectors[j]
                    == spec_mode(nodes[(#[trigger] right.children[j]) as int]@.vectors) by {
                    let c = right.children[j] as int;
                    assert(same_content(begin[c]@, nodes[c]@));
                }
            }
            assert(apart(nodes, base@, right.children)) by {
                assert forall|i: int, j: int, t: int|
                    base@ <= i < nodes.len() && 0 <= j < nodes[i].children@.len() && 0 <= t
                        < right.children.len() implies (#[trigger] nodes[i].children@[j]) != (
                #[trigger] right.children[t]) by {
                    if i < begin.len() {
                        assert(same_content(begin[i]@, nodes[i]@));
                        lemma_pick_elem(whole.children, side@, true, t);
                        let x = choose|x: int|
                            0 <= x < whole.children.len() && (#[trigger] whole.children[x])
                                == right.children[t];
                        assert(begin[i].children@[j] != whole.children[x]);
                    } else {
                        assert(left.children.contains(nodes[i].children@[j]));
                        let y = choose|y: int|
                            0 <= y < left.children.len() && left.children[y]
                                == nodes[i].children@[j];
                        lemma_pick_disjoint(whole.children, side@, y, t);
                    }
                }
            }
        }
        let done_right = self.store_pieces(sibling, h, out, first, low, base);
        proof {
            let nodes = self.nodes();
            assert(grown_from(mid.nodes(), nodes));
            assert(among(nodes, begin.len() as int, whole.children)) by {
                assert forall|i: int, j: int|
                    begin.len() <= i < nodes.len() && 0 <= j
                        < nodes[i].children@.len() implies whole.children.contains(
                    #[trigger] nodes[i].children@[j],
                ) by {
                    if i < mid.nodes().len() {
                        assert(same_content(mid.nodes()[i]@, nodes[i]@));
                        assert(whole.children.contains(mid.nodes()[i].children@[j]));
                    } else {
                        assert(right.children.contains(nodes[i].children@[j]));
                        let t = choose|t: int|
                            0 <= t < right.children.len() && right.children[t]
                                == nodes[i].children@[j];
                        lemma_pick_elem(whole.children, side@, true, t);
                    }
                }
            }
        }
        match done_right {
            Ok(()) => {},
            Err(e) => {
                proof {
                    self.lemma_new_above_next(&mid, old(self));
                }
                return Err(e);
            },
        }
        proof {
            self.lemma_new_above_next(&mid, old(self));
            assert forall|j: int| 0 <= j < whole.children.len() implies adopted(
                self.nodes(),
                out@,
                #[trigger] whole.children[j] as int,
            ) by {
                lemma_pick_covers(whole.children, side@, j);
                if side@[j] {
                    let i = choose|i: int|
                        0 <= i < right.children.len() && (#[trigger] right.children[i])
                            == whole.children[j];
                    assert(adopted(self.nodes(), out@, right.children[i] as int));
                } else {
                    let i = choose|i: int|
                        0 <= i < left.children.len() && (#[trigger] left.children[i])
                            == whole.children[j];
                    assert(adopted(mid.nodes(), some, left.children[i] as int));
                    lemma_adopted_kept(
                        mid.nodes(),
                        self.nodes(),
                        some,
                        out@,
                        whole.children[j] as int,
                    );
                }
            }
        }
        Ok(())
    }

    /// Clusters the nodes of `level`, which stand no higher than `h`, under
    /// parents: one node takes a slot for each of them and is split until no
    /// piece holds more than `k`. Gives the offsets of the pieces.
    fn cluster_level(
        &mut self,
        level: &Vec<usize>,
        h: Ghost<nat>,
        first: Ghost<int>,
        low: Ghost<int>,
    ) -> (r: Result<Vec<usize>, HaystackError>)
        requires
            old(self).sound(),
            level@.len() >= 1,
            h@ < old(self).nodes().len(),
            level@.no_duplicates(),
            0 <= first@ <= old(self).nodes().len(),
            built(old(self).nodes(), first@, low@, old(self).nodes().len() as int),
            forall|x: int| 0 <= x < level@.len() ==> low@ <= #[trigger] level@[x],
            forall|x: int|
                0 <= x < level@.len() ==> (#[trigger] level@[x]) < old(self).nodes().len() && old(self).heights@[level@[x] as int] <= h@,
        ensures
            r is Ok ==> r.unwrap()@.no_duplicates(),
            final(self).kept(old(self)),
            final(self).storage_manager.root_offset == old(self).storage_manager.root_offset,
            final(self).new_above(old(self)),
            final(self).nodes().len() <= old(self).nodes().len() + level@.len(),
            r is Err ==> final(self).nodes().len() >= i64::MAX,
            built(final(self).nodes(), first@, low@, old(self).nodes().len() as int),
            match r {
                Ok(parents) => {
                    &&& parents@.len() >= 1
                    &&& forall|x: int|
                        0 <= x < parents@.len() ==> (#[trigger] parents@[x]) >= old(self).nodes().len()
                    &&& final(self).nodes().len() == old(self).nodes().len() + parents@.len()
                    &&& level@.len() <= old(self).k ==> parents@.len() == 1
                    &&& level@.len() > old(self).k ==> 2 * parents@.len() <= level@.len()
                    &&& forall|x: int|
                        0 <= x < parents@.len() ==> (#[trigger] parents@[x]) < final(self).nodes().len() && final(self).heights@[parents@[x] as int] <= h@ + 1
                    &&& forall|x: int|
                        0 <= x < level@.len() ==> adopted(
                            final(self).nodes(),
                            parents@,
                            #[trigger] level@[x] as int,
                        )
                },
                Err(e) => e == HaystackError::OutOfBounds,
            },
    {
        let n: usize = self.storage_manager.data.len();
        if n as u64 >= i64::MAX as u64 {
            proof {
                self.lemma_new_above_self();
            }
            return Err(HaystackError::OutOfBounds);
        }
        let mut big = Node::new_internal();
        assert(big.vectors@.len() == big@.vectors.len());
        assert(big.metadata@.len() == big@.metadata.len());
        big.k = self.k;
        let mut x: usize = 0;
        while x < level.len()
            invariant
                x <= level@.len(),
                self.sound(),
                *self == *old(self),
                n == self.nodes().len(),
                n < i64::MAX,
                big.k == self.k,
                big.node_type == NodeType::Internal,
                big.vectors@.len() == x,
                big.children@.len() == x,
                big.ids@.len() == 0,
                big.metadata@.len() == 0,
                forall|y: int|
                    0 <= y < level@.len() ==> (#[trigger] level@[y]) < n && self.heights@[level@[y] as int]
                        <= h@,
                forall|j: int|
                    0 <= j < x ==> 0 <= (#[trigger] big.children@[j]) < n
                        && self.heights@[big.children@[j] as int] <= h@
                        && big.children@[j] == level@[j]
                        && big.vectors@[j]@ == spec_mode(self.nodes()[level@[j] as int]@.vectors),
            decreases level@.len() - x,
        {
            let c: usize = level[x];
            let centroid = find_modes(&self.storage_manager.data[c].vectors);
            proof {
                lemma_mode_unique(
                    self.nodes()[c as int]@.vectors,
                    centroid@,
                    spec_mode(self.nodes()[c as int]@.vectors),
                );
            }
            big.vectors.push(centroid);
            big.children.push(offset_of(c));
            x = x + 1;
        }
        let mut out: Vec<usize> = Vec::new();
        proof {
            assert(big@.metadata =~= Seq::<Seq<KVPairView>>::empty());
            assert(big@.vectors.len() == level@.len());
            let nodes = self.nodes();
            let v = big@;
            assert(pairs_ok(nodes, v)) by {
                assert forall|j: int| 0 <= j < v.children.len() implies v.vectors[j] == spec_mode(
                    nodes[(#[trigger] v.children[j]) as int]@.vectors,
                ) by {
                    assert(big.children@[j] == level@[j]);
                    assert(v.vectors[j] == big.vectors@[j]@);
                }
            }
            assert forall|t: int| 0 <= t < v.children.len() implies low@ <= (
            #[trigger] v.children[t]) < n by {
                assert(big.children@[t] == level@[t]);
            }
            assert(low@ <= level@[0] && level@[0] < n);
        }
        let ghost slots = big@.children;
        match self.store_pieces(
            big,
            Ghost((h@ + 1) as nat),
            &mut out,
            first,
            low,
            Ghost(n as int),
        ) {
            Ok(()) => {
                proof {
                    assert forall|x: int| 0 <= x < level@.len() implies adopted(
                        self.nodes(),
                        out@,
                        #[trigger] level@[x] as int,
                    ) by {
                        assert(slots[x] == level@[x]);
                        assert(adopted(self.nodes(), out@, slots[x] as int));
                    }
                }
                Ok(out)
            },
            Err(e) => Err(e),
        }
    }

    /// Rebuilds the levels above the leaves by clustering: every leaf
    /// becomes a child of one new node, which is split in two clusters again
    /// and again until no piece holds more than `k` children; the pieces are
    /// clustered in the same way, and so on up to a single node, which
    /// becomes the root. The entries stay what they were; the tree is
    /// balanced then, every centroid of a new node is the bitwise majority
    /// of the vectors of the child beside it, and every child of a new node
    /// records that node as its parent. Fails with `OutOfBounds` only when
    /// the array has no room for as many nodes again as it holds: the root
    /// stays what it was then.
    pub fn true_calibrate(&mut self) -> (r: Result<(), HaystackError>)
        requires
            old(self).wf(),
        ensures
            final(self).wf(),
            final(self).k == old(self).k,
            final(self).entries() == old(self).entries(),
            r is Ok ==> final(self).balanced(),
            r is Ok ==> final(self).rebuilt_from(old(self).storage_manager.data@.len()),
            r is Err ==> r == Err::<(), HaystackError>(HaystackError::OutOfBounds) && final(self).storage_manager.root_offset == old(self).storage_manager.root_offset,
            r is Err ==> !old(self).can_rebuild(),
    {
        let r = self.rebuild(true);
        proof {
            if r is Ok {
                self.lemma_balanced_is_rooted();
            } else {
                self.lemma_rooted_still(old(self));
            }
        }
        r
    }

    /// Takes away the nodes from the one at `n` on, which were added to the
    /// tree `before`.
    fn rollback(&mut self, n: usize, before: Ghost<Tree>)
        requires
            before@.wf(),
            n == before@.nodes().len(),
            old(self).extends(&before@),
        ensures
            final(self).wf(),
            final(self).k == before@.k,
            final(self).entries() == before@.entries(),
            final(self).storage_manager.root_offset == before@.storage_manager.root_offset,
    {
        let ghost heights = self.heights@;
        self.storage_manager.data.truncate(n);
        self.heights = Ghost(heights.subrange(0, n as int));
        proof {
            let a = before@.nodes();
            let b = self.nodes();
            let root = self.storage_manager.root_offset;
            assert(self.heights@ =~= before@.heights@);
            assert forall|i: int| 0 <= i < a.len() implies same_content(#[trigger] a[i]@, b[i]@) by {
                assert(same_content(a[i]@, old(self).nodes()[i]@));
            }
            lemma_same_content(a, b, before@.heights@, self.k, root);
            lemma_links_of_content(a, b, -1);
            lemma_leaves_kept(a, b, root as int, -1, -1);
        }
    }

    /// Adds the entries that the three lists give, place by place: they are
    /// packed into new leaves of `k` entries each, in their order, and the
    /// levels above the leaves are rebuilt as `calibrate` does, so that the
    /// tree is balanced. Fails, leaving the entries as they were, with
    /// `BadMetadata` when the attributes of an entry do not fit the image,
    /// and with `OutOfBounds` only when the array has no room for twice as
    /// many nodes as it holds and there are entries.
    pub fn bulk_insert_and_calibrate(
        &mut self,
        vectors: Vec<Vector>,
        ids: Vec<u128>,
        metadata: Vec<Vec<KVPair>>,
    ) -> (r: Result<(), HaystackError>)
        requires
            old(self).wf(),
        ensures
            final(self).wf(),
            final(self).k == old(self).k,
            ({
                let m = zip_len(vectors@.len() as int, ids@.len() as int, metadata@.len() as int);
                match r {
                    Ok(()) => final(self).balanced() && final(self).rebuilt_from(
                        old(self).storage_manager.data@.len(),
                    ) && final(self).entries() == old(self).entries().add(
                        bag(zipped(vectors@, ids@, metadata@, m)),
                    ),
                    Err(e) => final(self).entries() == old(self).entries() && if exists|j: int|
                        0 <= j < m && !kvs_fit(elem_views(#[trigger] metadata@[j]@)) {
                        e == HaystackError::BadMetadata
                    } else {
                        e == HaystackError::OutOfBounds && !old(self).can_bulk(m as nat)
                    },
                }
            }),
    {
        let mut m: usize = vectors.len();
        if ids.len() < m {
            m = ids.len();
        }
        if metadata.len() < m {
            m = metadata.len();
        }
        let mut i: usize = 0;
        while i < m
            invariant
                i <= m,
                m <= metadata@.len(),
                m == zip_len(vectors@.len() as int, ids@.len() as int, metadata@.len() as int),
                *self == *old(self),
                self.wf(),
                forall|j: int| 0 <= j < i ==> kvs_fit(elem_views(#[trigger] metadata@[j]@)),
            decreases m - i,
        {
            if !attributes_fit(&metadata[i]) {
                return Err(HaystackError::BadMetadata);
            }
            i = i + 1;
        }
        let first: usize = self.storage_manager.data.len();
        let before: Ghost<Tree> = Ghost(*self);
        let mut leaf = Node::new_leaf();
        assert(leaf.vectors@.len() == leaf@.vectors.len());
        assert(leaf.metadata@.len() == leaf@.metadata.len());
        leaf.k = self.k;
        let ghost all = zipped(vectors@, ids@, metadata@, m as int);
        let ghost stored: int = 0;
        let mut i: usize = 0;
        proof {
            assert(old(self).entries().add(bag(zipped(vectors@, ids@, metadata@, 0)))
                =~= old(self).entries());
            assert(entry_seq(leaf@) =~= all.subrange(0, 0));
            self.lemma_extends_self();
        }
        while i < m
            invariant
                i <= m,
                m == zip_len(vectors@.len() as int, ids@.len() as int, metadata@.len() as int),
                all == zipped(vectors@, ids@, metadata@, m as int),
                before@ == *old(self),
                before@.wf(),
                first == before@.nodes().len(),
                self.sound(),
                self.nodes().len() <= first + stored,
                forall|x: int|
                    first <= x < self.nodes().len() ==> (#[trigger] self.nodes()[x]).node_type
                        == NodeType::Leaf,
                self.extends(&before@),
                self.k == old(self).k,
                0 <= stored <= i,
                self.entries() == old(self).entries().add(
                    bag(zipped(vectors@, ids@, metadata@, stored)),
                ),
                leaf.node_type == NodeType::Leaf,
                leaf.k == self.k,
                aligned(leaf@),
                leaf@.vectors.len() == i - stored,
                leaf@.vectors.len() <= self.k,
                entry_seq(leaf@) == all.subrange(stored, i as int),
                forall|j: int| 0 <= j < m ==> kvs_fit(elem_views(#[trigger] metadata@[j]@)),
                forall|j: int|
                    0 <= j < leaf@.metadata.len() ==> kvs_fit(#[trigger] leaf@.metadata[j]),
            decreases m - i,
        {
            if leaf.vectors.len() >= self.k {
                let mut next = Node::new_leaf();
                assert(next.vectors@.len() == next@.vectors.len());
                assert(next.metadata@.len() == next@.metadata.len());
                next.k = self.k;
                let ghost full = leaf@;
                let ghost start = *self;
                let done = self.store_new(leaf, Ghost(0));
                proof {
                    self.lemma_extends_next(&start, &before@);
                    assert forall|x: int| first <= x < self.nodes().len() implies (
                    #[trigger] self.nodes()[x]).node_type == NodeType::Leaf by {
                        if x < start.nodes().len() {
                            assert(same_content(start.nodes()[x]@, self.nodes()[x]@));
                        }
                    }
                }
                match done {
                    Ok(_) => {},
                    Err(e) => {
                        self.rollback(first, before);
                        return Err(e);
                    },
                }
                proof {
                    lemma_node_bag(full);
                    let a = zipped(vectors@, ids@, metadata@, stored);
                    let b = all.subrange(stored, i as int);
                    lemma_bag_concat(a, b);
                    assert(a + b =~= zipped(vectors@, ids@, metadata@, i as int));
                    assert(old(self).entries().add(bag(a)).add(bag(b)) =~= old(self).entries().add(bag(a).add(bag(b))));
                    stored = i as int;
                    assert(entry_seq(next@) =~= all.subrange(stored, i as int));
                }
                leaf = next;
            }
            let ghost before_push = leaf@;
            leaf.vectors.push(copy_vector(&vectors[i]));
            leaf.ids.push(ids[i]);
            leaf.metadata.push(duplicate_all(&metadata[i]));
            proof {
                assert(leaf@.vectors =~= before_push.vectors.push(vectors@[i as int]@));
                assert(leaf@.metadata =~= before_push.metadata.push(
                    elem_views(metadata@[i as int]@),
                ));
                assert(entry_seq(leaf@) =~= all.subrange(stored, i + 1));
                assert forall|j: int| 0 <= j < leaf@.metadata.len() implies kvs_fit(
                    #[trigger] leaf@.metadata[j],
                ) by {
                    if j < before_push.metadata.len() {
                        assert(leaf@.metadata[j] == before_push.metadata[j]);
                    }
                }
            }
            i = i + 1;
        }
        if leaf.vectors.len() > 0 {
            let ghost full = leaf@;
            let ghost start = *self;
            let done = self.store_new(leaf, Ghost(0));
            proof {
                self.lemma_extends_next(&start, &before@);
                assert forall|x: int| first <= x < self.nodes().len() implies (
                #[trigger] self.nodes()[x]).node_type == NodeType::Leaf by {
                    if x < start.nodes().len() {
                        assert(same_content(start.nodes()[x]@, self.nodes()[x]@));
                    }
                }
            }
            match done {
                Ok(_) => {},
                Err(e) => {
                    self.rollback(first, before);
                    return Err(e);
                },
            }
            proof {
                lemma_node_bag(full);
                let a = zipped(vectors@, ids@, metadata@, stored);
                let b = all.subrange(stored, m as int);
                lemma_bag_concat(a, b);
                assert(a + b =~= all);
                assert(old(self).entries().add(bag(a)).add(bag(b)) =~= old(self).entries().add(
                    bag(a).add(bag(b)),
                ));
            }
        } else {
            proof {
                assert(stored == m);
            }
        }
        let ghost start = *self;
        match self.rebuild(false) {
            Ok(()) => {
                proof {
                    self.lemma_balanced_is_rooted();
                    let nodes = self.nodes();
                    assert forall|i: int, j: int|
                        first <= i < nodes.len() && 0 <= j
                            < nodes[i].children@.len() implies #[trigger] slot_tidy(nodes, i, j) by {
                        if i < start.nodes().len() {
                            assert(same_content(start.nodes()[i]@, nodes[i]@));
                            assert(start.nodes()[i].node_type == NodeType::Leaf);
                            assert(node_ok(start.nodes(), start.heights@, start.k, i));
                            assert(aligned(start.nodes()[i]@));
                        } else {
                            assert(nodes == self.storage_manager.data@);
                        }
                    }
                }
                Ok(())
            },
            Err(e) => {
                proof {
                    self.lemma_extends_of_kept(&start);
                    self.lemma_extends_next(&start, &before@);
                }
                self.rollback(first, before);
                Err(e)
            },
        }
    }

    /// A line for every node that can be reached from the root, level by
    /// level: the depth of the node, its kind, its offset, and how many
    /// children and vectors it holds. The first line is the root's, and
    /// every child of a node with a line has a line one level deeper.
    pub fn summarize_tree(&self) -> (lines: Vec<NodeSummary>)
        requires
            self.wf(),
        ensures
            lines@.len() >= 1,
            lines@[0].depth == 0,
            lines@[0].offset == self.storage_manager.root_offset,
            forall|x: int|
                0 <= x < lines@.len() ==> #[trigger] line_of(self.storage_manager.data@, lines@[x]),
            forall|x: int, j: int|
                0 <= x < lines@.len() && 0 <= j
                    < self.storage_manager.data@[lines@[x].offset as int].children@.len()
                    ==> #[trigger] has_line(
                    lines@,
                    child_of(self.storage_manager.data@, lines@[x], j),
                    deeper(lines@[x].depth),
                ),
    {
        let n: usize = self.storage_manager.data.len();
        let mut lines: Vec<NodeSummary> = Vec::new();
        let mut queue: Vec<usize> = Vec::new();
        queue.push(index_of(self.storage_manager.root_offset, n));
        let mut depth: usize = 0;
        let ghost level: nat = 0;
        let ghost nodes = self.nodes();
        while queue.len() > 0
            invariant
                self.sound(),
                nodes == self.nodes(),
                n == self.nodes().len(),
                n <= i64::MAX,
                level <= self.depth() + 1,
                level == 0 ==> depth == 0 && lines@.len() == 0 && queue@.len() == 1 && queue@[0]
                    == self.storage_manager.root_offset,
                level > 0 ==> lines@.len() >= 1 && lines@[0].depth == 0 && lines@[0].offset
                    == self.storage_manager.root_offset,
                forall|q: int|
                    0 <= q < queue@.len() ==> (#[trigger] queue@[q]) < n
                        && self.heights@[queue@[q] as int] + level <= self.depth(),
                forall|x: int| 0 <= x < lines@.len() ==> #[trigger] line_of(nodes, lines@[x]),
                forall|x: int, j: int|
                    0 <= x < lines@.len() && 0 <= j < nodes[lines@[x].offset as int].children@.len()
                        ==> #[trigger] child_seen(
                        nodes,
                        lines@,
                        queue@,
                        0,
                        Seq::<usize>::empty(),
                        depth,
                        x,
                        j,
                    ),
            decreases self.depth() + 1 - level,
        {
            proof {
                assert(self.heights@[queue@[0] as int] + level <= self.depth());
            }
            let mut next: Vec<usize> = Vec::new();
            let mut q: usize = 0;
            while q < queue.len()
                invariant
                    q <= queue@.len(),
                    self.sound(),
                    nodes == self.nodes(),
                    n == self.nodes().len(),
                    n <= i64::MAX,
                    level <= self.depth(),
                    level == 0 ==> depth == 0 && queue@.len() == 1 && queue@[0]
                        == self.storage_manager.root_offset && (q == 0 ==> lines@.len() == 0),
                    level > 0 || q > 0 ==> lines@.len() >= 1 && lines@[0].depth == 0
                        && lines@[0].offset == self.storage_manager.root_offset,
                    forall|y: int|
                        0 <= y < queue@.len() ==> (#[trigger] queue@[y]) < n
                            && self.heights@[queue@[y] as int] + level <= self.depth(),
                    forall|y: int|
                        0 <= y < next@.len() ==> (#[trigger] next@[y]) < n
                            && self.heights@[next@[y] as int] + level + 1 <= self.depth(),
                    forall|x: int| 0 <= x < lines@.len() ==> #[trigger] line_of(nodes, lines@[x]),
                    forall|x: int, j: int|
                        0 <= x < lines@.len() && 0 <= j
                            < nodes[lines@[x].offset as int].children@.len() ==> #[trigger] child_seen(
                            nodes,
                            lines@,
                            queue@,
                            q as int,
                            next@,
                            depth,
                            x,
                            j,
                        ),
                decreases queue@.len() - q,
            {
                let at: usize = queue[q];
                proof {
                    assert(node_ok(self.nodes(), self.heights@, self.k, at as int));
                }
                let node = &self.storage_manager.data[at];
                let ghost earlier = lines@;
                lines.push(
                    NodeSummary {
                        depth,
                        node_type: node.node_type,
                        offset: offset_of(at),
                        children: node.children.len(),
                        vectors: node.vectors.len(),
                    },
                );
                proof {
                    let last = earlier.len() as int;
                    assert(lines@[last].offset == at && lines@[last].depth == depth);
                    assert(line_of(nodes, lines@[last]));
                    assert forall|x: int| 0 <= x < lines@.len() implies #[trigger] line_of(
                        nodes,
                        lines@[x],
                    ) by {
                        if x < last {
                            assert(lines@[x] == earlier[x]);
                            assert(line_of(nodes, earlier[x]));
                        }
                    }
                    assert forall|x: int, j: int|
                        0 <= x < last && 0 <= j
                            < nodes[lines@[x].offset as int].children@.len() implies #[trigger] child_seen(
                        nodes,
                        lines@,
                        queue@,
                        q + 1,
                        next@,
                        depth,
                        x,
                        j,
                    ) by {
                        assert(lines@[x] == earlier[x]);
                        assert(child_seen(nodes, earlier, queue@, q as int, next@, depth, x, j));
                        let c = child_of(nodes, earlier[x], j);
                        let d = deeper(earlier[x].depth);
                        if has_line(earlier, c, d) {
                            lemma_line_stays(earlier, lines@, c, d);
                        } else if d == depth && waits(queue@, q as int, c) {
                            let w = choose|w: int| q <= w < queue@.len() && (#[trigger] queue@[w]) == c;
                            if w == q {
                                assert(has_line(lines@, c, d));
                            } else {
                                assert(waits(queue@, q + 1, c));
                            }
                        }
                    }
                }
                match node.node_type {
                    NodeType::Leaf => {},
                    NodeType::Internal => {
                        let mut c: usize = 0;
                        while c < node.children.len()
                            invariant
                                c <= node.children@.len(),
                                self.sound(),
                                nodes == self.nodes(),
                                n == self.nodes().len(),
                                at < n,
                                node == &self.nodes()[at as int],
                                node.node_type == NodeType::Internal,
                                node_ok(self.nodes(), self.heights@, self.k, at as int),
                                self.heights@[at as int] + level <= self.depth(),
                                lines@.len() == earlier.len() + 1,
                                lines@[earlier.len() as int].offset == at,
                                lines@[earlier.len() as int].depth == depth,
                                forall|y: int|
                                    0 <= y < next@.len() ==> (#[trigger] next@[y]) < n
                                        && self.heights@[next@[y] as int] + level + 1
                                        <= self.depth(),
                                forall|x: int, j: int|
                                    0 <= x < earlier.len() && 0 <= j
                                        < nodes[lines@[x].offset as int].children@.len()
                                        ==> #[trigger] child_seen(
                                        nodes,
                                        lines@,
                                        queue@,
                                        q + 1,
                                        next@,
                                        depth,
                                        x,
                                        j,
                                    ),
                                forall|j: int|
                                    0 <= j < c ==> waits(
                                        next@,
                                        0,
                                        #[trigger] node.children@[j] as int,
                                    ),
                            decreases node.children@.len() - c,
                        {
                            proof {
                                assert(child_ok(self.nodes(), self.heights@, at as int, c as int));
                            }
                            let ghost had = next@;
                            next.push(index_of(node.children[c], n));
                            proof {
                                assert(next@[had.len() as int] == node.children@[c as int]);
                                assert forall|j: int| 0 <= j < c + 1 implies waits(
                                    next@,
                                    0,
                                    #[trigger] node.children@[j] as int,
                                ) by {
                                    if j < c {
                                        lemma_waits_still(had, next@, node.children@[j] as int);
                                    }
                                }
                                assert forall|x: int, j: int|
                                    0 <= x < earlier.len() && 0 <= j
                                        < nodes[lines@[x].offset as int].children@.len() implies #[trigger] child_seen(
                                    nodes,
                                    lines@,
                                    queue@,
                                    q + 1,
                                    next@,
                                    depth,
                                    x,
                                    j,
                                ) by {
                                    assert(child_seen(
                                        nodes,
                                        lines@,
                                        queue@,
                                        q + 1,
                                        had,
                                        depth,
                                        x,
                                        j,
                                    ));
                                    let k = child_of(nodes, lines@[x], j);
                                    if waits(had, 0, k) {
                                        lemma_waits_still(had, next@, k);
                                    }
                                }
                            }
                            c = c + 1;
                        }
                    },
                }
                proof {
                    let last = earlier.len() as int;
                    assert(nodes[at as int].node_type == NodeType::Leaf ==> nodes[at as int].children@.len()
                        == 0) by {
                        assert(aligned(nodes[at as int]@));
                    }
                    assert forall|x: int, j: int|
                        0 <= x < lines@.len() && 0 <= j
                            < nodes[lines@[x].offset as int].children@.len() implies #[trigger] child_seen(
                        nodes,
                        lines@,
                        queue@,
                        q + 1,
                        next@,
                        depth,
                        x,
                        j,
                    ) by {
                        if x == last {
                            assert(waits(next@, 0, node.children@[j] as int));
                        }
                    }
                }
                q = q + 1;
            }
            let ghost done = queue@;
            let ghost was = depth;
            queue = next;
            if depth < usize::MAX {
                depth = depth + 1;
            }
            proof {
                if queue@.len() > 0 {
                    assert(queue@[0] < n);
                }
                level = level + 1;
                assert forall|x: int, j: int|
                    0 <= x < lines@.len() && 0 <= j
                        < nodes[lines@[x].offset as int].children@.len() implies #[trigger] child_seen(
                    nodes,
                    lines@,
                    queue@,
                    0,
                    Seq::<usize>::empty(),
                    depth,
                    x,
                    j,
                ) by {
                    assert(child_seen(nodes, lines@, done, done.len() as int, queue@, was, x, j));
                }
            }
        }
        proof {
            assert forall|x: int, j: int|
                0 <= x < lines@.len() && 0 <= j < nodes[lines@[x].offset as int].children@.len() implies #[trigger] has_line(
                lines@,
                child_of(nodes, lines@[x], j),
                deeper(lines@[x].depth),
            ) by {
                assert(child_seen(nodes, lines@, queue@, 0, Seq::<usize>::empty(), depth, x, j));
            }
        }
        lines
    }
}

/// The line says of a node what the node is.
pub open spec fn line_of(nodes: Seq<Node>, line: NodeSummary) -> bool {
    &&& 0 <= line.offset < nodes.len()
    &&& line.node_type == nodes[line.offset as int].node_type
    &&& line.children == nodes[line.offset as int]@.children.len()
    &&& line.vectors == nodes[line.offset as int]@.vectors.len()
}

/// The child in slot `j` of the node of a line.
pub open spec fn child_of(nodes: Seq<Node>, line: NodeSummary, j: int) -> int {
    nodes[line.offset as int].children@[j] as int
}

/// Some line is the line of the node at `offset`, at `depth`.
pub open spec fn has_line(lines: Seq<NodeSummary>, offset: int, depth: usize) -> bool {
    exists|y: int|
        0 <= y < lines.len() && (#[trigger] lines[y]).offset == offset && lines[y].depth == depth
}

/// The node at `c` is one of the nodes of the list from the place `from`
/// on.
pub open spec fn waits(queue: Seq<usize>, from: int, c: int) -> bool {
    exists|q: int| from <= q < queue.len() && (#[trigger] queue[q]) == c
}

/// What holds of the child in slot `j` of the node of line `x` while the
/// nodes of a level get their lines: the child has its line; or it is a
/// node of this level that waits for its line; or it is a node of the next
/// level.
pub open spec fn child_seen(
    nodes: Seq<Node>,
    lines: Seq<NodeSummary>,
    queue: Seq<usize>,
    from: int,
    next: Seq<usize>,
    depth: usize,
    x: int,
    j: int,
) -> bool {
    let c = child_of(nodes, lines[x], j);
    ||| has_line(lines, c, deeper(lines[x].depth))
    ||| (deeper(lines[x].depth) == depth && waits(queue, from, c))
    ||| (lines[x].depth == depth && waits(next, 0, c))
}

/// A line stays a line when lines are added.
pub proof fn lemma_line_stays(
    before: Seq<NodeSummary>,
    after: Seq<NodeSummary>,
    offset: int,
    depth: usize,
)
    requires
        has_line(before, offset, depth),
        before.len() <= after.len(),
        forall|y: int| 0 <= y < before.len() ==> after[y] == before[y],
    ensures
        has_line(after, offset, depth),
{
    let y = choose|y: int|
        0 <= y < before.len() && (#[trigger] before[y]).offset == offset && before[y].depth
            == depth;
    assert(after[y] == before[y]);
}

/// A node that waits in a list waits in the list when nodes are added.
pub proof fn lemma_waits_still(before: Seq<usize>, after: Seq<usize>, c: int)
    requires
        waits(before, 0, c),
        before.len() <= after.len(),
        forall|y: int| 0 <= y < before.len() ==> after[y] == before[y],
    ensures
        waits(after, 0, c),
{
    let q = choose|q: int| 0 <= q < before.len() && (#[trigger] before[q]) == c;
    assert(after[q] == before[q]);
}

/// The entries of a node of an image: those of a leaf whose lists go
/// together and whose attributes fit, none of an internal node.
pub open spec fn leaf_entry_seq(v: NodeView) -> Option<Seq<EntryView>> {
    match v.node_type {
        NodeType::Internal => Some(Seq::empty()),
        NodeType::Leaf => if v.ids.len() == v.vectors.len() && v.metadata.len() == v.vectors.len()
            && (forall|j: int| 0 <= j < v.metadata.len() ==> kvs_fit(#[trigger] v.metadata[j])) {
            Some(entry_seq(v))
        } else {
            None
        },
    }
}

/// The entries of all nodes of an image, in the order of the nodes.
pub open spec fn all_entry_seq(nodes: Seq<NodeView>) -> Option<Seq<EntryView>>
    decreases nodes.len(),
{
    if nodes.len() == 0 {
        Some(Seq::empty())
    } else {
        match (all_entry_seq(nodes.drop_last()), leaf_entry_seq(nodes.last())) {
            (Some(a), Some(b)) => Some(a + b),
            _ => None,
        }
    }
}

/// The nodes that a list of images stands for, if each is an image.
pub open spec fn parse_nodes(blobs: Seq<Seq<u8>>) -> Option<Seq<NodeView>> {
    if forall|i: int| 0 <= i < blobs.len() ==> (#[trigger] spec_node_parse(blobs[i])) is Some {
        Some(Seq::new(blobs.len(), |i: int| spec_node_parse(blobs[i]).unwrap()))
    } else {
        None
    }
}

/// The views of a list of nodes.
pub open spec fn node_views(nodes: Seq<Node>) -> Seq<NodeView> {
    Seq::new(nodes.len(), |i: int| nodes[i]@)
}

/// The image of every node.
pub open spec fn node_images(nodes: Seq<NodeView>) -> Seq<Seq<u8>> {
    Seq::new(nodes.len(), |i: int| spec_node_bytes(nodes[i]))
}

/// The image of a tree: the cap and the offset of the root in eight bytes
/// each, then the image of every node behind its length in eight bytes, in
/// the order of the offsets.
pub open spec fn spec_tree_bytes(k: usize, root: i64, nodes: Seq<NodeView>) -> Seq<u8> {
    spec_u64_to_le_bytes(k as u64) + spec_u64_to_le_bytes(spec_u64_of(root)) + frame_all(
        true,
        node_images(nodes),
    )
}

/// What an image of a tree holds: the cap and the entries of the leaves, in
/// the order of the nodes.
pub open spec fn spec_tree_parse(s: Seq<u8>) -> Option<(usize, Seq<EntryView>)> {
    match (spec_read_u64(s, 0), spec_read_i64(s, 8), parse_frames_to_end(true, s, 16)) {
        (Some(k), Some(root), Some(blobs)) => match parse_nodes(blobs) {
            Some(nodes) => match all_entry_seq(nodes) {
                Some(entries) => if MIN_K <= k <= MAX_K && 0 <= root < nodes.len() {
                    Some((k as usize, entries))
                } else {
                    None
                },
                None => None,
            },
            None => None,
        },
        _ => None,
    }
}

/// The nodes as an image keeps them: a parent offset of -1 stands for no
/// parent.
pub open spec fn kept_views(views: Seq<NodeView>) -> Seq<NodeView> {
    Seq::new(
        views.len(),
        |i: int| NodeView { parent_offset: spec_parent_norm(views[i].parent_offset), ..views[i] },
    )
}

/// The nodes with the cap `k`.
pub open spec fn capped(views: Seq<NodeView>, k: usize) -> Seq<NodeView> {
    Seq::new(views.len(), |i: int| NodeView { k, ..views[i] })
}

/// What an image of a tree holds: the cap, the offset of the root, and the
/// nodes, each with the cap.
pub open spec fn spec_tree_nodes(s: Seq<u8>) -> Option<(usize, i64, Seq<NodeView>)> {
    match (spec_read_u64(s, 0), spec_read_i64(s, 8), parse_frames_to_end(true, s, 16)) {
        (Some(k), Some(root), Some(blobs)) => match parse_nodes(blobs) {
            Some(nodes) => if MIN_K <= k <= MAX_K {
                Some((k as usize, root, capped(nodes, k as usize)))
            } else {
                None
            },
            None => None,
        },
        _ => None,
    }
}

/// Whether the nodes, with heights `h`, are nodes in order that have the
/// views `views`, and every leaf of them can be reached from the root.
pub open spec fn stands_for(
    nodes: Seq<Node>,
    h: Seq<nat>,
    k: usize,
    root: i64,
    views: Seq<NodeView>,
) -> bool {
    &&& nodes_ok(nodes, h, k, root)
    &&& node_views(nodes) == views
    &&& leaves_reach(nodes, root as int, -1, -1)
}

/// Whether `s` is the image of a tree in order: its nodes go together,
/// none holds more than the cap, every child is a node that stands lower
/// and no child stands twice under one parent, and every leaf can be
/// reached from the root.
pub open spec fn image_in_order(s: Seq<u8>) -> bool {
    spec_tree_nodes(s) is Some && exists|nodes: Seq<Node>, h: Seq<nat>|
        #[trigger] stands_for(
            nodes,
            h,
            spec_tree_nodes(s).unwrap().0,
            spec_tree_nodes(s).unwrap().1,
            spec_tree_nodes(s).unwrap().2,
        )
}

/// Nodes with the same views are in order alike, one by one.
pub proof fn lemma_views_locally(a: Seq<Node>, b: Seq<Node>, k: usize, i: int)
    requires
        node_views(a) == node_views(b),
        0 <= i < a.len(),
        restore::locally_ok(a, k, i),
    ensures
        restore::locally_ok(b, k, i),
{
    assert(node_views(a).len() == a.len());
    assert(node_views(b).len() == b.len());
    assert(node_views(a)[i] == a[i]@);
    assert(node_views(b)[i] == b[i]@);
}

/// No image whose node at `i` is out of order is the image of a tree in
/// order.
pub proof fn lemma_not_in_order(s: Seq<u8>, nodes: Seq<Node>, k: usize, root: i64, i: int)
    requires
        spec_tree_nodes(s) == Some((k, root, node_views(nodes))),
        0 <= i < nodes.len(),
        !restore::locally_ok(nodes, k, i),
    ensures
        !image_in_order(s),
{
    if image_in_order(s) {
        let (w, h) = choose|w: Seq<Node>, h: Seq<nat>|
            #[trigger] stands_for(w, h, k, root, node_views(nodes));
        restore::lemma_nodes_ok_back(w, h, k, root);
        assert(node_views(w).len() == w.len());
        assert(node_views(nodes).len() == nodes.len());
        lemma_views_locally(w, nodes, k, i);
    }
}

/// Heights in order for nodes are in order for nodes with the same
/// views.
pub proof fn lemma_views_heights(a: Seq<Node>, b: Seq<Node>, h: Seq<nat>)
    requires
        node_views(a) == node_views(b),
        restore::heights_ok(a, h),
    ensures
        restore::heights_ok(b, h),
{
    assert(node_views(a).len() == a.len());
    assert(node_views(b).len() == b.len());
    assert forall|i: int| 0 <= i < b.len() implies #[trigger] restore::height_ok(b, h, i) by {
        assert(restore::height_ok(a, h, i));
        assert(node_views(a)[i] == a[i]@);
        assert(node_views(b)[i] == b[i]@);
        assert(a[i].node_type == b[i].node_type);
        assert(a[i].children@ == b[i].children@);
    }
}

/// No image whose nodes have no heights in order is the image of a tree
/// in order.
pub proof fn lemma_no_heights(s: Seq<u8>, nodes: Seq<Node>, k: usize, root: i64)
    requires
        spec_tree_nodes(s) == Some((k, root, node_views(nodes))),
        forall|h: Seq<nat>| !#[trigger] restore::heights_ok(nodes, h),
    ensures
        !image_in_order(s),
{
    if image_in_order(s) {
        let (w, h) = choose|w: Seq<Node>, h: Seq<nat>|
            #[trigger] stands_for(w, h, k, root, node_views(nodes));
        restore::lemma_nodes_ok_back(w, h, k, root);
        lemma_views_heights(w, nodes, h);
    }
}

/// No image with a leaf that cannot be reached from the root is the image
/// of a tree in order.
pub proof fn lemma_not_reached(s: Seq<u8>, nodes: Seq<Node>, k: usize, root: i64)
    requires
        spec_tree_nodes(s) == Some((k, root, node_views(nodes))),
        !leaves_reach(nodes, root as int, -1, -1),
    ensures
        !image_in_order(s),
{
    if image_in_order(s) {
        let (w, h) = choose|w: Seq<Node>, h: Seq<nat>|
            #[trigger] stands_for(w, h, k, root, node_views(nodes));
        assert(node_views(w).len() == w.len());
        assert(node_views(nodes).len() == nodes.len());
        assert(links_kept(w, nodes, -1)) by {
            assert forall|i: int| 0 <= i < w.len() implies (#[trigger] nodes[i]).node_type
                == w[i].node_type && slots_kept(w[i], nodes[i]) by {
                assert(node_views(w)[i] == w[i]@);
                assert(node_views(nodes)[i] == nodes[i]@);
                assert(w[i].children@ == nodes[i].children@);
            }
        }
        lemma_leaves_kept(w, nodes, root as int, -1, -1);
    }
}

/// What reading the images of the nodes gives: the nodes, each with the
/// cap of a new node and its parent offset as an image keeps it.
pub open spec fn read_views(views: Seq<NodeView>) -> Seq<NodeView> {
    Seq::new(
        views.len(),
        |i: int| NodeView { parent_offset: spec_parent_norm(views[i].parent_offset), k: K, ..views[i] },
    )
}

/// Reading the head of the image of a tree gives the cap and the offset of
/// the root, and reading the rest gives the images of the nodes.
pub proof fn lemma_image_head(k: usize, root: i64, blobs: Seq<Seq<u8>>)
    requires
        forall|i: int| 0 <= i < blobs.len() ==> (#[trigger] blobs[i]).len() <= u64::MAX,
    ensures
        ({
            let s = spec_u64_to_le_bytes(k as u64) + spec_u64_to_le_bytes(spec_u64_of(root))
                + frame_all(true, blobs);
            &&& spec_read_u64(s, 0) == Some(k as u64)
            &&& spec_read_i64(s, 8) == Some(root)
            &&& parse_frames_to_end(true, s, 16) == Some(blobs)
        }),
{
    lemma_auto_spec_u64_to_from_le_bytes();
    let a = spec_u64_to_le_bytes(k as u64);
    let c = spec_u64_to_le_bytes(spec_u64_of(root));
    let f = frame_all(true, blobs);
    let s = a + c + f;
    let z = Seq::<u8>::empty();
    assert(s =~= z + a + (c + f));
    lemma_read_back(z, c + f);
    lemma_read_back(a, f);
    lemma_parse_frames_to_end_of_frame_all(true, a + c, blobs);
}

impl Tree {
    /// The image of the tree.
    pub closed spec fn image(&self) -> Seq<u8> {
        spec_tree_bytes(self.k, self.storage_manager.root_offset, node_views(self.nodes()))
    }

    /// Whether the image of every node fits a length of eight bytes. Every
    /// tree in memory does.
    pub closed spec fn encodable(&self) -> bool {
        forall|i: int|
            0 <= i < self.nodes().len() ==> spec_node_bytes(
                #[trigger] node_views(self.nodes())[i],
            ).len() <= u64::MAX
    }

    /// In every internal node there are as many children as centroids, and
    /// in every leaf as many ids and lists of attributes as vectors; no node
    /// holds more entries than the cap; no child stands twice under one
    /// parent, and every child is a node of the tree.
    pub proof fn lemma_lists_go_together(&self, i: int)
        requires
            self.wf(),
            0 <= i < self.storage_manager.data@.len(),
        ensures
            aligned(self.storage_manager.data@[i]@),
            self.storage_manager.data@[i].node_type == NodeType::Internal
                ==> self.storage_manager.data@[i]@.children.len()
                == self.storage_manager.data@[i]@.vectors.len(),
            self.storage_manager.data@[i]@.vectors.len() <= self.k,
            self.storage_manager.data@[i]@.children.no_duplicates(),
            forall|j: int|
                0 <= j < self.storage_manager.data@[i].children@.len() ==> 0 <= (
                #[trigger] self.storage_manager.data@[i].children@[j])
                    < self.storage_manager.data@.len(),
    {
        let nodes = self.nodes();
        assert(node_ok(nodes, self.heights@, self.k, i));
        assert forall|j: int| 0 <= j < nodes[i].children@.len() implies 0 <= (
        #[trigger] nodes[i].children@[j]) < nodes.len() by {
            assert(child_ok(nodes, self.heights@, i, j));
        }
    }

    /// Reading the image of a tree gives its cap, and entries that are the
    /// entries of the tree.
    pub proof fn lemma_image_round_trip(&self)
        requires
            self.wf(),
            self.encodable(),
        ensures
            spec_tree_parse(self.image()) is Some,
            spec_tree_parse(self.image()).unwrap().0 == self.k,
            bag(spec_tree_parse(self.image()).unwrap().1) == self.entries(),
    {
        let nodes = self.nodes();
        let views = node_views(nodes);
        let blobs = node_images(views);
        let root = self.storage_manager.root_offset;
        assert forall|i: int| 0 <= i < blobs.len() implies (#[trigger] blobs[i]).len() <= u64::MAX by {
            assert(spec_node_bytes(views[i]).len() <= u64::MAX);
        }
        lemma_image_head(self.k, root, blobs);
        let parsed = read_views(views);
        assert forall|i: int| 0 <= i < blobs.len() implies (#[trigger] spec_node_parse(blobs[i]))
            == Some(parsed[i]) by {
            assert(node_ok(nodes, self.heights@, self.k, i));
            let v = views[i];
            assert forall|x: int| 0 <= x < v.vectors.len() implies (#[trigger] v.vectors[x]).len()
                == QUANTIZED_VECTOR_SIZE by {}
            lemma_node_round_trip(v);
        }
        assert(Seq::new(blobs.len(), |i: int| spec_node_parse(blobs[i]).unwrap()) =~= parsed);
        lemma_image_entries(nodes, self.heights@, self.k, root, nodes.len());
        assert(views.subrange(0, nodes.len() as int) =~= views);
        lemma_same_entry_seq(views, parsed, views.len());
        assert(parsed.subrange(0, views.len() as int) =~= parsed);
    }

    /// Reading the image of a tree gives the tree back: the image is one of
    /// a tree in order, with the cap, the root and the nodes of the tree at
    /// their offsets, a parent offset of -1 read as none; and the image of
    /// what was read is the image again.
    pub proof fn lemma_image_restores(&self)
        requires
            self.wf(),
            self.encodable(),
        ensures
            image_in_order(self.image()),
            spec_tree_nodes(self.image()) == Some(
                (
                    self.k,
                    self.storage_manager.root_offset,
                    kept_views(node_views(self.storage_manager.data@)),
                ),
            ),
            spec_tree_bytes(
                self.k,
                self.storage_manager.root_offset,
                kept_views(node_views(self.storage_manager.data@)),
            ) == self.image(),
    {
        let nodes = self.nodes();
        let views = node_views(nodes);
        let blobs = node_images(views);
        let root = self.storage_manager.root_offset;
        let k = self.k;
        assert forall|i: int| 0 <= i < blobs.len() implies (#[trigger] blobs[i]).len() <= u64::MAX by {
            assert(spec_node_bytes(views[i]).len() <= u64::MAX);
        }
        lemma_image_head(k, root, blobs);
        let parsed = read_views(views);
        assert forall|i: int| 0 <= i < blobs.len() implies (#[trigger] spec_node_parse(blobs[i]))
            == Some(parsed[i]) by {
            assert(node_ok(nodes, self.heights@, k, i));
            let v = views[i];
            assert forall|x: int| 0 <= x < v.vectors.len() implies (#[trigger] v.vectors[x]).len()
                == QUANTIZED_VECTOR_SIZE by {}
            lemma_node_round_trip(v);
        }
        assert(Seq::new(blobs.len(), |i: int| spec_node_parse(blobs[i]).unwrap()) =~= parsed);
        let kept = kept_views(views);
        assert(capped(parsed, k) =~= kept) by {
            assert forall|i: int| 0 <= i < kept.len() implies capped(parsed, k)[i] == kept[i] by {
                assert(node_ok(nodes, self.heights@, k, i));
            }
        }
        let w = Seq::new(
            nodes.len(),
            |i: int| Node { parent_offset: spec_parent_norm(nodes[i].parent_offset), ..nodes[i] },
        );
        assert(node_views(w) =~= kept);
        assert forall|i: int| 0 <= i < nodes.len() implies same_content(#[trigger] nodes[i]@, w[i]@) by {}
        lemma_same_content(nodes, w, self.heights@, k, root);
        lemma_links_of_content(nodes, w, -1);
        lemma_leaves_kept(nodes, w, root as int, -1, -1);
        assert(stands_for(w, self.heights@, k, root, kept));
        let s = self.image();
        assert(spec_tree_nodes(s) == Some((k, root, kept)));
        let found = spec_tree_nodes(s).unwrap();
        assert(stands_for(w, self.heights@, found.0, found.1, found.2));
        assert(node_images(kept) =~= blobs) by {
            assert forall|i: int| 0 <= i < blobs.len() implies node_images(kept)[i] == blobs[i] by {
                assert(spec_node_bytes(kept[i]) == spec_node_bytes(views[i]));
            }
        }
    }

    /// The image of the tree.
    pub fn to_binary(&mut self) -> (bytes: Vec<u8>)
        requires
            old(self).wf(),
        ensures
            *final(self) == *old(self),
            bytes@ == old(self).image(),
            old(self).encodable(),
    {
        let mut out: Vec<u8> = Vec::new();
        write_u64(&mut out, self.k as u64);
        write_i64(&mut out, self.storage_manager.root_offset);
        let mut blobs: Vec<Vec<u8>> = Vec::new();
        let mut i: usize = 0;
        let ghost views = node_views(self.nodes());
        while i < self.storage_manager.data.len()
            invariant
                i <= self.nodes().len(),
                self.sound(),
                *self == *old(self),
                views == node_views(self.nodes()),
                blobs@.len() == i,
                forall|j: int| 0 <= j < i ==> (#[trigger] blobs@[j])@ == spec_node_bytes(views[j]),
            decreases self.nodes().len() - i,
        {
            proof {
                assert(node_ok(self.nodes(), self.heights@, self.k, i as int));
                let v = self.nodes()[i as int]@;
                assert forall|x: int| 0 <= x < v.vectors.len() implies (#[trigger] v.vectors[x]).len()
                    == QUANTIZED_VECTOR_SIZE by {}
                assert(node_fits(v));
            }
            blobs.push(self.storage_manager.data[i].serialize());
            i = i + 1;
        }
        write_frames(&mut out, &blobs, true);
        proof {
            assert(blob_views(blobs@) =~= node_images(views));
            assert forall|i: int| 0 <= i < self.nodes().len() implies spec_node_bytes(
                #[trigger] node_views(self.nodes())[i],
            ).len() <= u64::MAX by {
                assert(blobs@[i]@.len() <= u64::MAX);
            }
        }
        out
    }

    /// The tree that `data` is the image of: the nodes of the image at
    /// their offsets, with the image's cap, and the image's root. The nodes
    /// are held against the invariant of the tree. Fails with `Corruption`
    /// exactly when `data` is no image of a tree in order.
    pub fn from_binary(data: Vec<u8>) -> (r: Result<Tree, HaystackError>)
        ensures
            match r {
                Ok(tree) => {
                    &&& tree.wf()
                    &&& image_in_order(data@)
                    &&& spec_tree_nodes(data@) == Some(
                        (
                            tree.k,
                            tree.storage_manager.root_offset,
                            node_views(tree.storage_manager.data@),
                        ),
                    )
                    &&& spec_tree_parse(data@) is Some
                    &&& tree.k == spec_tree_parse(data@).unwrap().0
                    &&& tree.entries() == bag(spec_tree_parse(data@).unwrap().1)
                },
                Err(e) => e == HaystackError::Corruption && !image_in_order(data@),
            },
    {
        let bytes = data.as_slice();
        let k = match read_u64(bytes, 0) {
            Some(x) => x,
            None => {
                return Err(HaystackError::Corruption);
            },
        };
        let root = match read_i64(bytes, 8) {
            Some(x) => x,
            None => {
                return Err(HaystackError::Corruption);
            },
        };
        let blobs = match read_frames_to_end(bytes, 16, true) {
            Some(x) => x,
            None => {
                return Err(HaystackError::Corruption);
            },
        };
        if k < MIN_K as u64 || k > MAX_K as u64 {
            return Err(HaystackError::Corruption);
        }
        let cap: usize = k as usize;
        let ghost all = blob_views(blobs@);
        let mut nodes: Vec<Node> = Vec::new();
        let mut i: usize = 0;
        while i < blobs.len()
            invariant
                i <= blobs@.len(),
                all == blob_views(blobs@),
                spec_read_u64(data@, 0) == Some(k),
                spec_read_i64(data@, 8) == Some(root),
                parse_frames_to_end(true, data@, 16) == Some(all),
                nodes@.len() == i,
                forall|j: int|
                    0 <= j < i ==> (#[trigger] spec_node_parse(all[j])) is Some && nodes@[j]@ == (
                    NodeView { k: cap, ..spec_node_parse(all[j]).unwrap() }),
            decreases blobs@.len() - i,
        {
            let mut node = match Node::deserialize(blobs[i].as_slice()) {
                Ok(x) => x,
                Err(_) => {
                    assert(spec_node_parse(all[i as int]) is None);
                    return Err(HaystackError::Corruption);
                },
            };
            node.k = cap;
            nodes.push(node);
            i = i + 1;
        }
        let n: usize = nodes.len();
        proof {
            let parsed = parse_nodes(all).unwrap();
            assert(node_views(nodes@) =~= capped(parsed, cap));
            assert(spec_tree_nodes(data@) == Some((cap, root, node_views(nodes@))));
        }
        if root < 0 || root as u64 >= n as u64 || n as u64 > i64::MAX as u64 {
            return Err(HaystackError::Corruption);
        }
        let top: usize = root as u64 as usize;
        let mut i: usize = 0;
        while i < n
            invariant
                i <= n,
                n == nodes@.len(),
                spec_tree_nodes(data@) == Some((cap, root, node_views(nodes@))),
                forall|x: int| 0 <= x < i ==> #[trigger] restore::locally_ok(nodes@, cap, x),
            decreases n - i,
        {
            if !restore::node_in_order(&nodes, i, cap) {
                proof {
                    lemma_not_in_order(data@, nodes@, cap, root, i as int);
                }
                return Err(HaystackError::Corruption);
            }
            i = i + 1;
        }
        let levels = match restore::find_heights(&nodes, cap) {
            Some(x) => x,
            None => {
                proof {
                    lemma_no_heights(data@, nodes@, cap, root);
                }
                return Err(HaystackError::Corruption);
            },
        };
        let ghost heights = restore::as_heights(levels@);
        proof {
            restore::lemma_nodes_ok(nodes@, heights, cap, root);
        }
        if !restore::leaves_reached(&nodes, &levels, top, cap) {
            proof {
                lemma_not_reached(data@, nodes@, cap, root);
            }
            return Err(HaystackError::Corruption);
        }
        let ghost kept = nodes@;
        let tree = Tree {
            k: cap,
            storage_manager: StorageManager { data: nodes, root_offset: root },
            heights: Ghost(heights),
        };
        proof {
            let ns = tree.nodes();
            assert(ns == kept);
            assert(spec_tree_nodes(data@) == Some((cap, root, node_views(ns))));
            let parsed = parse_nodes(all).unwrap();
            assert(tree.sound());
            assert(tree.wf());
            lemma_image_entries(ns, heights, cap, root, ns.len());
            assert(node_views(ns).subrange(0, ns.len() as int) =~= node_views(ns));
            assert(parsed.len() == ns.len());
            assert forall|x: int| 0 <= x < ns.len() implies same_lists(
                #[trigger] node_views(ns)[x],
                parsed[x],
            ) by {
                assert(node_views(ns)[x] == capped(parsed, cap)[x]);
            }
            lemma_same_entry_seq(node_views(ns), parsed, ns.len());
            assert(parsed.subrange(0, ns.len() as int) =~= parsed);
            assert(all_entry_seq(parsed) is Some);
            assert(spec_tree_parse(data@) is Some);
            assert(tree.entries() == bag(spec_tree_parse(data@).unwrap().1));
            assert(stands_for(ns, heights, cap, root, node_views(ns)));
            let found = spec_tree_nodes(data@).unwrap();
            assert(found.0 == cap && found.1 == root && found.2 == node_views(ns));
            assert(stands_for(ns, heights, found.0, found.1, found.2));
            assert(image_in_order(data@));
        }
        Ok(tree)
    }
}

/// Nodes with the same lists and kinds have the same entries.
pub proof fn lemma_same_entry_seq(a: Seq<NodeView>, b: Seq<NodeView>, n: nat)
    requires
        n <= a.len(),
        a.len() == b.len(),
        forall|i: int| 0 <= i < a.len() ==> same_lists(#[trigger] a[i], b[i]),
    ensures
        all_entry_seq(a.subrange(0, n as int)) == all_entry_seq(b.subrange(0, n as int)),
    decreases n,
{
    if n > 0 {
        lemma_same_entry_seq(a, b, (n - 1) as nat);
        let pa = a.subrange(0, n as int);
        let pb = b.subrange(0, n as int);
        assert(pa.drop_last() =~= a.subrange(0, n - 1));
        assert(pb.drop_last() =~= b.subrange(0, n - 1));
        assert(same_lists(a[n - 1], b[n - 1]));
        assert(pa.last() == a[n - 1] && pb.last() == b[n - 1]);
        assert(entry_seq(a[n - 1]) =~= entry_seq(b[n - 1]));
    }
}

/// Two nodes with the same vectors, ids, attributes and kind.
pub open spec fn same_lists(a: NodeView, b: NodeView) -> bool {
    &&& a.vectors == b.vectors
    &&& a.ids == b.ids
    &&& a.metadata == b.metadata
    &&& a.node_type == b.node_type
}

/// The entries of the leaves of a tree in order are the entries of the
/// nodes' image, and as a bag the entries of the tree.
pub proof fn lemma_image_entries(nodes: Seq<Node>, heights: Seq<nat>, k: usize, root: i64, n: nat)
    requires
        nodes_ok(nodes, heights, k, root),
        n <= nodes.len(),
    ensures
        all_entry_seq(node_views(nodes).subrange(0, n as int)) is Some,
        bag(all_entry_seq(node_views(nodes).subrange(0, n as int)).unwrap()) == entries_of(nodes, n),
    decreases n,
{
    let views = node_views(nodes).subrange(0, n as int);
    if n > 0 {
        lemma_image_entries(nodes, heights, k, root, (n - 1) as nat);
        assert(views.drop_last() =~= node_views(nodes).subrange(0, n - 1));
        assert(views.last() == nodes[n - 1]@);
        assert(node_ok(nodes, heights, k, n - 1));
        let a = all_entry_seq(views.drop_last()).unwrap();
        let v = nodes[n - 1]@;
        match v.node_type {
            NodeType::Leaf => {
                lemma_node_bag(v);
                lemma_bag_concat(a, entry_seq(v));
            },
            NodeType::Internal => {
                assert(a + Seq::<EntryView>::empty() =~= a);
                assert(entries_of(nodes, n) =~= entries_of(nodes, (n - 1) as nat));
            },
        }
    }
}

/// The nodes on a way stand higher than the node that the way leads to, and
/// each higher than the next.
pub proof fn lemma_path_heights(
    nodes: Seq<Node>,
    heights: Seq<nat>,
    k: usize,
    root: i64,
    path: Seq<(usize, usize)>,
    target: int,
)
    requires
        nodes_ok(nodes, heights, k, root),
        path_ok(nodes, root, path, target),
    ensures
        forall|d: int|
            0 <= d < path.len() ==> heights[(#[trigger] path[d]).0 as int] > heights[target],
        forall|d: int, e: int|
            0 <= d < e < path.len() ==> heights[(#[trigger] path[d]).0 as int] > heights[(
            #[trigger] path[e]).0 as int],
    decreases path.len(),
{
    if path.len() > 0 {
        let last = path.len() - 1;
        let p = path[last].0 as int;
        let s = path[last].1 as int;
        assert(node_ok(nodes, heights, k, p));
        assert(child_ok(nodes, heights, p, s));
        let rest = path.drop_last();
        assert(path_ok(nodes, root, rest, p)) by {
            assert forall|d: int| 0 <= d < rest.len() implies {
                let q = (#[trigger] rest[d]).0 as int;
                let t = rest[d].1 as int;
                &&& 0 <= q < nodes.len()
                &&& nodes[q].node_type == NodeType::Internal
                &&& 0 <= t < nodes[q].children@.len()
                &&& nodes[q].children@[t] == (if d + 1 < rest.len() {
                    rest[d + 1].0 as int
                } else {
                    p
                })
            } by {
                assert(rest[d] == path[d]);
                if d + 1 < rest.len() {
                    assert(rest[d + 1] == path[d + 1]);
                }
            }
            if rest.len() > 0 {
                assert(rest[0] == path[0]);
            }
        }
        lemma_path_heights(nodes, heights, k, root, rest, p);
        assert forall|d: int| 0 <= d < path.len() implies heights[(#[trigger] path[d]).0 as int]
            > heights[target] by {
            if d < last {
                assert(rest[d] == path[d]);
            }
        }
        assert forall|d: int, e: int| 0 <= d < e < path.len() implies heights[(
        #[trigger] path[d]).0 as int] > heights[(#[trigger] path[e]).0 as int] by {
            assert(rest[d] == path[d]);
            if e < last {
                assert(rest[e] == path[e]);
            }
        }
    }
}

/// Two nodes that differ at most in what they record of their place in the
/// tree: their offset, their parent, and whether they are the root.
pub open spec fn same_content(a: NodeView, b: NodeView) -> bool {
    &&& a.vectors == b.vectors
    &&& a.ids == b.ids
    &&& a.children == b.children
    &&& a.metadata == b.metadata
    &&& a.k == b.k
    &&& a.node_type == b.node_type
}

/// The invariant and the entries speak of the content of the nodes alone.
pub proof fn lemma_same_content(
    a: Seq<Node>,
    b: Seq<Node>,
    heights: Seq<nat>,
    k: usize,
    root: i64,
)
    requires
        nodes_ok(a, heights, k, root),
        a.len() == b.len(),
        forall|i: int| 0 <= i < a.len() ==> same_content(#[trigger] a[i]@, b[i]@),
    ensures
        nodes_ok(b, heights, k, root),
        entries_of(b, b.len()) == entries_of(a, a.len()),
{
    assert forall|i: int| 0 <= i < b.len() implies #[trigger] node_ok(b, heights, k, i) by {
        assert(node_ok(a, heights, k, i));
        assert(same_content(a[i]@, b[i]@));
        if b[i].node_type == NodeType::Internal {
            assert forall|j: int| 0 <= j < b[i]@.children.len() implies #[trigger] child_ok(
                b,
                heights,
                i,
                j,
            ) by {
                assert(child_ok(a, heights, i, j));
            }
        }
    }
    assert forall|i: int| 0 <= i < a.len() implies node_entries(#[trigger] b[i]@) == node_entries(
        a[i]@,
    ) by {
        assert(same_content(a[i]@, b[i]@));
        lemma_entries_by_content(a[i]@, b[i]@, a[i]@.vectors.len());
    }
    lemma_entries_same(b, a, a.len());
}

/// Nodes with the same content have the same entries.
pub proof fn lemma_entries_by_content(a: NodeView, b: NodeView, n: nat)
    requires
        same_content(a, b),
    ensures
        entries_upto(a, n) == entries_upto(b, n),
    decreases n,
{
    if n > 0 {
        lemma_entries_by_content(a, b, (n - 1) as nat);
    }
}

/// One node more, which holds no entry, leaves the entries as they were and
/// the invariant in place, if the new node is in order.
pub proof fn lemma_node_added(a: Seq<Node>, b: Seq<Node>, heights: Seq<nat>, h: nat, k: usize, root: i64)
    requires
        nodes_ok(a, heights, k, root),
        a.len() < i64::MAX,
        b.len() == a.len() + 1,
        forall|i: int| 0 <= i < a.len() ==> same_content(#[trigger] a[i]@, b[i]@),
        node_ok(b, heights.push(h), k, a.len() as int),
        h <= a.len(),
    ensures
        nodes_ok(b, heights.push(h), k, root),
        entries_of(b, b.len()) == entries_of(a, a.len()).add(node_entries(b[a.len() as int]@)),
{
    let hs = heights.push(h);
    assert forall|i: int| 0 <= i < b.len() implies #[trigger] node_ok(b, hs, k, i) by {
        if i < a.len() {
            assert(node_ok(a, heights, k, i));
            assert(same_content(a[i]@, b[i]@));
            if b[i].node_type == NodeType::Internal {
                assert forall|j: int| 0 <= j < b[i]@.children.len() implies #[trigger] child_ok(
                    b,
                    hs,
                    i,
                    j,
                ) by {
                    assert(child_ok(a, heights, i, j));
                }
            }
        }
    }
    assert forall|i: int| 0 <= i < a.len() implies node_entries(#[trigger] b[i]@) == node_entries(
        a[i]@,
    ) by {
        assert(same_content(a[i]@, b[i]@));
        lemma_entries_by_content(a[i]@, b[i]@, a[i]@.vectors.len());
    }
    lemma_entries_same(b, a, a.len());
}

/// A leaf has as many entries as vectors; an internal node has none.
pub proof fn lemma_node_entries_len(v: NodeView)
    ensures
        node_entries(v).len() == match v.node_type {
            NodeType::Leaf => v.vectors.len(),
            NodeType::Internal => 0,
        },
{
    if v.node_type == NodeType::Leaf {
        lemma_entries_upto_len(v, v.vectors.len());
    }
}

/// The first `n` entries of a leaf are `n` entries.
pub proof fn lemma_entries_upto_len(v: NodeView, n: nat)
    ensures
        entries_upto(v, n).len() == n,
    decreases n,
{
    if n > 0 {
        lemma_entries_upto_len(v, (n - 1) as nat);
    }
}

/// The entries of the first `n` nodes depend on the views of these nodes
/// alone.
pub proof fn lemma_entries_same(a: Seq<Node>, b: Seq<Node>, n: nat)
    requires
        n <= a.len(),
        n <= b.len(),
        forall|i: int| 0 <= i < n ==> node_entries(#[trigger] a[i]@) == node_entries(b[i]@),
    ensures
        entries_of(a, n) == entries_of(b, n),
    decreases n,
{
    if n > 0 {
        lemma_entries_same(a, b, (n - 1) as nat);
    }
}

/// Changing the node at `i` takes its old entries out and puts its new
/// entries in.
pub proof fn lemma_entries_changed(a: Seq<Node>, b: Seq<Node>, n: nat, i: int)
    requires
        0 <= i < n,
        n <= a.len(),
        n <= b.len(),
        forall|x: int| 0 <= x < n && x != i ==> node_entries(#[trigger] a[x]@) == node_entries(b[x]@),
    ensures
        entries_of(b, n).add(node_entries(a[i]@)) == entries_of(a, n).add(node_entries(b[i]@)),
    decreases n,
{
    if i == n - 1 {
        lemma_entries_same(a, b, (n - 1) as nat);
        assert(entries_of(b, n).add(node_entries(a[i]@)) =~= entries_of(a, n).add(
            node_entries(b[i]@),
        ));
    } else {
        lemma_entries_changed(a, b, (n - 1) as nat, i);
        assert(entries_of(b, n).add(node_entries(a[i]@)) =~= entries_of(b, (n - 1) as nat).add(
            node_entries(a[i]@),
        ).add(node_entries(b[n - 1]@)));
        assert(entries_of(a, n).add(node_entries(b[i]@)) =~= entries_of(a, (n - 1) as nat).add(
            node_entries(b[i]@),
        ).add(node_entries(a[n - 1]@)));
    }
}

/// The entry at a place of a leaf is one of the entries of the nodes.
pub proof fn lemma_entry_is_held(nodes: Seq<Node>, n: nat, i: int, j: int)
    requires
        0 <= i < n <= nodes.len(),
        nodes[i].node_type == NodeType::Leaf,
        0 <= j < nodes[i]@.vectors.len(),
    ensures
        entries_of(nodes, n).count(entry_at(nodes[i]@, j)) > 0,
    decreases n,
{
    if i == n - 1 {
        lemma_entry_in_leaf(nodes[i]@, nodes[i]@.vectors.len(), j);
    } else {
        lemma_entry_is_held(nodes, (n - 1) as nat, i, j);
    }
}

/// The entry at one of the first `n` places of a leaf is one of its first
/// `n` entries.
pub proof fn lemma_entry_in_leaf(v: NodeView, n: nat, j: int)
    requires
        0 <= j < n,
    ensures
        entries_upto(v, n).count(entry_at(v, j)) > 0,
    decreases n,
{
    if j < n - 1 {
        lemma_entry_in_leaf(v, (n - 1) as nat, j);
    }
}

} // verus!
