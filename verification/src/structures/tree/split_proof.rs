use crate::structures::tree::key_order::TreeKey;
use crate::structures::tree::node::{keys_sorted, split_shape, Node, NodeType};
use crate::structures::tree::serialization::TreeSerialization;
use crate::structures::tree::{
    above,
    below,
    content_ok,
    held,
    in_range,
    leaf_slot,
    node_ok,
    pair_ok,
    slot_ok,
    structure_ok,
    Bounds,
};
use vstd::prelude::*;

verus! {

/// `a <= b` and `b <= c` give `a <= c`.
pub proof fn lemma_le_le<K: TreeKey>(a: K::V, b: K::V, c: K::V)
    requires
        !K::key_lt(b, a),
        !K::key_lt(c, b),
    ensures
        !K::key_lt(c, a),
{
    K::lemma_key_order(a, b, c);
    K::lemma_key_order(c, a, b);
}

/// `a < b` and `b <= c` give `a < c`.
pub proof fn lemma_lt_le<K: TreeKey>(a: K::V, b: K::V, c: K::V)
    requires
        K::key_lt(a, b),
        !K::key_lt(c, b),
    ensures
        K::key_lt(a, c),
{
    K::lemma_key_order(a, b, c);
    K::lemma_key_order(b, c, b);
}

/// `a <= b` and `b < c` give `a < c`.
pub proof fn lemma_le_lt<K: TreeKey>(a: K::V, b: K::V, c: K::V)
    requires
        !K::key_lt(b, a),
        K::key_lt(b, c),
    ensures
        K::key_lt(a, c),
{
    K::lemma_key_order(a, b, c);
}

/// `a < b` gives `a != b` and not `b < a`.
pub proof fn lemma_lt_strict<K: TreeKey>(a: K::V, b: K::V)
    requires
        K::key_lt(a, b),
    ensures
        a != b,
        !K::key_lt(b, a),
{
    K::lemma_key_order(a, b, a);
}

/// A lower bound of `m` is a lower bound of every key that is not before
/// `m`.
pub proof fn lemma_above_le<K: TreeKey>(lo: Option<K::V>, m: K::V, k: K::V)
    requires
        above::<K>(lo, m),
        !K::key_lt(k, m),
    ensures
        above::<K>(lo, k),
{
    if lo is Some {
        lemma_le_le::<K>(lo.unwrap(), m, k);
    }
}

/// An upper bound of `m` is an upper bound of every key that is not behind
/// `m`.
pub proof fn lemma_below_le<K: TreeKey>(k: K::V, m: K::V, hi: Option<K::V>)
    requires
        below::<K>(m, hi),
        !K::key_lt(m, k),
    ensures
        below::<K>(k, hi),
{
    if hi is Some {
        lemma_le_lt::<K>(k, m, hi.unwrap());
    }
}

/// A key in the range of a child lies in the range of the child's parent.
pub proof fn lemma_slot_in_node_range<K: TreeKey, V>(
    nodes: Seq<Node<K, V>>,
    bounds: Seq<Bounds<K::V>>,
    b: usize,
    i: int,
    j: int,
    w: K::V,
)
    requires
        node_ok(nodes, bounds, b, i),
        nodes[i].node_type == NodeType::Internal,
        0 <= j < nodes[i].children@.len(),
        in_range::<K>(bounds[nodes[i].children@[j] as int], w),
    ensures
        in_range::<K>(bounds[i], w),
{
    assert(slot_ok(nodes, bounds, i, j));
    let keys = nodes[i].keys@;
    if j > 0 {
        assert(in_range::<K>(bounds[i], keys[j - 1]@));
        lemma_above_le::<K>(bounds[i].lo, keys[j - 1]@, w);
    }
    if j < keys.len() {
        assert(in_range::<K>(bounds[i], keys[j]@));
        lemma_lt_strict::<K>(w, keys[j]@);
        lemma_below_le::<K>(w, keys[j]@, bounds[i].hi);
    }
}

/// A node with a key in its range is the child of one slot at most.
pub proof fn lemma_unique_slot<K: TreeKey, V>(
    nodes: Seq<Node<K, V>>,
    bounds: Seq<Bounds<K::V>>,
    b: usize,
    root: i64,
    i: int,
    j: int,
    p: int,
    slot: int,
    w: K::V,
)
    requires
        structure_ok(nodes, bounds, b, root),
        0 <= i < nodes.len(),
        0 <= p < nodes.len(),
        nodes[i].node_type == NodeType::Internal,
        nodes[p].node_type == NodeType::Internal,
        0 <= j < nodes[i].children@.len(),
        0 <= slot < nodes[p].children@.len(),
        nodes[i].children@[j] == nodes[p].children@[slot],
        in_range::<K>(bounds[nodes[p].children@[slot] as int], w),
    ensures
        i == p,
        j == slot,
{
    assert(node_ok(nodes, bounds, b, i));
    assert(node_ok(nodes, bounds, b, p));
    assert(slot_ok(nodes, bounds, i, j));
    assert(slot_ok(nodes, bounds, p, slot));
    lemma_slot_in_node_range(nodes, bounds, b, i, j, w);
    lemma_slot_in_node_range(nodes, bounds, b, p, slot, w);
    assert(pair_ok::<K>(bounds, i, p));
    assert(i == p);
    let keys = nodes[p].keys@;
    if j < slot {
        if j < slot - 1 {
            K::lemma_key_order(w, keys[j]@, keys[slot - 1]@);
        }
    } else if j > slot {
        if slot < j - 1 {
            K::lemma_key_order(w, keys[slot]@, keys[j - 1]@);
        }
    }
}

/// How a split of the child in slot `slot` of the node at `p` changes the
/// nodes and their ranges: the child keeps its lower half, a new node at the
/// end of the array takes the upper half, and the parent takes the
/// separator `median` and the new node behind the child.
pub open spec fn split_applied<K: TreeKey + TreeSerialization, V: TreeSerialization>(
    nodes: Seq<Node<K, V>>,
    bounds: Seq<Bounds<K::V>>,
    nodes2: Seq<Node<K, V>>,
    bounds2: Seq<Bounds<K::V>>,
    p: int,
    slot: int,
    median: K,
) -> bool {
    let n = nodes.len() as int;
    let c = nodes[p].children@[slot] as int;
    let old_b = bounds[c];
    &&& n < i64::MAX
    &&& 0 <= p < n
    &&& nodes[p].node_type == NodeType::Internal
    &&& 0 <= slot < nodes[p].children@.len()
    &&& nodes[c].can_split()
    &&& nodes2.len() == n + 1
    &&& forall|i: int| 0 <= i < n && i != p && i != c ==> (#[trigger] nodes2[i]) == nodes[i]
    &&& split_shape(nodes[c], nodes2[c], median, nodes2[n])
    &&& nodes2[p].node_type == NodeType::Internal
    &&& nodes2[p].keys@ == nodes[p].keys@.insert(slot, median)
    &&& nodes2[p].children@ == nodes[p].children@.insert(slot + 1, n as i64)
    &&& nodes2[p].values@ == nodes[p].values@
    &&& bounds2 == bounds.update(
        c,
        Bounds { lo: old_b.lo, hi: Some(median@), height: old_b.height },
    ).push(Bounds { lo: Some(median@), hi: old_b.hi, height: old_b.height })
}

/// A split of a child keeps the structure in order.
pub proof fn lemma_split_keeps_structure<K: TreeKey + TreeSerialization, V: TreeSerialization>(
    nodes: Seq<Node<K, V>>,
    bounds: Seq<Bounds<K::V>>,
    nodes2: Seq<Node<K, V>>,
    bounds2: Seq<Bounds<K::V>>,
    b: usize,
    root: i64,
    p: int,
    slot: int,
    median: K,
)
    requires
        structure_ok(nodes, bounds, b, root),
        split_applied(nodes, bounds, nodes2, bounds2, p, slot, median),
        nodes[p].keys@.len() < b,
    ensures
        structure_ok(nodes2, bounds2, b, root),
{
    let n = nodes.len() as int;
    let c = nodes[p].children@[slot] as int;
    let m = median@;
    let pk = nodes[p].keys@;
    let ck = nodes[c].keys@;
    let mid = ck.len() as int / 2;
    let lo_c = bounds[c].lo;
    let hi_c = bounds[c].hi;
    assert(node_ok(nodes, bounds, b, p));
    assert(slot_ok(nodes, bounds, p, slot));
    assert(node_ok(nodes, bounds, b, c));
    assert(c != p);
    assert(c != root as int);
    let w = ck[0]@;
    assert(in_range::<K>(bounds[c], w));
    assert(in_range::<K>(bounds[c], ck[mid]@));
    assert(K::key_lt(w, m));
    // The separator lies strictly above the child's lower bound.
    if lo_c is Some {
        lemma_le_lt::<K>(lo_c.unwrap(), w, m);
    }
    // No other slot names the child.
    assert forall|i: int, j: int|
        0 <= i < n && nodes[i].node_type == NodeType::Internal && 0 <= j
            < nodes[i].children@.len() && nodes[i].children@[j] == c implies i == p && j
        == slot by {
        lemma_unique_slot(nodes, bounds, b, root, i, j, p, slot, w);
    }
    // The keys of the parent with the separator among them.
    let pk2 = nodes2[p].keys@;
    assert forall|j: int| 0 <= j < pk2.len() implies (if j < slot {
        pk2[j] == pk[j] && K::key_lt(pk[j]@, m)
    } else if j == slot {
        pk2[j]@ == m
    } else {
        pk2[j] == pk[j - 1] && K::key_lt(m, pk[j - 1]@)
    }) by {
        if j < slot {
            if j < slot - 1 {
                K::lemma_key_order(pk[j]@, pk[slot - 1]@, m);
            }
        } else if j > slot {
            if j - 1 > slot {
                K::lemma_key_order(m, pk[slot]@, pk[j - 1]@);
            }
        }
    }
    assert(keys_sorted(pk2)) by {
        assert forall|x: int, y: int| 0 <= x < y < pk2.len() implies K::key_lt(
            #[trigger] pk2[x]@,
            #[trigger] pk2[y]@,
        ) by {
            if x < slot && y > slot {
                K::lemma_key_order(pk[x]@, m, pk[y - 1]@);
            }
        }
    }
    lemma_slot_in_node_range(nodes, bounds, b, p, slot, m);
    assert forall|i: int| 0 <= i < nodes2.len() implies #[trigger] node_ok(
        nodes2,
        bounds2,
        b,
        i,
    ) by {
        let nd = nodes2[i];
        if i == p {
            assert forall|j: int| 0 <= j < nd.keys@.len() implies in_range::<K>(
                bounds2[i],
                #[trigger] nd.keys@[j]@,
            ) by {
                if j < slot {
                    assert(in_range::<K>(bounds[p], pk[j]@));
                } else if j > slot {
                    assert(in_range::<K>(bounds[p], pk[j - 1]@));
                }
            }
            assert forall|j: int| 0 <= j < nd.children@.len() implies #[trigger] slot_ok(
                nodes2,
                bounds2,
                i,
                j,
            ) by {
                if j <= slot {
                    assert(slot_ok(nodes, bounds, p, j));
                } else if j > slot + 1 {
                    assert(slot_ok(nodes, bounds, p, j - 1));
                }
            }
        } else if i == c {
            assert forall|j: int| 0 <= j < nd.keys@.len() implies in_range::<K>(
                bounds2[i],
                #[trigger] nd.keys@[j]@,
            ) by {
                assert(in_range::<K>(bounds[c], ck[j]@));
            }
            assert(keys_sorted(nd.keys@));
            if nd.node_type == NodeType::Internal {
                assert forall|j: int| 0 <= j < nd.children@.len() implies #[trigger] slot_ok(
                    nodes2,
                    bounds2,
                    i,
                    j,
                ) by {
                    assert(slot_ok(nodes, bounds, c, j));
                }
            } else {
                assert forall|j: int| 0 <= j < nd.values@.len() implies (
                #[trigger] nd.values@[j]) is Some by {
                    assert(nodes[c].values@[j] is Some);
                }
            }
        } else if i == n {
            let off = if nd.node_type == NodeType::Leaf {
                mid
            } else {
                mid + 1
            };
            assert forall|j: int| 0 <= j < nd.keys@.len() implies in_range::<K>(
                bounds2[i],
                #[trigger] nd.keys@[j]@,
            ) by {
                assert(nd.keys@[j] == ck[j + off]);
                assert(in_range::<K>(bounds[c], ck[j + off]@));
                if j + off > mid {
                    lemma_lt_strict::<K>(m, ck[j + off]@);
                } else {
                    K::lemma_key_order(m, m, m);
                }
            }
            assert(keys_sorted(nd.keys@)) by {
                assert forall|x: int, y: int| 0 <= x < y < nd.keys@.len() implies K::key_lt(
                    #[trigger] nd.keys@[x]@,
                    #[trigger] nd.keys@[y]@,
                ) by {
                    assert(nd.keys@[x] == ck[x + off] && nd.keys@[y] == ck[y + off]);
                }
            }
            if nd.node_type == NodeType::Internal {
                assert forall|j: int| 0 <= j < nd.children@.len() implies #[trigger] slot_ok(
                    nodes2,
                    bounds2,
                    i,
                    j,
                ) by {
                    assert(slot_ok(nodes, bounds, c, j + mid + 1));
                    assert(nd.children@[j] == nodes[c].children@[j + mid + 1]);
                    if j > 0 {
                        assert(nd.keys@[j - 1] == ck[j + mid]);
                    }
                    if j < nd.keys@.len() {
                        assert(nd.keys@[j] == ck[j + mid + 1]);
                    }
                }
            } else {
                assert forall|j: int| 0 <= j < nd.values@.len() implies (
                #[trigger] nd.values@[j]) is Some by {
                    assert(nodes[c].values@[j + mid] is Some);
                }
            }
        } else {
            assert(node_ok(nodes, bounds, b, i));
            if nd.node_type == NodeType::Internal {
                assert forall|j: int| 0 <= j < nd.children@.len() implies #[trigger] slot_ok(
                    nodes2,
                    bounds2,
                    i,
                    j,
                ) by {
                    assert(slot_ok(nodes, bounds, i, j));
                }
            }
        }
    }
    assert forall|x: int, y: int| 0 <= x < nodes2.len() && 0 <= y < nodes2.len() implies #[trigger] pair_ok::<
        K,
    >(bounds2, x, y) by {
        let xo = if x == n {
            c
        } else {
            x
        };
        let yo = if y == n {
            c
        } else {
            y
        };
        assert(pair_ok::<K>(bounds, xo, yo));
        if x != y && bounds2[x].height == bounds2[y].height {
            assert forall|k: K::V|
                !(#[trigger] in_range::<K>(bounds2[x], k) && #[trigger] in_range::<K>(
                    bounds2[y],
                    k,
                )) by {
                if in_range::<K>(bounds2[x], k) && in_range::<K>(bounds2[y], k) {
                    if x == c || x == n {
                        lemma_half_in_range::<K>(bounds[c], m, k, x == c);
                    }
                    if y == c || y == n {
                        lemma_half_in_range::<K>(bounds[c], m, k, y == c);
                    }
                    if xo != yo {
                        assert(in_range::<K>(bounds[xo], k) && in_range::<K>(bounds[yo], k));
                    }
                }
            }
        }
    }
    assert forall|i: int| 0 <= i < nodes2.len() && i != root implies (#[trigger] bounds2[i]).height
        < bounds2[root as int].height by {
        if i == n {
            assert(bounds[c].height < bounds[root as int].height);
        } else {
            assert(bounds[i].height < bounds[root as int].height);
        }
    }
}

/// A key in one half of a range that is cut at `m`, with `m` strictly above
/// the lower bound, lies in the range.
pub proof fn lemma_half_in_range<K: TreeKey>(whole: Bounds<K::V>, m: K::V, k: K::V, lower: bool)
    requires
        in_range::<K>(whole, m),
        whole.lo is Some ==> K::key_lt(whole.lo.unwrap(), m),
        if lower {
            above::<K>(whole.lo, k) && K::key_lt(k, m)
        } else {
            !K::key_lt(k, m) && below::<K>(k, whole.hi)
        },
    ensures
        in_range::<K>(whole, k),
{
    if lower {
        lemma_lt_strict::<K>(k, m);
        lemma_below_le::<K>(k, m, whole.hi);
    } else {
        lemma_above_le::<K>(whole.lo, m, k);
    }
}

/// A split of a child keeps the leaves' entries what they were.
pub proof fn lemma_split_keeps_content<K: TreeKey + TreeSerialization, V: TreeSerialization>(
    nodes: Seq<Node<K, V>>,
    bounds: Seq<Bounds<K::V>>,
    nodes2: Seq<Node<K, V>>,
    bounds2: Seq<Bounds<K::V>>,
    map: Map<K::V, V::V>,
    p: int,
    slot: int,
    median: K,
)
    requires
        content_ok(nodes, map),
        split_applied(nodes, bounds, nodes2, bounds2, p, slot, median),
        0 <= nodes[p].children@[slot] < nodes.len(),
        nodes[p].children@[slot] != p,
    ensures
        content_ok(nodes2, map),
{
    let n = nodes.len() as int;
    let c = nodes[p].children@[slot] as int;
    let mid = nodes[c].keys@.len() as int / 2;
    assert forall|i: int, j: int| #[trigger] leaf_slot(nodes2, i, j) implies map.contains_key(
        nodes2[i].keys@[j]@,
    ) && Some(map[nodes2[i].keys@[j]@]) == crate::structures::tree::node::option_view(
        nodes2[i].values@[j],
    ) by {
        if i == c {
            assert(leaf_slot(nodes, c, j));
        } else if i == n {
            assert(leaf_slot(nodes, c, j + mid));
        } else {
            assert(leaf_slot(nodes, i, j));
        }
    }
    assert forall|k: K::V| map.contains_key(k) implies #[trigger] held(nodes2, k) by {
        assert(held(nodes, k));
        let (i, j) = choose|i: int, j: int| #[trigger]
            leaf_slot(nodes, i, j) && nodes[i].keys@[j]@ == k;
        if i == c {
            if j < mid {
                assert(leaf_slot(nodes2, c, j));
            } else {
                assert(leaf_slot(nodes2, n, j - mid));
            }
        } else {
            assert(leaf_slot(nodes2, i, j));
        }
    }
}

/// Two nodes with the same keys, values, children and kind.
pub open spec fn same_shape<K, V>(a: Node<K, V>, b: Node<K, V>) -> bool {
    &&& a.keys == b.keys
    &&& a.values == b.values
    &&& a.children == b.children
    &&& a.node_type == b.node_type
}

/// The invariant speaks of keys, values, children and kinds only.
pub proof fn lemma_same_shape_keeps_all<K: TreeKey, V: View>(
    nodes: Seq<Node<K, V>>,
    nodes2: Seq<Node<K, V>>,
    bounds: Seq<Bounds<K::V>>,
    b: usize,
    root: i64,
    map: Map<K::V, V::V>,
)
    requires
        structure_ok(nodes, bounds, b, root),
        content_ok(nodes, map),
        nodes2.len() == nodes.len(),
        forall|i: int| 0 <= i < nodes.len() ==> same_shape(#[trigger] nodes[i], nodes2[i]),
    ensures
        structure_ok(nodes2, bounds, b, root),
        content_ok(nodes2, map),
{
    assert forall|i: int| 0 <= i < nodes2.len() implies #[trigger] node_ok(
        nodes2,
        bounds,
        b,
        i,
    ) by {
        assert(node_ok(nodes, bounds, b, i));
        assert(same_shape(nodes[i], nodes2[i]));
        if nodes2[i].node_type == NodeType::Internal {
            assert forall|j: int| 0 <= j < nodes2[i].children@.len() implies #[trigger] slot_ok(
                nodes2,
                bounds,
                i,
                j,
            ) by {
                assert(slot_ok(nodes, bounds, i, j));
            }
        }
    }
    assert forall|x: int, y: int| 0 <= x < nodes2.len() && 0 <= y < nodes2.len() implies #[trigger] pair_ok::<
        K,
    >(bounds, x, y) by {
        assert(pair_ok::<K>(bounds, x, y));
    }
    assert forall|i: int, j: int| #[trigger] leaf_slot(nodes2, i, j) implies map.contains_key(
        nodes2[i].keys@[j]@,
    ) && Some(map[nodes2[i].keys@[j]@]) == crate::structures::tree::node::option_view(
        nodes2[i].values@[j],
    ) by {
        assert(same_shape(nodes[i], nodes2[i]));
        assert(leaf_slot(nodes, i, j));
    }
    assert forall|k: K::V| map.contains_key(k) implies #[trigger] held(nodes2, k) by {
        assert(held(nodes, k));
        let (i, j) = choose|i: int, j: int| #[trigger]
            leaf_slot(nodes, i, j) && nodes[i].keys@[j]@ == k;
        assert(same_shape(nodes[i], nodes2[i]));
        assert(leaf_slot(nodes2, i, j));
    }
}

/// A new root above the old one, with the old root as its only child, keeps
/// the invariant.
pub proof fn lemma_grow_keeps_all<K: TreeKey, V: View>(
    nodes: Seq<Node<K, V>>,
    nodes2: Seq<Node<K, V>>,
    bounds: Seq<Bounds<K::V>>,
    b: usize,
    root: i64,
    map: Map<K::V, V::V>,
)
    requires
        structure_ok(nodes, bounds, b, root),
        content_ok(nodes, map),
        nodes.len() < i64::MAX,
        nodes2.len() == nodes.len() + 1,
        forall|i: int| 0 <= i < nodes.len() ==> same_shape(#[trigger] nodes[i], nodes2[i]),
        nodes2[nodes.len() as int].node_type == NodeType::Internal,
        nodes2[nodes.len() as int].keys@.len() == 0,
        nodes2[nodes.len() as int].values@.len() == 0,
        nodes2[nodes.len() as int].children@ == seq![root],
    ensures
        structure_ok(
            nodes2,
            bounds.push(
                Bounds { lo: None, hi: None, height: bounds[root as int].height + 1 },
            ),
            b,
            nodes.len() as i64,
        ),
        content_ok(nodes2, map),
{
    let n = nodes.len() as int;
    let bounds2 = bounds.push(
        Bounds { lo: None, hi: None, height: bounds[root as int].height + 1 },
    );
    assert forall|i: int| 0 <= i < nodes2.len() implies #[trigger] node_ok(
        nodes2,
        bounds2,
        b,
        i,
    ) by {
        if i < n {
            assert(node_ok(nodes, bounds, b, i));
            assert(same_shape(nodes[i], nodes2[i]));
            if nodes2[i].node_type == NodeType::Internal {
                assert forall|j: int| 0 <= j < nodes2[i].children@.len() implies #[trigger] slot_ok(
                    nodes2,
                    bounds2,
                    i,
                    j,
                ) by {
                    assert(slot_ok(nodes, bounds, i, j));
                }
            }
        } else {
            assert(slot_ok(nodes2, bounds2, n, 0));
        }
    }
    assert forall|x: int, y: int| 0 <= x < nodes2.len() && 0 <= y < nodes2.len() implies #[trigger] pair_ok::<
        K,
    >(bounds2, x, y) by {
        if x < n && y < n {
            assert(pair_ok::<K>(bounds, x, y));
        } else if x < n {
            assert(bounds[x].height <= bounds[root as int].height);
        } else if y < n {
            assert(bounds[y].height <= bounds[root as int].height);
        }
    }
    assert forall|i: int| 0 <= i < nodes2.len() && i != n implies (#[trigger] bounds2[i]).height
        < bounds2[n].height by {
        assert(bounds[i].height <= bounds[root as int].height);
    }
    assert forall|i: int, j: int| #[trigger] leaf_slot(nodes2, i, j) implies map.contains_key(
        nodes2[i].keys@[j]@,
    ) && Some(map[nodes2[i].keys@[j]@]) == crate::structures::tree::node::option_view(
        nodes2[i].values@[j],
    ) by {
        assert(same_shape(nodes[i], nodes2[i]));
        assert(leaf_slot(nodes, i, j));
    }
    assert forall|k: K::V| map.contains_key(k) implies #[trigger] held(nodes2, k) by {
        assert(held(nodes, k));
        let (i, j) = choose|i: int, j: int| #[trigger]
            leaf_slot(nodes, i, j) && nodes[i].keys@[j]@ == k;
        assert(same_shape(nodes[i], nodes2[i]));
        assert(leaf_slot(nodes2, i, j));
    }
}

} // verus!
