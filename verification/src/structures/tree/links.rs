use crate::structures::tree::node::{split_shape, Node, NodeType};
use vstd::prelude::*;

verus! {

/// The child in slot `s` of the node at `p` is a node, not the root, and
/// has this slot recorded as its place.
pub open spec fn child_link<K, V>(
    nodes: Seq<Node<K, V>>,
    up: Seq<(int, int)>,
    root: i64,
    p: int,
    s: int,
) -> bool {
    let c = nodes[p].children@[s] as int;
    &&& c != root
    &&& 0 <= c < nodes.len()
    &&& up[c] == (p, s)
}

/// The place recorded for the node at `i` is a slot that holds the node.
pub open spec fn parent_link<K, V>(nodes: Seq<Node<K, V>>, up: Seq<(int, int)>, i: int) -> bool {
    let p = up[i].0;
    let s = up[i].1;
    &&& 0 <= p < nodes.len()
    &&& 0 <= s < nodes[p].children@.len()
    &&& nodes[p].children@[s] == i
}

/// Every node but the root has one parent: `up` records for each node the
/// one slot that holds it, and the root is held by none.
pub open spec fn links_ok<K, V>(nodes: Seq<Node<K, V>>, up: Seq<(int, int)>, root: i64) -> bool {
    &&& up.len() == nodes.len()
    &&& forall|p: int, s: int|
        0 <= p < nodes.len() && 0 <= s < nodes[p].children@.len() ==> #[trigger] child_link(
            nodes,
            up,
            root,
            p,
            s,
        )
    &&& forall|i: int| 0 <= i < nodes.len() && i != root ==> #[trigger] parent_link(nodes, up, i)
}

/// Nodes that keep their children keep their parents.
pub proof fn lemma_links_same<K, V>(
    a: Seq<Node<K, V>>,
    b: Seq<Node<K, V>>,
    up: Seq<(int, int)>,
    root: i64,
)
    requires
        links_ok(a, up, root),
        a.len() == b.len(),
        forall|i: int| 0 <= i < a.len() ==> (#[trigger] b[i]).children@ == a[i].children@,
    ensures
        links_ok(b, up, root),
{
    assert forall|p: int, s: int|
        0 <= p < b.len() && 0 <= s < b[p].children@.len() implies #[trigger] child_link(
        b,
        up,
        root,
        p,
        s,
    ) by {
        assert(b[p].children@ == a[p].children@);
        assert(child_link(a, up, root, p, s));
    }
    assert forall|i: int| 0 <= i < b.len() && i != root implies #[trigger] parent_link(b, up, i) by {
        assert(parent_link(a, up, i));
        assert(b[up[i].0].children@ == a[up[i].0].children@);
    }
}

/// The places after a new root was put above the root.
pub open spec fn grown_up(up: Seq<(int, int)>, root: i64) -> Seq<(int, int)> {
    up.update(root as int, (up.len() as int, 0int)).push((0int, 0int))
}

/// A new root above the root, with the root as its one child, keeps every
/// node but the new root with one parent.
pub proof fn lemma_links_grow<K, V>(
    a: Seq<Node<K, V>>,
    b: Seq<Node<K, V>>,
    up: Seq<(int, int)>,
    root: i64,
)
    requires
        links_ok(a, up, root),
        0 <= root < a.len(),
        a.len() < i64::MAX,
        b.len() == a.len() + 1,
        forall|i: int| 0 <= i < a.len() ==> (#[trigger] b[i]).children@ == a[i].children@,
        b[a.len() as int].children@ == seq![root],
    ensures
        links_ok(b, grown_up(up, root), a.len() as i64),
{
    let n = a.len() as int;
    let up2 = grown_up(up, root);
    assert forall|p: int, s: int|
        0 <= p < b.len() && 0 <= s < b[p].children@.len() implies #[trigger] child_link(
        b,
        up2,
        n as i64,
        p,
        s,
    ) by {
        if p < n {
            assert(b[p].children@ == a[p].children@);
            assert(child_link(a, up, root, p, s));
        }
    }
    assert forall|i: int| 0 <= i < b.len() && i != n implies #[trigger] parent_link(b, up2, i) by {
        if i != root {
            assert(parent_link(a, up, i));
            assert(b[up[i].0].children@ == a[up[i].0].children@);
        }
    }
}

/// The places after the child in slot `slot` of the node at `p` was split:
/// the new node stands behind the child; the children of `p` behind it
/// move one slot on; the children that the new node took from the child
/// stand in its slots.
pub open spec fn split_up<K, V>(
    nodes: Seq<Node<K, V>>,
    up: Seq<(int, int)>,
    p: int,
    slot: int,
) -> Seq<(int, int)> {
    let n = nodes.len() as int;
    let c = nodes[p].children@[slot] as int;
    let mid = nodes[c].keys@.len() as int / 2;
    Seq::new(
        (n + 1) as nat,
        |i: int|
            if i == n {
                (p, slot + 1)
            } else if up[i].0 == p && up[i].1 > slot {
                (p, up[i].1 + 1)
            } else if up[i].0 == c && up[i].1 > mid {
                (n, up[i].1 - mid - 1)
            } else {
                up[i]
            },
    )
}

/// A split of a child keeps every node but the root with one parent.
pub proof fn lemma_links_split<K: View, V>(
    a: Seq<Node<K, V>>,
    b: Seq<Node<K, V>>,
    up: Seq<(int, int)>,
    root: i64,
    p: int,
    slot: int,
    median: K,
)
    requires
        links_ok(a, up, root),
        0 <= root < a.len(),
        a.len() < i64::MAX,
        0 <= p < a.len(),
        0 <= slot < a[p].children@.len(),
        a[p].children@[slot] != p,
        b.len() == a.len() + 1,
        forall|i: int|
            0 <= i < a.len() && i != p && i != a[p].children@[slot] ==> (#[trigger] b[i]).children@
                == a[i].children@,
        split_shape(a[a[p].children@[slot] as int], b[a[p].children@[slot] as int], median, b[a.len() as int]),
        a[a[p].children@[slot] as int].node_type == NodeType::Internal ==> a[a[p].children@[slot] as int].children@.len()
            == a[a[p].children@[slot] as int].keys@.len() + 1,
        a[a[p].children@[slot] as int].node_type == NodeType::Leaf ==> a[a[p].children@[slot] as int].children@.len()
            == 0,
        b[p].children@ == a[p].children@.insert(slot + 1, a.len() as i64),
    ensures
        links_ok(b, split_up(a, up, p, slot), root),
{
    let n = a.len() as int;
    let c = a[p].children@[slot] as int;
    let mid = a[c].keys@.len() as int / 2;
    let up2 = split_up(a, up, p, slot);
    assert(child_link(a, up, root, p, slot));
    assert forall|q: int, s: int|
        0 <= q < b.len() && 0 <= s < b[q].children@.len() implies #[trigger] child_link(
        b,
        up2,
        root,
        q,
        s,
    ) by {
        if q == p {
            if s <= slot {
                assert(b[p].children@[s] == a[p].children@[s]);
                assert(child_link(a, up, root, p, s));
            } else if s == slot + 1 {
                assert(b[p].children@[s] == n);
            } else {
                assert(b[p].children@[s] == a[p].children@[s - 1]);
                assert(child_link(a, up, root, p, s - 1));
            }
        } else if q == c {
            assert(b[c].children@[s] == a[c].children@[s]);
            assert(child_link(a, up, root, c, s));
        } else if q == n {
            assert(a[c].node_type == NodeType::Internal);
            assert(b[n].children@[s] == a[c].children@[mid + 1 + s]);
            assert(child_link(a, up, root, c, mid + 1 + s));
        } else {
            assert(b[q].children@ == a[q].children@);
            assert(child_link(a, up, root, q, s));
        }
    }
    assert forall|i: int| 0 <= i < b.len() && i != root implies #[trigger] parent_link(b, up2, i) by {
        if i == n {
            assert(b[p].children@[slot + 1] == n);
        } else {
            assert(parent_link(a, up, i));
            let q = up[i].0;
            let s = up[i].1;
            if q == p && s > slot {
                assert(b[p].children@[s + 1] == a[p].children@[s]);
            } else if q == c && s > mid {
                assert(a[c].node_type == NodeType::Internal);
                assert(b[n].children@[s - mid - 1] == a[c].children@[s]);
            } else if q == p {
                assert(b[p].children@[s] == a[p].children@[s]);
            } else if q == c {
                assert(b[c].children@[s] == a[c].children@[s]);
            } else {
                assert(b[q].children@ == a[q].children@);
            }
        }
    }
}

} // verus!
