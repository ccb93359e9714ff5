use crate::structures::tree::key_order::TreeKey;
use crate::structures::tree::links::{child_link, lemma_links_same, links_ok, parent_link};
use crate::structures::tree::node::{keys_sorted, option_view, Node, NodeType};
use crate::structures::tree::serialization::TreeSerialization;
use crate::structures::tree::split_proof::{
    lemma_le_le, lemma_le_lt, lemma_lt_le, lemma_lt_strict, lemma_slot_in_node_range,
};
use crate::structures::tree::{
    in_range, index_of, node_ok, node_views, pair_ok, slot_ok, structure_ok, Bounds, MAX_FANOUT,
};
use vstd::prelude::*;

verus! {

/// The structure of a tree but for what it says of two nodes of one
/// height: every node in order, the root responsible for all keys and
/// higher than every other node, with fewer levels below it than there are
/// nodes.
pub open spec fn frame_ok<K: TreeKey, V>(
    nodes: Seq<Node<K, V>>,
    bounds: Seq<Bounds<K::V>>,
    b: usize,
    root: i64,
) -> bool {
    &&& 3 <= b <= MAX_FANOUT
    &&& bounds.len() == nodes.len()
    &&& nodes.len() <= i64::MAX
    &&& 0 <= root < nodes.len()
    &&& bounds[root as int].lo is None
    &&& bounds[root as int].hi is None
    &&& bounds[root as int].height < nodes.len()
    &&& forall|i: int|
        0 <= i < nodes.len() && i != root ==> (#[trigger] bounds[i]).height
            < bounds[root as int].height
    &&& forall|i: int| 0 <= i < nodes.len() ==> #[trigger] node_ok(nodes, bounds, b, i)
}

/// Where every node but the root has one parent, two different nodes of
/// one height are responsible for disjoint ranges: children of one node
/// stand between different separators, and children of two nodes lie in
/// the ranges of their parents.
pub proof fn lemma_pairs_apart<K: TreeKey, V>(
    nodes: Seq<Node<K, V>>,
    bounds: Seq<Bounds<K::V>>,
    up: Seq<(int, int)>,
    b: usize,
    root: i64,
    x: int,
    y: int,
)
    requires
        frame_ok(nodes, bounds, b, root),
        links_ok(nodes, up, root),
        0 <= x < nodes.len(),
        0 <= y < nodes.len(),
    ensures
        pair_ok::<K>(bounds, x, y),
    decreases bounds[root as int].height - bounds[x].height,
{
    if x != y && bounds[x].height == bounds[y].height {
        assert(x != root && y != root);
        assert(parent_link(nodes, up, x));
        assert(parent_link(nodes, up, y));
        let p = up[x].0;
        let s = up[x].1;
        let q = up[y].0;
        let t = up[y].1;
        assert(node_ok(nodes, bounds, b, p));
        assert(node_ok(nodes, bounds, b, q));
        assert(slot_ok(nodes, bounds, p, s));
        assert(slot_ok(nodes, bounds, q, t));
        assert forall|k: K::V| !(#[trigger] in_range::<K>(bounds[x], k) && #[trigger] in_range::<K>(
            bounds[y],
            k,
        )) by {
            if in_range::<K>(bounds[x], k) && in_range::<K>(bounds[y], k) {
                if p == q {
                    let keys = nodes[p].keys@;
                    if s < t {
                        if s < t - 1 {
                            lemma_lt_strict::<K>(keys[s]@, keys[t - 1]@);
                        } else {
                            K::lemma_key_order(keys[s]@, keys[s]@, keys[s]@);
                        }
                        lemma_lt_le::<K>(k, keys[s]@, keys[t - 1]@);
                    } else {
                        assert(t < s);
                        if t < s - 1 {
                            lemma_lt_strict::<K>(keys[t]@, keys[s - 1]@);
                        } else {
                            K::lemma_key_order(keys[t]@, keys[t]@, keys[t]@);
                        }
                        lemma_lt_le::<K>(k, keys[t]@, keys[s - 1]@);
                    }
                } else {
                    lemma_pairs_apart(nodes, bounds, up, b, root, p, q);
                    lemma_slot_in_node_range(nodes, bounds, b, p, s, k);
                    lemma_slot_in_node_range(nodes, bounds, b, q, t, k);
                    assert(in_range::<K>(bounds[p], k) && in_range::<K>(bounds[q], k));
                }
            }
        }
    }
}

/// A frame in which every node but the root has one parent is the
/// structure of a tree.
pub proof fn lemma_frame_is_structure<K: TreeKey, V>(
    nodes: Seq<Node<K, V>>,
    bounds: Seq<Bounds<K::V>>,
    up: Seq<(int, int)>,
    b: usize,
    root: i64,
)
    requires
        frame_ok(nodes, bounds, b, root),
        links_ok(nodes, up, root),
    ensures
        structure_ok(nodes, bounds, b, root),
{
    assert forall|x: int, y: int| 0 <= x < nodes.len() && 0 <= y < nodes.len() implies #[trigger] pair_ok::<
        K,
    >(bounds, x, y) by {
        lemma_pairs_apart(nodes, bounds, up, b, root, x, y);
    }
}

/// What can be seen of one node alone: at most `b` keys, strictly
/// ascending; a leaf has a value for each key and no child; an internal
/// node has one child more than keys, each the offset of a node.
pub open spec fn shape_ok<K: TreeKey, V>(nodes: Seq<Node<K, V>>, b: usize, i: int) -> bool {
    let nd = nodes[i];
    &&& nd.keys@.len() <= b
    &&& keys_sorted(nd.keys@)
    &&& match nd.node_type {
        NodeType::Leaf => {
            &&& nd.values@.len() == nd.keys@.len()
            &&& nd.children@.len() == 0
            &&& forall|j: int| 0 <= j < nd.values@.len() ==> (#[trigger] nd.values@[j]) is Some
        },
        NodeType::Internal => {
            &&& nd.children@.len() == nd.keys@.len() + 1
            &&& nd.values@.len() == 0
            &&& forall|j: int|
                0 <= j < nd.children@.len() ==> 0 <= #[trigger] nd.children@[j] < nodes.len()
        },
    }
}

/// Whether the keys ascend strictly.
pub fn keys_ascend<K: TreeKey>(keys: &Vec<K>) -> (r: bool)
    ensures
        r == keys_sorted(keys@),
{
    let mut j: usize = 1;
    while j < keys.len()
        invariant
            1 <= j,
            forall|x: int, y: int|
                0 <= x < y < j && y < keys@.len() ==> K::key_lt(
                    #[trigger] keys@[x]@,
                    #[trigger] keys@[y]@,
                ),
        decreases keys@.len() - j,
    {
        if !keys[j - 1].less_than(&keys[j]) {
            return false;
        }
        proof {
            assert forall|x: int, y: int| 0 <= x < y < j + 1 && y < keys@.len() implies K::key_lt(
                #[trigger] keys@[x]@,
                #[trigger] keys@[y]@,
            ) by {
                if y == j && x < j - 1 {
                    K::lemma_key_order(keys@[x]@, keys@[j - 1]@, keys@[j as int]@);
                }
            }
        }
        j = j + 1;
    }
    true
}

/// Whether the node at `i` has the shape of a node.
pub fn node_has_shape<K: TreeKey, V>(nodes: &Vec<Node<K, V>>, b: usize, i: usize) -> (r: bool)
    requires
        i < nodes@.len(),
    ensures
        r == shape_ok(nodes@, b, i as int),
{
    let nd = &nodes[i];
    if nd.keys.len() > b || !keys_ascend(&nd.keys) {
        return false;
    }
    match nd.node_type {
        NodeType::Leaf => {
            if nd.values.len() != nd.keys.len() || nd.children.len() != 0 {
                return false;
            }
            let mut j: usize = 0;
            while j < nd.values.len()
                invariant
                    j <= nd.values@.len(),
                    i < nodes@.len(),
                    *nd == nodes@[i as int],
                    forall|x: int| 0 <= x < j ==> (#[trigger] nd.values@[x]) is Some,
                decreases nd.values@.len() - j,
            {
                if nd.values[j].is_none() {
                    assert(!(nodes@[i as int].values@[j as int] is Some));
                    return false;
                }
                j = j + 1;
            }
            true
        },
        NodeType::Internal => {
            let kids: usize = nd.children.len();
            if nd.values.len() != 0 || kids == 0 || kids - 1 != nd.keys.len() {
                return false;
            }
            let mut j: usize = 0;
            while j < nd.children.len()
                invariant
                    j <= nd.children@.len(),
                    i < nodes@.len(),
                    *nd == nodes@[i as int],
                    forall|x: int|
                        0 <= x < j ==> 0 <= #[trigger] nd.children@[x] < nodes@.len(),
                decreases nd.children@.len() - j,
            {
                let c: i64 = nd.children[j];
                if c < 0 || c as u64 >= nodes.len() as u64 {
                    assert(!(0 <= nodes@[i as int].children@[j as int] < nodes@.len()));
                    return false;
                }
                j = j + 1;
            }
            true
        },
    }
}

/// A node that is in order has the shape of a node.
pub proof fn lemma_shape_of_node<K: TreeKey, V>(
    nodes: Seq<Node<K, V>>,
    bounds: Seq<Bounds<K::V>>,
    b: usize,
    i: int,
)
    requires
        node_ok(nodes, bounds, b, i),
    ensures
        shape_ok(nodes, b, i),
{
    let nd = nodes[i];
    if nd.node_type == NodeType::Internal {
        assert forall|j: int| 0 <= j < nd.children@.len() implies 0 <= #[trigger] nd.children@[j]
            < nodes.len() by {
            assert(slot_ok(nodes, bounds, i, j));
        }
    }
}

/// The slot `(p, s)` comes before the slot `(q, t)`.
pub open spec fn slot_lt(p: int, s: int, q: int, t: int) -> bool {
    p < q || (p == q && s < t)
}

/// The slots as integers.
pub open spec fn slots_of(up: Seq<(usize, usize)>) -> Seq<(int, int)> {
    Seq::new(up.len(), |i: int| (up[i].0 as int, up[i].1 as int))
}

/// A node that is marked is not the root, and the slot recorded for it
/// comes before `(p, s)` and holds it.
pub open spec fn mark_ok<K, V>(
    nodes: Seq<Node<K, V>>,
    seen: Seq<bool>,
    up: Seq<(usize, usize)>,
    root: int,
    p: int,
    s: int,
    c: int,
) -> bool {
    seen[c] ==> {
        &&& c != root
        &&& 0 <= up[c].0 < nodes.len()
        &&& 0 <= up[c].1 < nodes[up[c].0 as int].children@.len()
        &&& nodes[up[c].0 as int].children@[up[c].1 as int] == c
        &&& slot_lt(up[c].0 as int, up[c].1 as int, p, s)
    }
}

/// The child in the slot is marked, with the slot recorded for it.
pub open spec fn slot_marked<K, V>(
    nodes: Seq<Node<K, V>>,
    seen: Seq<bool>,
    up: Seq<(usize, usize)>,
    q: int,
    t: int,
) -> bool {
    let c = nodes[q].children@[t] as int;
    seen[c] && up[c].0 == q && up[c].1 == t
}

/// All slots before `(p, s)` are marked, and no others.
pub open spec fn marked_upto<K, V>(
    nodes: Seq<Node<K, V>>,
    seen: Seq<bool>,
    up: Seq<(usize, usize)>,
    root: int,
    p: int,
    s: int,
) -> bool {
    &&& seen.len() == nodes.len()
    &&& up.len() == nodes.len()
    &&& forall|c: int| 0 <= c < nodes.len() ==> #[trigger] mark_ok(nodes, seen, up, root, p, s, c)
    &&& forall|q: int, t: int|
        0 <= q < nodes.len() && 0 <= t < nodes[q].children@.len() && slot_lt(q, t, p, s)
            ==> #[trigger] slot_marked(nodes, seen, up, q, t)
}

/// The slot that holds each node, where every node but the root is held
/// by one slot and the root by none.
pub fn find_parents<K: TreeKey, V>(nodes: &Vec<Node<K, V>>, b: usize, at: i64) -> (r: Option<
    Vec<(usize, usize)>,
>)
    requires
        0 <= at < nodes@.len(),
        nodes@.len() <= i64::MAX,
        forall|i: int| 0 <= i < nodes@.len() ==> shape_ok(nodes@, b, i),
    ensures
        match r {
            Some(up) => links_ok(nodes@, slots_of(up@), at),
            None => forall|u: Seq<(int, int)>| !(#[trigger] links_ok(nodes@, u, at)),
        },
{
    let n: usize = nodes.len();
    let root = index_of(at, n);
    let mut seen: Vec<bool> = Vec::new();
    let mut up: Vec<(usize, usize)> = Vec::new();
    let mut i: usize = 0;
    while i < n
        invariant
            i <= n,
            seen@.len() == i,
            up@.len() == i,
            forall|c: int| 0 <= c < i ==> !(#[trigger] seen@[c]),
        decreases n - i,
    {
        seen.push(false);
        up.push((0, 0));
        i = i + 1;
    }
    let mut p: usize = 0;
    while p < n
        invariant
            p <= n,
            n == nodes@.len(),
            root < n,
            root == at,
            n <= i64::MAX,
            forall|i: int| 0 <= i < nodes@.len() ==> shape_ok(nodes@, b, i),
            marked_upto(nodes@, seen@, up@, root as int, p as int, 0),
        decreases n - p,
    {
        let total: usize = nodes[p].children.len();
        let mut s: usize = 0;
        while s < total
            invariant
                s <= total,
                p < n,
                n == nodes@.len(),
                root < n,
            root == at,
                n <= i64::MAX,
                total == nodes@[p as int].children@.len(),
                forall|i: int| 0 <= i < nodes@.len() ==> shape_ok(nodes@, b, i),
                marked_upto(nodes@, seen@, up@, root as int, p as int, s as int),
            decreases total - s,
        {
            assert(shape_ok(nodes@, b, p as int));
            let c = index_of(nodes[p].children[s], n);
            if c == root {
                proof {
                    assert forall|u: Seq<(int, int)>| !(#[trigger] links_ok(nodes@, u, at)) by {
                        if links_ok(nodes@, u, at) {
                            assert(child_link(nodes@, u, at, p as int, s as int));
                        }
                    }
                }
                return None;
            }
            if seen[c] {
                proof {
                    assert(mark_ok(nodes@, seen@, up@, root as int, p as int, s as int, c as int));
                    let q = up@[c as int].0 as int;
                    let t = up@[c as int].1 as int;
                    assert forall|u: Seq<(int, int)>| !(#[trigger] links_ok(nodes@, u, at)) by {
                        if links_ok(nodes@, u, at) {
                            assert(child_link(nodes@, u, at, p as int, s as int));
                            assert(child_link(nodes@, u, at, q, t));
                        }
                    }
                }
                return None;
            }
            let ghost seen0 = seen@;
            let ghost up0 = up@;
            seen.set(c, true);
            up.set(c, (p, s));
            proof {
                assert forall|d: int| 0 <= d < nodes@.len() implies #[trigger] mark_ok(
                    nodes@,
                    seen@,
                    up@,
                    root as int,
                    p as int,
                    s + 1,
                    d,
                ) by {
                    assert(mark_ok(nodes@, seen0, up0, root as int, p as int, s as int, d));
                }
                assert forall|q: int, t: int|
                    0 <= q < nodes@.len() && 0 <= t < nodes@[q].children@.len() && slot_lt(
                        q,
                        t,
                        p as int,
                        s + 1,
                    ) implies #[trigger] slot_marked(nodes@, seen@, up@, q, t) by {
                    assert(shape_ok(nodes@, b, q));
                    if slot_lt(q, t, p as int, s as int) {
                        assert(slot_marked(nodes@, seen0, up0, q, t));
                    }
                }
            }
            s = s + 1;
        }
        proof {
            assert forall|d: int| 0 <= d < nodes@.len() implies #[trigger] mark_ok(
                nodes@,
                seen@,
                up@,
                root as int,
                p + 1,
                0,
                d,
            ) by {
                assert(mark_ok(nodes@, seen@, up@, root as int, p as int, s as int, d));
            }
            assert forall|q: int, t: int|
                0 <= q < nodes@.len() && 0 <= t < nodes@[q].children@.len() && slot_lt(
                    q,
                    t,
                    p + 1,
                    0,
                ) implies #[trigger] slot_marked(nodes@, seen@, up@, q, t) by {
                assert(slot_lt(q, t, p as int, s as int));
            }
        }
        p = p + 1;
    }
    let mut i: usize = 0;
    while i < n
        invariant
            i <= n,
            n == nodes@.len(),
            root < n,
            root == at,
            marked_upto(nodes@, seen@, up@, root as int, n as int, 0),
            forall|c: int| 0 <= c < i && c != root ==> #[trigger] seen@[c],
        decreases n - i,
    {
        if i != root && !seen[i] {
            proof {
                assert forall|u: Seq<(int, int)>| !(#[trigger] links_ok(nodes@, u, at)) by {
                    if links_ok(nodes@, u, at) {
                        assert(parent_link(nodes@, u, i as int));
                        assert(slot_marked(nodes@, seen@, up@, u[i as int].0, u[i as int].1));
                    }
                }
            }
            return None;
        }
        i = i + 1;
    }
    proof {
        let u = slots_of(up@);
        assert forall|q: int, t: int|
            0 <= q < nodes@.len() && 0 <= t < nodes@[q].children@.len() implies #[trigger] child_link(
            nodes@,
            u,
            at,
            q,
            t,
        ) by {
            assert(slot_marked(nodes@, seen@, up@, q, t));
            assert(shape_ok(nodes@, b, q));
            let c = nodes@[q].children@[t] as int;
            assert(mark_ok(nodes@, seen@, up@, root as int, n as int, 0, c));
        }
        assert forall|i: int| 0 <= i < nodes@.len() && i != root implies #[trigger] parent_link(
            nodes@,
            u,
            i,
        ) by {
            assert(seen@[i]);
            assert(mark_ok(nodes@, seen@, up@, root as int, n as int, 0, i));
        }
    }
    Some(up)
}

/// The number of steps from the node at `i` down its first children to a
/// leaf, where `fuel` steps reach one.
pub open spec fn sink<K, V>(nodes: Seq<Node<K, V>>, i: int, fuel: nat) -> Option<nat>
    decreases fuel,
{
    if nodes[i].node_type == NodeType::Leaf {
        Some(0)
    } else if fuel == 0 {
        None
    } else {
        match sink(nodes, nodes[i].children@[0] as int, (fuel - 1) as nat) {
            Some(h) => Some((h + 1) as nat),
            None => None,
        }
    }
}

/// In a tree the steps from a node down to a leaf are the node's height.
pub proof fn lemma_sink_is_height<K: TreeKey, V>(
    nodes: Seq<Node<K, V>>,
    bounds: Seq<Bounds<K::V>>,
    b: usize,
    i: int,
    fuel: nat,
)
    requires
        bounds.len() == nodes.len(),
        forall|j: int| 0 <= j < nodes.len() ==> #[trigger] node_ok(nodes, bounds, b, j),
        0 <= i < nodes.len(),
        bounds[i].height <= fuel,
    ensures
        sink(nodes, i, fuel) == Some(bounds[i].height),
    decreases fuel,
{
    assert(node_ok(nodes, bounds, b, i));
    if nodes[i].node_type == NodeType::Internal {
        assert(slot_ok(nodes, bounds, i, 0));
        lemma_sink_is_height(nodes, bounds, b, nodes[i].children@[0] as int, (fuel - 1) as nat);
    }
}

/// The steps from the node at `i` down to a leaf, if fewer than there are
/// nodes reach one.
pub fn height_of<K: TreeKey, V>(nodes: &Vec<Node<K, V>>, b: usize, i: usize) -> (r: Option<usize>)
    requires
        i < nodes@.len(),
        forall|j: int| 0 <= j < nodes@.len() ==> shape_ok(nodes@, b, j),
    ensures
        match r {
            Some(h) => sink(nodes@, i as int, nodes@.len()) == Some(h as nat),
            None => sink(nodes@, i as int, nodes@.len()) is None,
        },
{
    let n: usize = nodes.len();
    let mut cur: usize = i;
    let mut steps: usize = 0;
    loop
        invariant
            n == nodes@.len(),
            cur < n,
            steps <= n,
            forall|j: int| 0 <= j < nodes@.len() ==> shape_ok(nodes@, b, j),
            sink(nodes@, i as int, n as nat) == (match sink(
                nodes@,
                cur as int,
                (n - steps) as nat,
            ) {
                Some(h) => Some((h + steps) as nat),
                None => None,
            }),
        decreases n - steps,
    {
        assert(shape_ok(nodes@, b, cur as int));
        match nodes[cur].node_type {
            NodeType::Leaf => {
                return Some(steps);
            },
            NodeType::Internal => {
                if steps == n {
                    return None;
                }
                cur = index_of(nodes[cur].children[0], n);
                steps = steps + 1;
            },
        }
    }
}

/// The heights fit: a child stands one below its parent, every node but
/// the root below the root, and the root has fewer levels below it than
/// there are nodes.
pub open spec fn heights_fit<K, V>(nodes: Seq<Node<K, V>>, h: Seq<usize>, root: int) -> bool {
    &&& h[root] < nodes.len()
    &&& forall|i: int| 0 <= i < nodes.len() && i != root ==> #[trigger] h[i] < h[root]
    &&& forall|p: int, s: int|
        0 <= p < nodes.len() && 0 <= s < nodes[p].children@.len() ==> #[trigger] step_fits(
            nodes,
            h,
            p,
            s,
        )
}

/// The child in the slot stands one below the node.
pub open spec fn step_fits<K, V>(nodes: Seq<Node<K, V>>, h: Seq<usize>, p: int, s: int) -> bool {
    h[nodes[p].children@[s] as int] + 1 == h[p]
}

/// The steps from each node down to a leaf, where they fit as heights.
pub fn find_heights<K: TreeKey, V>(nodes: &Vec<Node<K, V>>, b: usize, at: i64) -> (r: Option<
    Vec<usize>,
>)
    requires
        0 <= at < nodes@.len(),
        forall|j: int| 0 <= j < nodes@.len() ==> shape_ok(nodes@, b, j),
    ensures
        match r {
            Some(h) => {
                &&& h@.len() == nodes@.len()
                &&& forall|i: int|
                    0 <= i < nodes@.len() ==> sink(nodes@, i, nodes@.len()) == Some(
                        #[trigger] h@[i] as nat,
                    )
                &&& heights_fit(nodes@, h@, at as int)
            },
            None => forall|w: Seq<Bounds<K::V>>| !(#[trigger] frame_ok(nodes@, w, b, at)),
        },
{
    let n: usize = nodes.len();
    let root = index_of(at, n);
    let mut h: Vec<usize> = Vec::new();
    let mut i: usize = 0;
    while i < n
        invariant
            i <= n,
            n == nodes@.len(),
            h@.len() == i,
            forall|j: int| 0 <= j < nodes@.len() ==> shape_ok(nodes@, b, j),
            forall|j: int| 0 <= j < i ==> sink(nodes@, j, n as nat) == Some(#[trigger] h@[j] as nat),
        decreases n - i,
    {
        match height_of(nodes, b, i) {
            Some(x) => {
                h.push(x);
            },
            None => {
                proof {
                    assert forall|w: Seq<Bounds<K::V>>| !(#[trigger] frame_ok(nodes@, w, b, at)) by {
                        if frame_ok(nodes@, w, b, at) {
                            lemma_sink_is_height(nodes@, w, b, i as int, n as nat);
                        }
                    }
                }
                return None;
            },
        }
        i = i + 1;
    }
    let mut fits: bool = h[root] < n;
    let mut p: usize = 0;
    while p < n
        invariant
            p <= n,
            n == nodes@.len(),
            root < n,
            h@.len() == n,
            forall|j: int| 0 <= j < nodes@.len() ==> shape_ok(nodes@, b, j),
            fits ==> h@[root as int] < n,
            fits ==> forall|i: int| 0 <= i < p && i != root ==> #[trigger] h@[i] < h@[root as int],
            fits ==> forall|q: int, s: int|
                0 <= q < p && 0 <= s < nodes@[q].children@.len() ==> #[trigger] step_fits(
                    nodes@,
                    h@,
                    q,
                    s,
                ),
            !fits ==> !heights_fit(nodes@, h@, root as int),
        decreases n - p,
    {
        if p != root && h[p] >= h[root] {
            fits = false;
        }
        let total: usize = nodes[p].children.len();
        let mut s: usize = 0;
        while s < total
            invariant
                s <= total,
                p < n,
                n == nodes@.len(),
                root < n,
                h@.len() == n,
                total == nodes@[p as int].children@.len(),
                forall|j: int| 0 <= j < nodes@.len() ==> shape_ok(nodes@, b, j),
                fits ==> forall|t: int| 0 <= t < s ==> #[trigger] step_fits(nodes@, h@, p as int, t),
                fits ==> h@[root as int] < n,
                fits ==> forall|i: int|
                    0 <= i <= p && i != root ==> #[trigger] h@[i] < h@[root as int],
                fits ==> forall|q: int, s: int|
                    0 <= q < p && 0 <= s < nodes@[q].children@.len() ==> #[trigger] step_fits(
                        nodes@,
                        h@,
                        q,
                        s,
                    ),
                !fits ==> !heights_fit(nodes@, h@, root as int),
            decreases total - s,
        {
            assert(shape_ok(nodes@, b, p as int));
            let c = index_of(nodes[p].children[s], n);
            if h[c] >= h[p] || h[p] - h[c] != 1 {
                proof {
                    assert(!step_fits(nodes@, h@, p as int, s as int));
                }
                fits = false;
            }
            s = s + 1;
        }
        p = p + 1;
    }
    if !fits {
        proof {
            assert forall|w: Seq<Bounds<K::V>>| !(#[trigger] frame_ok(nodes@, w, b, at)) by {
                if frame_ok(nodes@, w, b, at) {
                    assert forall|j: int| 0 <= j < n implies h@[j] == (#[trigger] w[j]).height by {
                        lemma_sink_is_height(nodes@, w, b, j, n as nat);
                    }
                    assert forall|q: int, s: int|
                        0 <= q < nodes@.len() && 0 <= s
                            < nodes@[q].children@.len() implies #[trigger] step_fits(
                        nodes@,
                        h@,
                        q,
                        s,
                    ) by {
                        assert(node_ok(nodes@, w, b, q));
                        assert(slot_ok(nodes@, w, q, s));
                        assert(h@[nodes@[q].children@[s] as int] == w[nodes@[q].children@[s] as int].height);
                        assert(h@[q] == w[q].height);
                    }
                    assert forall|i: int| 0 <= i < nodes@.len() && i != root implies #[trigger] h@[i]
                        < h@[root as int] by {
                        assert(h@[i] == w[i].height);
                        assert(h@[root as int] == w[root as int].height);
                    }
                    assert(h@[root as int] == w[root as int].height);
                    assert(heights_fit(nodes@, h@, root as int));
                }
            }
        }
        return None;
    }
    Some(h)
}

/// The place of the separator below the keys of the node at `i`: the key
/// before the slot of the nearest node, on the way up, that is not a first
/// child. `fuel` is the number of steps to the root.
pub open spec fn lo_at(up: Seq<(int, int)>, root: int, i: int, fuel: nat) -> Option<(int, int)>
    decreases fuel,
{
    if i == root || fuel == 0 {
        None
    } else if up[i].1 > 0 {
        Some((up[i].0, up[i].1 - 1))
    } else {
        lo_at(up, root, up[i].0, (fuel - 1) as nat)
    }
}

/// The place of the separator above the keys of the node at `i`: the key
/// at the slot of the nearest node, on the way up, that is not a last
/// child. `fuel` is the number of steps to the root.
pub open spec fn hi_at<K, V>(
    nodes: Seq<Node<K, V>>,
    up: Seq<(int, int)>,
    root: int,
    i: int,
    fuel: nat,
) -> Option<(int, int)>
    decreases fuel,
{
    if i == root || fuel == 0 {
        None
    } else if up[i].1 < nodes[up[i].0].keys@.len() {
        Some(up[i])
    } else {
        hi_at(nodes, up, root, up[i].0, (fuel - 1) as nat)
    }
}

/// The key at a place.
pub open spec fn key_at<K: TreeKey, V>(nodes: Seq<Node<K, V>>, at: Option<(int, int)>) -> Option<
    K::V,
> {
    match at {
        Some(x) => Some(nodes[x.0].keys@[x.1]@),
        None => None,
    }
}

/// The range and the height of the node at `i`, from the slots that hold
/// the nodes and the heights.
pub open spec fn bounds_at<K: TreeKey, V>(
    nodes: Seq<Node<K, V>>,
    up: Seq<(int, int)>,
    h: Seq<usize>,
    root: int,
    i: int,
) -> Bounds<K::V> {
    let fuel = (h[root] - h[i]) as nat;
    Bounds {
        lo: key_at(nodes, lo_at(up, root, i, fuel)),
        hi: key_at(nodes, hi_at(nodes, up, root, i, fuel)),
        height: h[i] as nat,
    }
}

/// The ranges and heights of all nodes.
pub open spec fn all_bounds<K: TreeKey, V>(
    nodes: Seq<Node<K, V>>,
    up: Seq<(int, int)>,
    h: Seq<usize>,
    root: int,
) -> Seq<Bounds<K::V>> {
    Seq::new(nodes.len(), |i: int| bounds_at(nodes, up, h, root, i))
}

/// What the walks up need: shapes, links and heights.
pub open spec fn walks_ok<K: TreeKey, V>(
    nodes: Seq<Node<K, V>>,
    up: Seq<(usize, usize)>,
    h: Seq<usize>,
    b: usize,
    at: i64,
) -> bool {
    &&& 0 <= at < nodes.len()
    &&& h.len() == nodes.len()
    &&& forall|j: int| 0 <= j < nodes.len() ==> shape_ok(nodes, b, j)
    &&& links_ok(nodes, slots_of(up), at)
    &&& heights_fit(nodes, h, at as int)
}

/// The range of a child is the range of its slot.
pub proof fn lemma_slot_of_bounds<K: TreeKey, V>(
    nodes: Seq<Node<K, V>>,
    up: Seq<(usize, usize)>,
    h: Seq<usize>,
    b: usize,
    at: i64,
    p: int,
    s: int,
)
    requires
        walks_ok(nodes, up, h, b, at),
        0 <= p < nodes.len(),
        0 <= s < nodes[p].children@.len(),
    ensures
        slot_ok(nodes, all_bounds(nodes, slots_of(up), h, at as int), p, s),
{
    let u = slots_of(up);
    let c = nodes[p].children@[s] as int;
    assert(child_link(nodes, u, at, p, s));
    assert(step_fits(nodes, h, p, s));
    assert(shape_ok(nodes, b, p));
    if p != at {
        assert(h[p] < h[at as int]);
    }
    let fuel = (h[at as int] - h[c]) as nat;
    assert(fuel - 1 == h[at as int] - h[p]);
    assert(lo_at(u, at as int, c, fuel) == if s > 0 {
        Some((p, s - 1))
    } else {
        lo_at(u, at as int, p, (fuel - 1) as nat)
    });
    assert(hi_at(nodes, u, at as int, c, fuel) == if s < nodes[p].keys@.len() {
        Some((p, s))
    } else {
        hi_at(nodes, u, at as int, p, (fuel - 1) as nat)
    });
}

/// In a tree the range of every node is the one that the slots give.
pub proof fn lemma_bounds_are<K: TreeKey, V>(
    nodes: Seq<Node<K, V>>,
    w: Seq<Bounds<K::V>>,
    up: Seq<(usize, usize)>,
    h: Seq<usize>,
    b: usize,
    at: i64,
    i: int,
)
    requires
        walks_ok(nodes, up, h, b, at),
        frame_ok(nodes, w, b, at),
        forall|j: int| 0 <= j < nodes.len() ==> h[j] == (#[trigger] w[j]).height,
        0 <= i < nodes.len(),
    ensures
        w[i] == bounds_at(nodes, slots_of(up), h, at as int, i),
    decreases w[at as int].height - w[i].height,
{
    let u = slots_of(up);
    assert(h[i] == w[i].height);
    assert(h[at as int] == w[at as int].height);
    if i != at {
        assert(parent_link(nodes, u, i));
        let p = u[i].0;
        let s = u[i].1;
        assert(node_ok(nodes, w, b, p));
        assert(slot_ok(nodes, w, p, s));
        assert(h[p] == w[p].height);
        lemma_bounds_are(nodes, w, up, h, b, at, p);
        lemma_slot_of_bounds(nodes, up, h, b, at, p, s);
        let mine = all_bounds(nodes, u, h, at as int);
        assert(slot_ok(nodes, mine, p, s));
        assert(mine[p] == w[p]);
        assert(mine[i].lo == w[i].lo);
        assert(mine[i].hi == w[i].hi);
    }
}

/// The place of the separator below the keys of the node at `i`.
pub fn lower_of<K: TreeKey, V>(
    nodes: &Vec<Node<K, V>>,
    up: &Vec<(usize, usize)>,
    h: &Vec<usize>,
    b: usize,
    at: i64,
    i: usize,
) -> (r: Option<(usize, usize)>)
    requires
        walks_ok(nodes@, up@, h@, b, at),
        i < nodes@.len(),
    ensures
        match r {
            Some(x) => {
                &&& x.0 < nodes@.len()
                &&& x.1 < nodes@[x.0 as int].keys@.len()
                &&& lo_at(slots_of(up@), at as int, i as int, (h@[at as int] - h@[i as int]) as nat)
                    == Some((x.0 as int, x.1 as int))
            },
            None => lo_at(slots_of(up@), at as int, i as int, (h@[at as int] - h@[i as int]) as nat)
                is None,
        },
{
    let n: usize = nodes.len();
    let root = index_of(at, n);
    let ghost u = slots_of(up@);
    let mut cur: usize = i;
    loop
        invariant
            walks_ok(nodes@, up@, h@, b, at),
            u == slots_of(up@),
            n == nodes@.len(),
            root == at,
            cur < n,
            i < n,
            h@[cur as int] <= h@[root as int],
            h@[i as int] <= h@[root as int],
            lo_at(u, at as int, i as int, (h@[at as int] - h@[i as int]) as nat) == lo_at(
                u,
                at as int,
                cur as int,
                (h@[at as int] - h@[cur as int]) as nat,
            ),
        decreases h@[root as int] - h@[cur as int],
    {
        if cur == root {
            return None;
        }
        proof {
            assert(parent_link(nodes@, u, cur as int));
            assert(step_fits(nodes@, h@, u[cur as int].0, u[cur as int].1));
            assert(shape_ok(nodes@, b, u[cur as int].0));
            assert(h@[cur as int] < h@[root as int]);
            if u[cur as int].0 != root {
                assert(h@[u[cur as int].0] < h@[root as int]);
            }
        }
        let slot = up[cur];
        if slot.1 > 0 {
            return Some((slot.0, slot.1 - 1));
        }
        cur = slot.0;
    }
}

/// The place of the separator above the keys of the node at `i`.
pub fn upper_of<K: TreeKey, V>(
    nodes: &Vec<Node<K, V>>,
    up: &Vec<(usize, usize)>,
    h: &Vec<usize>,
    b: usize,
    at: i64,
    i: usize,
) -> (r: Option<(usize, usize)>)
    requires
        walks_ok(nodes@, up@, h@, b, at),
        i < nodes@.len(),
    ensures
        match r {
            Some(x) => {
                &&& x.0 < nodes@.len()
                &&& x.1 < nodes@[x.0 as int].keys@.len()
                &&& hi_at(
                    nodes@,
                    slots_of(up@),
                    at as int,
                    i as int,
                    (h@[at as int] - h@[i as int]) as nat,
                ) == Some((x.0 as int, x.1 as int))
            },
            None => hi_at(
                nodes@,
                slots_of(up@),
                at as int,
                i as int,
                (h@[at as int] - h@[i as int]) as nat,
            ) is None,
        },
{
    let n: usize = nodes.len();
    let root = index_of(at, n);
    let ghost u = slots_of(up@);
    let mut cur: usize = i;
    loop
        invariant
            walks_ok(nodes@, up@, h@, b, at),
            u == slots_of(up@),
            n == nodes@.len(),
            root == at,
            cur < n,
            i < n,
            h@[cur as int] <= h@[root as int],
            h@[i as int] <= h@[root as int],
            hi_at(nodes@, u, at as int, i as int, (h@[at as int] - h@[i as int]) as nat) == hi_at(
                nodes@,
                u,
                at as int,
                cur as int,
                (h@[at as int] - h@[cur as int]) as nat,
            ),
        decreases h@[root as int] - h@[cur as int],
    {
        if cur == root {
            return None;
        }
        proof {
            assert(parent_link(nodes@, u, cur as int));
            assert(step_fits(nodes@, h@, u[cur as int].0, u[cur as int].1));
            assert(shape_ok(nodes@, b, u[cur as int].0));
            assert(h@[cur as int] < h@[root as int]);
            if u[cur as int].0 != root {
                assert(h@[u[cur as int].0] < h@[root as int]);
            }
        }
        let slot = up[cur];
        if slot.1 < nodes[slot.0].keys.len() {
            return Some(slot);
        }
        cur = slot.0;
    }
}

/// Whether every key of the node at `i` lies in the node's range.
pub fn keys_in_range<K: TreeKey, V>(
    nodes: &Vec<Node<K, V>>,
    up: &Vec<(usize, usize)>,
    h: &Vec<usize>,
    b: usize,
    at: i64,
    i: usize,
) -> (r: bool)
    requires
        walks_ok(nodes@, up@, h@, b, at),
        i < nodes@.len(),
    ensures
        r == (forall|j: int|
            0 <= j < nodes@[i as int].keys@.len() ==> in_range::<K>(
                bounds_at(nodes@, slots_of(up@), h@, at as int, i as int),
                #[trigger] nodes@[i as int].keys@[j]@,
            )),
{
    let keys = &nodes[i].keys;
    let total: usize = keys.len();
    if total == 0 {
        return true;
    }
    let ghost mine = bounds_at(nodes@, slots_of(up@), h@, at as int, i as int);
    proof {
        assert(shape_ok(nodes@, b, i as int));
    }
    match lower_of(nodes, up, h, b, at, i) {
        Some(x) => {
            if keys[0].less_than(&nodes[x.0].keys[x.1]) {
                proof {
                    assert(!in_range::<K>(mine, nodes@[i as int].keys@[0]@));
                }
                return false;
            }
        },
        None => {},
    }
    match upper_of(nodes, up, h, b, at, i) {
        Some(x) => {
            if !keys[total - 1].less_than(&nodes[x.0].keys[x.1]) {
                proof {
                    assert(!in_range::<K>(mine, nodes@[i as int].keys@[total - 1]@));
                }
                return false;
            }
        },
        None => {},
    }
    proof {
        let ks = nodes@[i as int].keys@;
        assert forall|j: int| 0 <= j < ks.len() implies in_range::<K>(mine, #[trigger] ks[j]@) by {
            if mine.lo is Some {
                if j > 0 {
                    lemma_lt_strict::<K>(ks[0]@, ks[j]@);
                    lemma_le_le::<K>(mine.lo.unwrap(), ks[0]@, ks[j]@);
                }
            }
            if mine.hi is Some {
                if j < total - 1 {
                    lemma_lt_strict::<K>(ks[j]@, ks[total - 1]@);
                    lemma_le_lt::<K>(ks[j]@, ks[total - 1]@, mine.hi.unwrap());
                }
            }
        }
    }
    true
}

/// Whether the nodes are those of a tree with the fan-out `b` and the root
/// at `root`: ranges and heights exist with which every node is in order,
/// and every node but the root has one parent.
pub open spec fn in_order<K: TreeKey, V>(nodes: Seq<Node<K, V>>, b: usize, root: i64) -> bool {
    &&& exists|w: Seq<Bounds<K::V>>| #[trigger] frame_ok(nodes, w, b, root)
    &&& exists|u: Seq<(int, int)>| #[trigger] links_ok(nodes, u, root)
}

/// Decides whether the nodes are those of a tree, and gives the height of
/// the root, the ranges and the parents if they are.
pub fn check_nodes<K: TreeKey, V>(nodes: &Vec<Node<K, V>>, b: usize, at: i64) -> (r: Option<
    (u64, Ghost<Seq<Bounds<K::V>>>, Ghost<Seq<(int, int)>>),
>)
    ensures
        match r {
            Some(x) => {
                &&& structure_ok(nodes@, x.1@, b, at)
                &&& links_ok(nodes@, x.2@, at)
                &&& x.0 == x.1@[at as int].height
            },
            None => !in_order(nodes@, b, at),
        },
{
    let n: usize = nodes.len();
    if b < 3 || b > MAX_FANOUT || at < 0 || at as u64 >= n as u64 || n as u64 > i64::MAX as u64 {
        return None;
    }
    let mut i: usize = 0;
    while i < n
        invariant
            i <= n,
            n == nodes@.len(),
            forall|j: int| 0 <= j < i ==> shape_ok(nodes@, b, j),
        decreases n - i,
    {
        if !node_has_shape(nodes, b, i) {
            proof {
                assert forall|w: Seq<Bounds<K::V>>| !(#[trigger] frame_ok(nodes@, w, b, at)) by {
                    if frame_ok(nodes@, w, b, at) {
                        assert(node_ok(nodes@, w, b, i as int));
                        lemma_shape_of_node(nodes@, w, b, i as int);
                    }
                }
            }
            return None;
        }
        i = i + 1;
    }
    let up = match find_parents(nodes, b, at) {
        Some(x) => x,
        None => {
            return None;
        },
    };
    let h = match find_heights(nodes, b, at) {
        Some(x) => x,
        None => {
            return None;
        },
    };
    let root = index_of(at, n);
    let ghost u = slots_of(up@);
    let ghost mine = all_bounds(nodes@, u, h@, at as int);
    let mut i: usize = 0;
    while i < n
        invariant
            i <= n,
            n == nodes@.len(),
            root == at,
            walks_ok(nodes@, up@, h@, b, at),
            u == slots_of(up@),
            mine == all_bounds(nodes@, u, h@, at as int),
            forall|j: int|
                0 <= j < nodes@.len() ==> sink(nodes@, j, nodes@.len()) == Some(
                    #[trigger] h@[j] as nat,
                ),
            forall|x: int, j: int|
                0 <= x < i && 0 <= j < nodes@[x].keys@.len() ==> in_range::<K>(
                    mine[x],
                    #[trigger] nodes@[x].keys@[j]@,
                ),
        decreases n - i,
    {
        if !keys_in_range(nodes, &up, &h, b, at, i) {
            proof {
                assert forall|w: Seq<Bounds<K::V>>| !(#[trigger] frame_ok(nodes@, w, b, at)) by {
                    if frame_ok(nodes@, w, b, at) {
                        assert forall|j: int| 0 <= j < nodes@.len() implies h@[j] == (
                        #[trigger] w[j]).height by {
                            lemma_sink_is_height(nodes@, w, b, j, n as nat);
                        }
                        lemma_bounds_are(nodes@, w, up@, h@, b, at, i as int);
                        assert(node_ok(nodes@, w, b, i as int));
                    }
                }
            }
            return None;
        }
        i = i + 1;
    }
    proof {
        assert forall|x: int| 0 <= x < nodes@.len() implies #[trigger] node_ok(nodes@, mine, b, x) by {
            assert(shape_ok(nodes@, b, x));
            assert(sink(nodes@, x, nodes@.len()) == Some(h@[x] as nat));
            if nodes@[x].node_type == NodeType::Internal {
                assert forall|j: int| 0 <= j < nodes@[x].children@.len() implies #[trigger] slot_ok(
                    nodes@,
                    mine,
                    x,
                    j,
                ) by {
                    lemma_slot_of_bounds(nodes@, up@, h@, b, at, x, j);
                }
            }
        }
        assert(frame_ok(nodes@, mine, b, at));
        lemma_frame_is_structure(nodes@, mine, u, b, at);
    }
    Some((h[root] as u64, Ghost(mine), Ghost(u)))
}

/// Nodes with the same views are in order alike.
pub proof fn lemma_views_in_order<K: TreeKey + TreeSerialization, V: TreeSerialization>(
    a: Seq<Node<K, V>>,
    c: Seq<Node<K, V>>,
    b: usize,
    root: i64,
)
    requires
        in_order(a, b, root),
        node_views(a) == node_views(c),
    ensures
        in_order(c, b, root),
{
    let w = choose|w: Seq<Bounds<K::V>>| #[trigger] frame_ok(a, w, b, root);
    let u = choose|u: Seq<(int, int)>| #[trigger] links_ok(a, u, root);
    assert(node_views(a).len() == a.len());
    assert(node_views(c).len() == c.len());
    assert forall|i: int| 0 <= i < a.len() implies (#[trigger] c[i])@ == a[i]@ by {
        assert(node_views(a)[i] == a[i]@);
        assert(node_views(c)[i] == c[i]@);
    }
    assert forall|i: int| 0 <= i < a.len() implies (#[trigger] c[i]).children@ == a[i].children@ by {
        assert(c[i]@ == a[i]@);
    }
    lemma_links_same(a, c, u, root);
    assert forall|i: int| 0 <= i < c.len() implies #[trigger] node_ok(c, w, b, i) by {
        assert(node_ok(a, w, b, i));
        assert(c[i]@ == a[i]@);
        let x = a[i];
        let y = c[i];
        assert(x@.keys.len() == x.keys@.len());
        assert(y@.keys.len() == y.keys@.len());
        assert(x@.values.len() == x.values@.len());
        assert(y@.values.len() == y.values@.len());
        assert forall|j: int| 0 <= j < y.keys@.len() implies (#[trigger] y.keys@[j])@ == x.keys@[j]@ by {
            assert(x@.keys[j] == x.keys@[j]@);
            assert(y@.keys[j] == y.keys@[j]@);
        }
        assert forall|j: int| 0 <= j < y.values@.len() implies (#[trigger] y.values@[j]) is Some by {
            assert(x@.values[j] == option_view(x.values@[j]));
            assert(y@.values[j] == option_view(y.values@[j]));
            if x.node_type == NodeType::Leaf {
                assert(x.values@[j] is Some);
            }
        }
        assert forall|j: int| 0 <= j < y.keys@.len() implies in_range::<K>(
            w[i],
            #[trigger] y.keys@[j]@,
        ) by {
            assert(in_range::<K>(w[i], x.keys@[j]@));
            assert(y.keys@[j]@ == x.keys@[j]@);
        }
        if y.node_type == NodeType::Internal {
            assert forall|j: int| 0 <= j < y.children@.len() implies #[trigger] slot_ok(c, w, i, j) by {
                assert(slot_ok(a, w, i, j));
                if j > 0 {
                    assert(y.keys@[j - 1]@ == x.keys@[j - 1]@);
                }
                if j < y.keys@.len() {
                    assert(y.keys@[j]@ == x.keys@[j]@);
                }
            }
        }
    }
    assert(frame_ok(c, w, b, root));
}

/// The steps from a node down to a leaf depend on the kinds and the
/// children of the nodes only.
pub proof fn lemma_sink_same<K: TreeKey, V>(
    a: Seq<Node<K, V>>,
    c: Seq<Node<K, V>>,
    b: usize,
    i: int,
    fuel: nat,
)
    requires
        a.len() == c.len(),
        forall|j: int| 0 <= j < a.len() ==> shape_ok(a, b, j),
        forall|j: int|
            0 <= j < a.len() ==> (#[trigger] c[j]).node_type == a[j].node_type && c[j].children@
                == a[j].children@,
        0 <= i < a.len(),
    ensures
        sink(a, i, fuel) == sink(c, i, fuel),
    decreases fuel,
{
    assert(shape_ok(a, b, i));
    assert(c[i].node_type == a[i].node_type);
    if a[i].node_type == NodeType::Internal && fuel > 0 {
        lemma_sink_same(a, c, b, a[i].children@[0] as int, (fuel - 1) as nat);
    }
}

} // verus!
