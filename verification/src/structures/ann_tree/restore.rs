use crate::structures::ann_tree::node::{aligned, Node, NodeType};
use crate::structures::ann_tree::{
    child_ok, holds_child, leaves_reach, lemma_nowhere, lemma_reach_on, lemma_reach_up,
    lemma_way_shorter, node_ok, nodes_ok, path_ok, reach,
};
use crate::structures::metadata_index::{attributes_fit, kvs_fit};
use crate::structures::tree::serialization::elem_views;
use vstd::prelude::*;

verus! {

/// The mark of a node whose height is not known yet.
pub const UNKNOWN: usize = usize::MAX;

/// What can be seen of the node at `i` without its height: its lists go
/// together, it has the cap `k` and no more entries; the attributes of a
/// leaf fit the image; an internal node has a child at least, and its
/// children are nodes that differ from one another.
pub open spec fn locally_ok(nodes: Seq<Node>, k: usize, i: int) -> bool {
    let v = nodes[i]@;
    &&& aligned(v)
    &&& v.k == k
    &&& v.vectors.len() <= k
    &&& match v.node_type {
        NodeType::Leaf => forall|j: int| 0 <= j < v.metadata.len() ==> kvs_fit(#[trigger] v.metadata[j]),
        NodeType::Internal => v.vectors.len() >= 1 && v.children.no_duplicates() && forall|j: int|
            0 <= j < v.children.len() ==> 0 <= (#[trigger] v.children[j]) < nodes.len(),
    }
}

/// Whether the heights put every leaf at zero and every child below its
/// parent, and no node as high as there are nodes.
pub open spec fn heights_ok(nodes: Seq<Node>, h: Seq<nat>) -> bool {
    &&& h.len() == nodes.len()
    &&& forall|i: int| 0 <= i < nodes.len() ==> #[trigger] height_ok(nodes, h, i)
}

/// The height of the node at `i` is in order.
pub open spec fn height_ok(nodes: Seq<Node>, h: Seq<nat>, i: int) -> bool {
    &&& h[i] < nodes.len()
    &&& match nodes[i].node_type {
        NodeType::Leaf => h[i] == 0,
        NodeType::Internal => forall|j: int|
            0 <= j < nodes[i].children@.len() ==> h[(#[trigger] nodes[i].children@[j]) as int] < h[i],
    }
}

/// The heights that a list of levels stands for.
pub open spec fn as_heights(levels: Seq<usize>) -> Seq<nat> {
    Seq::new(levels.len(), |i: int| levels[i] as nat)
}

/// Nodes that are in order one by one, with heights in order, are in
/// order.
pub proof fn lemma_nodes_ok(nodes: Seq<Node>, h: Seq<nat>, k: usize, root: i64)
    requires
        crate::structures::ann_tree::MIN_K <= k <= crate::structures::ann_tree::MAX_K,
        nodes.len() <= i64::MAX,
        0 <= root < nodes.len(),
        forall|i: int| 0 <= i < nodes.len() ==> #[trigger] locally_ok(nodes, k, i),
        heights_ok(nodes, h),
    ensures
        nodes_ok(nodes, h, k, root),
{
    assert forall|i: int| 0 <= i < nodes.len() implies #[trigger] node_ok(nodes, h, k, i) by {
        assert(locally_ok(nodes, k, i));
        assert(height_ok(nodes, h, i));
        if nodes[i].node_type == NodeType::Internal {
            assert forall|j: int| 0 <= j < nodes[i]@.children.len() implies #[trigger] child_ok(
                nodes,
                h,
                i,
                j,
            ) by {
                assert(0 <= nodes[i]@.children[j] < nodes.len());
                assert(h[nodes[i].children@[j] as int] < h[i]);
            }
        }
    }
    assert forall|i: int| 0 <= i < nodes.len() implies (#[trigger] h[i]) < nodes.len() by {
        assert(height_ok(nodes, h, i));
    }
}

/// Nodes in order are in order one by one, and their heights are in order.
pub proof fn lemma_nodes_ok_back(nodes: Seq<Node>, h: Seq<nat>, k: usize, root: i64)
    requires
        nodes_ok(nodes, h, k, root),
    ensures
        forall|i: int| 0 <= i < nodes.len() ==> #[trigger] locally_ok(nodes, k, i),
        heights_ok(nodes, h),
{
    assert forall|i: int| 0 <= i < nodes.len() implies #[trigger] locally_ok(nodes, k, i) by {
        assert(node_ok(nodes, h, k, i));
        if nodes[i].node_type == NodeType::Internal {
            assert forall|j: int| 0 <= j < nodes[i]@.children.len() implies 0 <= (
            #[trigger] nodes[i]@.children[j]) < nodes.len() by {
                assert(child_ok(nodes, h, i, j));
            }
        }
    }
    assert forall|i: int| 0 <= i < nodes.len() implies #[trigger] height_ok(nodes, h, i) by {
        assert(node_ok(nodes, h, k, i));
        assert(h[i] < nodes.len());
        if nodes[i].node_type == NodeType::Internal {
            assert forall|j: int| 0 <= j < nodes[i].children@.len() implies h[(
            #[trigger] nodes[i].children@[j]) as int] < h[i] by {
                assert(child_ok(nodes, h, i, j));
            }
        }
    }
}

/// Whether the node at `i` is in order as far as can be seen without its
/// height.
pub fn node_in_order(nodes: &Vec<Node>, i: usize, k: usize) -> (r: bool)
    requires
        i < nodes@.len(),
    ensures
        r == locally_ok(nodes@, k, i as int),
{
    let n: usize = nodes.len();
    let node = &nodes[i];
    let m: usize = node.vectors.len();
    let ghost v = nodes@[i as int]@;
    assert(node@ == v);
    assert(v.vectors.len() == m);
    assert(v.metadata.len() == node.metadata@.len());
    assert(v.children == node.children@);
    if node.k != k || m > k {
        return false;
    }
    match node.node_type {
        NodeType::Leaf => {
            if node.ids.len() != m || node.metadata.len() != m || node.children.len() != 0 {
                return false;
            }
            let mut j: usize = 0;
            while j < m
                invariant
                    j <= m,
                    m == node.metadata@.len(),
                    node@.metadata.len() == m,
                    node@ == v,
                    v == nodes@[i as int]@,
                    v.node_type == NodeType::Leaf,
                    forall|x: int| 0 <= x < j ==> kvs_fit(#[trigger] node@.metadata[x]),
                decreases m - j,
            {
                assert(node@.metadata[j as int] == elem_views(node.metadata@[j as int]@));
                if !attributes_fit(&node.metadata[j]) {
                    assert(!kvs_fit(v.metadata[j as int]));
                    assert(!locally_ok(nodes@, k, i as int));
                    return false;
                }
                j = j + 1;
            }
            true
        },
        NodeType::Internal => {
            if node.children.len() != m || node.ids.len() != 0 || node.metadata.len() != 0 || m
                < 1 {
                return false;
            }
            let mut j: usize = 0;
            while j < m
                invariant
                    j <= m,
                    m == node.children@.len(),
                    n == nodes@.len(),
                    v == nodes@[i as int]@,
                    v.children == node.children@,
                    v.node_type == NodeType::Internal,
                    forall|x: int| 0 <= x < j ==> 0 <= (#[trigger] node.children@[x]) < n,
                    forall|x: int, y: int|
                        0 <= x < y < j ==> (#[trigger] node.children@[x]) != (
                        #[trigger] node.children@[y]),
                decreases m - j,
            {
                let c: i64 = node.children[j];
                if c < 0 || c as u64 >= n as u64 {
                    assert(!(0 <= v.children[j as int] < n));
                    assert(!locally_ok(nodes@, k, i as int));
                    return false;
                }
                let mut x: usize = 0;
                while x < j
                    invariant
                        x <= j < m,
                        m == node.children@.len(),
                        c == node.children@[j as int],
                        v == nodes@[i as int]@,
                        v.children == node.children@,
                        v.node_type == NodeType::Internal,
                        forall|y: int| 0 <= y < x ==> (#[trigger] node.children@[y]) != c,
                    decreases j - x,
                {
                    if node.children[x] == c {
                        assert(v.children[x as int] == v.children[j as int]);
                        assert(!v.children.no_duplicates());
                        assert(!locally_ok(nodes@, k, i as int));
                        return false;
                    }
                    x = x + 1;
                }
                j = j + 1;
            }
            true
        },
    }
}

/// Whether every child of the node at `i` has a level.
pub open spec fn kids_known(nodes: Seq<Node>, levels: Seq<usize>, i: int) -> bool {
    forall|j: int|
        0 <= j < nodes[i].children@.len() ==> levels[(#[trigger] nodes[i].children@[j]) as int]
            != UNKNOWN
}

/// The levels that are known are in order, and none is above `most`.
pub open spec fn levels_ok(nodes: Seq<Node>, levels: Seq<usize>, most: int) -> bool {
    &&& levels.len() == nodes.len()
    &&& forall|i: int| 0 <= i < nodes.len() ==> #[trigger] level_ok(nodes, levels, most, i)
}

/// The level of the node at `i` is in order, if it is known.
pub open spec fn level_ok(nodes: Seq<Node>, levels: Seq<usize>, most: int, i: int) -> bool {
    match nodes[i].node_type {
        NodeType::Leaf => levels[i] == 0,
        NodeType::Internal => levels[i] != UNKNOWN ==> levels[i] <= most && forall|j: int|
            0 <= j < nodes[i].children@.len() ==> levels[(#[trigger] nodes[i].children@[j]) as int]
                < levels[i],
    }
}

/// Every node that heights in order put at `p` or lower has a level.
pub open spec fn known_upto(nodes: Seq<Node>, levels: Seq<usize>, p: int) -> bool {
    forall|h: Seq<nat>, i: int|
        #![trigger heights_ok(nodes, h), levels[i]]
        heights_ok(nodes, h) && 0 <= i < nodes.len() && h[i] <= p ==> levels[i] != UNKNOWN
}

/// The level of the node at `i`, one above the highest level of its
/// children, if they all have a level.
fn level_above(nodes: &Vec<Node>, levels: &Vec<usize>, i: usize, k: usize, most: Ghost<int>) -> (r:
    usize)
    requires
        i < nodes@.len(),
        nodes@.len() <= i64::MAX,
        locally_ok(nodes@, k, i as int),
        nodes@[i as int].node_type == NodeType::Internal,
        levels_ok(nodes@, levels@, most@),
        0 <= most@,
        most@ + 1 < nodes@.len(),
    ensures
        r == UNKNOWN <==> !kids_known(nodes@, levels@, i as int),
        r != UNKNOWN ==> r <= most@ + 1 && forall|j: int|
            0 <= j < nodes@[i as int].children@.len() ==> levels@[(
            #[trigger] nodes@[i as int].children@[j]) as int] < r,
{
    let node = &nodes[i];
    let n: usize = nodes.len();
    let mut top: usize = 0;
    let mut j: usize = 0;
    while j < node.children.len()
        invariant
            j <= node.children@.len(),
            i < nodes@.len(),
            n == nodes@.len(),
            n <= i64::MAX,
            node == &nodes@[i as int],
            locally_ok(nodes@, k, i as int),
            node.node_type == NodeType::Internal,
            levels_ok(nodes@, levels@, most@),
            most@ + 1 < n,
            top <= most@,
            forall|x: int|
                0 <= x < j ==> levels@[(#[trigger] node.children@[x]) as int] != UNKNOWN
                    && levels@[node.children@[x] as int] <= top,
        decreases node.children@.len() - j,
    {
        assert(0 <= node@.children[j as int] < n);
        let c: usize = node.children[j] as u64 as usize;
        let l: usize = levels[c];
        if l == UNKNOWN {
            assert(levels@[node.children@[j as int] as int] == UNKNOWN);
            return UNKNOWN;
        }
        proof {
            assert(level_ok(nodes@, levels@, most@, c as int));
        }
        if l > top {
            top = l;
        }
        j = j + 1;
    }
    top + 1
}

/// The heights of the nodes, as levels, if there are heights that put
/// every child below its parent.
pub fn find_heights(nodes: &Vec<Node>, k: usize) -> (r: Option<Vec<usize>>)
    requires
        1 <= nodes@.len() <= i64::MAX,
        forall|i: int| 0 <= i < nodes@.len() ==> #[trigger] locally_ok(nodes@, k, i),
    ensures
        match r {
            Some(levels) => heights_ok(nodes@, as_heights(levels@)),
            None => forall|h: Seq<nat>| !#[trigger] heights_ok(nodes@, h),
        },
{
    let n: usize = nodes.len();
    let mut cur: Vec<usize> = Vec::new();
    let mut i: usize = 0;
    let mut open: usize = 0;
    let ghost which: int = 0;
    while i < n
        invariant
            i <= n,
            n == nodes@.len(),
            cur@.len() == i,
            open <= i,
            forall|x: int|
                0 <= x < i ==> (#[trigger] cur@[x]) == (match nodes@[x].node_type {
                    NodeType::Leaf => 0usize,
                    NodeType::Internal => UNKNOWN,
                }),
            open == 0 ==> forall|x: int| 0 <= x < i ==> (#[trigger] cur@[x]) != UNKNOWN,
            open > 0 ==> 0 <= which < i && cur@[which] == UNKNOWN,
        decreases n - i,
    {
        match nodes[i].node_type {
            NodeType::Leaf => {
                cur.push(0);
            },
            NodeType::Internal => {
                cur.push(UNKNOWN);
                open = open + 1;
                proof {
                    which = i as int;
                }
            },
        }
        i = i + 1;
    }
    let mut pass: usize = 0;
    proof {
        assert(levels_ok(nodes@, cur@, 0)) by {
            assert forall|x: int| 0 <= x < n implies #[trigger] level_ok(nodes@, cur@, 0, x) by {}
        }
        assert(known_upto(nodes@, cur@, 0)) by {
            assert forall|h: Seq<nat>, x: int|
                #![trigger heights_ok(nodes@, h), cur@[x]]
                heights_ok(nodes@, h) && 0 <= x < n && h[x] <= 0 implies cur@[x] != UNKNOWN by {
                assert(height_ok(nodes@, h, x));
                assert(locally_ok(nodes@, k, x));
                if nodes@[x].node_type == NodeType::Internal {
                    let c = nodes@[x].children@[0] as int;
                    assert(h[c] < h[x]);
                }
            }
        }
    }
    while open > 0 && n - pass > 1
        invariant
            n == nodes@.len(),
            1 <= n <= i64::MAX,
            pass < n,
            cur@.len() == n,
            open > 0 ==> 0 <= which < n && cur@[which] == UNKNOWN,
            forall|x: int| 0 <= x < n ==> #[trigger] locally_ok(nodes@, k, x),
            levels_ok(nodes@, cur@, pass as int),
            known_upto(nodes@, cur@, pass as int),
            open == 0 ==> forall|x: int| 0 <= x < n ==> (#[trigger] cur@[x]) != UNKNOWN,
        decreases n - pass,
    {
        let mut next: Vec<usize> = Vec::new();
        let mut left: usize = 0;
        let ghost still: int = 0;
        let mut x: usize = 0;
        while x < n
            invariant
                x <= n,
                n == nodes@.len(),
                1 <= n <= i64::MAX,
                pass + 1 < n,
                cur@.len() == n,
                next@.len() == x,
                left > 0 ==> 0 <= still < x && next@[still] == UNKNOWN,
                left <= x,
                forall|y: int| 0 <= y < n ==> #[trigger] locally_ok(nodes@, k, y),
                levels_ok(nodes@, cur@, pass as int),
                forall|y: int|
                    0 <= y < x ==> (#[trigger] next@[y]) == (if cur@[y] != UNKNOWN {
                        cur@[y]
                    } else {
                        next@[y]
                    }),
                forall|y: int|
                    0 <= y < x && cur@[y] == UNKNOWN ==> ((#[trigger] next@[y]) == UNKNOWN
                        <==> !kids_known(nodes@, cur@, y)),
                forall|y: int|
                    0 <= y < x && cur@[y] == UNKNOWN && (#[trigger] next@[y]) != UNKNOWN
                        ==> next@[y] <= pass + 1 && forall|j: int|
                        0 <= j < nodes@[y].children@.len() ==> cur@[(
                        #[trigger] nodes@[y].children@[j]) as int] < next@[y],
                left == 0 ==> forall|y: int| 0 <= y < x ==> (#[trigger] next@[y]) != UNKNOWN,
            decreases n - x,
        {
            let was: usize = cur[x];
            if was != UNKNOWN {
                next.push(was);
            } else {
                proof {
                    assert(level_ok(nodes@, cur@, pass as int, x as int));
                }
                let l = level_above(nodes, &cur, x, k, Ghost(pass as int));
                next.push(l);
                if l == UNKNOWN {
                    left = left + 1;
                    proof {
                        still = x as int;
                    }
                }
            }
            x = x + 1;
        }
        proof {
            let a = cur@;
            let b = next@;
            assert(levels_ok(nodes@, b, pass + 1)) by {
                assert forall|y: int| 0 <= y < n implies #[trigger] level_ok(
                    nodes@,
                    b,
                    pass + 1,
                    y,
                ) by {
                    assert(level_ok(nodes@, a, pass as int, y));
                    assert(locally_ok(nodes@, k, y));
                    if nodes@[y].node_type == NodeType::Internal && b[y] != UNKNOWN {
                        assert forall|j: int| 0 <= j < nodes@[y].children@.len() implies b[(
                        #[trigger] nodes@[y].children@[j]) as int] < b[y] by {
                            let c = nodes@[y].children@[j] as int;
                            assert(0 <= nodes@[y]@.children[j] < n);
                            assert(a[c] < b[y]);
                            assert(a[c] != UNKNOWN);
                            assert(b[c] == a[c]);
                        }
                    }
                }
            }
            assert(known_upto(nodes@, b, pass + 1)) by {
                assert forall|h: Seq<nat>, y: int|
                    #![trigger heights_ok(nodes@, h), b[y]]
                    heights_ok(nodes@, h) && 0 <= y < n && h[y] <= pass + 1 implies b[y]
                    != UNKNOWN by {
                    assert(height_ok(nodes@, h, y));
                    assert(level_ok(nodes@, a, pass as int, y));
                    assert(locally_ok(nodes@, k, y));
                    if a[y] == UNKNOWN {
                        assert forall|j: int| 0 <= j < nodes@[y].children@.len() implies a[(
                        #[trigger] nodes@[y].children@[j]) as int] != UNKNOWN by {
                            let c = nodes@[y].children@[j] as int;
                            assert(0 <= nodes@[y]@.children[j] < n);
                            assert(h[c] < h[y]);
                            assert(heights_ok(nodes@, h) && h[c] <= pass ==> a[c] != UNKNOWN);
                        }
                        assert(kids_known(nodes@, a, y));
                    }
                }
            }
        }
        cur = next;
        open = left;
        pass = pass + 1;
        proof {
            which = still;
        }
    }
    if open == 0 {
        proof {
            let h = as_heights(cur@);
            assert forall|x: int| 0 <= x < n implies #[trigger] height_ok(nodes@, h, x) by {
                assert(level_ok(nodes@, cur@, pass as int, x));
                assert(cur@[x] != UNKNOWN);
                if nodes@[x].node_type == NodeType::Internal {
                    assert forall|j: int| 0 <= j < nodes@[x].children@.len() implies h[(
                    #[trigger] nodes@[x].children@[j]) as int] < h[x] by {
                        assert(locally_ok(nodes@, k, x));
                        assert(0 <= nodes@[x]@.children[j] < n);
                    }
                }
            }
        }
        Some(cur)
    } else {
        proof {
            assert forall|h: Seq<nat>| !#[trigger] heights_ok(nodes@, h) by {
                if heights_ok(nodes@, h) {
                    let x = which;
                    assert(height_ok(nodes@, h, x));
                    assert(heights_ok(nodes@, h) && h[x] <= pass ==> cur@[x] != UNKNOWN);
                }
            }
        }
        None
    }
}

/// A way from the root is no longer than the root is high.
pub proof fn lemma_way_len(
    nodes: Seq<Node>,
    h: Seq<nat>,
    k: usize,
    root: i64,
    path: Seq<(usize, usize)>,
    target: int,
)
    requires
        nodes_ok(nodes, h, k, root),
        path_ok(nodes, root, path, target),
    ensures
        path.len() + h[target] <= h[root as int],
    decreases path.len(),
{
    if path.len() > 0 {
        let u = path.last().0 as int;
        let s = path.last().1 as int;
        lemma_way_shorter(nodes, root as int, path, target);
        lemma_way_len(nodes, h, k, root, path.drop_last(), u);
        assert(path[path.len() - 1] == path.last());
        assert(node_ok(nodes, h, k, u));
        assert(child_ok(nodes, h, u, s));
    }
}

/// Every node that a way of `p` steps at most leads to from the root is
/// marked.
pub open spec fn marked_upto(nodes: Seq<Node>, root: i64, marked: Seq<bool>, p: int) -> bool {
    forall|path: Seq<(usize, usize)>, t: int|
        #![trigger path_ok(nodes, root, path, t)]
        path_ok(nodes, root, path, t) && path.len() <= p ==> marked[t]
}

/// Every node that is marked can be reached from the root.
pub open spec fn marks_sound(nodes: Seq<Node>, root: i64, marked: Seq<bool>) -> bool {
    forall|t: int| 0 <= t < marked.len() && #[trigger] marked[t] ==> reach(nodes, root as int, t)
}

/// Whether every leaf can be reached from the root.
pub fn leaves_reached(nodes: &Vec<Node>, levels: &Vec<usize>, root: usize, k: usize) -> (r: bool)
    requires
        root < nodes@.len(),
        nodes_ok(nodes@, as_heights(levels@), k, root as i64),
    ensures
        r == leaves_reach(nodes@, root as int, -1, -1),
{
    let n: usize = nodes.len();
    let ghost h = as_heights(levels@);
    let ghost top = root as i64;
    let mut marked: Vec<bool> = Vec::new();
    let mut i: usize = 0;
    while i < n
        invariant
            i <= n,
            n == nodes@.len(),
            root < n,
            marked@.len() == i,
            forall|x: int| 0 <= x < i ==> (#[trigger] marked@[x]) == (x == root),
        decreases n - i,
    {
        marked.push(i == root);
        i = i + 1;
    }
    proof {
        assert(path_ok(nodes@, top, Seq::<(usize, usize)>::empty(), root as int));
        assert(marks_sound(nodes@, top, marked@));
        assert(marked_upto(nodes@, top, marked@, 0)) by {
            assert forall|path: Seq<(usize, usize)>, t: int|
                #![trigger path_ok(nodes@, top, path, t)]
                path_ok(nodes@, top, path, t) && path.len() <= 0 implies marked@[t] by {}
        }
    }
    let depth: usize = levels[root];
    let mut pass: usize = 0;
    while pass < depth
        invariant
            pass <= depth,
            n == nodes@.len(),
            root < n,
            top == root as i64,
            h == as_heights(levels@),
            nodes_ok(nodes@, h, k, top),
            marked@.len() == n,
            marks_sound(nodes@, top, marked@),
            marked_upto(nodes@, top, marked@, pass as int),
        decreases depth - pass,
    {
        let ghost before = marked@;
        let mut x: usize = 0;
        while x < n
            invariant
                x <= n,
                n == nodes@.len(),
                root < n,
                top == root as i64,
                nodes_ok(nodes@, h, k, top),
                marked@.len() == n,
                before.len() == n,
                marks_sound(nodes@, top, marked@),
                forall|t: int| 0 <= t < n && before[t] ==> #[trigger] marked@[t],
                forall|u: int, s: int|
                    0 <= u < x && before[u] && #[trigger] holds_child(
                        nodes@,
                        u,
                        s,
                        nodes@[u].children@[s] as int,
                    ) ==> marked@[nodes@[u].children@[s] as int],
            decreases n - x,
        {
            if marked[x] {
                match nodes[x].node_type {
                    NodeType::Leaf => {},
                    NodeType::Internal => {
                        let node = &nodes[x];
                        let mut s: usize = 0;
                        while s < node.children.len()
                            invariant
                                s <= node.children@.len(),
                                x < n,
                                n == nodes@.len(),
                                root < n,
                                top == root as i64,
                                node == &nodes@[x as int],
                                node.node_type == NodeType::Internal,
                                nodes_ok(nodes@, h, k, top),
                                marked@.len() == n,
                                before.len() == n,
                                marked@[x as int],
                                marks_sound(nodes@, top, marked@),
                                forall|t: int| 0 <= t < n && before[t] ==> #[trigger] marked@[t],
                                forall|u: int, w: int|
                                    0 <= u < x && before[u] && #[trigger] holds_child(
                                        nodes@,
                                        u,
                                        w,
                                        nodes@[u].children@[w] as int,
                                    ) ==> marked@[nodes@[u].children@[w] as int],
                                forall|w: int|
                                    0 <= w < s ==> marked@[(#[trigger] node.children@[w]) as int],
                            decreases node.children@.len() - s,
                        {
                            proof {
                                assert(node_ok(nodes@, h, k, x as int));
                                assert(child_ok(nodes@, h, x as int, s as int));
                            }
                            let c: usize = node.children[s] as u64 as usize;
                            let ghost was = marked@;
                            marked.set(c, true);
                            proof {
                                assert(holds_child(nodes@, x as int, s as int, c as int));
                                assert(reach(nodes@, top as int, x as int));
                                assert(path_ok(
                                    nodes@,
                                    c as i64,
                                    Seq::<(usize, usize)>::empty(),
                                    c as int,
                                ));
                                lemma_reach_up(nodes@, x as int, s as int, c as int, c as int);
                                lemma_reach_on(nodes@, top as int, x as int, c as int);
                                assert forall|t: int|
                                    0 <= t < marked@.len() && #[trigger] marked@[t] implies reach(
                                    nodes@,
                                    top as int,
                                    t,
                                ) by {
                                    if t != c {
                                        assert(was[t]);
                                    }
                                }
                                assert(marked@ == was.update(c as int, true));
                                assert forall|t: int| 0 <= t < n && was[t] implies #[trigger] marked@[t] by {}
                                assert forall|w: int| 0 <= w < s + 1 implies marked@[(
                                #[trigger] node.children@[w]) as int] by {
                                    if w < s {
                                        assert(child_ok(nodes@, h, x as int, w));
                                        assert(was[node.children@[w] as int]);
                                    }
                                }
                                assert forall|u: int, w: int|
                                    0 <= u < x && before[u] && #[trigger] holds_child(
                                        nodes@,
                                        u,
                                        w,
                                        nodes@[u].children@[w] as int,
                                    ) implies marked@[nodes@[u].children@[w] as int] by {
                                    assert(node_ok(nodes@, h, k, u));
                                    assert(child_ok(nodes@, h, u, w));
                                    assert(was[nodes@[u].children@[w] as int]);
                                }
                            }
                            s = s + 1;
                        }
                    },
                }
            }
            proof {
                assert forall|u: int, w: int|
                    0 <= u < x + 1 && before[u] && #[trigger] holds_child(
                        nodes@,
                        u,
                        w,
                        nodes@[u].children@[w] as int,
                    ) implies marked@[nodes@[u].children@[w] as int] by {
                    if u == x {
                        assert(marked@[x as int]);
                    }
                }
            }
            x = x + 1;
        }
        proof {
            assert(marked_upto(nodes@, top, marked@, pass + 1)) by {
                assert forall|path: Seq<(usize, usize)>, t: int|
                    #![trigger path_ok(nodes@, top, path, t)]
                    path_ok(nodes@, top, path, t) && path.len() <= pass + 1 implies marked@[t] by {
                    if path.len() == 0 {
                        assert(before[t]);
                    } else {
                        let u = path.last().0 as int;
                        let w = path.last().1 as int;
                        lemma_way_shorter(nodes@, top as int, path, t);
                        assert(path_ok(nodes@, top, path.drop_last(), u));
                        assert(before[u]);
                        assert(path[path.len() - 1] == path.last());
                        assert(holds_child(nodes@, u, w, nodes@[u].children@[w] as int));
                    }
                }
            }
        }
        pass = pass + 1;
    }
    let mut i: usize = 0;
    while i < n
        invariant
            i <= n,
            n == nodes@.len(),
            root < n,
            top == root as i64,
            h == as_heights(levels@),
            depth == levels@[root as int],
            nodes_ok(nodes@, h, k, top),
            marked@.len() == n,
            marks_sound(nodes@, top, marked@),
            marked_upto(nodes@, top, marked@, depth as int),
            forall|t: int|
                0 <= t < i && (#[trigger] nodes@[t]).node_type == NodeType::Leaf ==> reach(
                    nodes@,
                    root as int,
                    t,
                ),
        decreases n - i,
    {
        match nodes[i].node_type {
            NodeType::Internal => {},
            NodeType::Leaf => {
                if !marked[i] {
                    proof {
                        lemma_nowhere(nodes@, i as int);
                        if reach(nodes@, root as int, i as int) {
                            let path = choose|path: Seq<(usize, usize)>|
                                #[trigger] path_ok(nodes@, (root as int) as i64, path, i as int);
                            lemma_way_len(nodes@, h, k, top, path, i as int);
                            assert(marked@[i as int]);
                        }
                    }
                    return false;
                }
            },
        }
        i = i + 1;
    }
    true
}

} // verus!
