use crate::constants::K;
use crate::errors::HaystackError;
use crate::structures::ann_tree::k_modes::{
    balanced_k_modes, clustered, count_flag, lemma_pick_len, min_side, pick, Vector,
};
use crate::structures::dense_vector_list::{copy_vector, vector_views};
use crate::structures::metadata_index::{KVPair, KVPairView};
use crate::structures::tree::serialization::{duplicate_all, elem_views};
use vstd::prelude::*;

verus! {

/// The two kinds of node.
#[derive(Debug, Clone, Copy, PartialEq, Eq, Structural)]
pub enum NodeType {
    Leaf,
    Internal,
}

/// The byte that stands for a kind of node.
pub fn serialize_node_type(node_type: &NodeType) -> (bytes: [u8; 1])
    ensures
        bytes@ == seq![spec_kind_byte(*node_type)],
{
    let bytes: [u8; 1] = match node_type {
        NodeType::Leaf => [0u8],
        NodeType::Internal => [1u8],
    };
    assert(bytes@ =~= seq![spec_kind_byte(*node_type)]);
    bytes
}

/// The byte that stands for a kind of node: zero for a leaf, one for an
/// internal node.
pub open spec fn spec_kind_byte(t: NodeType) -> u8 {
    match t {
        NodeType::Leaf => 0,
        NodeType::Internal => 1,
    }
}

/// The kind of node that the first byte of `data` stands for; fails with
/// `Corruption` exactly when there is no byte or it stands for none.
pub fn deserialize_node_type(data: &[u8]) -> (r: Result<NodeType, HaystackError>)
    ensures
        match r {
            Ok(t) => data@.len() >= 1 && data@[0] == spec_kind_byte(t),
            Err(e) => e == HaystackError::Corruption && (data@.len() == 0 || data@[0] > 1),
        },
{
    if data.len() == 0 {
        return Err(HaystackError::Corruption);
    }
    if data[0] == 0 {
        Ok(NodeType::Leaf)
    } else if data[0] == 1 {
        Ok(NodeType::Internal)
    } else {
        Err(HaystackError::Corruption)
    }
}

/// A node of the clustered tree. A leaf holds entries: a vector, an id and
/// the attributes, at the same place of three lists. An internal node holds
/// children: a centroid in `vectors` and an offset in `children`, at the
/// same place of two lists.
#[derive(Debug)]
pub struct Node {
    pub vectors: Vec<Vector>,
    pub ids: Vec<u128>,
    pub children: Vec<i64>,
    pub metadata: Vec<Vec<KVPair>>,
    pub k: usize,
    pub node_type: NodeType,
    pub offset: i64,
    pub is_root: bool,
    pub parent_offset: Option<i64>,
}

/// What a node holds.
pub ghost struct NodeView {
    pub vectors: Seq<Seq<u8>>,
    pub ids: Seq<u128>,
    pub children: Seq<i64>,
    pub metadata: Seq<Seq<KVPairView>>,
    pub k: usize,
    pub node_type: NodeType,
    pub offset: i64,
    pub is_root: bool,
    pub parent_offset: Option<i64>,
}

/// The views of a list of attribute lists.
pub open spec fn metadata_views(m: Seq<Vec<KVPair>>) -> Seq<Seq<KVPairView>> {
    Seq::new(m.len(), |i: int| elem_views(m[i]@))
}

impl View for Node {
    type V = NodeView;

    open spec fn view(&self) -> NodeView {
        NodeView {
            vectors: vector_views(self.vectors@),
            ids: self.ids@,
            children: self.children@,
            metadata: metadata_views(self.metadata@),
            k: self.k,
            node_type: self.node_type,
            offset: self.offset,
            is_root: self.is_root,
            parent_offset: self.parent_offset,
        }
    }
}

/// Whether the lists of a node go together: a leaf has an id and an
/// attribute list for each vector and no child; an internal node has a child
/// for each centroid and neither ids nor attributes.
pub open spec fn aligned(v: NodeView) -> bool {
    match v.node_type {
        NodeType::Leaf => v.ids.len() == v.vectors.len() && v.metadata.len() == v.vectors.len()
            && v.children.len() == 0,
        NodeType::Internal => v.children.len() == v.vectors.len() && v.ids.len() == 0
            && v.metadata.len() == 0,
    }
}

/// What a split by the flags `side` makes of a node: `left` keeps the
/// entries whose flag is unset, `right` takes the others, each in the order
/// they had.
pub open spec fn split_by(before: NodeView, left: NodeView, right: NodeView, side: Seq<bool>) -> bool {
    &&& side.len() == before.vectors.len()
    &&& left.vectors == pick(before.vectors, side, false)
    &&& right.vectors == pick(before.vectors, side, true)
    &&& left.k == before.k
    &&& right.k == before.k
    &&& left.node_type == before.node_type
    &&& right.node_type == before.node_type
    &&& left.offset == before.offset
    &&& left.is_root == before.is_root
    &&& left.parent_offset == before.parent_offset
    &&& right.offset == -1
    &&& !right.is_root
    &&& right.parent_offset == before.parent_offset
    &&& match before.node_type {
        NodeType::Leaf => {
            &&& left.ids == pick(before.ids, side, false)
            &&& right.ids == pick(before.ids, side, true)
            &&& left.metadata == pick(before.metadata, side, false)
            &&& right.metadata == pick(before.metadata, side, true)
            &&& left.children.len() == 0
            &&& right.children.len() == 0
        },
        NodeType::Internal => {
            &&& left.children == pick(before.children, side, false)
            &&& right.children == pick(before.children, side, true)
            &&& left.ids.len() == 0
            &&& right.ids.len() == 0
            &&& left.metadata.len() == 0
            &&& right.metadata.len() == 0
        },
    }
}

/// Whether the flags give each cluster its least share, and an entry at
/// least.
pub open spec fn fair(side: Seq<bool>) -> bool {
    &&& count_flag(side, false) >= min_side(side.len() as int)
    &&& count_flag(side, true) >= min_side(side.len() as int)
    &&& count_flag(side, false) >= 1
    &&& count_flag(side, true) >= 1
}

/// `left` and `right` are the two clusters of a fair split of `before`
/// by a balanced clustering of its vectors.
pub open spec fn fair_split(before: NodeView, left: NodeView, right: NodeView) -> bool {
    exists|side: Seq<bool>|
        #[trigger] split_by(before, left, right, side) && fair(side) && clustered(
            before.vectors,
            side,
        )
}

/// A split by flags keeps the lists of both nodes together.
pub proof fn lemma_split_by_aligned(before: NodeView, left: NodeView, right: NodeView, side: Seq<bool>)
    requires
        aligned(before),
        split_by(before, left, right, side),
    ensures
        aligned(left),
        aligned(right),
        left.vectors.len() == count_flag(side, false),
        right.vectors.len() == count_flag(side, true),
{
    lemma_pick_len(before.vectors, side, false);
    lemma_pick_len(before.vectors, side, true);
    match before.node_type {
        NodeType::Leaf => {
            lemma_pick_len(before.ids, side, false);
            lemma_pick_len(before.ids, side, true);
            lemma_pick_len(before.metadata, side, false);
            lemma_pick_len(before.metadata, side, true);
        },
        NodeType::Internal => {
            lemma_pick_len(before.children, side, false);
            lemma_pick_len(before.children, side, true);
        },
    }
}

impl Node {
    /// An empty leaf that is not stored yet.
    pub fn new_leaf() -> (node: Self)
        ensures
            node@ == (NodeView {
                vectors: Seq::empty(),
                ids: Seq::empty(),
                children: Seq::empty(),
                metadata: Seq::empty(),
                k: K,
                node_type: NodeType::Leaf,
                offset: -1i64,
                is_root: false,
                parent_offset: None,
            }),
    {
        let node = Node {
            vectors: Vec::new(),
            ids: Vec::new(),
            children: Vec::new(),
            metadata: Vec::new(),
            k: K,
            node_type: NodeType::Leaf,
            offset: -1,
            is_root: false,
            parent_offset: None,
        };
        assert(node@.vectors =~= Seq::empty());
        assert(node@.metadata =~= Seq::empty());
        node
    }

    /// An empty internal node that is not stored yet.
    pub fn new_internal() -> (node: Self)
        ensures
            node@ == (NodeView {
                vectors: Seq::empty(),
                ids: Seq::empty(),
                children: Seq::empty(),
                metadata: Seq::empty(),
                k: K,
                node_type: NodeType::Internal,
                offset: -1i64,
                is_root: false,
                parent_offset: None,
            }),
    {
        let node = Node {
            vectors: Vec::new(),
            ids: Vec::new(),
            children: Vec::new(),
            metadata: Vec::new(),
            k: K,
            node_type: NodeType::Internal,
            offset: -1,
            is_root: false,
            parent_offset: None,
        };
        assert(node@.vectors =~= Seq::empty());
        assert(node@.metadata =~= Seq::empty());
        node
    }

    /// Whether the node holds as many entries as its cap allows.
    pub fn is_full(&self) -> (full: bool)
        ensures
            full == (self@.vectors.len() >= self.k),
    {
        self.vectors.len() >= self.k
    }

    /// A copy with the same view.
    pub fn duplicate(&self) -> (copy: Self)
        ensures
            copy@ == self@,
    {
        let mut vectors: Vec<Vector> = Vec::new();
        let mut i: usize = 0;
        while i < self.vectors.len()
            invariant
                i <= self.vectors@.len(),
                vectors@.len() == i,
                forall|j: int| 0 <= j < i ==> (#[trigger] vectors@[j])@ == self.vectors@[j]@,
            decreases self.vectors@.len() - i,
        {
            vectors.push(copy_vector(&self.vectors[i]));
            i = i + 1;
        }
        let mut ids: Vec<u128> = Vec::new();
        let mut i: usize = 0;
        while i < self.ids.len()
            invariant
                i <= self.ids@.len(),
                ids@ == self.ids@.subrange(0, i as int),
            decreases self.ids@.len() - i,
        {
            ids.push(self.ids[i]);
            i = i + 1;
            assert(ids@ =~= self.ids@.subrange(0, i as int));
        }
        let mut children: Vec<i64> = Vec::new();
        let mut i: usize = 0;
        while i < self.children.len()
            invariant
                i <= self.children@.len(),
                children@ == self.children@.subrange(0, i as int),
            decreases self.children@.len() - i,
        {
            children.push(self.children[i]);
            i = i + 1;
            assert(children@ =~= self.children@.subrange(0, i as int));
        }
        let mut metadata: Vec<Vec<KVPair>> = Vec::new();
        let mut i: usize = 0;
        while i < self.metadata.len()
            invariant
                i <= self.metadata@.len(),
                metadata@.len() == i,
                forall|j: int|
                    0 <= j < i ==> elem_views((#[trigger] metadata@[j])@) == elem_views(
                        self.metadata@[j]@,
                    ),
            decreases self.metadata@.len() - i,
        {
            metadata.push(duplicate_all(&self.metadata[i]));
            i = i + 1;
        }
        assert(ids@ =~= self.ids@);
        assert(children@ =~= self.children@);
        assert(vector_views(vectors@) =~= vector_views(self.vectors@));
        assert(metadata_views(metadata@) =~= metadata_views(self.metadata@));
        Node {
            vectors,
            ids,
            children,
            metadata,
            k: self.k,
            node_type: self.node_type,
            offset: self.offset,
            is_root: self.is_root,
            parent_offset: self.parent_offset,
        }
    }

    /// Splits the node in two clusters by two modes. The node keeps the
    /// first cluster; the one sibling that is handed out, not stored yet,
    /// takes the second. Each gets its least share of the entries, and one
    /// entry at least, in the order they had. Fails with `Corruption`,
    /// changing nothing, on a node with fewer than two entries or with lists
    /// that do not go together.
    pub fn split(&mut self) -> (r: Result<Vec<Node>, HaystackError>)
        ensures
            match r {
                Ok(siblings) => {
                    &&& old(self)@.vectors.len() >= 2
                    &&& aligned(old(self)@)
                    &&& siblings@.len() == 1
                    &&& fair_split(old(self)@, final(self)@, siblings@[0]@)
                },
                Err(e) => e == HaystackError::Corruption && *final(self) == *old(self) && !(old(self)@.vectors.len() >= 2 && aligned(old(self)@)),
            },
    {
        let n: usize = self.vectors.len();
        let fits = match self.node_type {
            NodeType::Leaf => self.ids.len() == n && self.metadata.len() == n
                && self.children.len() == 0,
            NodeType::Internal => self.children.len() == n && self.ids.len() == 0
                && self.metadata.len() == 0,
        };
        if n < 2 || !fits {
            return Err(HaystackError::Corruption);
        }
        let r = self.split_in_two();
        let ghost side = r.1@;
        let mut siblings: Vec<Node> = Vec::new();
        siblings.push(r.0);
        proof {
            assert(split_by(old(self)@, self@, siblings@[0]@, side) && fair(side) && clustered(
                old(self)@.vectors,
                side,
            ));
            assert(fair_split(old(self)@, self@, siblings@[0]@));
        }
        Ok(siblings)
    }

    /// Splits the node as `split` does and hands out the sibling with the
    /// flags that say which entry went where: a set flag for an entry that
    /// the sibling took.
    pub fn split_in_two(&mut self) -> (r: (Node, Vec<bool>))
        requires
            old(self)@.vectors.len() >= 2,
            aligned(old(self)@),
        ensures
            split_by(old(self)@, final(self)@, r.0@, r.1@),
            fair(r.1@),
            clustered(old(self)@.vectors, r.1@),
    {
        let n: usize = self.vectors.len();
        let side = balanced_k_modes(&self.vectors);
        let leaf = match self.node_type {
            NodeType::Leaf => true,
            NodeType::Internal => false,
        };
        let mut lv: Vec<Vector> = Vec::new();
        let mut rv: Vec<Vector> = Vec::new();
        let mut li: Vec<u128> = Vec::new();
        let mut ri: Vec<u128> = Vec::new();
        let mut lc: Vec<i64> = Vec::new();
        let mut rc: Vec<i64> = Vec::new();
        let mut lm: Vec<Vec<KVPair>> = Vec::new();
        let mut rm: Vec<Vec<KVPair>> = Vec::new();
        let ghost before = self@;
        let ghost s = side@;
        let mut i: usize = 0;
        proof {
            assert(before.vectors.subrange(0, 0) =~= Seq::<Seq<u8>>::empty());
            if leaf {
                assert(before.ids.subrange(0, 0) =~= Seq::<u128>::empty());
                assert(before.metadata.subrange(0, 0) =~= Seq::<Seq<KVPairView>>::empty());
            } else {
                assert(before.children.subrange(0, 0) =~= Seq::<i64>::empty());
            }
            assert(vector_views(lv@) =~= Seq::<Seq<u8>>::empty());
            assert(vector_views(rv@) =~= Seq::<Seq<u8>>::empty());
            assert(metadata_views(lm@) =~= Seq::<Seq<KVPairView>>::empty());
            assert(metadata_views(rm@) =~= Seq::<Seq<KVPairView>>::empty());
        }
        while i < n
            invariant
                i <= n,
                n == self.vectors@.len(),
                before == self@,
                aligned(before),
                s == side@,
                s.len() == n,
                leaf == (before.node_type == NodeType::Leaf),
                vector_views(lv@) == pick(
                    before.vectors.subrange(0, i as int),
                    s.subrange(0, i as int),
                    false,
                ),
                vector_views(rv@) == pick(
                    before.vectors.subrange(0, i as int),
                    s.subrange(0, i as int),
                    true,
                ),
                leaf ==> li@ == pick(before.ids.subrange(0, i as int), s.subrange(0, i as int), false),
                leaf ==> ri@ == pick(before.ids.subrange(0, i as int), s.subrange(0, i as int), true),
                leaf ==> metadata_views(lm@) == pick(
                    before.metadata.subrange(0, i as int),
                    s.subrange(0, i as int),
                    false,
                ),
                leaf ==> metadata_views(rm@) == pick(
                    before.metadata.subrange(0, i as int),
                    s.subrange(0, i as int),
                    true,
                ),
                !leaf ==> lc@ == pick(
                    before.children.subrange(0, i as int),
                    s.subrange(0, i as int),
                    false,
                ),
                !leaf ==> rc@ == pick(
                    before.children.subrange(0, i as int),
                    s.subrange(0, i as int),
                    true,
                ),
                !leaf ==> li@.len() == 0 && ri@.len() == 0 && lm@.len() == 0 && rm@.len() == 0,
                leaf ==> lc@.len() == 0 && rc@.len() == 0,
            decreases n - i,
        {
            proof {
                let flags = s.subrange(0, i + 1);
                assert(flags.drop_last() =~= s.subrange(0, i as int));
                assert(flags.last() == s[i as int]);
                let v = before.vectors.subrange(0, i + 1);
                assert(v.drop_last() =~= before.vectors.subrange(0, i as int));
                assert(v.last() == self.vectors@[i as int]@);
                if leaf {
                    let d = before.ids.subrange(0, i + 1);
                    assert(d.drop_last() =~= before.ids.subrange(0, i as int));
                    assert(d.last() == self.ids@[i as int]);
                    let m = before.metadata.subrange(0, i + 1);
                    assert(m.drop_last() =~= before.metadata.subrange(0, i as int));
                    assert(m.last() == elem_views(self.metadata@[i as int]@));
                } else {
                    let c = before.children.subrange(0, i + 1);
                    assert(c.drop_last() =~= before.children.subrange(0, i as int));
                    assert(c.last() == self.children@[i as int]);
                }
            }
            let ghost lv0 = vector_views(lv@);
            let ghost rv0 = vector_views(rv@);
            let ghost lm0 = metadata_views(lm@);
            let ghost rm0 = metadata_views(rm@);
            if side[i] {
                rv.push(copy_vector(&self.vectors[i]));
                assert(vector_views(rv@) =~= rv0.push(self.vectors@[i as int]@));
                assert(vector_views(lv@) =~= lv0);
                if leaf {
                    ri.push(self.ids[i]);
                    rm.push(duplicate_all(&self.metadata[i]));
                    assert(metadata_views(rm@) =~= rm0.push(elem_views(self.metadata@[i as int]@)));
                    assert(metadata_views(lm@) =~= lm0);
                } else {
                    rc.push(self.children[i]);
                }
            } else {
                lv.push(copy_vector(&self.vectors[i]));
                assert(vector_views(lv@) =~= lv0.push(self.vectors@[i as int]@));
                assert(vector_views(rv@) =~= rv0);
                if leaf {
                    li.push(self.ids[i]);
                    lm.push(duplicate_all(&self.metadata[i]));
                    assert(metadata_views(lm@) =~= lm0.push(elem_views(self.metadata@[i as int]@)));
                    assert(metadata_views(rm@) =~= rm0);
                } else {
                    lc.push(self.children[i]);
                }
            }
            i = i + 1;
        }
        proof {
            assert(before.vectors.subrange(0, n as int) =~= before.vectors);
            if leaf {
                assert(before.ids.subrange(0, n as int) =~= before.ids);
                assert(before.metadata.subrange(0, n as int) =~= before.metadata);
            } else {
                assert(before.children.subrange(0, n as int) =~= before.children);
            }
            assert(s.subrange(0, n as int) =~= s);
            assert(metadata_views(lm@).len() == lm@.len());
            assert(metadata_views(rm@).len() == rm@.len());
        }
        let sibling = Node {
            vectors: rv,
            ids: ri,
            children: rc,
            metadata: rm,
            k: self.k,
            node_type: self.node_type,
            offset: -1,
            is_root: false,
            parent_offset: self.parent_offset,
        };
        self.vectors = lv;
        self.ids = li;
        self.children = lc;
        self.metadata = lm;
        (sibling, side)
    }
}

impl Default for Node {
    fn default() -> (node: Self)
        ensures
            node@.vectors.len() == 0,
            node@.ids.len() == 0,
            node@.children.len() == 0,
            node@.metadata.len() == 0,
            node.k == K,
            node.node_type == NodeType::Leaf,
            node.offset == -1,
            !node.is_root,
            node.parent_offset is None,
    {
        Node::new_leaf()
    }
}

} // verus!
