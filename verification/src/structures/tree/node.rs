use crate::errors::HaystackError;
use crate::structures::tree::key_order::TreeKey;
use crate::structures::tree::serialization::{
    duplicate_all, elem_views, read_u32, spec_read_u32, write_u32, TreeDeserialization,
    TreeSerialization,
};
use vstd::bytes::*;
use vstd::prelude::*;

verus! {

/// The two kinds of node.
#[derive(Debug, Clone, Copy, PartialEq, Eq, Structural)]
pub enum NodeType {
    Leaf,
    Internal,
}

/// A node of the B+-tree. A leaf holds keys with their values; an internal
/// node holds separator keys and one more child offset than keys.
#[derive(Debug)]
pub struct Node<K, V> {
    pub keys: Vec<K>,
    pub values: Vec<Option<V>>,
    pub children: Vec<i64>,
    pub node_type: NodeType,
    pub offset: i64,
    pub is_root: bool,
    pub parent_offset: Option<i64>,
}

/// What a node holds, keys and values by their views.
pub ghost struct NodeView<KV, VV> {
    pub keys: Seq<KV>,
    pub values: Seq<Option<VV>>,
    pub children: Seq<i64>,
    pub node_type: NodeType,
    pub offset: i64,
    pub is_root: bool,
    pub parent_offset: Option<i64>,
}

/// The view of an optional value.
pub open spec fn option_view<V: View>(o: Option<V>) -> Option<V::V> {
    match o {
        Some(v) => Some(v@),
        None => None,
    }
}

/// The views of a list of optional values.
pub open spec fn option_views<V: View>(s: Seq<Option<V>>) -> Seq<Option<V::V>> {
    Seq::new(s.len(), |i: int| option_view(s[i]))
}

/// Whether the keys stand in strictly ascending order.
pub open spec fn keys_sorted<K: TreeKey>(keys: Seq<K>) -> bool {
    forall|i: int, j: int| 0 <= i < j < keys.len() ==> K::key_lt(#[trigger] keys[i]@, #[trigger] keys[j]@)
}

/// The number of keys of a sorted list that come before `key`.
pub fn lower_bound<K: TreeKey>(keys: &Vec<K>, key: &K) -> (pos: usize)
    requires
        keys_sorted(keys@),
    ensures
        pos <= keys@.len(),
        forall|j: int| 0 <= j < pos ==> K::key_lt(#[trigger] keys@[j]@, key@),
        forall|j: int| pos <= j < keys@.len() ==> !K::key_lt(#[trigger] keys@[j]@, key@),
{
    let mut lo: usize = 0;
    let mut hi: usize = keys.len();
    while lo < hi
        invariant
            lo <= hi <= keys@.len(),
            keys_sorted(keys@),
            forall|j: int| 0 <= j < lo ==> K::key_lt(#[trigger] keys@[j]@, key@),
            forall|j: int| hi <= j < keys@.len() ==> !K::key_lt(#[trigger] keys@[j]@, key@),
        decreases hi - lo,
    {
        let mid: usize = lo + (hi - lo) / 2;
        if keys[mid].less_than(key) {
            assert forall|j: int| 0 <= j < mid + 1 implies K::key_lt(
                #[trigger] keys@[j]@,
                key@,
            ) by {
                if j < mid {
                    K::lemma_key_order(keys@[j]@, keys@[mid as int]@, key@);
                }
            }
            lo = mid + 1;
        } else {
            assert forall|j: int| mid <= j < keys@.len() implies !K::key_lt(
                #[trigger] keys@[j]@,
                key@,
            ) by {
                if j > mid {
                    K::lemma_key_order(keys@[mid as int]@, keys@[j]@, key@);
                }
            }
            hi = mid;
        }
    }
    lo
}

/// Appends a count as four little-endian bytes.
pub fn serialize_length(out: &mut Vec<u8>, length: u32)
    ensures
        final(out)@ == old(out)@ + spec_u32_to_le_bytes(length),
{
    write_u32(out, length);
}

/// Reads a count from the first four bytes.
pub fn read_length(data: &[u8]) -> (length: usize)
    requires
        data@.len() >= 4,
    ensures
        Some(length as u32) == spec_read_u32(data@, 0),
        length <= u32::MAX,
{
    match read_u32(data, 0) {
        Some(n) => n as usize,
        None => 0,
    }
}

impl<K: TreeKey + TreeSerialization, V: TreeSerialization> View for Node<K, V> {
    type V = NodeView<K::V, V::V>;

    open spec fn view(&self) -> NodeView<K::V, V::V> {
        NodeView {
            keys: elem_views(self.keys@),
            values: option_views(self.values@),
            children: self.children@,
            node_type: self.node_type,
            offset: self.offset,
            is_root: self.is_root,
            parent_offset: self.parent_offset,
        }
    }
}

/// The parent offset that an argument stands for: none when it is negative.
pub open spec fn spec_parent(parent_offset: i64) -> Option<i64> {
    if parent_offset < 0 {
        None
    } else {
        Some(parent_offset)
    }
}

impl<K: TreeKey + TreeSerialization, V: TreeSerialization> Node<K, V> {
    /// An empty leaf that is not stored yet, below the given parent; a
    /// negative parent offset stands for none.
    pub fn new_leaf(parent_offset: i64) -> (node: Self)
        ensures
            node.keys@.len() == 0,
            node.values@.len() == 0,
            node.children@.len() == 0,
            node.node_type == NodeType::Leaf,
            node.offset == -1,
            !node.is_root,
            node.parent_offset == spec_parent(parent_offset),
    {
        Node {
            keys: Vec::new(),
            values: Vec::new(),
            children: Vec::new(),
            node_type: NodeType::Leaf,
            offset: -1,
            is_root: false,
            parent_offset: if parent_offset < 0 {
                None
            } else {
                Some(parent_offset)
            },
        }
    }

    /// An empty internal node that is not stored yet, below the given
    /// parent; a negative parent offset stands for none.
    pub fn new_internal(parent_offset: i64) -> (node: Self)
        ensures
            node.keys@.len() == 0,
            node.values@.len() == 0,
            node.children@.len() == 0,
            node.node_type == NodeType::Internal,
            node.offset == -1,
            !node.is_root,
            node.parent_offset == spec_parent(parent_offset),
    {
        Node {
            keys: Vec::new(),
            values: Vec::new(),
            children: Vec::new(),
            node_type: NodeType::Internal,
            offset: -1,
            is_root: false,
            parent_offset: if parent_offset < 0 {
                None
            } else {
                Some(parent_offset)
            },
        }
    }

    /// Whether the node holds as many keys as the fan-out `b` allows.
    pub fn is_full(&self, b: usize) -> (full: bool)
        ensures
            full == (self.keys@.len() >= b),
    {
        self.keys.len() >= b
    }

    /// A copy with the same view.
    pub fn duplicate(&self) -> (copy: Self)
        ensures
            copy@ == self@,
            copy.children@ == self.children@,
            copy.keys@.len() == self.keys@.len(),
            copy.values@.len() == self.values@.len(),
    {
        let mut values: Vec<Option<V>> = Vec::new();
        let mut i: usize = 0;
        while i < self.values.len()
            invariant
                i <= self.values@.len(),
                values@.len() == i,
                forall|j: int|
                    0 <= j < i ==> option_view(#[trigger] values@[j]) == option_view(
                        self.values@[j],
                    ),
            decreases self.values@.len() - i,
        {
            let v = match &self.values[i] {
                Some(v) => Some(v.duplicate()),
                None => None,
            };
            values.push(v);
            i = i + 1;
        }
        let mut children: Vec<i64> = Vec::new();
        let mut c: usize = 0;
        while c < self.children.len()
            invariant
                c <= self.children@.len(),
                children@ == self.children@.subrange(0, c as int),
            decreases self.children@.len() - c,
        {
            children.push(self.children[c]);
            c = c + 1;
            assert(children@ =~= self.children@.subrange(0, c as int));
        }
        assert(children@ =~= self.children@);
        assert(option_views(values@) =~= option_views(self.values@));
        let keys = duplicate_all(&self.keys);
        assert(keys@.len() == elem_views(keys@).len());
        assert(self.keys@.len() == elem_views(self.keys@).len());
        Node {
            keys,
            values,
            children,
            node_type: self.node_type,
            offset: self.offset,
            is_root: self.is_root,
            parent_offset: self.parent_offset,
        }
    }

    /// Whether the node can be split in two: a leaf with two keys or more
    /// and a value for each, an internal node with three keys or more and
    /// one more child than keys.
    pub open spec fn can_split(&self) -> bool {
        match self.node_type {
            NodeType::Leaf => self.keys@.len() >= 2 && self.values@.len() == self.keys@.len(),
            NodeType::Internal => self.keys@.len() >= 3 && self.children@.len() == self.keys@.len()
                + 1,
        }
    }

    /// Splits the node at its middle key. The node keeps what stands before
    /// it; the new sibling, not stored yet, takes what stands behind it. A
    /// leaf's middle key goes to the sibling and a copy of it is handed out
    /// as the separator; an internal node's middle key leaves the node and
    /// is the separator.
    pub fn split_at_middle(&mut self) -> (r: (K, Node<K, V>))
        requires
            old(self).can_split(),
        ensures
            split_result(*old(self), *final(self), r.0, r.1),
    {
        let n: usize = self.keys.len();
        let mid: usize = n / 2;
        match self.node_type {
            NodeType::Leaf => {
                let keys = self.keys.split_off(mid);
                let values = self.values.split_off(mid);
                let median = keys[0].duplicate();
                let sibling = Node {
                    keys,
                    values,
                    children: Vec::new(),
                    node_type: NodeType::Leaf,
                    offset: -1,
                    is_root: false,
                    parent_offset: self.parent_offset,
                };
                (median, sibling)
            },
            NodeType::Internal => {
                let keys = self.keys.split_off(mid + 1);
                let children = self.children.split_off(mid + 1);
                let median = self.keys.remove(mid);
                let sibling = Node {
                    keys,
                    values: Vec::new(),
                    children,
                    node_type: NodeType::Internal,
                    offset: -1,
                    is_root: false,
                    parent_offset: self.parent_offset,
                };
                assert(self.keys@ =~= old(self).keys@.subrange(0, mid as int));
                (median, sibling)
            },
        }
    }

    /// Splits the node as `split_at_middle` does. Fails with `Corruption`,
    /// changing nothing, on a node that cannot be split.
    pub fn split(&mut self) -> (r: Result<(K, Node<K, V>), HaystackError>)
        ensures
            match r {
                Ok((median, sibling)) => old(self).can_split() && split_result(
                    *old(self),
                    *final(self),
                    median,
                    sibling,
                ),
                Err(e) => e == HaystackError::Corruption && *final(self) == *old(self)
                    && !old(self).can_split(),
            },
    {
        let n: usize = self.keys.len();
        let fits = match self.node_type {
            NodeType::Leaf => n >= 2 && self.values.len() == n,
            NodeType::Internal => n >= 3 && self.children.len() > 0 && self.children.len() - 1
                == n,
        };
        if !fits {
            return Err(HaystackError::Corruption);
        }
        Ok(self.split_at_middle())
    }

    /// Puts `value` under `key` in a leaf whose keys are sorted: in place of
    /// the value that the key had, or at the key's place in the order.
    pub fn set_key_value(&mut self, key: K, value: V)
        requires
            keys_sorted(old(self).keys@),
            old(self).values@.len() == old(self).keys@.len(),
        ensures
            keys_sorted(final(self).keys@),
            final(self).values@.len() == final(self).keys@.len(),
            final(self).children == old(self).children,
            final(self).node_type == old(self).node_type,
            final(self).offset == old(self).offset,
            final(self).is_root == old(self).is_root,
            final(self).parent_offset == old(self).parent_offset,
            ({
                let pos = spec_position(old(self).keys@, key@);
                if spec_holds(old(self).keys@, key@) {
                    &&& final(self).keys@ == old(self).keys@
                    &&& final(self).values@ == old(self).values@.update(pos, Some(value))
                } else {
                    &&& final(self).keys@ == old(self).keys@.insert(pos, key)
                    &&& final(self).values@ == old(self).values@.insert(pos, Some(value))
                }
            }),
    {
        let pos = lower_bound(&self.keys, &key);
        proof {
            lemma_position(self.keys@, key@, pos as int);
        }
        if pos < self.keys.len() && !key.less_than(&self.keys[pos]) {
            proof {
                K::lemma_key_order(key@, self.keys@[pos as int]@, key@);
            }
            self.values[pos] = Some(value);
        } else {
            proof {
                assert forall|j: int| pos <= j < self.keys@.len() implies K::key_lt(
                    key@,
                    #[trigger] self.keys@[j]@,
                ) by {
                    K::lemma_key_order(key@, self.keys@[pos as int]@, self.keys@[j]@);
                }
                lemma_insert_keeps_sorted(self.keys@, key, pos as int);
            }
            self.keys.insert(pos, key);
            self.values.insert(pos, Some(value));
        }
    }
}

/// What a split makes of a node: `before` becomes `after` and `sibling`,
/// with `median` as the separator between them.
pub open spec fn split_result<K: View, V>(
    before: Node<K, V>,
    after: Node<K, V>,
    median: K,
    sibling: Node<K, V>,
) -> bool {
    &&& split_shape(before, after, median, sibling)
    &&& after.offset == before.offset
    &&& after.is_root == before.is_root
    &&& after.parent_offset == before.parent_offset
    &&& sibling.offset == -1
    &&& !sibling.is_root
    &&& sibling.parent_offset == before.parent_offset
}

/// What a split makes of a node's keys, values and children.
pub open spec fn split_shape<K: View, V>(
    before: Node<K, V>,
    after: Node<K, V>,
    median: K,
    sibling: Node<K, V>,
) -> bool {
    let mid = before.keys@.len() as int / 2;
    let n = before.keys@.len() as int;
    &&& median@ == before.keys@[mid]@
    &&& after.keys@ == before.keys@.subrange(0, mid)
    &&& after.node_type == before.node_type
    &&& sibling.node_type == before.node_type
    &&& match before.node_type {
        NodeType::Leaf => {
            &&& sibling.keys@ == before.keys@.subrange(mid, n)
            &&& after.values@ == before.values@.subrange(0, mid)
            &&& sibling.values@ == before.values@.subrange(mid, n)
            &&& after.children@ == before.children@
            &&& sibling.children@.len() == 0
        },
        NodeType::Internal => {
            &&& sibling.keys@ == before.keys@.subrange(mid + 1, n)
            &&& after.values@ == before.values@
            &&& sibling.values@.len() == 0
            &&& after.children@ == before.children@.subrange(0, mid + 1)
            &&& sibling.children@ == before.children@.subrange(mid + 1, n + 1)
        },
    }
}

/// The number of keys that come before `key`.
pub open spec fn spec_position<K: TreeKey>(keys: Seq<K>, key: K::V) -> int
    decreases keys.len(),
{
    if keys.len() == 0 {
        0
    } else if K::key_lt(keys.last()@, key) {
        keys.len() as int
    } else {
        spec_position(keys.drop_last(), key)
    }
}

/// Whether one of the keys has the view `key`.
pub open spec fn spec_holds<K: TreeKey>(keys: Seq<K>, key: K::V) -> bool {
    exists|j: int| 0 <= j < keys.len() && (#[trigger] keys[j])@ == key
}

/// In a sorted list, the place that splits the keys before `key` from the
/// rest is the number of keys before it, and the key, if held, stands there.
pub proof fn lemma_position<K: TreeKey>(keys: Seq<K>, key: K::V, pos: int)
    requires
        keys_sorted(keys),
        0 <= pos <= keys.len(),
        forall|j: int| 0 <= j < pos ==> K::key_lt(#[trigger] keys[j]@, key),
        forall|j: int| pos <= j < keys.len() ==> !K::key_lt(#[trigger] keys[j]@, key),
    ensures
        spec_position(keys, key) == pos,
        spec_holds(keys, key) <==> (pos < keys.len() && keys[pos]@ == key),
    decreases keys.len(),
{
    if keys.len() > 0 {
        if K::key_lt(keys.last()@, key) {
            assert(pos == keys.len());
        } else {
            let rest = keys.drop_last();
            assert(keys_sorted(rest)) by {
                assert forall|i: int, j: int| 0 <= i < j < rest.len() implies K::key_lt(
                    #[trigger] rest[i]@,
                    #[trigger] rest[j]@,
                ) by {
                    assert(rest[i] == keys[i] && rest[j] == keys[j]);
                }
            }
            assert(pos < keys.len());
            assert forall|j: int| 0 <= j < pos implies K::key_lt(#[trigger] rest[j]@, key) by {
                assert(rest[j] == keys[j]);
            }
            assert forall|j: int| pos <= j < rest.len() implies !K::key_lt(
                #[trigger] rest[j]@,
                key,
            ) by {
                assert(rest[j] == keys[j]);
            }
            lemma_position(rest, key, pos);
        }
    }
    if spec_holds(keys, key) {
        let j = choose|j: int| 0 <= j < keys.len() && (#[trigger] keys[j])@ == key;
        K::lemma_key_order(key, key, key);
        assert(!K::key_lt(keys[j]@, key));
        assert(j >= pos);
        if j > pos {
            K::lemma_key_order(keys[pos]@, keys[j]@, keys[pos]@);
            assert(K::key_lt(keys[pos]@, keys[j]@));
            assert(false);
        }
    }
}

/// Putting a key between the keys before it and the keys after it keeps the
/// order.
pub proof fn lemma_insert_keeps_sorted<K: TreeKey>(keys: Seq<K>, key: K, pos: int)
    requires
        keys_sorted(keys),
        0 <= pos <= keys.len(),
        forall|j: int| 0 <= j < pos ==> K::key_lt(#[trigger] keys[j]@, key@),
        forall|j: int| pos <= j < keys.len() ==> K::key_lt(key@, #[trigger] keys[j]@),
    ensures
        keys_sorted(keys.insert(pos, key)),
{
    let after = keys.insert(pos, key);
    assert forall|i: int, j: int| 0 <= i < j < after.len() implies K::key_lt(
        #[trigger] after[i]@,
        #[trigger] after[j]@,
    ) by {
        if i < pos && j < pos {
            assert(after[i] == keys[i] && after[j] == keys[j]);
        } else if i < pos && j == pos {
            assert(after[i] == keys[i]);
        } else if i < pos && j > pos {
            assert(after[i] == keys[i] && after[j] == keys[j - 1]);
        } else if i == pos {
            assert(after[j] == keys[j - 1]);
        } else {
            assert(after[i] == keys[i - 1] && after[j] == keys[j - 1]);
        }
    }
}

} // verus!
