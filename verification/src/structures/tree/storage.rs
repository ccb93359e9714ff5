use crate::errors::HaystackError;
use crate::structures::tree::key_order::TreeKey;
use crate::structures::tree::node::Node;
use crate::structures::tree::serialization::TreeSerialization;
use vstd::prelude::*;

verus! {

/// The flat array in which the nodes of a tree live. A node's offset is its
/// index in the array.
pub struct StorageManager<K, V> {
    pub data: Vec<Node<K, V>>,
    pub root_offset: i64,
}

impl<K: TreeKey + TreeSerialization, V: TreeSerialization> StorageManager<K, V> {
    /// An empty array, with the root offset at zero.
    pub fn new() -> (s: Self)
        ensures
            s.data@.len() == 0,
            s.root_offset == 0,
    {
        StorageManager { data: Vec::new(), root_offset: 0 }
    }

    /// Stores a copy of the node. A node with offset -1 is new: it goes to
    /// the end of the array and learns its offset. Any other node takes the
    /// place of the node at its offset. Fails with `OutOfBounds`, changing
    /// nothing, when the offset is no index of the array, or when the array
    /// cannot take one more.
    pub fn store_node(&mut self, node: &mut Node<K, V>) -> (r: Result<i64, HaystackError>)
        ensures
            final(self).root_offset == old(self).root_offset,
            final(node)@.keys == old(node)@.keys,
            final(node)@.values == old(node)@.values,
            final(node).children == old(node).children,
            final(node).node_type == old(node).node_type,
            final(node).is_root == old(node).is_root,
            final(node).parent_offset == old(node).parent_offset,
            match r {
                Ok(offset) => {
                    &&& final(node).offset == offset
                    &&& if old(node).offset == -1 {
                        &&& old(self).data@.len() < i64::MAX
                        &&& offset == old(self).data@.len()
                        &&& final(self).data@.len() == old(self).data@.len() + 1
                        &&& forall|i: int|
                            0 <= i < old(self).data@.len() ==> final(self).data@[i] == old(self).data@[i]
                    } else {
                        &&& offset == old(node).offset
                        &&& 0 <= offset < old(self).data@.len()
                        &&& final(self).data@.len() == old(self).data@.len()
                        &&& forall|i: int|
                            0 <= i < old(self).data@.len() && i != offset ==> final(self).data@[i]
                                == old(self).data@[i]
                    }
                    &&& final(self).data@[offset as int]@ == final(node)@
                },
                Err(e) => {
                    &&& e == HaystackError::OutOfBounds
                    &&& *final(self) == *old(self)
                    &&& *final(node) == *old(node)
                    &&& if old(node).offset == -1 {
                        old(self).data@.len() >= i64::MAX
                    } else {
                        !(0 <= old(node).offset < old(self).data@.len())
                    }
                },
            },
    {
        if node.offset == -1 {
            let n: usize = self.data.len();
            if n as u64 >= i64::MAX as u64 {
                return Err(HaystackError::OutOfBounds);
            }
            node.offset = n as i64;
            self.data.push(node.duplicate());
            return Ok(node.offset);
        }
        if node.offset < 0 || node.offset as u64 >= self.data.len() as u64 {
            return Err(HaystackError::OutOfBounds);
        }
        let offset: usize = node.offset as usize;
        self.data[offset] = node.duplicate();
        Ok(node.offset)
    }

    /// A copy of the node at `offset`, which the copy has as its offset.
    /// Fails with `OutOfBounds` exactly when `offset` is no index of the
    /// array.
    pub fn load_node(&mut self, offset: i64) -> (r: Result<Node<K, V>, HaystackError>)
        ensures
            *final(self) == *old(self),
            match r {
                Ok(node) => {
                    &&& 0 <= offset < old(self).data@.len()
                    &&& node.offset == offset
                    &&& node@.keys == old(self).data@[offset as int]@.keys
                    &&& node@.values == old(self).data@[offset as int]@.values
                    &&& node.children@ == old(self).data@[offset as int].children@
                    &&& node.node_type == old(self).data@[offset as int].node_type
                    &&& node.is_root == old(self).data@[offset as int].is_root
                    &&& node.parent_offset == old(self).data@[offset as int].parent_offset
                },
                Err(e) => e == HaystackError::OutOfBounds && !(0 <= offset < old(self).data@.len()),
            },
    {
        if offset < 0 || offset as u64 >= self.data.len() as u64 {
            return Err(HaystackError::OutOfBounds);
        }
        let mut node = self.data[offset as usize].duplicate();
        node.offset = offset;
        Ok(node)
    }

    /// The offset of the root.
    pub fn root_offset(&self) -> (offset: i64)
        ensures
            offset == self.root_offset,
    {
        self.root_offset
    }

    /// Makes `root_offset` the offset of the root.
    pub fn set_root_offset(&mut self, root_offset: i64)
        ensures
            final(self).root_offset == root_offset,
            final(self).data == old(self).data,
    {
        self.root_offset = root_offset;
    }
}

} // verus!
