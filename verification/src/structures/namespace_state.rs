use crate::errors::HaystackError;
use crate::structures::dense_vector_list::{spec_vectors_bytes, spec_vectors_parse, DenseVectorList};
use crate::structures::inverted_index::{InvertedIndex, InvertedIndexItem, InvertedIndexItemView};
use crate::structures::metadata_index::{
    KVPair, KVPairView, MetadataIndex, MetadataIndexItem, MetadataIndexItemView,
};
use crate::structures::tree::serialization::{
    copy_range, frame, parse_frame, read_frame, write_frame,
};
use crate::structures::tree::{
    empty_room, fold_entries, image_in_order, node_views, spec_tree_nodes, spec_tree_parse,
};
use vstd::prelude::*;

verus! {

/// What a namespace holds: the records by id, the posting lists by
/// attribute, and the vectors by index.
pub struct NamespaceState {
    pub namespace_id: String,
    pub metadata_index: MetadataIndex,
    pub inverted_index: InvertedIndex,
    pub vectors: DenseVectorList,
}

/// The image of a namespace: the images of the metadata index, of the
/// inverted index and of the vector store, each behind its length in eight
/// bytes.
pub open spec fn spec_state_bytes(metadata: Seq<u8>, inverted: Seq<u8>, vectors: Seq<u8>) -> Seq<u8> {
    frame(true, metadata) + frame(true, inverted) + frame(true, vectors)
}

/// The three images that an image of a namespace holds, if it is one.
pub open spec fn spec_state_parse(s: Seq<u8>) -> Option<(Seq<u8>, Seq<u8>, Seq<u8>)> {
    match parse_frame(true, s, 0) {
        Some((metadata, p)) => match parse_frame(true, s, p) {
            Some((inverted, q)) => match parse_frame(true, s, q) {
                Some((vectors, end)) => if end == s.len() {
                    Some((metadata, inverted, vectors))
                } else {
                    None
                },
                None => None,
            },
            None => None,
        },
        None => None,
    }
}

/// What an image of a namespace stands for: the records, the posting lists
/// and the vectors, if each of its three parts is an image of its kind.
pub open spec fn spec_state_content(s: Seq<u8>) -> Option<
    (Map<u128, MetadataIndexItemView>, Map<KVPairView, InvertedIndexItemView>, Seq<Seq<u8>>),
> {
    match spec_state_parse(s) {
        Some((metadata, inverted, vectors)) => match (
            spec_tree_parse::<u128, MetadataIndexItem>(metadata),
            spec_tree_parse::<KVPair, InvertedIndexItem>(inverted),
            spec_vectors_parse(vectors),
        ) {
            (Some(m), Some(i), Some(v)) => Some(
                (fold_entries(Map::empty(), m.1), fold_entries(Map::empty(), i.1), v),
            ),
            _ => None,
        },
        None => None,
    }
}

/// Whether `s` is the image of a state in order: its first two parts are
/// images of trees in order, of records and of posting lists, and its
/// third part is an image of vectors.
pub open spec fn spec_state_in_order(s: Seq<u8>) -> bool {
    match spec_state_parse(s) {
        Some((metadata, inverted, vectors)) => {
            &&& image_in_order::<u128, MetadataIndexItem>(metadata)
            &&& image_in_order::<KVPair, InvertedIndexItem>(inverted)
            &&& spec_vectors_parse(vectors) is Some
        },
        None => false,
    }
}

impl NamespaceState {
    /// The invariant of the state: that of its two indices.
    pub open spec fn wf(&self) -> bool {
        self.metadata_index.wf() && self.inverted_index.wf()
    }

    /// The image of the state.
    pub open spec fn image(&self) -> Seq<u8> {
        spec_state_bytes(
            self.metadata_index.tree.image(),
            self.inverted_index.tree.image(),
            spec_vectors_bytes(self.vectors@),
        )
    }

    /// Whether the state is what the image `s` holds: the nodes of both
    /// trees at their offsets, with fan-out and root, and the vectors.
    pub open spec fn restored_from(&self, s: Seq<u8>) -> bool {
        match spec_state_parse(s) {
            Some((metadata, inverted, vectors)) => {
                &&& spec_tree_nodes::<u128, MetadataIndexItem>(metadata) == Some(
                    (
                        self.metadata_index.tree.b,
                        self.metadata_index.tree.storage_manager.root_offset,
                        node_views(self.metadata_index.tree.nodes()),
                    ),
                )
                &&& spec_tree_nodes::<KVPair, InvertedIndexItem>(inverted) == Some(
                    (
                        self.inverted_index.tree.b,
                        self.inverted_index.tree.storage_manager.root_offset,
                        node_views(self.inverted_index.tree.nodes()),
                    ),
                )
                &&& spec_vectors_parse(vectors) == Some(self.vectors@)
            },
            None => false,
        }
    }

    /// Whether the images of the parts of the state fit the lengths of the
    /// image. Every state in memory does.
    pub open spec fn image_fits(&self) -> bool {
        &&& self.metadata_index.tree.encodable()
        &&& self.inverted_index.tree.encodable()
        &&& self.metadata_index.tree.image().len() <= u64::MAX
        &&& self.inverted_index.tree.image().len() <= u64::MAX
        &&& self.vectors@.len() <= u64::MAX
        &&& spec_vectors_bytes(self.vectors@).len() <= u64::MAX
    }

    /// An empty namespace with the name `namespace_id`.
    pub fn new(namespace_id: String) -> (state: Self)
        ensures
            state.wf(),
            state.namespace_id == namespace_id,
            state.metadata_index@ == Map::<u128, MetadataIndexItemView>::empty(),
            state.inverted_index@ == Map::<KVPairView, InvertedIndexItemView>::empty(),
            state.vectors@.len() == 0,
            forall|m: nat| #[trigger] state.metadata_index.tree.room(m) <==> empty_room(m),
            forall|m: nat| #[trigger] state.inverted_index.tree.room(m) <==> empty_room(m),
    {
        NamespaceState {
            namespace_id,
            metadata_index: MetadataIndex::new(),
            inverted_index: InvertedIndex::new(),
            vectors: DenseVectorList::new(1000),
        }
    }

    /// The image of the state.
    pub fn save_state(&mut self) -> (bytes: Vec<u8>)
        requires
            old(self).wf(),
        ensures
            *final(self) == *old(self),
            bytes@ == old(self).image(),
            old(self).image_fits(),
    {
        let metadata = self.metadata_index.to_binary();
        let inverted = self.inverted_index.to_binary();
        let vectors = self.vectors.to_binary();
        let count: usize = self.vectors.len();
        let sizes: (usize, usize, usize) = (metadata.len(), inverted.len(), vectors.len());
        let mut state: Vec<u8> = Vec::new();
        write_frame(&mut state, metadata.as_slice(), true);
        write_frame(&mut state, inverted.as_slice(), true);
        write_frame(&mut state, vectors.as_slice(), true);
        state
    }

    /// Puts in place of the state what `data` is the image of: the nodes of
    /// both trees at their offsets, and the vectors; the name stays. Fails
    /// with `Corruption`, changing nothing, exactly when `data` is no image
    /// of a state in order.
    pub fn load_state(&mut self, data: Vec<u8>) -> (r: Result<(), HaystackError>)
        ensures
            final(self).namespace_id == old(self).namespace_id,
            match r {
                Ok(()) => {
                    &&& final(self).wf()
                    &&& spec_state_in_order(data@)
                    &&& final(self).restored_from(data@)
                    &&& spec_state_content(data@) == Some(
                        (
                            final(self).metadata_index@,
                            final(self).inverted_index@,
                            final(self).vectors@,
                        ),
                    )
                },
                Err(e) => {
                    &&& *final(self) == *old(self)
                    &&& e == HaystackError::Corruption
                    &&& !spec_state_in_order(data@)
                },
            },
    {
        let bytes = data.as_slice();
        let total: usize = bytes.len();
        let (ms, me) = match read_frame(bytes, 0, true) {
            Some(x) => x,
            None => {
                return Err(HaystackError::Corruption);
            },
        };
        let (is, ie) = match read_frame(bytes, me, true) {
            Some(x) => x,
            None => {
                return Err(HaystackError::Corruption);
            },
        };
        let (vs, ve) = match read_frame(bytes, ie, true) {
            Some(x) => x,
            None => {
                return Err(HaystackError::Corruption);
            },
        };
        if ve != total {
            return Err(HaystackError::Corruption);
        }
        let vectors = match DenseVectorList::from_binary(
            vstd::slice::slice_subrange(bytes, vs, ve),
        ) {
            Ok(x) => x,
            Err(e) => {
                return Err(e);
            },
        };
        let ghost mb = bytes@.subrange(ms as int, me as int);
        let ghost ib = bytes@.subrange(is as int, ie as int);
        let metadata = MetadataIndex::from_binary(copy_range(bytes, ms, me));
        let inverted = InvertedIndex::from_binary(copy_range(bytes, is, ie));
        match (metadata, inverted) {
            (Ok(m), Ok(i)) => {
                self.metadata_index = m;
                self.inverted_index = i;
                self.vectors = vectors;
                Ok(())
            },
            (Err(e), _) => Err(e),
            (Ok(_), Err(e)) => Err(e),
        }
    }
}

} // verus!
