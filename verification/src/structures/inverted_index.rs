use crate::errors::HaystackError;
use crate::structures::metadata_index::{KVPair, KVPairView};
use crate::structures::tree::serialization::{
    decode_blobs,
    decode_each,
    elem_views,
    encode_each,
    encode_values,
    lemma_decode_each_of_encode_each,
    lemma_long_chunks_round_trip,
    long_chunks,
    parse_long_chunks,
    read_long_chunks,
    write_long_chunks,
    TreeDeserialization,
    TreeSerialization,
};
use crate::structures::tree::{
    empty_room, fold_entries, image_in_order, node_views, spec_tree_nodes, spec_tree_parse, Tree,
    DEFAULT_FANOUT,
};
use vstd::bytes::*;
use vstd::prelude::*;

verus! {

/// A posting list: the vector indices and the ids of the records that have
/// an attribute, pair by pair at the same place of two lists.
#[derive(Debug)]
pub struct InvertedIndexItem {
    pub indices: Vec<usize>,
    pub ids: Vec<u128>,
}

/// What a posting list holds.
pub ghost struct InvertedIndexItemView {
    pub indices: Seq<usize>,
    pub ids: Seq<u128>,
}

impl View for InvertedIndexItem {
    type V = InvertedIndexItemView;

    open spec fn view(&self) -> InvertedIndexItemView {
        InvertedIndexItemView { indices: self.indices@, ids: self.ids@ }
    }
}

/// The image of a posting list: the indices in eight bytes each behind
/// their count in eight bytes, then the ids in sixteen bytes each behind
/// their count in eight bytes.
pub open spec fn spec_posting_bytes(v: InvertedIndexItemView) -> Seq<u8> {
    long_chunks(encode_each::<usize>(v.indices)) + long_chunks(encode_each::<u128>(v.ids))
}

/// The posting list that `s` is the image of, if it is one.
pub open spec fn spec_posting_parse(s: Seq<u8>) -> Option<InvertedIndexItemView> {
    match parse_long_chunks(s, 0, 8) {
        Some((ib, p)) => match (decode_each::<usize>(ib), parse_long_chunks(s, p, 16)) {
            (Some(indices), Some((db, q))) => match decode_each::<u128>(db) {
                Some(ids) => if q == s.len() {
                    Some(InvertedIndexItemView { indices, ids })
                } else {
                    None
                },
                None => None,
            },
            _ => None,
        },
        None => None,
    }
}

impl InvertedIndexItem {
    /// The two lists of the posting list.
    pub fn get_indices(self) -> (r: (Vec<usize>, Vec<u128>))
        ensures
            r.0@ == self.indices@,
            r.1@ == self.ids@,
    {
        (self.indices, self.ids)
    }
}

impl TreeSerialization for InvertedIndexItem {
    open spec fn spec_encodable(v: InvertedIndexItemView) -> bool {
        v.indices.len() <= u64::MAX && v.ids.len() <= u64::MAX
    }

    open spec fn spec_serialize(v: InvertedIndexItemView) -> Seq<u8> {
        spec_posting_bytes(v)
    }

    fn serialize(&self) -> (bytes: Vec<u8>) {
        let mut out: Vec<u8> = Vec::new();
        let ni: usize = self.indices.len();
        let nd: usize = self.ids.len();
        let ib = encode_values::<usize>(&self.indices);
        write_long_chunks(&mut out, &ib);
        let db = encode_values::<u128>(&self.ids);
        write_long_chunks(&mut out, &db);
        proof {
            assert(elem_views(self.indices@) =~= self.indices@);
            assert(elem_views(self.ids@) =~= self.ids@);
        }
        out
    }

    fn duplicate(&self) -> (copy: Self) {
        let mut indices: Vec<usize> = Vec::new();
        let mut i: usize = 0;
        while i < self.indices.len()
            invariant
                i <= self.indices@.len(),
                indices@ == self.indices@.subrange(0, i as int),
            decreases self.indices@.len() - i,
        {
            indices.push(self.indices[i]);
            i = i + 1;
            assert(indices@ =~= self.indices@.subrange(0, i as int));
        }
        let mut ids: Vec<u128> = Vec::new();
        let mut j: usize = 0;
        while j < self.ids.len()
            invariant
                j <= self.ids@.len(),
                ids@ == self.ids@.subrange(0, j as int),
            decreases self.ids@.len() - j,
        {
            ids.push(self.ids[j]);
            j = j + 1;
            assert(ids@ =~= self.ids@.subrange(0, j as int));
        }
        assert(indices@ =~= self.indices@);
        assert(ids@ =~= self.ids@);
        InvertedIndexItem { indices, ids }
    }
}

impl TreeDeserialization for InvertedIndexItem {
    open spec fn spec_deserialize(bytes: Seq<u8>) -> Option<InvertedIndexItemView> {
        spec_posting_parse(bytes)
    }

    proof fn lemma_round_trip(v: InvertedIndexItemView) {
        lemma_auto_spec_u64_to_from_le_bytes();
        lemma_auto_spec_u128_to_from_le_bytes();
        let ib = encode_each::<usize>(v.indices);
        let db = encode_each::<u128>(v.ids);
        let a = long_chunks(ib);
        let b = long_chunks(db);
        let z = Seq::<u8>::empty();
        let s = spec_posting_bytes(v);
        assert(s =~= z + a + b);
        lemma_long_chunks_round_trip(z, ib, b, 8);
        lemma_decode_each_of_encode_each::<usize>(v.indices);
        assert(s =~= a + b + z);
        lemma_long_chunks_round_trip(a, db, z, 16);
        lemma_decode_each_of_encode_each::<u128>(v.ids);
    }

    fn deserialize(data: &[u8]) -> (r: Result<Self, HaystackError>) {
        let total: usize = data.len();
        let (ib, p) = match read_long_chunks(data, 0, 8) {
            Some(x) => x,
            None => {
                return Err(HaystackError::Corruption);
            },
        };
        let indices = match decode_blobs::<usize>(&ib) {
            Ok(x) => x,
            Err(e) => {
                return Err(e);
            },
        };
        let (db, q) = match read_long_chunks(data, p, 16) {
            Some(x) => x,
            None => {
                return Err(HaystackError::Corruption);
            },
        };
        let ids = match decode_blobs::<u128>(&db) {
            Ok(x) => x,
            Err(e) => {
                return Err(e);
            },
        };
        if q != total {
            return Err(HaystackError::Corruption);
        }
        proof {
            assert(elem_views(indices@) =~= indices@);
            assert(elem_views(ids@) =~= ids@);
        }
        Ok(InvertedIndexItem { indices, ids })
    }
}

/// Two posting lists, one behind the other.
pub open spec fn spec_append(a: InvertedIndexItemView, b: InvertedIndexItemView) -> InvertedIndexItemView {
    InvertedIndexItemView { indices: a.indices + b.indices, ids: a.ids + b.ids }
}

/// A map from attributes to posting lists, kept as a B+-tree in the order
/// of the attributes.
pub struct InvertedIndex {
    pub tree: Tree<KVPair, InvertedIndexItem>,
}

impl View for InvertedIndex {
    type V = Map<KVPairView, InvertedIndexItemView>;

    open spec fn view(&self) -> Map<KVPairView, InvertedIndexItemView> {
        self.tree@
    }
}

impl InvertedIndex {
    /// The invariant of the index: that of its tree.
    pub open spec fn wf(&self) -> bool {
        self.tree.wf()
    }

    /// An empty index.
    pub fn new() -> (index: Self)
        ensures
            index.wf(),
            index@ == Map::<KVPairView, InvertedIndexItemView>::empty(),
            forall|m: nat| #[trigger] index.tree.room(m) <==> empty_room(m),
    {
        InvertedIndex { tree: Tree::empty(DEFAULT_FANOUT) }
    }

    /// Puts the posting list under the attribute, in place of the list that
    /// the attribute had.
    pub fn insert(&mut self, key: KVPair, value: InvertedIndexItem) -> (r: Result<(), HaystackError>)
        requires
            old(self).wf(),
        ensures
            final(self).wf(),
            forall|m: nat|
                m >= 1 && #[trigger] old(self).tree.room(m) ==> r is Ok && final(self).tree.room(
                    (m - 1) as nat,
                ),
            match r {
                Ok(()) => final(self)@ == old(self)@.insert(key@, value@),
                Err(e) => e == HaystackError::OutOfBounds && final(self)@ == old(self)@,
            },
    {
        self.tree.insert(key, value)
    }

    /// The posting list of the attribute, if the index has the attribute.
    pub fn get(&mut self, key: KVPair) -> (r: Option<InvertedIndexItem>)
        requires
            old(self).wf(),
        ensures
            *final(self) == *old(self),
            match r {
                Some(item) => old(self)@.contains_key(key@) && old(self)@[key@] == item@,
                None => !old(self)@.contains_key(key@),
            },
    {
        self.tree.lookup(&key)
    }

    /// Appends the posting list to the list of the attribute, indices to
    /// indices and ids to ids; an attribute without a list gets the posting
    /// list as its list.
    pub fn insert_append(&mut self, key: KVPair, value: InvertedIndexItem) -> (r: Result<
        (),
        HaystackError,
    >)
        requires
            old(self).wf(),
        ensures
            final(self).wf(),
            forall|m: nat|
                m >= 1 && #[trigger] old(self).tree.room(m) ==> r is Ok && final(self).tree.room(
                    (m - 1) as nat,
                ),
            match r {
                Ok(()) => final(self)@ == old(self)@.insert(
                    key@,
                    if old(self)@.contains_key(key@) {
                        spec_append(old(self)@[key@], value@)
                    } else {
                        value@
                    },
                ),
                Err(e) => e == HaystackError::OutOfBounds && final(self)@ == old(self)@,
            },
    {
        let mut value = value;
        match self.tree.lookup(&key) {
            Some(mut found) => {
                found.indices.append(&mut value.indices);
                found.ids.append(&mut value.ids);
                self.tree.insert(key, found)
            },
            None => self.tree.insert(key, value),
        }
    }

    /// The number of attributes.
    pub fn len(&self) -> (n: usize)
        requires
            self.wf(),
        ensures
            n == self@.dom().len(),
    {
        self.tree.len()
    }

    /// Reading the image of an index gives posting lists that make up the index.
    pub proof fn lemma_image_round_trip(&self)
        requires
            self.wf(),
            self.tree.encodable(),
        ensures
            spec_tree_parse::<KVPair, InvertedIndexItem>(self.tree.image()) is Some,
            fold_entries(
                Map::empty(),
                spec_tree_parse::<KVPair, InvertedIndexItem>(self.tree.image()).unwrap().1,
            ) == self@,
            spec_tree_parse::<KVPair, InvertedIndexItem>(self.tree.image()).unwrap().1.len()
                == self@.dom().len(),
            image_in_order::<KVPair, InvertedIndexItem>(self.tree.image()),
    {
        self.tree.lemma_image_round_trip();
        self.tree.lemma_image_restores();
    }

    /// The image of the index: that of its tree.
    pub fn to_binary(&mut self) -> (bytes: Vec<u8>)
        requires
            old(self).wf(),
        ensures
            *final(self) == *old(self),
            bytes@ == old(self).tree.image(),
            old(self).tree.encodable(),
    {
        self.tree.to_binary()
    }

    /// The index that `data` is the image of, with the nodes of the image
    /// at their offsets; fails with `Corruption` exactly when `data` is no
    /// image of a tree of posting lists in order.
    pub fn from_binary(data: Vec<u8>) -> (r: Result<Self, HaystackError>)
        ensures
            match r {
                Ok(index) => {
                    &&& index.wf()
                    &&& image_in_order::<KVPair, InvertedIndexItem>(data@)
                    &&& spec_tree_nodes::<KVPair, InvertedIndexItem>(data@) == Some(
                        (
                            index.tree.b,
                            index.tree.storage_manager.root_offset,
                            node_views(index.tree.nodes()),
                        ),
                    )
                    &&& spec_tree_parse::<KVPair, InvertedIndexItem>(data@) is Some
                    &&& index@ == fold_entries(
                        Map::empty(),
                        spec_tree_parse::<KVPair, InvertedIndexItem>(data@).unwrap().1,
                    )
                },
                Err(e) => e == HaystackError::Corruption && !image_in_order::<KVPair, InvertedIndexItem>(data@),
            },
    {
        match Tree::from_binary(data) {
            Ok(tree) => Ok(InvertedIndex { tree }),
            Err(e) => Err(e),
        }
    }
}

} // verus!
