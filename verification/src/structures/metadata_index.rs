use crate::errors::HaystackError;
use crate::structures::tree::key_order::{
    bytes_less, bytes_lt, bytes_same, lemma_bytes_lt_connected, lemma_bytes_lt_irreflexive,
    lemma_bytes_lt_transitive, TreeKey,
};
use crate::structures::tree::serialization::{
    all_encodable, copy_range, decode_blobs, decode_each, duplicate_all, elem_views, encode_each, encode_values,
    frame, frame_all, lemma_decode_each_of_encode_each, lemma_parse_frame_of_frame,
    lemma_frames_need_room, lemma_parse_frames_of_frame_all, lemma_subrange_of_concat, parse_frame, parse_frames,
    read_frame, read_frames, read_u128, read_u64, spec_read_u128, spec_read_u64, string_from_utf8,
    write_frame, write_frames, write_u128, write_u64, TreeDeserialization, TreeSerialization,
};
use crate::structures::tree::{
    empty_room, entry_views, fold_entries, image_in_order, node_views, spec_tree_nodes,
    spec_tree_parse, Tree, DEFAULT_FANOUT,
};
use vstd::bytes::*;
use vstd::prelude::*;
use vstd::utf8::*;

verus! {

/// A key/value attribute.
#[derive(Debug, Clone, PartialEq, Eq, PartialOrd, Ord, Hash)]
pub struct KVPair {
    pub key: String,
    pub value: String,
}

/// What a `KVPair` holds: its key and its value as character sequences.
pub ghost struct KVPairView {
    pub key: Seq<char>,
    pub value: Seq<char>,
}

impl View for KVPair {
    type V = KVPairView;

    open spec fn view(&self) -> KVPairView {
        KVPairView { key: self.key@, value: self.value@ }
    }
}

impl KVPair {
    /// The attribute with this key and this value.
    pub fn new(key: String, value: String) -> (kv: Self)
        ensures
            kv@ == (KVPairView { key: key@, value: value@ }),
    {
        KVPair { key, value }
    }

    /// Whether both fields of the two attributes are equal.
    pub fn same(&self, other: &Self) -> (r: bool)
        ensures
            r == (self@ == other@),
    {
        self.key == other.key && self.value == other.value
    }
}

/// `a` comes before `b`: by key, then by value, each in the order of its
/// UTF-8 bytes.
pub open spec fn kv_lt(a: KVPairView, b: KVPairView) -> bool {
    bytes_lt(encode_utf8(a.key), encode_utf8(b.key)) || (a.key == b.key && bytes_lt(
        encode_utf8(a.value),
        encode_utf8(b.value),
    ))
}

/// Strings with the same UTF-8 bytes are the same string.
proof fn lemma_encode_utf8_injective(a: Seq<char>, b: Seq<char>)
    requires
        encode_utf8(a) == encode_utf8(b),
    ensures
        a == b,
{
    encode_utf8_decode_utf8(a);
    encode_utf8_decode_utf8(b);
}

impl TreeKey for KVPair {
    open spec fn key_lt(a: KVPairView, b: KVPairView) -> bool {
        kv_lt(a, b)
    }

    proof fn lemma_key_order(a: KVPairView, b: KVPairView, c: KVPairView) {
        let (ak, bk, ck) = (encode_utf8(a.key), encode_utf8(b.key), encode_utf8(c.key));
        let (av, bv, cv) = (encode_utf8(a.value), encode_utf8(b.value), encode_utf8(c.value));
        lemma_bytes_lt_irreflexive(ak);
        lemma_bytes_lt_irreflexive(av);
        if kv_lt(a, b) && kv_lt(b, c) {
            if bytes_lt(ak, bk) && bytes_lt(bk, ck) {
                lemma_bytes_lt_transitive(ak, bk, ck);
            } else if a.key == b.key && b.key == c.key {
                lemma_bytes_lt_transitive(av, bv, cv);
            }
        }
        lemma_bytes_lt_connected(ak, bk);
        lemma_bytes_lt_connected(av, bv);
        if ak == bk {
            lemma_encode_utf8_injective(a.key, b.key);
        }
        if av == bv {
            lemma_encode_utf8_injective(a.value, b.value);
        }
    }

    fn less_than(&self, other: &Self) -> (r: bool) {
        let (ak, bk) = (self.key.as_str().as_bytes(), other.key.as_str().as_bytes());
        if bytes_less(ak, bk) {
            return true;
        }
        if !bytes_same(ak, bk) {
            proof {
                if self.key@ == other.key@ {
                    assert(false);
                }
            }
            return false;
        }
        proof {
            lemma_encode_utf8_injective(self.key@, other.key@);
        }
        bytes_less(self.value.as_str().as_bytes(), other.value.as_str().as_bytes())
    }
}

/// The key and the value, each as UTF-8 bytes behind an eight-byte length.
pub open spec fn spec_kv_bytes(v: KVPairView) -> Seq<u8> {
    frame(true, encode_utf8(v.key)) + frame(true, encode_utf8(v.value))
}

/// The attribute that `bytes` is the image of, if it is one.
pub open spec fn spec_kv_parse(bytes: Seq<u8>) -> Option<KVPairView> {
    match parse_frame(true, bytes, 0) {
        None => None,
        Some((kb, p)) => match parse_frame(true, bytes, p) {
            None => None,
            Some((vb, q)) => if q == bytes.len() && valid_utf8(kb) && valid_utf8(vb) {
                Some(KVPairView { key: decode_utf8(kb), value: decode_utf8(vb) })
            } else {
                None
            },
        },
    }
}

impl TreeSerialization for KVPair {
    open spec fn spec_encodable(v: KVPairView) -> bool {
        encode_utf8(v.key).len() <= u64::MAX && encode_utf8(v.value).len() <= u64::MAX
    }

    open spec fn spec_serialize(v: KVPairView) -> Seq<u8> {
        spec_kv_bytes(v)
    }

    fn serialize(&self) -> (bytes: Vec<u8>) {
        let mut out: Vec<u8> = Vec::new();
        write_frame(&mut out, self.key.as_str().as_bytes(), true);
        write_frame(&mut out, self.value.as_str().as_bytes(), true);
        assert(out@ =~= spec_kv_bytes(self@));
        out
    }

    fn duplicate(&self) -> (copy: Self) {
        KVPair { key: self.key.clone(), value: self.value.clone() }
    }
}

impl TreeDeserialization for KVPair {
    open spec fn spec_deserialize(bytes: Seq<u8>) -> Option<KVPairView> {
        spec_kv_parse(bytes)
    }

    proof fn lemma_round_trip(v: KVPairView) {
        let kb = encode_utf8(v.key);
        let vb = encode_utf8(v.value);
        let s = spec_kv_bytes(v);
        let e = Seq::<u8>::empty();
        assert(s =~= e + frame(true, kb) + frame(true, vb));
        lemma_parse_frame_of_frame(true, e, kb, frame(true, vb));
        assert(s =~= frame(true, kb) + frame(true, vb) + e);
        lemma_parse_frame_of_frame(true, frame(true, kb), vb, e);
        encode_utf8_valid_utf8(v.key);
        encode_utf8_valid_utf8(v.value);
        encode_utf8_decode_utf8(v.key);
        encode_utf8_decode_utf8(v.value);
    }

    fn deserialize(data: &[u8]) -> (r: Result<Self, HaystackError>) {
        let (ks, ke) = match read_frame(data, 0, true) {
            Some(b) => b,
            None => {
                return Err(HaystackError::Corruption);
            },
        };
        let (vs, ve) = match read_frame(data, ke, true) {
            Some(b) => b,
            None => {
                return Err(HaystackError::Corruption);
            },
        };
        if ve != data.len() {
            return Err(HaystackError::Corruption);
        }
        let key = match string_from_utf8(copy_range(data, ks, ke)) {
            Some(s) => s,
            None => {
                return Err(HaystackError::Corruption);
            },
        };
        let value = match string_from_utf8(copy_range(data, vs, ve)) {
            Some(s) => s,
            None => {
                return Err(HaystackError::Corruption);
            },
        };
        Ok(KVPair { key, value })
    }
}

/// Whether a list of attributes fits an image with four-byte lengths: its
/// number does, and the image of each attribute does.
pub open spec fn kvs_fit(kvs: Seq<KVPairView>) -> bool {
    &&& kvs.len() <= u32::MAX
    &&& forall|i: int|
        0 <= i < kvs.len() ==> KVPair::spec_encodable(#[trigger] kvs[i]) && spec_kv_bytes(
            kvs[i],
        ).len() <= u32::MAX
}

/// The image of an attribute takes sixteen bytes more than its key and its
/// value do.
pub proof fn lemma_kv_bytes_len(v: KVPairView)
    ensures
        spec_kv_bytes(v).len() == 16 + encode_utf8(v.key).len() + encode_utf8(v.value).len(),
{
    lemma_auto_spec_u64_to_from_le_bytes();
}

/// Whether the attributes fit an image with four-byte lengths.
pub fn attributes_fit(kvs: &Vec<KVPair>) -> (r: bool)
    ensures
        r == kvs_fit(elem_views(kvs@)),
{
    if kvs.len() > u32::MAX as usize {
        return false;
    }
    let mut i: usize = 0;
    while i < kvs.len()
        invariant
            i <= kvs@.len(),
            kvs@.len() <= u32::MAX,
            forall|j: int|
                0 <= j < i ==> KVPair::spec_encodable(#[trigger] elem_views(kvs@)[j])
                    && spec_kv_bytes(elem_views(kvs@)[j]).len() <= u32::MAX,
        decreases kvs@.len() - i,
    {
        let kl: usize = kvs[i].key.as_str().as_bytes().len();
        let vl: usize = kvs[i].value.as_str().as_bytes().len();
        proof {
            lemma_kv_bytes_len(kvs@[i as int]@);
        }
        let ghost v = elem_views(kvs@)[i as int];
        if kl > u32::MAX as usize || vl > u32::MAX as usize {
            assert(!(KVPair::spec_encodable(v) && spec_kv_bytes(v).len() <= u32::MAX));
            return false;
        }
        if kl as u64 + vl as u64 + 16 > u32::MAX as u64 {
            assert(!(KVPair::spec_encodable(v) && spec_kv_bytes(v).len() <= u32::MAX));
            return false;
        }
        i = i + 1;
    }
    true
}

/// The record of one vector: its attributes in insertion order, its id, and
/// its index in the vector store.
#[derive(Debug, Clone)]
pub struct MetadataIndexItem {
    pub kvs: Vec<KVPair>,
    pub id: u128,
    pub vector_index: usize,
}

/// What a `MetadataIndexItem` holds.
pub ghost struct MetadataIndexItemView {
    pub kvs: Seq<KVPairView>,
    pub id: u128,
    pub vector_index: usize,
}

impl View for MetadataIndexItem {
    type V = MetadataIndexItemView;

    open spec fn view(&self) -> MetadataIndexItemView {
        MetadataIndexItemView {
            kvs: elem_views(self.kvs@),
            id: self.id,
            vector_index: self.vector_index,
        }
    }
}

/// The number of attributes, each attribute's image behind its length, the
/// id, and the vector index; every integer in eight bytes but the id, which
/// takes sixteen.
pub open spec fn spec_item_bytes(v: MetadataIndexItemView) -> Seq<u8> {
    spec_u64_to_le_bytes(v.kvs.len() as u64) + frame_all(true, encode_each::<KVPair>(v.kvs))
        + spec_u128_to_le_bytes(v.id) + spec_u64_to_le_bytes(v.vector_index as u64)
}

/// The record that `bytes` is the image of, if it is one.
pub open spec fn spec_item_parse(bytes: Seq<u8>) -> Option<MetadataIndexItemView> {
    match spec_read_u64(bytes, 0) {
        None => None,
        Some(n) => match parse_frames(true, bytes, 8, n as nat) {
            None => None,
            Some((blobs, p)) => match decode_each::<KVPair>(blobs) {
                None => None,
                Some(kvs) => match spec_read_u128(bytes, p) {
                    None => None,
                    Some(id) => match spec_read_u64(bytes, p + 16) {
                        None => None,
                        Some(vi) => if p + 24 == bytes.len() && vi <= usize::MAX {
                            Some(MetadataIndexItemView { kvs, id, vector_index: vi as usize })
                        } else {
                            None
                        },
                    },
                },
            },
        },
    }
}

impl TreeSerialization for MetadataIndexItem {
    open spec fn spec_encodable(v: MetadataIndexItemView) -> bool {
        &&& v.kvs.len() <= u64::MAX
        &&& all_encodable::<KVPair>(v.kvs)
        &&& forall|i: int|
            0 <= i < v.kvs.len() ==> (#[trigger] encode_each::<KVPair>(v.kvs)[i]).len() <= u64::MAX
    }

    open spec fn spec_serialize(v: MetadataIndexItemView) -> Seq<u8> {
        spec_item_bytes(v)
    }

    fn serialize(&self) -> (bytes: Vec<u8>) {
        let mut out: Vec<u8> = Vec::new();
        write_u64(&mut out, self.kvs.len() as u64);
        let blobs = encode_values::<KVPair>(&self.kvs);
        write_frames(&mut out, &blobs, true);
        assert forall|i: int| 0 <= i < self@.kvs.len() implies (#[trigger] encode_each::<KVPair>(
            self@.kvs,
        )[i]).len() <= u64::MAX by {
            assert(encode_each::<KVPair>(self@.kvs)[i] == blobs@[i]@);
        }
        write_u128(&mut out, self.id);
        write_u64(&mut out, self.vector_index as u64);
        out
    }

    fn duplicate(&self) -> (copy: Self) {
        MetadataIndexItem {
            kvs: duplicate_all(&self.kvs),
            id: self.id,
            vector_index: self.vector_index,
        }
    }
}

impl TreeDeserialization for MetadataIndexItem {
    open spec fn spec_deserialize(bytes: Seq<u8>) -> Option<MetadataIndexItemView> {
        spec_item_parse(bytes)
    }

    proof fn lemma_round_trip(v: MetadataIndexItemView) {
        lemma_auto_spec_u64_to_from_le_bytes();
        lemma_auto_spec_u128_to_from_le_bytes();
        let n = spec_u64_to_le_bytes(v.kvs.len() as u64);
        let blobs = encode_each::<KVPair>(v.kvs);
        let f = frame_all(true, blobs);
        let idb = spec_u128_to_le_bytes(v.id);
        let vib = spec_u64_to_le_bytes(v.vector_index as u64);
        let s = spec_item_bytes(v);
        let e = Seq::<u8>::empty();
        assert(s =~= e + n + (f + idb + vib));
        lemma_subrange_of_concat(e, n, f + idb + vib);
        assert(s =~= n + f + (idb + vib));
        lemma_parse_frames_of_frame_all(true, n, blobs, idb + vib);
        lemma_decode_each_of_encode_each::<KVPair>(v.kvs);
        assert(s =~= (n + f) + idb + vib);
        lemma_subrange_of_concat(n + f, idb, vib);
        assert(s =~= (n + f + idb) + vib + e);
        lemma_subrange_of_concat(n + f + idb, vib, e);
    }

    fn deserialize(data: &[u8]) -> (r: Result<Self, HaystackError>) {
        let total: usize = data.len();
        let n = match read_u64(data, 0) {
            Some(n) => n,
            None => {
                return Err(HaystackError::Corruption);
            },
        };
        if n > usize::MAX as u64 {
            proof {
                lemma_frames_need_room(true, data@, 8, n as nat);
            }
            return Err(HaystackError::Corruption);
        }
        let (blobs, p) = match read_frames(data, 8, n as usize, true) {
            Some(b) => b,
            None => {
                return Err(HaystackError::Corruption);
            },
        };
        let kvs = match decode_blobs::<KVPair>(&blobs) {
            Ok(k) => k,
            Err(e) => {
                return Err(e);
            },
        };
        if total - p != 24 {
            return Err(HaystackError::Corruption);
        }
        let id = match read_u128(data, p) {
            Some(x) => x,
            None => {
                return Err(HaystackError::Corruption);
            },
        };
        let vi = match read_u64(data, p + 16) {
            Some(x) => x,
            None => {
                return Err(HaystackError::Corruption);
            },
        };
        if vi > usize::MAX as u64 {
            return Err(HaystackError::Corruption);
        }
        Ok(MetadataIndexItem { kvs, id, vector_index: vi as usize })
    }
}

/// A map from ids to records, kept as a B+-tree in the order of the ids.
pub struct MetadataIndex {
    pub tree: Tree<u128, MetadataIndexItem>,
}

impl View for MetadataIndex {
    type V = Map<u128, MetadataIndexItemView>;

    open spec fn view(&self) -> Map<u128, MetadataIndexItemView> {
        self.tree@
    }
}

impl MetadataIndex {
    /// The invariant of the index: that of its tree.
    pub open spec fn wf(&self) -> bool {
        self.tree.wf()
    }

    /// An empty index.
    pub fn new() -> (index: Self)
        ensures
            index.wf(),
            index@ == Map::<u128, MetadataIndexItemView>::empty(),
            forall|m: nat| #[trigger] index.tree.room(m) <==> empty_room(m),
    {
        MetadataIndex { tree: Tree::empty(DEFAULT_FANOUT) }
    }

    /// Puts the record under the id, in place of the record that the id
    /// had. Fails with `OutOfBounds`, changing no record, only when there is
    /// no room.
    pub fn insert(&mut self, key: u128, value: MetadataIndexItem) -> (r: Result<(), HaystackError>)
        requires
            old(self).wf(),
        ensures
            final(self).wf(),
            forall|m: nat|
                m >= 1 && #[trigger] old(self).tree.room(m) ==> r is Ok && final(self).tree.room(
                    (m - 1) as nat,
                ),
            match r {
                Ok(()) => final(self)@ == old(self)@.insert(key, value@),
                Err(e) => e == HaystackError::OutOfBounds && final(self)@ == old(self)@,
            },
    {
        self.tree.insert(key, value)
    }

    /// Puts every record under its id in turn, a later one in place of an
    /// earlier one with the same id. Succeeds where the index has room for
    /// as many insertions as there are records. Fails with `OutOfBounds`
    /// when there is no room for a record: the records before it are in the
    /// index then.
    pub fn batch_insert(&mut self, items: Vec<(u128, MetadataIndexItem)>) -> (r: Result<
        (),
        HaystackError,
    >)
        requires
            old(self).wf(),
        ensures
            final(self).wf(),
            forall|m: nat|
                m >= items@.len() && #[trigger] old(self).tree.room(m) ==> r is Ok && final(self).tree.room((m - items@.len()) as nat),
            match r {
                Ok(()) => final(self)@ == fold_entries(old(self)@, entry_views(items@)),
                Err(e) => e == HaystackError::OutOfBounds && exists|i: int|
                    0 <= i < items@.len() && final(self)@ == #[trigger] fold_entries(
                        old(self)@,
                        entry_views(items@).subrange(0, i),
                    ),
            },
    {
        let r = self.tree.batch_insert(items);
        proof {
            assert(self@ == self.tree@);
            assert(old(self)@ == old(self).tree@);
        }
        r
    }

    /// The record under the id, if the index has the id.
    pub fn get(&mut self, key: u128) -> (r: Option<MetadataIndexItem>)
        requires
            old(self).wf(),
        ensures
            *final(self) == *old(self),
            match r {
                Some(item) => old(self)@.contains_key(key) && old(self)@[key] == item@,
                None => !old(self)@.contains_key(key),
            },
    {
        self.tree.lookup(&key)
    }

    /// The number of records.
    pub fn len(&self) -> (n: usize)
        requires
            self.wf(),
        ensures
            n == self@.dom().len(),
    {
        self.tree.len()
    }

    /// Reading the image of an index gives records that make up the index.
    pub proof fn lemma_image_round_trip(&self)
        requires
            self.wf(),
            self.tree.encodable(),
        ensures
            spec_tree_parse::<u128, MetadataIndexItem>(self.tree.image()) is Some,
            fold_entries(
                Map::empty(),
                spec_tree_parse::<u128, MetadataIndexItem>(self.tree.image()).unwrap().1,
            ) == self@,
            spec_tree_parse::<u128, MetadataIndexItem>(self.tree.image()).unwrap().1.len()
                == self@.dom().len(),
            image_in_order::<u128, MetadataIndexItem>(self.tree.image()),
    {
        self.tree.lemma_image_round_trip();
        self.tree.lemma_image_restores();
    }

    /// The image of the index: that of its tree.
    pub fn to_binary(&mut self) -> (bytes: Vec<u8>)
        requires
            old(self).wf(),
        ensures
            *final(self) == *old(self),
            bytes@ == old(self).tree.image(),
            old(self).tree.encodable(),
    {
        self.tree.to_binary()
    }

    /// The index that `data` is the image of, with the nodes of the image
    /// at their offsets; fails with `Corruption` exactly when `data` is no
    /// image of a tree of records in order.
    pub fn from_binary(data: Vec<u8>) -> (r: Result<Self, HaystackError>)
        ensures
            match r {
                Ok(index) => {
                    &&& index.wf()
                    &&& image_in_order::<u128, MetadataIndexItem>(data@)
                    &&& spec_tree_nodes::<u128, MetadataIndexItem>(data@) == Some(
                        (
                            index.tree.b,
                            index.tree.storage_manager.root_offset,
                            node_views(index.tree.nodes()),
                        ),
                    )
                    &&& spec_tree_parse::<u128, MetadataIndexItem>(data@) is Some
                    &&& index@ == fold_entries(
                        Map::empty(),
                        spec_tree_parse::<u128, MetadataIndexItem>(data@).unwrap().1,
                    )
                },
                Err(e) => e == HaystackError::Corruption && !image_in_order::<u128, MetadataIndexItem>(data@),
            },
    {
        match Tree::from_binary(data) {
            Ok(tree) => Ok(MetadataIndex { tree }),
            Err(e) => Err(e),
        }
    }
}

} // verus!
