use crate::constants::{K, QUANTIZED_VECTOR_SIZE};
use crate::errors::HaystackError;
use crate::structures::ann_tree::k_modes::Vector;
use crate::structures::ann_tree::node::{metadata_views, Node, NodeType, NodeView};
use crate::structures::dense_vector_list::{vector_of, vector_views};
use crate::structures::metadata_index::{kvs_fit, KVPair, KVPairView};
use crate::structures::tree::node_image::{
    lemma_head_round_trip, read_head, spec_head_bytes, spec_head_parse, spec_parent_norm,
    write_head, HEAD_LEN,
};
use crate::structures::tree::serialization::{
    blob_views, counted_chunks, counted_frames, decode_blobs, decode_each, elem_views,
    encode_each, encode_values, lemma_counted_chunks_round_trip, lemma_counted_frames_round_trip,
    lemma_decode_each_of_encode_each, lemma_read_back, parse_counted_chunks,
    parse_counted_frames, read_counted_chunks, read_counted_frames, read_u32, spec_read_u32,
    write_bytes, write_counted_chunks, write_counted_frames, write_u32,
};
use vstd::bytes::*;
use vstd::prelude::*;

verus! {

/// The kind of a node, as the head of an image names it.
pub open spec fn spec_kind(t: NodeType) -> crate::structures::tree::node::NodeType {
    match t {
        NodeType::Leaf => crate::structures::tree::node::NodeType::Leaf,
        NodeType::Internal => crate::structures::tree::node::NodeType::Internal,
    }
}

/// The kind of a node that the head of an image names.
pub open spec fn spec_kind_back(t: crate::structures::tree::node::NodeType) -> NodeType {
    match t {
        crate::structures::tree::node::NodeType::Leaf => NodeType::Leaf,
        crate::structures::tree::node::NodeType::Internal => NodeType::Internal,
    }
}

/// The image of a list of attributes: their number in four bytes, then each
/// attribute's image behind its length in four bytes.
pub open spec fn metadata_bytes(kvs: Seq<KVPairView>) -> Seq<u8> {
    counted_frames(false, encode_each::<KVPair>(kvs))
}

/// The images of lists of attributes, one after the other.
pub open spec fn metadata_list_bytes(ms: Seq<Seq<KVPairView>>) -> Seq<u8>
    decreases ms.len(),
{
    if ms.len() == 0 {
        Seq::empty()
    } else {
        metadata_bytes(ms[0]) + metadata_list_bytes(ms.drop_first())
    }
}

/// The list of attributes whose image starts at `pos`, and the position
/// behind it.
pub open spec fn parse_metadata(s: Seq<u8>, pos: int) -> Option<(Seq<KVPairView>, int)> {
    match parse_counted_frames(false, s, pos) {
        Some((blobs, end)) => match decode_each::<KVPair>(blobs) {
            Some(kvs) => Some((kvs, end)),
            None => None,
        },
        None => None,
    }
}

/// The `n` lists of attributes whose images start at `pos`, and the position
/// behind them.
pub open spec fn parse_metadata_list(s: Seq<u8>, pos: int, n: nat) -> Option<
    (Seq<Seq<KVPairView>>, int),
>
    decreases n,
{
    if n == 0 {
        Some((Seq::empty(), pos))
    } else {
        match parse_metadata(s, pos) {
            None => None,
            Some((kvs, next)) => match parse_metadata_list(s, next, (n - 1) as nat) {
                None => None,
                Some((rest, end)) => Some((seq![kvs] + rest, end)),
            },
        }
    }
}

/// Reading the image of a list of attributes that sits between `pre` and
/// `post` gives the attributes and the place behind the image.
pub proof fn lemma_metadata_round_trip(pre: Seq<u8>, kvs: Seq<KVPairView>, post: Seq<u8>)
    requires
        kvs_fit(kvs),
    ensures
        parse_metadata(pre + metadata_bytes(kvs) + post, pre.len() as int) == Some(
            (kvs, (pre.len() + metadata_bytes(kvs).len()) as int),
        ),
{
    let blobs = encode_each::<KVPair>(kvs);
    lemma_counted_frames_round_trip(false, pre, blobs, post);
    lemma_decode_each_of_encode_each::<KVPair>(kvs);
}

/// Reading the images of lists of attributes that sit in a row between
/// `pre` and `post` gives the lists and the place behind the row.
pub proof fn lemma_metadata_list_round_trip(
    pre: Seq<u8>,
    ms: Seq<Seq<KVPairView>>,
    post: Seq<u8>,
)
    requires
        forall|i: int| 0 <= i < ms.len() ==> kvs_fit(#[trigger] ms[i]),
    ensures
        parse_metadata_list(pre + metadata_list_bytes(ms) + post, pre.len() as int, ms.len())
            == Some((ms, (pre.len() + metadata_list_bytes(ms).len()) as int)),
    decreases ms.len(),
{
    let s = pre + metadata_list_bytes(ms) + post;
    if ms.len() == 0 {
        assert(ms =~= Seq::empty());
    } else {
        let first = metadata_bytes(ms[0]);
        let rest = ms.drop_first();
        assert(s =~= pre + first + (metadata_list_bytes(rest) + post));
        lemma_metadata_round_trip(pre, ms[0], metadata_list_bytes(rest) + post);
        assert(s =~= (pre + first) + metadata_list_bytes(rest) + post);
        assert forall|i: int| 0 <= i < rest.len() implies kvs_fit(#[trigger] rest[i]) by {
            assert(rest[i] == ms[i + 1]);
        }
        lemma_metadata_list_round_trip(pre + first, rest, post);
        assert(seq![ms[0]] + rest =~= ms);
    }
}

/// Appends the image of a list of attributes.
pub fn serialize_metadata(serialized: &mut Vec<u8>, metadata: &Vec<KVPair>)
    requires
        kvs_fit(elem_views(metadata@)),
    ensures
        final(serialized)@ == old(serialized)@ + metadata_bytes(elem_views(metadata@)),
{
    let blobs = encode_values::<KVPair>(metadata);
    proof {
        assert forall|i: int| 0 <= i < blobs@.len() implies (#[trigger] blobs@[i])@.len()
            <= u32::MAX by {
            assert(blobs@[i]@ == encode_each::<KVPair>(elem_views(metadata@))[i]);
        }
    }
    write_counted_frames(serialized, &blobs, false);
}

/// The list of attributes whose image starts at `pos`, and the position
/// behind it; fails with `Corruption` exactly when no such image starts
/// there.
pub fn deserialize_metadata(data: &[u8], pos: usize) -> (r: Result<
    (Vec<KVPair>, usize),
    HaystackError,
>)
    ensures
        match r {
            Ok((kvs, end)) => end <= data@.len() && parse_metadata(data@, pos as int) == Some(
                (elem_views(kvs@), end as int),
            ),
            Err(e) => e == HaystackError::Corruption && parse_metadata(data@, pos as int) is None,
        },
{
    let (blobs, end) = match read_counted_frames(data, pos, false) {
        Some(x) => x,
        None => {
            return Err(HaystackError::Corruption);
        },
    };
    match decode_blobs::<KVPair>(&blobs) {
        Ok(kvs) => Ok((kvs, end)),
        Err(e) => Err(e),
    }
}

/// The image of a node: its head; then its vectors, its ids and its
/// children, each list behind its count in four bytes; then the number of
/// its lists of attributes in four bytes, and their images.
pub open spec fn spec_node_bytes(v: NodeView) -> Seq<u8> {
    spec_head_bytes(spec_kind(v.node_type), v.is_root, v.parent_offset, v.offset) + counted_chunks(
        v.vectors,
    ) + counted_chunks(encode_each::<u128>(v.ids)) + counted_chunks(
        encode_each::<i64>(v.children),
    ) + spec_u32_to_le_bytes(v.metadata.len() as u32) + metadata_list_bytes(v.metadata)
}

/// The node that `s` is the image of, if it is one; its cap is `K`.
pub open spec fn spec_node_parse(s: Seq<u8>) -> Option<NodeView> {
    match (spec_head_parse(s), parse_counted_chunks(s, HEAD_LEN as int, QUANTIZED_VECTOR_SIZE as int)) {
        (Some((kind, is_root, parent_offset, offset)), Some((vectors, pat))) => match parse_counted_chunks(
            s,
            pat,
            16,
        ) {
            Some((ib, pbt)) => match (decode_each::<u128>(ib), parse_counted_chunks(s, pbt, 8)) {
                (Some(ids), Some((cb, pct))) => match (
                    decode_each::<i64>(cb),
                    spec_read_u32(s, pct),
                ) {
                    (Some(children), Some(nm)) => match parse_metadata_list(s, pct + 4, nm as nat) {
                        Some((metadata, pdt)) => if pdt == s.len() {
                            Some(
                                NodeView {
                                    vectors,
                                    ids,
                                    children,
                                    metadata,
                                    k: K,
                                    node_type: spec_kind_back(kind),
                                    offset,
                                    is_root,
                                    parent_offset,
                                },
                            )
                        } else {
                            None
                        },
                        None => None,
                    },
                    _ => None,
                },
                _ => None,
            },
            None => None,
        },
        _ => None,
    }
}

/// Whether the lists of a node fit the image: their lengths fit four bytes,
/// every vector has its width, every list of attributes fits.
pub open spec fn node_fits(v: NodeView) -> bool {
    &&& v.vectors.len() <= u32::MAX
    &&& v.ids.len() <= u32::MAX
    &&& v.children.len() <= u32::MAX
    &&& v.metadata.len() <= u32::MAX
    &&& forall|i: int| 0 <= i < v.vectors.len() ==> (#[trigger] v.vectors[i]).len() == QUANTIZED_VECTOR_SIZE
    &&& forall|i: int| 0 <= i < v.metadata.len() ==> kvs_fit(#[trigger] v.metadata[i])
}

/// Reading the image of a node gives the node back, with no parent where
/// the parent was -1, and with the cap `K`.
pub proof fn lemma_node_round_trip(v: NodeView)
    requires
        node_fits(v),
    ensures
        spec_node_parse(spec_node_bytes(v)) == Some(
            NodeView { parent_offset: spec_parent_norm(v.parent_offset), k: K, ..v },
        ),
{
    lemma_auto_spec_u32_to_from_le_bytes();
    lemma_auto_spec_u64_to_from_le_bytes();
    lemma_auto_spec_u128_to_from_le_bytes();
    let s = spec_node_bytes(v);
    let h = spec_head_bytes(spec_kind(v.node_type), v.is_root, v.parent_offset, v.offset);
    let a = counted_chunks(v.vectors);
    let ib = encode_each::<u128>(v.ids);
    let b = counted_chunks(ib);
    let cb = encode_each::<i64>(v.children);
    let c = counted_chunks(cb);
    let d = spec_u32_to_le_bytes(v.metadata.len() as u32);
    let e = metadata_list_bytes(v.metadata);
    let z = Seq::<u8>::empty();
    assert(s =~= h + (a + b + c + d + e));
    lemma_head_round_trip(
        spec_kind(v.node_type),
        v.is_root,
        v.parent_offset,
        v.offset,
        a + b + c + d + e,
    );
    assert(s =~= h + a + (b + c + d + e));
    lemma_counted_chunks_round_trip(h, v.vectors, b + c + d + e, QUANTIZED_VECTOR_SIZE as int);
    assert(s =~= (h + a) + b + (c + d + e));
    lemma_counted_chunks_round_trip(h + a, ib, c + d + e, 16);
    lemma_decode_each_of_encode_each::<u128>(v.ids);
    assert(s =~= (h + a + b) + c + (d + e));
    lemma_counted_chunks_round_trip(h + a + b, cb, d + e, 8);
    lemma_decode_each_of_encode_each::<i64>(v.children);
    assert(s =~= (h + a + b + c) + d + e);
    lemma_read_back(h + a + b + c, e);
    assert(s =~= (h + a + b + c + d) + e + z);
    lemma_metadata_list_round_trip(h + a + b + c + d, v.metadata, z);
}

/// The bytes of every vector of a list.
pub fn vector_blobs(vectors: &Vec<Vector>) -> (blobs: Vec<Vec<u8>>)
    ensures
        blob_views(blobs@) == vector_views(vectors@),
        blobs@.len() == vectors@.len(),
{
    let mut blobs: Vec<Vec<u8>> = Vec::new();
    let mut i: usize = 0;
    while i < vectors.len()
        invariant
            i <= vectors@.len(),
            blobs@.len() == i,
            forall|j: int| 0 <= j < i ==> (#[trigger] blobs@[j])@ == vectors@[j]@,
        decreases vectors@.len() - i,
    {
        let mut blob: Vec<u8> = Vec::new();
        write_bytes(&mut blob, vectors[i].as_slice());
        blobs.push(blob);
        i = i + 1;
    }
    assert(blob_views(blobs@) =~= vector_views(vectors@));
    blobs
}

impl Node {
    /// Whether the lists of the node fit the image.
    pub open spec fn fits(&self) -> bool {
        node_fits(self@)
    }

    /// The image of the node.
    pub fn serialize(&self) -> (bytes: Vec<u8>)
        requires
            self.fits(),
        ensures
            bytes@ == spec_node_bytes(self@),
    {
        let mut out: Vec<u8> = Vec::new();
        let kind = match self.node_type {
            NodeType::Leaf => crate::structures::tree::node::NodeType::Leaf,
            NodeType::Internal => crate::structures::tree::node::NodeType::Internal,
        };
        write_head(&mut out, kind, self.is_root, self.parent_offset, self.offset);
        let vb = vector_blobs(&self.vectors);
        write_counted_chunks(&mut out, &vb);
        let ib = encode_values::<u128>(&self.ids);
        write_counted_chunks(&mut out, &ib);
        let cb = encode_values::<i64>(&self.children);
        write_counted_chunks(&mut out, &cb);
        write_u32(&mut out, self.metadata.len() as u32);
        let ghost head = out@;
        let ghost all = self@.metadata;
        let mut i: usize = 0;
        proof {
            assert(elem_views(self.ids@) =~= self.ids@);
            assert(elem_views(self.children@) =~= self.children@);
            assert(all.subrange(0, all.len() as int) =~= all);
        }
        while i < self.metadata.len()
            invariant
                i <= self.metadata@.len(),
                all == self@.metadata,
                self.fits(),
                out@ + metadata_list_bytes(all.subrange(i as int, all.len() as int)) == head
                    + metadata_list_bytes(all),
            decreases self.metadata@.len() - i,
        {
            let ghost before = out@;
            let ghost tail = all.subrange(i as int, all.len() as int);
            proof {
                assert(all[i as int] == elem_views(self.metadata@[i as int]@));
            }
            serialize_metadata(&mut out, &self.metadata[i]);
            proof {
                assert(tail[0] == all[i as int]);
                assert(tail.drop_first() =~= all.subrange(i + 1, all.len() as int));
                assert(out@ + metadata_list_bytes(tail.drop_first()) =~= before
                    + metadata_list_bytes(tail));
            }
            i = i + 1;
        }
        proof {
            assert(all.subrange(all.len() as int, all.len() as int) =~= Seq::<
                Seq<KVPairView>,
            >::empty());
            assert(out@ + Seq::<u8>::empty() =~= out@);
            assert(out@ =~= spec_node_bytes(self@));
        }
        out
    }

    /// The node that `data` is the image of, with the cap `K`; fails with
    /// `Corruption` exactly when `data` is no image of a node.
    pub fn deserialize(data: &[u8]) -> (r: Result<Self, HaystackError>)
        ensures
            match r {
                Ok(node) => spec_node_parse(data@) == Some(node@),
                Err(e) => e == HaystackError::Corruption && spec_node_parse(data@) is None,
            },
    {
        let total: usize = data.len();
        let (kind, is_root, parent_offset, offset) = match read_head(data) {
            Some(x) => x,
            None => {
                return Err(HaystackError::Corruption);
            },
        };
        let (vb, pat) = match read_counted_chunks(data, HEAD_LEN, QUANTIZED_VECTOR_SIZE) {
            Some(x) => x,
            None => {
                return Err(HaystackError::Corruption);
            },
        };
        let (ib, pbt) = match read_counted_chunks(data, pat, 16) {
            Some(x) => x,
            None => {
                return Err(HaystackError::Corruption);
            },
        };
        let ids = match decode_blobs::<u128>(&ib) {
            Ok(x) => x,
            Err(_) => {
                return Err(HaystackError::Corruption);
            },
        };
        let (cb, pct) = match read_counted_chunks(data, pbt, 8) {
            Some(x) => x,
            None => {
                return Err(HaystackError::Corruption);
            },
        };
        let children = match decode_blobs::<i64>(&cb) {
            Ok(x) => x,
            Err(_) => {
                return Err(HaystackError::Corruption);
            },
        };
        let nm = match read_u32(data, pct) {
            Some(x) => x,
            None => {
                return Err(HaystackError::Corruption);
            },
        };
        let mut metadata: Vec<Vec<KVPair>> = Vec::new();
        let mut cur: usize = pct + 4;
        let mut i: u32 = 0;
        while i < nm
            invariant
                i <= nm,
                cur <= data@.len(),
                metadata@.len() == i,
                spec_head_parse(data@) == Some((kind, is_root, parent_offset, offset)),
                parse_counted_chunks(data@, HEAD_LEN as int, QUANTIZED_VECTOR_SIZE as int) == Some(
                    (blob_views(vb@), pat as int),
                ),
                parse_counted_chunks(data@, pat as int, 16) == Some((blob_views(ib@), pbt as int)),
                decode_each::<u128>(blob_views(ib@)) == Some(elem_views(ids@)),
                parse_counted_chunks(data@, pbt as int, 8) == Some((blob_views(cb@), pct as int)),
                decode_each::<i64>(blob_views(cb@)) == Some(elem_views(children@)),
                spec_read_u32(data@, pct as int) == Some(nm),
                parse_metadata_list(data@, pct + 4, nm as nat) == match parse_metadata_list(
                    data@,
                    cur as int,
                    (nm - i) as nat,
                ) {
                    Some((rest, end)) => Some((metadata_views(metadata@) + rest, end)),
                    None => None,
                },
            decreases nm - i,
        {
            let (kvs, next) = match deserialize_metadata(data, cur) {
                Ok(x) => x,
                Err(_) => {
                    return Err(HaystackError::Corruption);
                },
            };
            let ghost before = metadata_views(metadata@);
            let ghost view = elem_views(kvs@);
            metadata.push(kvs);
            proof {
                match parse_metadata_list(data@, next as int, (nm - i - 1) as nat) {
                    Some((rest, e)) => {
                        assert(before + (seq![view] + rest) =~= metadata_views(metadata@) + rest);
                    },
                    None => {},
                }
            }
            cur = next;
            i = i + 1;
        }
        if cur != total {
            return Err(HaystackError::Corruption);
        }
        let mut vectors: Vec<Vector> = Vec::new();
        let mut j: usize = 0;
        while j < vb.len()
            invariant
                j <= vb@.len(),
                vectors@.len() == j,
                forall|x: int| 0 <= x < vb@.len() ==> (#[trigger] vb@[x])@.len() == QUANTIZED_VECTOR_SIZE,
                forall|x: int| 0 <= x < j ==> (#[trigger] vectors@[x])@ == vb@[x]@,
            decreases vb@.len() - j,
        {
            vectors.push(vector_of(vb[j].as_slice()));
            j = j + 1;
        }
        proof {
            assert(vector_views(vectors@) =~= blob_views(vb@));
            assert(elem_views(ids@) =~= ids@);
            assert(elem_views(children@) =~= children@);
            assert(metadata_views(metadata@) + Seq::<Seq<KVPairView>>::empty() =~= metadata_views(
                metadata@,
            ));
        }
        Ok(
            Node {
                vectors,
                ids,
                children,
                metadata,
                k: K,
                node_type: match kind {
                    crate::structures::tree::node::NodeType::Leaf => NodeType::Leaf,
                    crate::structures::tree::node::NodeType::Internal => NodeType::Internal,
                },
                offset,
                is_root,
                parent_offset,
            },
        )
    }
}

} // verus!
