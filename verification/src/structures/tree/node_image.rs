use crate::errors::HaystackError;
use crate::structures::tree::key_order::TreeKey;
use crate::structures::tree::node::{option_view, option_views, Node, NodeType, NodeView};
use crate::structures::tree::serialization::{
    all_encodable, blob_views, decode_blobs, decode_each, elem_views, encode_each, encode_values,
    lemma_decode_each_of_encode_each,
    lemma_counted_chunks_round_trip, lemma_counted_frames_round_trip, lemma_read_back,
    parse_counted_chunks, parse_counted_frames, counted_chunks, counted_frames,
    read_counted_chunks, read_counted_frames, read_i64, read_u8, spec_read_i64, spec_read_u8,
    spec_u64_of, write_counted_chunks, write_counted_frames, write_i64, TreeDeserialization,
    TreeSerialization,
};
use vstd::bytes::*;
use vstd::prelude::*;
use vstd::slice::*;

verus! {

/// The byte that stands for a kind of node.
pub open spec fn spec_type_byte(t: NodeType) -> u8 {
    match t {
        NodeType::Leaf => 0,
        NodeType::Internal => 1,
    }
}

/// The byte that stands for a flag.
pub open spec fn spec_flag_byte(f: bool) -> u8 {
    if f {
        1
    } else {
        0
    }
}

/// The offset that stands for a parent: -1 for none.
pub open spec fn spec_parent_code(p: Option<i64>) -> i64 {
    match p {
        Some(x) => x,
        None => -1i64,
    }
}

/// The image of an optional value: a zero byte for none, else a one byte
/// and the value's image.
pub open spec fn spec_option_bytes<V: TreeSerialization>(o: Option<V::V>) -> Seq<u8> {
    match o {
        Some(v) => seq![1u8] + V::spec_serialize(v),
        None => seq![0u8],
    }
}

/// The optional value that `b` is the image of, if it is one.
pub open spec fn spec_option_parse<V: TreeDeserialization>(b: Seq<u8>) -> Option<Option<V::V>> {
    if b.len() == 0 {
        None
    } else if b[0] == 0 {
        if b.len() == 1 {
            Some(None)
        } else {
            None
        }
    } else if b[0] == 1 {
        match V::spec_deserialize(b.subrange(1, b.len() as int)) {
            Some(v) => Some(Some(v)),
            None => None,
        }
    } else {
        None
    }
}

/// The image of every optional value of a list.
pub open spec fn option_blobs<V: TreeSerialization>(vals: Seq<Option<V::V>>) -> Seq<Seq<u8>> {
    Seq::new(vals.len(), |i: int| spec_option_bytes::<V>(vals[i]))
}

/// The optional values that a list of images stands for, if each is one.
pub open spec fn option_values<V: TreeDeserialization>(blobs: Seq<Seq<u8>>) -> Option<
    Seq<Option<V::V>>,
> {
    if forall|i: int| 0 <= i < blobs.len() ==> (#[trigger] spec_option_parse::<V>(blobs[i])) is Some {
        Some(Seq::new(blobs.len(), |i: int| spec_option_parse::<V>(blobs[i]).unwrap()))
    } else {
        None
    }
}

/// Whether an optional value is encodable.
pub open spec fn option_encodable<V: TreeSerialization>(o: Option<V::V>) -> bool {
    match o {
        Some(v) => V::spec_encodable(v),
        None => true,
    }
}

/// The parent that an image hands back: none in place of -1, which stands
/// for none in the image.
pub open spec fn spec_parent_norm(p: Option<i64>) -> Option<i64> {
    if p == Some(-1i64) {
        None
    } else {
        p
    }
}

/// Whether the lengths inside a node fit the length fields of its image.
pub open spec fn node_encodable<K: TreeSerialization, V: TreeSerialization>(
    v: NodeView<K::V, V::V>,
) -> bool {
    &&& v.keys.len() <= u32::MAX
    &&& v.values.len() <= u32::MAX
    &&& v.children.len() <= u32::MAX
    &&& all_encodable::<K>(v.keys)
    &&& forall|i: int| 0 <= i < v.values.len() ==> option_encodable::<V>(#[trigger] v.values[i])
    &&& forall|i: int|
        0 <= i < v.keys.len() ==> (#[trigger] encode_each::<K>(v.keys)[i]).len() <= u64::MAX
    &&& forall|i: int|
        0 <= i < v.values.len() ==> (#[trigger] option_blobs::<V>(v.values)[i]).len() <= u64::MAX
}

/// The head of a node's image: its kind and its root flag in a byte each,
/// the offset of its parent and its own in eight bytes each.
pub open spec fn spec_head_bytes(
    node_type: NodeType,
    is_root: bool,
    parent_offset: Option<i64>,
    offset: i64,
) -> Seq<u8> {
    seq![spec_type_byte(node_type)] + seq![spec_flag_byte(is_root)] + spec_u64_to_le_bytes(
        spec_u64_of(spec_parent_code(parent_offset)),
    ) + spec_u64_to_le_bytes(spec_u64_of(offset))
}

/// The number of bytes of the head of a node's image.
pub const HEAD_LEN: usize = 18;

/// The head at the front of `s`: kind, root flag, parent and offset.
pub open spec fn spec_head_parse(s: Seq<u8>) -> Option<(NodeType, bool, Option<i64>, i64)> {
    match (spec_read_u8(s, 0), spec_read_u8(s, 1), spec_read_i64(s, 2), spec_read_i64(s, 10)) {
        (Some(t), Some(r), Some(parent), Some(offset)) => if t <= 1 && r <= 1 {
            Some(
                (
                    if t == 0 {
                        NodeType::Leaf
                    } else {
                        NodeType::Internal
                    },
                    r == 1,
                    if parent == -1i64 {
                        None
                    } else {
                        Some(parent)
                    },
                    offset,
                ),
            )
        } else {
            None
        },
        _ => None,
    }
}

/// Reading the head of an image gives the head back.
pub proof fn lemma_head_round_trip(
    node_type: NodeType,
    is_root: bool,
    parent_offset: Option<i64>,
    offset: i64,
    post: Seq<u8>,
)
    ensures
        spec_head_parse(spec_head_bytes(node_type, is_root, parent_offset, offset) + post) == Some(
            (node_type, is_root, spec_parent_norm(parent_offset), offset),
        ),
        spec_head_bytes(node_type, is_root, parent_offset, offset).len() == HEAD_LEN,
{
    lemma_auto_spec_u64_to_from_le_bytes();
    let a = seq![spec_type_byte(node_type)];
    let b = seq![spec_flag_byte(is_root)];
    let c = spec_u64_to_le_bytes(spec_u64_of(spec_parent_code(parent_offset)));
    let d = spec_u64_to_le_bytes(spec_u64_of(offset));
    let s = spec_head_bytes(node_type, is_root, parent_offset, offset) + post;
    let z = Seq::<u8>::empty();
    assert(s =~= z + a + (b + c + d + post));
    lemma_read_back(z, b + c + d + post);
    assert(s =~= a + b + (c + d + post));
    lemma_read_back(a, c + d + post);
    assert(s =~= (a + b) + c + (d + post));
    lemma_read_back(a + b, d + post);
    assert(s =~= (a + b + c) + d + post);
    lemma_read_back(a + b + c, post);
    if parent_offset is Some {
        crate::structures::tree::serialization::lemma_i64_u64_round_trip(parent_offset.unwrap());
    }
}

/// Appends the head of a node's image.
pub fn write_head(
    out: &mut Vec<u8>,
    node_type: NodeType,
    is_root: bool,
    parent_offset: Option<i64>,
    offset: i64,
)
    ensures
        final(out)@ == old(out)@ + spec_head_bytes(node_type, is_root, parent_offset, offset),
{
    out.push(
        match node_type {
            NodeType::Leaf => 0u8,
            NodeType::Internal => 1u8,
        },
    );
    out.push(
        if is_root {
            1u8
        } else {
            0u8
        },
    );
    write_i64(
        out,
        match parent_offset {
            Some(p) => p,
            None => -1,
        },
    );
    write_i64(out, offset);
    assert(final(out)@ =~= old(out)@ + spec_head_bytes(node_type, is_root, parent_offset, offset));
}

/// Reads the head at the front of `data`.
pub fn read_head(data: &[u8]) -> (r: Option<(NodeType, bool, Option<i64>, i64)>)
    ensures
        r == spec_head_parse(data@),
{
    let t = match read_u8(data, 0) {
        Some(x) => x,
        None => {
            return None;
        },
    };
    let r = match read_u8(data, 1) {
        Some(x) => x,
        None => {
            return None;
        },
    };
    let parent = match read_i64(data, 2) {
        Some(x) => x,
        None => {
            return None;
        },
    };
    let offset = match read_i64(data, 10) {
        Some(x) => x,
        None => {
            return None;
        },
    };
    if t > 1 || r > 1 {
        return None;
    }
    Some(
        (
            if t == 0 {
                NodeType::Leaf
            } else {
                NodeType::Internal
            },
            r == 1,
            if parent == -1 {
                None
            } else {
                Some(parent)
            },
            offset,
        ),
    )
}

/// The image of a node: its head; then its keys, its values and its
/// children, each list behind its count in four bytes. A key or a value
/// stands behind its length in eight bytes; a child takes eight bytes.
pub open spec fn spec_node_bytes<K: TreeSerialization, V: TreeSerialization>(
    v: NodeView<K::V, V::V>,
) -> Seq<u8> {
    spec_head_bytes(v.node_type, v.is_root, v.parent_offset, v.offset) + counted_frames(
        true,
        encode_each::<K>(v.keys),
    ) + counted_frames(true, option_blobs::<V>(v.values)) + counted_chunks(
        encode_each::<i64>(v.children),
    )
}

/// The node that `s` is the image of, if it is one.
pub open spec fn spec_node_parse<K: TreeDeserialization, V: TreeDeserialization>(
    s: Seq<u8>,
) -> Option<NodeView<K::V, V::V>> {
    match spec_head_parse(s) {
        Some((node_type, is_root, parent_offset, offset)) => match parse_counted_frames(
            true,
            s,
            HEAD_LEN as int,
        ) {
            Some((kb, pat)) => match (decode_each::<K>(kb), parse_counted_frames(true, s, pat)) {
                (Some(keys), Some((vb, pbt))) => match (
                    option_values::<V>(vb),
                    parse_counted_chunks(s, pbt, 8),
                ) {
                    (Some(values), Some((cb, pct))) => match decode_each::<i64>(cb) {
                        Some(children) => if pct == s.len() {
                            Some(
                                NodeView {
                                    keys,
                                    values,
                                    children,
                                    node_type,
                                    offset,
                                    is_root,
                                    parent_offset,
                                },
                            )
                        } else {
                            None
                        },
                        None => None,
                    },
                    _ => None,
                },
                _ => None,
            },
            None => None,
        },
        None => None,
    }
}

/// Reading the image of a node gives the node back, with no parent where
/// the parent was -1.
pub proof fn lemma_node_round_trip<K: TreeDeserialization, V: TreeDeserialization>(
    v: NodeView<K::V, V::V>,
)
    requires
        node_encodable::<K, V>(v),
    ensures
        spec_node_parse::<K, V>(spec_node_bytes::<K, V>(v)) == Some(
            NodeView { parent_offset: spec_parent_norm(v.parent_offset), ..v },
        ),
{
    lemma_auto_spec_u64_to_from_le_bytes();
    let s = spec_node_bytes::<K, V>(v);
    let h = spec_head_bytes(v.node_type, v.is_root, v.parent_offset, v.offset);
    let kb = encode_each::<K>(v.keys);
    let f = counted_frames(true, kb);
    let vb = option_blobs::<V>(v.values);
    let g = counted_frames(true, vb);
    let cb = encode_each::<i64>(v.children);
    let j = counted_chunks(cb);
    let z = Seq::<u8>::empty();
    assert(s =~= h + (f + g + j));
    lemma_head_round_trip(v.node_type, v.is_root, v.parent_offset, v.offset, f + g + j);
    assert(s =~= h + f + (g + j));
    lemma_counted_frames_round_trip(true, h, kb, g + j);
    lemma_decode_each_of_encode_each::<K>(v.keys);
    assert(s =~= (h + f) + g + j);
    lemma_counted_frames_round_trip(true, h + f, vb, j);
    assert forall|x: int| 0 <= x < vb.len() implies (#[trigger] spec_option_parse::<V>(vb[x]))
        == Some(v.values[x]) by {
        lemma_option_round_trip::<V>(v.values[x]);
    }
    assert(Seq::new(vb.len(), |x: int| spec_option_parse::<V>(vb[x]).unwrap()) =~= v.values);
    assert(s =~= (h + f + g) + j + z);
    lemma_counted_chunks_round_trip(h + f + g, cb, z, 8);
    lemma_decode_each_of_encode_each::<i64>(v.children);
}

/// Reading the image of an optional value gives the value back.
pub proof fn lemma_option_round_trip<V: TreeDeserialization>(o: Option<V::V>)
    requires
        option_encodable::<V>(o),
    ensures
        spec_option_parse::<V>(spec_option_bytes::<V>(o)) == Some(o),
{
    match o {
        Some(v) => {
            let b = spec_option_bytes::<V>(o);
            assert(b.subrange(1, b.len() as int) =~= V::spec_serialize(v));
            V::lemma_round_trip(v);
        },
        None => {},
    }
}

/// The image of every optional value of `vals`.
pub fn encode_options<V: TreeSerialization>(vals: &Vec<Option<V>>) -> (blobs: Vec<Vec<u8>>)
    ensures
        blob_views(blobs@) == option_blobs::<V>(option_views(vals@)),
        blobs@.len() == vals@.len(),
        forall|i: int|
            0 <= i < vals@.len() ==> option_encodable::<V>(#[trigger] option_views(vals@)[i]),
{
    let mut blobs: Vec<Vec<u8>> = Vec::new();
    let mut i: usize = 0;
    while i < vals.len()
        invariant
            i <= vals.len(),
            blobs@.len() == i,
            forall|j: int|
                0 <= j < i ==> (#[trigger] blobs@[j])@ == spec_option_bytes::<V>(
                    option_view(vals@[j]),
                ),
            forall|j: int| 0 <= j < i ==> option_encodable::<V>(#[trigger] option_views(vals@)[j]),
        decreases vals.len() - i,
    {
        let mut blob: Vec<u8> = Vec::new();
        match &vals[i] {
            Some(v) => {
                blob.push(1u8);
                let mut body = v.serialize();
                blob.append(&mut body);
            },
            None => {
                blob.push(0u8);
            },
        }
        assert(blob@ =~= spec_option_bytes::<V>(option_view(vals@[i as int])));
        blobs.push(blob);
        i = i + 1;
    }
    assert(blob_views(blobs@) =~= option_blobs::<V>(option_views(vals@)));
    blobs
}

/// The optional values that the blobs are images of; fails with
/// `Corruption` exactly when one of them is no image.
pub fn decode_options<V: TreeDeserialization>(blobs: &Vec<Vec<u8>>) -> (r: Result<
    Vec<Option<V>>,
    HaystackError,
>)
    ensures
        match r {
            Ok(vals) => option_values::<V>(blob_views(blobs@)) == Some(option_views(vals@)),
            Err(e) => e == HaystackError::Corruption && option_values::<V>(blob_views(blobs@))
                is None,
        },
{
    let mut vals: Vec<Option<V>> = Vec::new();
    let mut i: usize = 0;
    let ghost all = blob_views(blobs@);
    while i < blobs.len()
        invariant
            i <= blobs.len(),
            all == blob_views(blobs@),
            vals@.len() == i,
            forall|j: int|
                0 <= j < i ==> (#[trigger] spec_option_parse::<V>(all[j])) == Some(
                    option_view(vals@[j]),
                ),
        decreases blobs.len() - i,
    {
        let blob = blobs[i].as_slice();
        assert(blob@ == all[i as int]);
        if blob.len() == 0 {
            assert(spec_option_parse::<V>(all[i as int]) is None);
            return Err(HaystackError::Corruption);
        }
        if blob[0] == 0 {
            if blob.len() != 1 {
                assert(spec_option_parse::<V>(all[i as int]) is None);
                return Err(HaystackError::Corruption);
            }
            vals.push(None);
        } else if blob[0] == 1 {
            match V::deserialize(slice_subrange(blob, 1, blob.len())) {
                Ok(v) => {
                    vals.push(Some(v));
                },
                Err(_) => {
                    assert(spec_option_parse::<V>(all[i as int]) is None);
                    return Err(HaystackError::Corruption);
                },
            }
        } else {
            assert(spec_option_parse::<V>(all[i as int]) is None);
            return Err(HaystackError::Corruption);
        }
        i = i + 1;
    }
    assert(Seq::new(all.len(), |i: int| spec_option_parse::<V>(all[i]).unwrap()) =~= option_views(
        vals@,
    ));
    Ok(vals)
}

impl<K: TreeKey + TreeDeserialization, V: TreeDeserialization> Node<K, V> {
    /// The image of the node.
    pub fn serialize(&self) -> (bytes: Vec<u8>)
        requires
            self.keys@.len() <= u32::MAX,
            self.values@.len() <= u32::MAX,
            self.children@.len() <= u32::MAX,
        ensures
            bytes@ == spec_node_bytes::<K, V>(self@),
            node_encodable::<K, V>(self@),
    {
        let mut out: Vec<u8> = Vec::new();
        write_head(&mut out, self.node_type, self.is_root, self.parent_offset, self.offset);
        let kb = encode_values::<K>(&self.keys);
        write_counted_frames(&mut out, &kb, true);
        let vb = encode_options::<V>(&self.values);
        write_counted_frames(&mut out, &vb, true);
        let cb = encode_values::<i64>(&self.children);
        write_counted_chunks(&mut out, &cb);
        proof {
            assert(elem_views(self.children@) =~= self.children@);
            let v = self@;
            assert forall|i: int| 0 <= i < v.keys.len() implies (#[trigger] encode_each::<K>(
                v.keys,
            )[i]).len() <= u64::MAX by {
                assert(encode_each::<K>(v.keys)[i] == kb@[i]@);
            }
            assert forall|i: int| 0 <= i < v.values.len() implies (#[trigger] option_blobs::<V>(
                v.values,
            )[i]).len() <= u64::MAX by {
                assert(option_blobs::<V>(v.values)[i] == vb@[i]@);
            }
        }
        out
    }

    /// The node that `data` is the image of; fails with `Corruption` exactly
    /// when `data` is no image of a node.
    pub fn deserialize(data: &[u8]) -> (r: Result<Self, HaystackError>)
        ensures
            match r {
                Ok(node) => spec_node_parse::<K, V>(data@) == Some(node@),
                Err(e) => e == HaystackError::Corruption && spec_node_parse::<K, V>(data@) is None,
            },
    {
        let bad = Err(HaystackError::Corruption);
        let total: usize = data.len();
        let (node_type, is_root, parent_offset, offset) = match read_head(data) {
            Some(x) => x,
            None => {
                return bad;
            },
        };
        let (kb, pat) = match read_counted_frames(data, HEAD_LEN, true) {
            Some(x) => x,
            None => {
                return bad;
            },
        };
        let keys = match decode_blobs::<K>(&kb) {
            Ok(x) => x,
            Err(_) => {
                return bad;
            },
        };
        let (vb, pbt) = match read_counted_frames(data, pat, true) {
            Some(x) => x,
            None => {
                return bad;
            },
        };
        let values = match decode_options::<V>(&vb) {
            Ok(x) => x,
            Err(_) => {
                return bad;
            },
        };
        let (cb, pct) = match read_counted_chunks(data, pbt, 8) {
            Some(x) => x,
            None => {
                return bad;
            },
        };
        let children = match decode_blobs::<i64>(&cb) {
            Ok(x) => x,
            Err(_) => {
                return bad;
            },
        };
        if pct != total {
            return bad;
        }
        assert(elem_views(children@) =~= children@);
        Ok(Node { keys, values, children, node_type, offset, is_root, parent_offset })
    }
}

} // verus!
