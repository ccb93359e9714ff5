//! An embeddable vector-search engine: binary-quantized vectors, a metadata
//! index and an inverted index over B+-trees, boolean attribute filters, a
//! clustered tree for approximate search, and a snapshot format.

pub mod consistency;
pub mod constants;
pub mod errors;
pub mod math;
pub mod rules;
pub mod structures;
pub mod utils;
use crate::constants::{QUANTIZED_VECTOR_SIZE, VECTOR_SIZE};
use crate::errors::HaystackError;
use crate::rules::{
    has_kv,
    indexed,
    lemma_posting_appended,
    lemma_record_added,
    names,
    postings_ok,
    record_at,
    records_ok,
    stores_ok,
    Postings,
    Records,
};
use crate::structures::inverted_index::{InvertedIndexItem, InvertedIndexItemView};
use crate::structures::metadata_index::{
    KVPair, KVPairView, MetadataIndexItem, MetadataIndexItemView,
};
use crate::structures::namespace_state::NamespaceState;
use crate::structures::tree::serialization::{duplicate_all, elem_views, TreeSerialization};
use crate::structures::tree::{empty_room, Tree, DEFAULT_FANOUT};
use crate::math::spec_hamming;
use crate::structures::ann_tree::par_distances;
use crate::structures::dense_vector_list::vector_views;
use crate::structures::filters::{
    postings_sorted, spec_candidates, spec_matches, spec_selects, Filter, Filters,
};
use crate::structures::sorted_lists::{
    ascending, lemma_picked_all, lemma_picked_is_ascending, lemma_picked_none, listed,
};
use crate::structures::top_k::{insert_bounded, lemma_top_is_seen, lemma_top_sorted, top_of, Hit};
use crate::consistency::{consistent, validate};
use crate::structures::namespace_state::{spec_state_content, spec_state_in_order};
use crate::utils::{quantize, spec_quantize};
use libflate::gzip::{Decoder, Encoder};
use std::io::{Read, Write};
use vstd::prelude::*;

verus! {

/// A random version-4 UUID as a number, from `uuid::Uuid::new_v4` and
/// `as_u128`. Nothing is claimed of the number.
#[verifier::external_body]
pub(crate) fn fresh_id() -> (id: u128) {
    uuid::Uuid::new_v4().as_u128()
}

/// The bytes that libflate's GZIP decoder reads from a GZIP stream: none
/// where the bytes are no such stream, or a broken one.
pub uninterp spec fn spec_gunzip(data: Seq<u8>) -> Option<Seq<u8>>;

/// Packs the bytes in a GZIP stream with `libflate::gzip::Encoder`, which
/// writes to a vector here. The encoder hands on the errors of its writer
/// and has none of its own, and a vector takes every write: there is a
/// stream. The decoder of the same crate reads from the stream the bytes
/// that went in.
#[verifier::external_body]
pub(crate) fn gzip_encode(data: &[u8]) -> (r: Option<Vec<u8>>)
    ensures
        r is Some,
        spec_gunzip(r.unwrap()@) == Some(data@),
{
    let mut encoder = Encoder::new(Vec::new()).ok()?;
    encoder.write_all(data).ok()?;
    encoder.finish().into_result().ok()
}

/// Reads a GZIP stream with `libflate::gzip::Decoder` to its end. Gives
/// none where the decoder reports an error.
#[verifier::external_body]
pub(crate) fn gzip_decode(data: &[u8]) -> (r: Option<Vec<u8>>)
    ensures
        match r {
            Some(out) => spec_gunzip(data@) == Some(out@),
            None => spec_gunzip(data@) is None,
        },
{
    let mut decoder = Decoder::new(data).ok()?;
    let mut out = Vec::new();
    decoder.read_to_end(&mut out).ok()?;
    Some(out)
}

/// A namespace: the vectors, their records and their posting lists, and for
/// every vector index the id of its record.
pub struct HaystackEmbedded {
    pub state: NamespaceState,
    pub ids: Vec<u128>,
}

/// Whether a snapshot can be loaded: it is a GZIP stream that holds the
/// image of a state in order whose records, posting lists and vectors go
/// together.
pub open spec fn spec_loads(data: Seq<u8>) -> bool {
    match spec_gunzip(data) {
        Some(image) => match spec_state_content(image) {
            Some((records, postings, vectors)) => spec_state_in_order(image) && consistent(
                postings,
                records,
                vectors.len(),
            ),
            None => false,
        },
        None => false,
    }
}

/// The record of a vector.
pub open spec fn record_of(kvs: Seq<KVPairView>, id: u128, vector_index: usize) -> MetadataIndexItemView {
    MetadataIndexItemView { kvs, id, vector_index }
}

/// Whether one of the attributes before place `x` is `kv`.
pub open spec fn among(kvs: Seq<KVPairView>, x: int, kv: KVPairView) -> bool {
    exists|y: int| 0 <= y < x && (#[trigger] kvs[y]) == kv
}

/// Whether one of the attributes before place `x` is the attribute at `x`.
pub open spec fn seen_before(kvs: Seq<KVPairView>, x: int) -> bool {
    among(kvs, x, kvs[x])
}

/// Whether one of the attributes before place `x` is the attribute at `x`.
pub fn appears_before(metadata: &Vec<KVPair>, x: usize) -> (r: bool)
    requires
        x < metadata@.len(),
    ensures
        r == seen_before(elem_views(metadata@), x as int),
{
    let mut y: usize = 0;
    while y < x
        invariant
            y <= x < metadata@.len(),
            forall|z: int| 0 <= z < y ==> elem_views(metadata@)[z] != elem_views(metadata@)[x as int],
        decreases x - y,
    {
        if metadata[y].same(&metadata[x]) {
            assert(elem_views(metadata@)[y as int] == elem_views(metadata@)[x as int]);
            return true;
        }
        y = y + 1;
    }
    false
}

/// The vector with the components of a slice of the right length.
pub fn to_array(vector: &[u32]) -> (a: [u32; VECTOR_SIZE])
    requires
        vector@.len() == VECTOR_SIZE,
    ensures
        a@ == vector@,
{
    let mut a: [u32; VECTOR_SIZE] = [0u32; VECTOR_SIZE];
    let mut i: usize = 0;
    while i < VECTOR_SIZE
        invariant
            i <= VECTOR_SIZE,
            vector@.len() == VECTOR_SIZE,
            forall|j: int| 0 <= j < i ==> a@[j] == vector@[j],
        decreases VECTOR_SIZE - i,
    {
        a[i] = vector[i];
        i = i + 1;
    }
    assert(a@ =~= vector@);
    a
}

/// The hits of the candidates: for each its distance to the query and its
/// id, in the order of the candidates.
pub open spec fn candidate_hits(
    query: Seq<u8>,
    vectors: Seq<Seq<u8>>,
    cand: InvertedIndexItemView,
) -> Seq<Hit> {
    Seq::new(
        cand.indices.len(),
        |j: int| (spec_hamming(query, vectors[cand.indices[j] as int]) as u16, cand.ids[j]),
    )
}

/// The first `x` results are the attributes of the first `x` best hits.
pub open spec fn results_match(
    results: Seq<Vec<KVPair>>,
    best: Seq<Hit>,
    records: Records,
    x: int,
) -> bool {
    forall|y: int| 0 <= y < x ==> #[trigger] result_at(results, best, records, y)
}

/// The result at place `y` holds the attributes of the best hit at that
/// place.
pub open spec fn result_at(results: Seq<Vec<KVPair>>, best: Seq<Hit>, records: Records, y: int) -> bool {
    records.contains_key(best[y].1) && elem_views(results[y]@) == records[best[y].1].kvs
}

/// The posting lists of a namespace in order are sorted as the evaluation
/// of filters needs them.
pub proof fn lemma_postings_sorted(postings: Postings, records: Records, ids: Seq<u128>)
    requires
        postings_ok(postings, records, ids),
    ensures
        postings_sorted(postings, ids.len() as int),
{
    assert forall|kv: KVPairView| #[trigger] postings.contains_key(kv) implies ascending(
        postings[kv].indices,
    ) && forall|j: int|
        0 <= j < postings[kv].indices.len() ==> (#[trigger] postings[kv].indices[j]) < ids.len() by {
        assert(crate::rules::posting_ok(postings[kv], kv, records, ids));
    }
}

/// The number of attributes of the first `m` lists.
pub open spec fn attributes_upto(metadata: Seq<Vec<KVPair>>, m: int) -> int
    decreases m,
{
    if m <= 0 {
        0
    } else {
        attributes_upto(metadata, m - 1) + metadata[m - 1]@.len()
    }
}

/// The records after the first `m` vectors of a batch were added from the
/// vector index `base` on.
pub open spec fn with_records(
    records: Records,
    metadata: Seq<Vec<KVPair>>,
    ids: Seq<u128>,
    base: int,
    m: int,
) -> Records
    decreases m,
{
    if m <= 0 {
        records
    } else {
        with_records(records, metadata, ids, base, m - 1).insert(
            ids[m - 1],
            record_of(elem_views(metadata[m - 1]@), ids[m - 1], (base + m - 1) as usize),
        )
    }
}

/// The quantized forms of the first `m` vectors of a batch.
pub open spec fn quantized_upto(vectors: Seq<Vec<u32>>, m: int) -> Seq<Seq<u8>> {
    Seq::new(m as nat, |j: int| spec_quantize(vectors[j]@))
}

/// Whether no two of the ids are the same and no record has one of them.
pub open spec fn ids_free(records: Records, ids: Seq<u128>) -> bool {
    &&& forall|j: int| 0 <= j < ids.len() ==> !records.contains_key(#[trigger] ids[j])
    &&& forall|a: int, b: int| 0 <= a < b < ids.len() ==> (#[trigger] ids[a]) != (#[trigger] ids[b])
}

/// Whether every vector of the batch has `VECTOR_SIZE` components.
pub open spec fn dims_ok(vectors: Seq<Vec<u32>>) -> bool {
    forall|j: int| 0 <= j < vectors.len() ==> (#[trigger] vectors[j])@.len() == VECTOR_SIZE
}

/// Whether no two of the ids are the same, each held against every one
/// before it.
fn distinct_one_by_one(ids: &Vec<u128>) -> (r: bool)
    ensures
        r == forall|a: int, b: int|
            0 <= a < b < ids@.len() ==> (#[trigger] ids@[a]) != (#[trigger] ids@[b]),
{
    let mut j: usize = 0;
    while j < ids.len()
        invariant
            j <= ids@.len(),
            forall|a: int, b: int| 0 <= a < b < j ==> (#[trigger] ids@[a]) != (#[trigger] ids@[b]),
        decreases ids@.len() - j,
    {
        let mut x: usize = 0;
        while x < j
            invariant
                x <= j < ids@.len(),
                forall|a: int| 0 <= a < x ==> (#[trigger] ids@[a]) != ids@[j as int],
            decreases j - x,
        {
            if ids[x] == ids[j] {
                return false;
            }
            x = x + 1;
        }
        j = j + 1;
    }
    true
}

/// Whether no two of the ids are the same.
pub fn all_distinct(ids: &Vec<u128>) -> (r: bool)
    ensures
        r == forall|a: int, b: int|
            0 <= a < b < ids@.len() ==> (#[trigger] ids@[a]) != (#[trigger] ids@[b]),
{
    let mut seen: Tree<u128, usize> = Tree::empty(DEFAULT_FANOUT);
    let total: usize = ids.len();
    if !seen.has_room_for(total) {
        return distinct_one_by_one(ids);
    }
    let mut j: usize = 0;
    while j < total
        invariant
            j <= total,
            total == ids@.len(),
            seen.wf(),
            seen.room((total - j) as nat),
            forall|a: int| 0 <= a < j ==> seen@.contains_key(#[trigger] ids@[a]),
            forall|k: u128| #[trigger]
                seen@.contains_key(k) ==> exists|a: int| 0 <= a < j && (#[trigger] ids@[a]) == k,
            forall|a: int, b: int| 0 <= a < b < j ==> (#[trigger] ids@[a]) != (#[trigger] ids@[b]),
        decreases total - j,
    {
        if seen.lookup(&ids[j]).is_some() {
            proof {
                let a = choose|a: int| 0 <= a < j && (#[trigger] ids@[a]) == ids@[j as int];
                assert(ids@[a] == ids@[j as int]);
            }
            return false;
        }
        let ghost before = seen@;
        let put = seen.insert(ids[j], j);
        proof {
            assert(put is Ok);
            assert forall|k: u128| #[trigger] seen@.contains_key(k) implies exists|a: int|
                0 <= a < j + 1 && (#[trigger] ids@[a]) == k by {
                if k == ids@[j as int] {
                    assert(ids@[j as int] == k);
                } else {
                    assert(before.contains_key(k));
                    let a = choose|a: int| 0 <= a < j && (#[trigger] ids@[a]) == k;
                    assert(0 <= a < j + 1 && ids@[a] == k);
                }
            }
            assert forall|a: int, b: int| 0 <= a < b < j + 1 implies (#[trigger] ids@[a]) != (
            #[trigger] ids@[b]) by {
                if b == j {
                    assert(before.contains_key(ids@[a]));
                }
            }
        }
        j = j + 1;
    }
    true
}

impl HaystackEmbedded {
    /// Whether a batch can be added: as many lists of attributes and ids
    /// as vectors; every vector of the right size; ids that differ from one
    /// another and that no record has; and both indices far enough from
    /// their limits.
    pub open spec fn batch_ready(
        &self,
        vectors: Seq<Vec<u32>>,
        metadata: Seq<Vec<KVPair>>,
        ids: Seq<u128>,
    ) -> bool {
        &&& metadata.len() == vectors.len()
        &&& ids.len() == vectors.len()
        &&& dims_ok(vectors)
        &&& ids_free(self.records(), ids)
        &&& self.spare(vectors.len(), attributes_upto(metadata, metadata.len() as int) as nat)
    }

    /// Whether the namespace is what `before` is after the first `m` vectors
    /// of the batch were added.
    pub open spec fn batch_added(
        &self,
        before: &Self,
        vectors: Seq<Vec<u32>>,
        metadata: Seq<Vec<KVPair>>,
        ids: Seq<u128>,
        m: int,
    ) -> bool {
        &&& self.wf()
        &&& self.state.namespace_id == before.state.namespace_id
        &&& self.vectors() == before.vectors() + quantized_upto(vectors, m)
        &&& self.ids@ == before.ids@ + ids.subrange(0, m)
        &&& self.records() == with_records(
            before.records(),
            metadata,
            ids,
            before.ids@.len() as int,
            m,
        )
    }

    /// Adds the vectors of a batch, each with its attributes and under its
    /// id, in their order, as `add_vector_with_id` adds one. Nothing is
    /// added unless all can be. Fails, changing nothing: with
    /// `LengthMismatch` when there are not as many lists of attributes and
    /// ids as vectors; else with `DimMismatch` when a vector has not
    /// `VECTOR_SIZE` components; else with `OutOfBounds`.
    pub fn batch_add_vectors_with_ids(
        &mut self,
        vectors: Vec<Vec<u32>>,
        metadata: Vec<Vec<KVPair>>,
        ids: Vec<u128>,
    ) -> (r: Result<(), HaystackError>)
        requires
            old(self).wf(),
        ensures
            final(self).wf(),
            r is Ok <==> old(self).batch_ready(vectors@, metadata@, ids@),
            forall|m: nat, a: nat|
                r is Ok && m >= vectors@.len() && a >= attributes_upto(
                    metadata@,
                    metadata@.len() as int,
                ) && #[trigger] old(self).spare(m, a) ==> final(self).spare(
                    (m - vectors@.len()) as nat,
                    (a - attributes_upto(metadata@, metadata@.len() as int)) as nat,
                ),
            match r {
                Ok(()) => final(self).batch_added(
                    old(self),
                    vectors@,
                    metadata@,
                    ids@,
                    vectors@.len() as int,
                ),
                Err(e) => *final(self) == *old(self) && e == (if metadata@.len() != vectors@.len()
                    || ids@.len() != vectors@.len() {
                    HaystackError::LengthMismatch
                } else if !dims_ok(vectors@) {
                    HaystackError::DimMismatch
                } else {
                    HaystackError::OutOfBounds
                }),
            },
    {
        let m: usize = vectors.len();
        if metadata.len() != m || ids.len() != m {
            return Err(HaystackError::LengthMismatch);
        }
        let mut j: usize = 0;
        while j < m
            invariant
                j <= m,
                m == vectors@.len(),
                m == metadata@.len(),
                m == ids@.len(),
                *self == *old(self),
                self.wf(),
                forall|x: int| 0 <= x < j ==> (#[trigger] vectors@[x])@.len() == VECTOR_SIZE,
            decreases m - j,
        {
            if vectors[j].len() != VECTOR_SIZE {
                assert(vectors@[j as int]@.len() != VECTOR_SIZE);
                return Err(HaystackError::DimMismatch);
            }
            j = j + 1;
        }
        let mut attributes: usize = 0;
        let mut j: usize = 0;
        while j < m
            invariant
                j <= m,
                m == vectors@.len(),
                m == metadata@.len(),
                m == ids@.len(),
                *self == *old(self),
                self.wf(),
                dims_ok(vectors@),
                attributes == attributes_upto(metadata@, j as int),
                forall|x: int| 0 <= x < j ==> !self.records().contains_key(#[trigger] ids@[x]),
            decreases m - j,
        {
            let here: usize = metadata[j].len();
            if here > usize::MAX - attributes {
                proof {
                    lemma_attributes_grow(metadata@, j + 1, m as int);
                    self.state.inverted_index.tree.lemma_room_bounds(
                        attributes_upto(metadata@, m as int) as nat,
                    );
                }
                return Err(HaystackError::OutOfBounds);
            }
            attributes = attributes + here;
            if self.state.metadata_index.tree.lookup(&ids[j]).is_some() {
                return Err(HaystackError::OutOfBounds);
            }
            j = j + 1;
        }
        if !all_distinct(&ids) || !self.state.metadata_index.tree.has_room_for(m)
            || !self.state.inverted_index.tree.has_room_for(attributes) {
            return Err(HaystackError::OutOfBounds);
        }
        let mut j: usize = 0;
        proof {
            assert(self.vectors() + quantized_upto(vectors@, 0) =~= self.vectors());
            assert(self.ids@ + ids@.subrange(0, 0) =~= self.ids@);
        }
        while j < m
            invariant
                j <= m,
                m == vectors@.len(),
                m == metadata@.len(),
                m == ids@.len(),
                dims_ok(vectors@),
                ids_free(old(self).records(), ids@),
                attributes == attributes_upto(metadata@, m as int),
                self.batch_added(old(self), vectors@, metadata@, ids@, j as int),
                self.state.metadata_index.tree.room((m - j) as nat),
                self.state.inverted_index.tree.room(
                    (attributes - attributes_upto(metadata@, j as int)) as nat,
                ),
                forall|x: nat|
                    x >= j && #[trigger] old(self).state.metadata_index.tree.room(x)
                        ==> self.state.metadata_index.tree.room((x - j) as nat),
                forall|x: nat|
                    x >= attributes_upto(metadata@, j as int) && #[trigger] old(self).state.inverted_index.tree.room(x) ==> self.state.inverted_index.tree.room(
                        (x - attributes_upto(metadata@, j as int)) as nat,
                    ),
                forall|k: u128| #[trigger]
                    self.records().contains_key(k) ==> old(self).records().contains_key(k)
                        || exists|a: int| 0 <= a < j && (#[trigger] ids@[a]) == k,
            decreases m - j,
        {
            let ghost start = *self;
            let raw = to_array(vectors[j].as_slice());
            let q = quantize(&raw);
            let kvs = duplicate_all(&metadata[j]);
            proof {
                lemma_attributes_grow(metadata@, j + 1, m as int);
                assert(elem_views(kvs@).len() == kvs@.len());
                assert(elem_views(metadata@[j as int]@).len() == metadata@[j as int]@.len());
                assert(attributes_upto(metadata@, j + 1) == attributes_upto(metadata@, j as int)
                    + kvs@.len());
                start.state.inverted_index.tree.lemma_room_less(
                    (attributes - attributes_upto(metadata@, j as int)) as nat,
                    kvs@.len() as nat,
                );
                start.state.metadata_index.tree.lemma_room_less((m - j) as nat, 1);
                if start.records().contains_key(ids@[j as int]) {
                    if !old(self).records().contains_key(ids@[j as int]) {
                        let a = choose|a: int| 0 <= a < j && (#[trigger] ids@[a]) == ids@[j as int];
                        assert(ids@[a] != ids@[j as int]);
                    }
                }
            }
            self.add_unchecked(q, kvs, ids[j]);
            proof {
                assert forall|x: nat|
                    x >= j + 1 && #[trigger] old(self).state.metadata_index.tree.room(
                        x,
                    ) implies self.state.metadata_index.tree.room((x - (j + 1)) as nat) by {
                    assert(start.state.metadata_index.tree.room((x - j) as nat));
                }
                assert forall|x: nat|
                    x >= attributes_upto(metadata@, j + 1) && #[trigger] old(self).state.inverted_index.tree.room(x) implies self.state.inverted_index.tree.room(
                    (x - attributes_upto(metadata@, j + 1)) as nat,
                ) by {
                    assert(start.state.inverted_index.tree.room(
                        (x - attributes_upto(metadata@, j as int)) as nat,
                    ));
                }
                assert(self.vectors() =~= old(self).vectors() + quantized_upto(vectors@, j + 1));
                assert(self.ids@ =~= old(self).ids@ + ids@.subrange(0, j + 1));
                assert forall|k: u128| #[trigger] self.records().contains_key(k) implies old(self).records().contains_key(k) || exists|a: int|
                    0 <= a < j + 1 && (#[trigger] ids@[a]) == k by {
                    if k == ids@[j as int] {
                        assert(ids@[j as int] == k);
                    } else {
                        assert(start.records().contains_key(k));
                        if !old(self).records().contains_key(k) {
                            let a = choose|a: int| 0 <= a < j && (#[trigger] ids@[a]) == k;
                            assert(0 <= a < j + 1 && ids@[a] == k);
                        }
                    }
                }
            }
            j = j + 1;
        }
        Ok(())
    }

    /// Adds the vectors of a batch, each with its attributes, under fresh
    /// random ids: version-4 UUIDs. Fails as `batch_add_vectors_with_ids`
    /// does; an empty batch changes nothing.
    pub fn batch_add_vectors(&mut self, vectors: Vec<Vec<u32>>, metadata: Vec<Vec<KVPair>>) -> (r:
        Result<(), HaystackError>)
        requires
            old(self).wf(),
        ensures
            final(self).wf(),
            vectors@.len() == 0 && metadata@.len() == 0 ==> r is Ok && *final(self) == *old(self),
            forall|m: nat, a: nat|
                r is Ok && m >= vectors@.len() && a >= attributes_upto(
                    metadata@,
                    metadata@.len() as int,
                ) && #[trigger] old(self).spare(m, a) ==> final(self).spare(
                    (m - vectors@.len()) as nat,
                    (a - attributes_upto(metadata@, metadata@.len() as int)) as nat,
                ),
            match r {
                Ok(()) => exists|ids: Seq<u128>|
                    old(self).batch_ready(vectors@, metadata@, ids) && #[trigger] final(self).batch_added(old(self), vectors@, metadata@, ids, vectors@.len() as int),
                Err(e) => *final(self) == *old(self) && e == (if metadata@.len() != vectors@.len() {
                    HaystackError::LengthMismatch
                } else if !dims_ok(vectors@) {
                    HaystackError::DimMismatch
                } else {
                    HaystackError::OutOfBounds
                }),
            },
    {
        let m: usize = vectors.len();
        if metadata.len() != m {
            return Err(HaystackError::LengthMismatch);
        }
        if m == 0 {
            proof {
                let ids = Seq::<u128>::empty();
                assert(self.vectors() + quantized_upto(vectors@, 0) =~= self.vectors());
                assert(self.ids@ + ids.subrange(0, 0) =~= self.ids@);
                self.state.metadata_index.tree.lemma_room_bounds(0);
                self.state.inverted_index.tree.lemma_room_bounds(0);
                assert(self.batch_ready(vectors@, metadata@, ids));
                assert(self.batch_added(self, vectors@, metadata@, ids, 0));
            }
            return Ok(());
        }
        let mut ids: Vec<u128> = Vec::new();
        let mut j: usize = 0;
        while j < m
            invariant
                j <= m,
                ids@.len() == j,
            decreases m - j,
        {
            ids.push(fresh_id());
            j = j + 1;
        }
        self.batch_add_vectors_with_ids(vectors, metadata, ids)
    }
}

/// The number of attributes grows with the number of lists.
pub proof fn lemma_attributes_grow(metadata: Seq<Vec<KVPair>>, a: int, b: int)
    requires
        0 <= a <= b,
    ensures
        attributes_upto(metadata, a) <= attributes_upto(metadata, b),
        attributes_upto(metadata, a) >= 0,
    decreases b,
{
    if a < b {
        lemma_attributes_grow(metadata, a, b - 1);
    } else if a > 0 {
        lemma_attributes_grow(metadata, a - 1, a - 1);
    }
}

impl HaystackEmbedded {
    /// Every entry of a posting list names a vector index with the id of
    /// its record, and that record has the attribute of the list.
    pub proof fn lemma_posting_names_record(&self, kv: KVPairView, j: int)
        requires
            self.wf(),
            self.postings().contains_key(kv),
            0 <= j < self.postings()[kv].indices.len(),
        ensures
            self.postings()[kv].ids.len() == self.postings()[kv].indices.len(),
            self.records().contains_key(self.postings()[kv].ids[j]),
            self.records()[self.postings()[kv].ids[j]].vector_index
                == self.postings()[kv].indices[j],
            has_kv(self.records()[self.postings()[kv].ids[j]].kvs, kv),
    {
        let p = self.postings()[kv];
        assert(crate::rules::posting_ok(p, kv, self.records(), self.ids@));
        assert(record_at(self.records(), self.ids@, p.indices[j] as int));
    }

    /// The candidates of a filter are the vector indices whose records
    /// satisfy the filter, in strictly ascending order, each with the id of
    /// its record beside it. Where every record satisfies the filter, the
    /// candidates are all vector indices, each at its own place; where no
    /// record does, there is no candidate.
    pub proof fn lemma_candidates_match(&self, f: Filter)
        requires
            self.wf(),
        ensures
            ascending(spec_candidates(f, self.postings(), self.ids@).indices),
            spec_candidates(f, self.postings(), self.ids@).ids.len() == spec_candidates(
                f,
                self.postings(),
                self.ids@,
            ).indices.len(),
            forall|j: int|
                0 <= j < spec_candidates(f, self.postings(), self.ids@).indices.len() ==> {
                    &&& (#[trigger] spec_candidates(f, self.postings(), self.ids@).indices[j])
                        < self.ids@.len()
                    &&& spec_candidates(f, self.postings(), self.ids@).ids[j]
                        == self.ids@[spec_candidates(f, self.postings(), self.ids@).indices[j] as int]
                },
            forall|x: int|
                listed(spec_candidates(f, self.postings(), self.ids@).indices, x) <==> 0 <= x
                    < self.ids@.len() && spec_matches(f, self.records()[self.ids@[x]].kvs),
            (forall|x: int|
                0 <= x < self.ids@.len() ==> spec_matches(
                    f,
                    #[trigger] self.records()[self.ids@[x]].kvs,
                )) ==> {
                &&& spec_candidates(f, self.postings(), self.ids@).indices.len() == self.ids@.len()
                &&& spec_candidates(f, self.postings(), self.ids@).ids == self.ids@
                &&& forall|j: int|
                    0 <= j < self.ids@.len() ==> (#[trigger] spec_candidates(
                        f,
                        self.postings(),
                        self.ids@,
                    ).indices[j]) == j
            },
            (forall|x: int|
                0 <= x < self.ids@.len() ==> !spec_matches(
                    f,
                    #[trigger] self.records()[self.ids@[x]].kvs,
                )) ==> spec_candidates(f, self.postings(), self.ids@).indices.len() == 0,
    {
        let n = self.ids@.len();
        let m = self.postings();
        let p = |i: int| spec_selects(f, m, n as int, i);
        let c = spec_candidates(f, m, self.ids@);
        assert(stores_ok(m, self.records(), self.ids@));
        self.state.metadata_index.tree.lemma_count_fits();
        self.lemma_as_many_records_as_vectors();
        lemma_picked_is_ascending(n, p);
        assert forall|x: int| 0 <= x < n implies (p(x) <==> spec_matches(
            f,
            self.records()[self.ids@[x]].kvs,
        )) by {
            crate::rules::lemma_selects_what_matches(f, m, self.records(), self.ids@, x);
        }
        assert forall|j: int| 0 <= j < c.indices.len() implies (#[trigger] c.indices[j]) < n by {
            assert(listed(c.indices, c.indices[j] as int));
        }
        if forall|x: int|
            0 <= x < n ==> spec_matches(f, #[trigger] self.records()[self.ids@[x]].kvs) {
            assert forall|x: int| 0 <= x < n implies #[trigger] p(x) by {
                crate::rules::lemma_selects_what_matches(f, m, self.records(), self.ids@, x);
            }
            lemma_picked_all(n, p);
            assert(c.ids =~= self.ids@);
        }
        if forall|x: int|
            0 <= x < n ==> !spec_matches(f, #[trigger] self.records()[self.ids@[x]].kvs) {
            assert forall|x: int| 0 <= x < n implies !#[trigger] p(x) by {
                crate::rules::lemma_selects_what_matches(f, m, self.records(), self.ids@, x);
            }
            lemma_picked_none(n, p);
        }
    }

    /// There are as many records as vectors.
    pub proof fn lemma_as_many_records_as_vectors(&self)
        requires
            self.wf(),
        ensures
            self.records().dom().finite(),
            self.vectors().len() == self.records().dom().len(),
    {
    }

    /// Whether the images of the parts of the namespace fit the lengths of
    /// a snapshot. Every namespace in memory does.
    pub open spec fn snapshot_fits(&self) -> bool {
        self.state.image_fits()
    }

    /// The three parts of the image of the state are the images of its
    /// two trees and of its vectors.
    pub proof fn lemma_image_parts(&self)
        requires
            self.wf(),
            self.snapshot_fits(),
        ensures
            crate::structures::namespace_state::spec_state_parse(self.state.image()) == Some(
                (
                    self.state.metadata_index.tree.image(),
                    self.state.inverted_index.tree.image(),
                    crate::structures::dense_vector_list::spec_vectors_bytes(self.vectors()),
                ),
            ),
            crate::structures::dense_vector_list::spec_vectors_parse(
                crate::structures::dense_vector_list::spec_vectors_bytes(self.vectors()),
            ) == Some(self.vectors()),
    {
        let m = self.state.metadata_index.tree.image();
        let i = self.state.inverted_index.tree.image();
        let v = crate::structures::dense_vector_list::spec_vectors_bytes(self.vectors());
        let s = self.state.image();
        let z = Seq::<u8>::empty();
        let fm = crate::structures::tree::serialization::frame(true, m);
        let fi = crate::structures::tree::serialization::frame(true, i);
        let fv = crate::structures::tree::serialization::frame(true, v);
        assert(s =~= z + fm + (fi + fv));
        crate::structures::tree::serialization::lemma_parse_frame_of_frame(true, z, m, fi + fv);
        assert(s =~= fm + fi + fv);
        crate::structures::tree::serialization::lemma_parse_frame_of_frame(true, fm, i, fv);
        assert(s =~= (fm + fi) + fv + z);
        crate::structures::tree::serialization::lemma_parse_frame_of_frame(true, fm + fi, v, z);
        assert forall|x: int| 0 <= x < self.vectors().len() implies (
        #[trigger] self.vectors()[x]).len() == QUANTIZED_VECTOR_SIZE by {}
        crate::structures::dense_vector_list::lemma_vectors_round_trip(self.vectors());
    }

    /// A snapshot of the namespace can be loaded, and what is loaded are
    /// the records, the posting lists and the vectors of the namespace.
    pub proof fn lemma_snapshot_round_trip(&self, snapshot: Seq<u8>)
        requires
            self.wf(),
            self.snapshot_fits(),
            spec_gunzip(snapshot) == Some(self.state.image()),
        ensures
            spec_loads(snapshot),
            spec_state_content(self.state.image()) == Some(
                (self.records(), self.postings(), self.vectors()),
            ),
    {
        self.lemma_image_parts();
        self.state.metadata_index.lemma_image_round_trip();
        self.state.inverted_index.lemma_image_round_trip();
        assert(stores_ok(self.postings(), self.records(), self.ids@));
    }

    /// A namespace that holds what the image of this namespace holds has
    /// the same image: a snapshot of what was loaded from a snapshot holds
    /// what the first snapshot held, node for node.
    pub proof fn lemma_snapshot_again(&self, loaded: &Self)
        requires
            self.wf(),
            self.snapshot_fits(),
            loaded.state.restored_from(self.state.image()),
        ensures
            loaded.state.image() == self.state.image(),
            loaded.state.metadata_index.tree.node_count()
                == self.state.metadata_index.tree.node_count(),
            loaded.state.inverted_index.tree.node_count()
                == self.state.inverted_index.tree.node_count(),
    {
        self.lemma_image_parts();
        self.state.metadata_index.tree.lemma_same_image(&loaded.state.metadata_index.tree);
        self.state.inverted_index.tree.lemma_same_image(&loaded.state.inverted_index.tree);
        self.state.metadata_index.tree.lemma_node_count();
        self.state.inverted_index.tree.lemma_node_count();
        loaded.state.metadata_index.tree.lemma_node_count();
        loaded.state.inverted_index.tree.lemma_node_count();
    }

    /// A namespace in order that holds what the image of this namespace
    /// holds is this namespace again: the same vectors, records, posting
    /// lists and ids, and the same room.
    pub proof fn lemma_loaded_is_same(&self, loaded: &Self)
        requires
            self.wf(),
            self.snapshot_fits(),
            loaded.wf(),
            loaded.state.restored_from(self.state.image()),
        ensures
            loaded.vectors() == self.vectors(),
            loaded.records() == self.records(),
            loaded.postings() == self.postings(),
            loaded.ids@ == self.ids@,
            forall|records: nat, attributes: nat|
                loaded.spare(records, attributes) == self.spare(records, attributes),
    {
        self.lemma_image_parts();
        self.state.metadata_index.tree.lemma_same_tree(&loaded.state.metadata_index.tree);
        self.state.inverted_index.tree.lemma_same_tree(&loaded.state.inverted_index.tree);
        crate::consistency::lemma_ids_unique(self.records(), self.ids@, loaded.ids@);
    }

    /// The snapshot of the namespace: the image of its state, packed in a
    /// GZIP stream. Changes nothing.
    pub fn save_state(&mut self) -> (bytes: Vec<u8>)
        requires
            old(self).wf(),
        ensures
            *final(self) == *old(self),
            old(self).snapshot_fits(),
            spec_gunzip(bytes@) == Some(old(self).state.image()),
    {
        let image = self.state.save_state();
        match gzip_encode(image.as_slice()) {
            Some(bytes) => bytes,
            None => {
                proof {
                    assert(false);
                }
                Vec::new()
            },
        }
    }

    /// Puts in place of the namespace what a snapshot holds; the name stays.
    /// The snapshot is unpacked, its three parts are read, the nodes of the
    /// two trees come back at their offsets, and records, posting lists and
    /// vectors are held against the invariant of the namespace. Fails with
    /// `Corruption`, changing nothing, exactly when `data` is no GZIP
    /// stream, the stream holds no image of a state in order, or what the
    /// image holds does not go together.
    pub fn load_state(&mut self, data: Vec<u8>) -> (r: Result<(), HaystackError>)
        requires
            old(self).wf(),
        ensures
            final(self).wf(),
            final(self).state.namespace_id == old(self).state.namespace_id,
            match r {
                Ok(()) => {
                    &&& spec_loads(data@)
                    &&& final(self).state.restored_from(spec_gunzip(data@).unwrap())
                    &&& spec_state_content(spec_gunzip(data@).unwrap()) == Some(
                        (final(self).records(), final(self).postings(), final(self).vectors()),
                    )
                },
                Err(e) => {
                    &&& *final(self) == *old(self)
                    &&& e == HaystackError::Corruption
                    &&& !spec_loads(data@)
                },
            },
    {
        let image = match gzip_decode(data.as_slice()) {
            Some(x) => x,
            None => {
                return Err(HaystackError::Corruption);
            },
        };
        let mut state = NamespaceState::new(self.state.namespace_id.clone());
        match state.load_state(image) {
            Ok(()) => {},
            Err(e) => {
                return Err(e);
            },
        }
        match validate(&state) {
            Some(ids) => {
                self.state = state;
                self.ids = ids;
                Ok(())
            },
            None => Err(HaystackError::Corruption),
        }
    }

    /// The best hits of a query: of the candidates that the filter selects,
    /// the `k` nearest to the quantized vector, the nearest first and the
    /// smaller id first among equally near ones; all candidates, if there
    /// are no more than `k`.
    pub open spec fn best_hits(&self, vector: Seq<u32>, filter: Filter, k: usize) -> Seq<Hit> {
        top_of(
            candidate_hits(
                spec_quantize(vector),
                self.vectors(),
                spec_candidates(filter, self.postings(), self.ids@),
            ),
            k as int,
        )
    }

    /// Adds a vector, given by the bit patterns of its components, with its
    /// attributes, under the id `id`. The vector is quantized and gets the
    /// next vector index; its record goes to the metadata index; every
    /// attribute of it gets the index and the id appended to its posting
    /// list, once. Fails, changing nothing, with `DimMismatch` when the
    /// vector has not `VECTOR_SIZE` components, and else with `OutOfBounds`
    /// when a record has the id already or an index is too near its limits.
    pub fn add_vector_with_id(&mut self, vector: &[u32], metadata: Vec<KVPair>, id: u128) -> (r:
        Result<(), HaystackError>)
        requires
            old(self).wf(),
        ensures
            final(self).wf(),
            r is Ok <==> vector@.len() == VECTOR_SIZE && !old(self).records().contains_key(id)
                && old(self).spare(1, metadata@.len()),
            forall|m: nat, a: nat|
                r is Ok && m >= 1 && a >= metadata@.len() && #[trigger] old(self).spare(m, a)
                    ==> final(self).spare((m - 1) as nat, (a - metadata@.len()) as nat),
            match r {
                Ok(()) => final(self).added(
                    old(self),
                    spec_quantize(vector@),
                    elem_views(metadata@),
                    id,
                ),
                Err(e) => *final(self) == *old(self) && e == (if vector@.len() != VECTOR_SIZE {
                    HaystackError::DimMismatch
                } else {
                    HaystackError::OutOfBounds
                }),
            },
    {
        if vector.len() != VECTOR_SIZE {
            return Err(HaystackError::DimMismatch);
        }
        if self.state.metadata_index.tree.lookup(&id).is_some()
            || !self.state.metadata_index.tree.has_room_for(1)
            || !self.state.inverted_index.tree.has_room_for(metadata.len()) {
            return Err(HaystackError::OutOfBounds);
        }
        let raw = to_array(vector);
        let q = quantize(&raw);
        self.add_unchecked(q, metadata, id);
        Ok(())
    }

    /// Adds a vector with its attributes under a fresh random id: a
    /// version-4 UUID. An id that a record has already is drawn again, four
    /// times at most. Fails, changing nothing, with `DimMismatch` when the
    /// vector has not `VECTOR_SIZE` components, and else with `OutOfBounds`.
    pub fn add_vector(&mut self, vector: &[u32], metadata: Vec<KVPair>) -> (r: Result<
        (),
        HaystackError,
    >)
        requires
            old(self).wf(),
        ensures
            final(self).wf(),
            vector@.len() != VECTOR_SIZE || !old(self).spare(1, metadata@.len()) ==> r is Err,
            forall|m: nat, a: nat|
                r is Ok && m >= 1 && a >= metadata@.len() && #[trigger] old(self).spare(m, a)
                    ==> final(self).spare((m - 1) as nat, (a - metadata@.len()) as nat),
            match r {
                Ok(()) => exists|id: u128|
                    !old(self).records().contains_key(id) && #[trigger] final(self).added(
                        old(self),
                        spec_quantize(vector@),
                        elem_views(metadata@),
                        id,
                    ),
                Err(e) => *final(self) == *old(self) && e == (if vector@.len() != VECTOR_SIZE {
                    HaystackError::DimMismatch
                } else {
                    HaystackError::OutOfBounds
                }),
            },
    {
        if vector.len() != VECTOR_SIZE {
            return Err(HaystackError::DimMismatch);
        }
        if !self.state.metadata_index.tree.has_room_for(1)
            || !self.state.inverted_index.tree.has_room_for(metadata.len()) {
            return Err(HaystackError::OutOfBounds);
        }
        let mut attempt: usize = 0;
        while attempt < 4
            invariant
                attempt <= 4,
                *self == *old(self),
                self.wf(),
                vector@.len() == VECTOR_SIZE,
                self.spare(1, metadata@.len()),
            decreases 4 - attempt,
        {
            let id = fresh_id();
            if self.state.metadata_index.tree.lookup(&id).is_none() {
                return self.add_vector_with_id(vector, metadata, id);
            }
            attempt = attempt + 1;
        }
        Err(HaystackError::OutOfBounds)
    }

    /// The attributes of the `k` candidates nearest to the vector, the
    /// nearest first and the smaller id first among equally near ones. The
    /// candidates are what the filter selects. Runs of consecutive vector
    /// indices are scanned as one slice of the vector store each. Fails with
    /// `DimMismatch` exactly when the vector has not `VECTOR_SIZE`
    /// components.
    pub fn query(&mut self, vector: &[u32], filter: &Filter, k: usize) -> (r: Result<
        Vec<Vec<KVPair>>,
        HaystackError,
    >)
        requires
            old(self).wf(),
        ensures
            *final(self) == *old(self),
            match r {
                Ok(results) => {
                    let cand = spec_candidates(*filter, old(self).postings(), old(self).ids@);
                    let best = old(self).best_hits(vector@, *filter, k);
                    &&& vector@.len() == VECTOR_SIZE
                    &&& results@.len() == best.len()
                    &&& results@.len() == if cand.indices.len() > k {
                        k as int
                    } else {
                        cand.indices.len() as int
                    }
                    &&& results_match(results@, best, old(self).records(), results@.len() as int)
                },
                Err(e) => e == HaystackError::DimMismatch && vector@.len() != VECTOR_SIZE,
            },
    {
        if vector.len() != VECTOR_SIZE {
            return Err(HaystackError::DimMismatch);
        }
        let raw = to_array(vector);
        let q = quantize(&raw);
        proof {
            lemma_postings_sorted(self.postings(), self.records(), self.ids@);
        }
        let cand = Filters::evaluate(filter, &self.state.inverted_index, &self.ids);
        let ghost hits = candidate_hits(q@, self.vectors(), cand@);
        let total: usize = cand.indices.len();
        let n: usize = self.state.vectors.len();
        let mut best: Vec<Hit> = Vec::new();
        let mut j: usize = 0;
        proof {
            assert(hits.subrange(0, 0) =~= Seq::<Hit>::empty());
        }
        while j < total
            invariant
                j <= total,
                total == cand.indices@.len(),
                cand.ids@.len() == total,
                n == self.vectors().len(),
                n == self.ids@.len(),
                ascending(cand.indices@),
                forall|x: int| 0 <= x < total ==> (#[trigger] cand.indices@[x]) < n,
                hits == candidate_hits(q@, self.vectors(), cand@),
                best@ == top_of(hits.subrange(0, j as int), k as int),
                best@.len() <= k,
            decreases total - j,
        {
            let start: usize = j;
            let first: usize = cand.indices[start];
            let mut len: usize = 1;
            while start + len < total && cand.indices[start + len] - first == len
                invariant
                    start < total,
                    1 <= len <= total - start,
                    total == cand.indices@.len(),
                    ascending(cand.indices@),
                    first == cand.indices@[start as int],
                    forall|x: int| 0 <= x < total ==> (#[trigger] cand.indices@[x]) < n,
                    forall|t: int|
                        0 <= t < len ==> (#[trigger] cand.indices@[start + t]) == first + t,
                decreases total - start - len,
            {
                len = len + 1;
            }
            proof {
                assert(cand.indices@[start + (len - 1)] == first + (len - 1));
            }
            let slice = match self.state.vectors.get_contiguous(first, len) {
                Ok(s) => s,
                Err(_) => {
                    proof {
                        assert(false);
                    }
                    return Err(HaystackError::DimMismatch);
                },
            };
            let d = par_distances(&q, slice);
            proof {
                assert(vector_views(slice@).len() == slice@.len());
                assert forall|x: int| 0 <= x < len implies (#[trigger] d@[x]) == spec_hamming(
                    q@,
                    self.vectors()[cand.indices@[start + x] as int],
                ) by {
                    assert(vector_views(slice@)[x] == slice@[x]@);
                    assert(cand.indices@[start + x] == first + x);
                }
            }
            let mut t: usize = 0;
            while t < len
                invariant
                    t <= len,
                    start + len <= total,
                    total == cand.indices@.len(),
                    cand.ids@.len() == total,
                    d@.len() == len,
                    n == self.vectors().len(),
                    forall|x: int| 0 <= x < total ==> (#[trigger] cand.indices@[x]) < n,
                    hits == candidate_hits(q@, self.vectors(), cand@),
                    forall|x: int|
                        0 <= x < len ==> (#[trigger] d@[x]) == spec_hamming(
                            q@,
                            self.vectors()[cand.indices@[start + x] as int],
                        ),
                    best@ == top_of(hits.subrange(0, start + t), k as int),
                    best@.len() <= k,
                decreases len - t,
            {
                proof {
                    let next = hits.subrange(0, start + t + 1);
                    assert(next.drop_last() =~= hits.subrange(0, start + t));
                    assert(next.last() == hits[start + t]);
                    crate::math::lemma_hamming_bound(
                        q@,
                        self.vectors()[cand.indices@[start + t] as int],
                    );
                }
                if k > 0 {
                    insert_bounded(&mut best, (d[t], cand.ids[start + t]), k);
                }
                t = t + 1;
            }
            j = start + len;
        }
        proof {
            assert(hits.subrange(0, total as int) =~= hits);
            lemma_top_sorted(hits, k as int);
        }
        let mut results: Vec<Vec<KVPair>> = Vec::new();
        let mut x: usize = 0;
        while x < best.len()
            invariant
                x <= best@.len(),
                self.wf(),
                *self == *old(self),
                best@ == top_of(hits, k as int),
                hits == candidate_hits(q@, self.vectors(), cand@),
                cand@ == spec_candidates(*filter, self.postings(), self.ids@),
                cand.ids@.len() == cand.indices@.len(),
                forall|j: int|
                    0 <= j < cand.indices@.len() ==> (#[trigger] cand.indices@[j]) < self.ids@.len()
                        && cand.ids@[j] == self.ids@[cand.indices@[j] as int],
                results@.len() == x,
                results_match(results@, best@, self.records(), x as int),
            decreases best@.len() - x,
        {
            proof {
                lemma_top_is_seen(hits, k as int, x as int);
                let w = choose|w: int| 0 <= w < hits.len() && (#[trigger] hits[w]) == best@[x as int];
                assert(record_at(self.records(), self.ids@, cand.indices@[w] as int));
                assert(hits[w].1 == cand.ids@[w]);
                assert(cand.ids@[w] == self.ids@[cand.indices@[w] as int]);
                assert(self.records().contains_key(best@[x as int].1));
            }
            let ghost was = results@;
            match self.state.metadata_index.tree.lookup(&best[x].1) {
                Some(record) => {
                    let ghost kvs = elem_views(record.kvs@);
                    assert(kvs == self.records()[best@[x as int].1].kvs);
                    results.push(record.kvs);
                    assert(elem_views(results@[x as int]@) == kvs);
                },
                None => {
                    assert(false);
                },
            }
            assert(results@.len() == x + 1);
            assert forall|y: int| 0 <= y < x + 1 implies #[trigger] result_at(
                results@,
                best@,
                self.records(),
                y,
            ) by {
                if y < x {
                    assert(result_at(was, best@, self.records(), y));
                    assert(results@[y] == was[y]);
                }
            }
            x = x + 1;
        }
        proof {
            lemma_top_sorted(hits, k as int);
        }
        Ok(results)
    }
}

impl HaystackEmbedded {
    /// The vectors, by index.
    pub open spec fn vectors(&self) -> Seq<Seq<u8>> {
        self.state.vectors@
    }

    /// The records, by id.
    pub open spec fn records(&self) -> Records {
        self.state.metadata_index@
    }

    /// The posting lists, by attribute.
    pub open spec fn postings(&self) -> Postings {
        self.state.inverted_index@
    }

    /// The invariant of the namespace: every vector index has its id and
    /// its record, and there are no other records; every entry of a posting
    /// list names a vector index with its id, whose record has the
    /// attribute, in strictly ascending order of the indices; and every
    /// attribute of every record names the record's index in its posting
    /// list.
    pub open spec fn wf(&self) -> bool {
        &&& self.state.wf()
        &&& self.vectors().len() == self.ids@.len()
        &&& stores_ok(self.postings(), self.records(), self.ids@)
    }

    /// Whether the two indices have room for so many records with so many
    /// attributes in all.
    pub open spec fn spare(&self, records: nat, attributes: nat) -> bool {
        self.state.metadata_index.tree.room(records) && self.state.inverted_index.tree.room(
            attributes,
        )
    }

    /// A namespace with room for some records and attributes has room for
    /// fewer of either.
    pub proof fn lemma_spare_less(&self, records: nat, attributes: nat, fewer: nat, less: nat)
        requires
            self.spare(records, attributes),
            fewer <= records,
            less <= attributes,
        ensures
            self.spare(fewer, less),
    {
        self.state.metadata_index.tree.lemma_room_less(records, fewer);
        self.state.inverted_index.tree.lemma_room_less(attributes, less);
    }

    /// Whether the two indices have room for so many records with so many
    /// attributes in all.
    pub fn has_room_for(&self, records: usize, attributes: usize) -> (r: bool)
        requires
            self.wf(),
        ensures
            r == self.spare(records as nat, attributes as nat),
    {
        self.state.metadata_index.tree.has_room_for(records)
            && self.state.inverted_index.tree.has_room_for(attributes)
    }

    /// Whether the namespace is what `before` is after the vector `q` with
    /// the attributes `kvs` was added under the id `id`.
    pub open spec fn added(&self, before: &Self, q: Seq<u8>, kvs: Seq<KVPairView>, id: u128) -> bool {
        &&& self.wf()
        &&& self.state.namespace_id == before.state.namespace_id
        &&& self.vectors() == before.vectors().push(q)
        &&& self.ids@ == before.ids@.push(id)
        &&& self.records() == before.records().insert(
            id,
            record_of(kvs, id, before.ids@.len() as usize),
        )
    }

    /// An empty namespace with the name `namespace_id`.
    pub fn new(namespace_id: String) -> (engine: Self)
        ensures
            engine.wf(),
            engine.vectors().len() == 0,
            engine.ids@.len() == 0,
            engine.records() == Map::<u128, MetadataIndexItemView>::empty(),
            engine.state.namespace_id == namespace_id,
            forall|records: nat, attributes: nat|
                #[trigger] engine.spare(records, attributes) <==> empty_room(records) && empty_room(
                    attributes,
                ),
    {
        let engine = HaystackEmbedded { state: NamespaceState::new(namespace_id), ids: Vec::new() };
        proof {
            assert forall|i: int| 0 <= i < engine.ids@.len() implies #[trigger] indexed(
                engine.postings(),
                engine.records(),
                engine.ids@,
                i,
            ) by {}
        }
        engine
    }

    /// Adds a quantized vector with its attributes under an id that no
    /// record has, to indices that have room.
    fn add_unchecked(&mut self, q: [u8; QUANTIZED_VECTOR_SIZE], metadata: Vec<KVPair>, id: u128)
        requires
            old(self).wf(),
            !old(self).records().contains_key(id),
            old(self).state.metadata_index.tree.room(1),
            old(self).state.inverted_index.tree.room(metadata@.len()),
        ensures
            final(self).added(old(self), q@, elem_views(metadata@), id),
            forall|m: nat|
                m >= 1 && #[trigger] old(self).state.metadata_index.tree.room(m) ==> final(self).state.metadata_index.tree.room((m - 1) as nat),
            forall|m: nat|
                m >= metadata@.len() && #[trigger] old(self).state.inverted_index.tree.room(m)
                    ==> final(self).state.inverted_index.tree.room((m - metadata@.len()) as nat),
    {
        let n: usize = self.state.vectors.len();
        let ghost kvs = elem_views(metadata@);
        let ghost rec = record_of(kvs, id, n);
        let ghost postings0 = self.postings();
        let ghost records0 = self.records();
        let ghost ids0 = self.ids@;
        let _ = self.state.vectors.push(q);
        self.ids.push(id);
        let record = MetadataIndexItem { kvs: duplicate_all(&metadata), id, vector_index: n };
        let stored = self.state.metadata_index.insert(id, record);
        proof {
            assert(stored is Ok);
            lemma_record_added(postings0, records0, ids0, id, rec);
        }
        let total: usize = metadata.len();
        let mut x: usize = 0;
        while x < total
            invariant
                x <= total,
                total == metadata@.len(),
                kvs == elem_views(metadata@),
                n == ids0.len(),
                self.state.wf(),
                self.state.namespace_id == old(self).state.namespace_id,
                self.vectors() == old(self).vectors().push(q@),
                self.ids@ == ids0.push(id),
                self.records() == records0.insert(id, rec),
                rec == record_of(kvs, id, n),
                records_ok(self.records(), self.ids@),
                postings_ok(self.postings(), self.records(), self.ids@),
                forall|i: int|
                    0 <= i < n ==> #[trigger] indexed(
                        self.postings(),
                        self.records(),
                        self.ids@,
                        i,
                    ),
                forall|y: int| 0 <= y < x ==> names(self.postings(), #[trigger] kvs[y], n as int),
                forall|kv: KVPairView| #[trigger]
                    names(self.postings(), kv, n as int) ==> among(kvs, x as int, kv),
                old(self).state.inverted_index.tree.room(total as nat),
                forall|m: nat|
                    m >= 1 && #[trigger] old(self).state.metadata_index.tree.room(m)
                        ==> self.state.metadata_index.tree.room((m - 1) as nat),
                forall|m: nat|
                    m >= total && #[trigger] old(self).state.inverted_index.tree.room(m)
                        ==> self.state.inverted_index.tree.room((m - x) as nat),
            decreases total - x,
        {
            if !appears_before(&metadata, x) {
                let ghost before = self.postings();
                let ghost tree0 = self.state.inverted_index.tree;
                let kv = metadata[x].duplicate();
                let item = InvertedIndexItem { indices: vec![n], ids: vec![id] };
                proof {
                    assert(kvs[x as int] == kv@);
                    assert(has_kv(self.records()[self.ids@.last()].kvs, kv@));
                    if names(before, kv@, n as int) {
                        assert(seen_before(kvs, x as int));
                    }
                    lemma_posting_appended(before, self.records(), self.ids@, kv@);
                    assert(old(self).state.inverted_index.tree.room(total as nat));
                    assert(tree0.room((total - x) as nat));
                    tree0.lemma_room_less((total - x) as nat, 1);
                    assert(item@.indices =~= seq![n]);
                    assert(item@.ids =~= seq![id]);
                }
                let put = self.state.inverted_index.insert_append(kv, item);
                proof {
                    assert(put is Ok);
                    if before.contains_key(kvs[x as int]) {
                        let p = before[kvs[x as int]];
                        assert(p.indices + item@.indices =~= p.indices.push(n));
                        assert(p.ids + item@.ids =~= p.ids.push(id));
                        assert(crate::structures::inverted_index::spec_append(
                            before[kvs[x as int]],
                            item@,
                        ) == crate::rules::appended(before[kvs[x as int]], n, id));
                    } else {
                        assert(item@ == crate::rules::single(n, id));
                    }
                    assert forall|i: int| 0 <= i < n implies #[trigger] indexed(
                        self.postings(),
                        self.records(),
                        self.ids@,
                        i,
                    ) by {
                        assert(indexed(before, self.records(), self.ids@, i));
                        assert forall|other: KVPairView| #[trigger]
                            has_kv(self.records()[self.ids@[i]].kvs, other) implies names(
                            self.postings(),
                            other,
                            i,
                        ) by {
                            assert(names(before, other, i));
                        }
                    }
                    assert forall|y: int| 0 <= y < x + 1 implies names(
                        self.postings(),
                        #[trigger] kvs[y],
                        n as int,
                    ) by {
                        if y < x {
                            assert(names(before, kvs[y], n as int));
                        }
                    }
                    assert forall|m: nat|
                        m >= total && #[trigger] old(self).state.inverted_index.tree.room(
                            m,
                        ) implies self.state.inverted_index.tree.room((m - x - 1) as nat) by {
                        assert(tree0.room((m - x) as nat));
                    }
                    assert forall|other: KVPairView| #[trigger]
                        names(self.postings(), other, n as int) implies among(
                        kvs,
                        x + 1,
                        other,
                    ) by {
                        if other == kvs[x as int] {
                            assert(kvs[x as int] == other);
                        } else {
                            assert(names(before, other, n as int));
                            let y = choose|y: int| 0 <= y < x && (#[trigger] kvs[y]) == other;
                            assert(0 <= y < x + 1 && kvs[y] == other);
                        }
                    }
                }
            } else {
                proof {
                    let y = choose|y: int| 0 <= y < x && (#[trigger] kvs[y]) == kvs[x as int];
                    assert(names(self.postings(), kvs[y], n as int));
                    assert forall|other: KVPairView| #[trigger]
                        names(self.postings(), other, n as int) implies among(
                        kvs,
                        x + 1,
                        other,
                    ) by {
                        let z = choose|z: int| 0 <= z < x && (#[trigger] kvs[z]) == other;
                        assert(0 <= z < x + 1 && kvs[z] == other);
                    }
                    assert forall|m: nat|
                        m >= total && #[trigger] old(self).state.inverted_index.tree.room(
                            m,
                        ) implies self.state.inverted_index.tree.room((m - x - 1) as nat) by {
                        self.state.inverted_index.tree.lemma_room_less(
                            (m - x) as nat,
                            (m - x - 1) as nat,
                        );
                    }
                }
            }
            x = x + 1;
        }
        proof {
            assert forall|i: int| 0 <= i < self.ids@.len() implies #[trigger] indexed(
                self.postings(),
                self.records(),
                self.ids@,
                i,
            ) by {
                if i == n {
                    assert forall|kv: KVPairView| #[trigger]
                        has_kv(self.records()[self.ids@[i]].kvs, kv) implies names(
                        self.postings(),
                        kv,
                        i,
                    ) by {
                        let y = choose|y: int| 0 <= y < kvs.len() && (#[trigger] kvs[y]) == kv;
                        assert(names(self.postings(), kvs[y], n as int));
                    }
                }
            }
        }
    }
}

} // verus!
