use crate::constants::QUANTIZED_VECTOR_SIZE;
use crate::errors::HaystackError;
use crate::structures::tree::serialization::{
    blob_views,
    flatten,
    lemma_chunks_need_room,
    lemma_parse_chunks_of_flatten,
    lemma_read_back,
    parse_chunks,
    read_chunks,
    read_u64,
    spec_read_u64,
    write_bytes,
    write_u64,
};
use vstd::bytes::*;
use vstd::prelude::*;
use vstd::slice::*;

verus! {

/// An append-only list of quantized vectors. The index that a vector gets
/// when it is pushed is its index for good.
pub struct DenseVectorList {
    pub data: Vec<[u8; QUANTIZED_VECTOR_SIZE]>,
}

/// The bytes of every vector of a list.
pub open spec fn vector_views(vectors: Seq<[u8; QUANTIZED_VECTOR_SIZE]>) -> Seq<Seq<u8>> {
    Seq::new(vectors.len(), |i: int| vectors[i]@)
}

/// The image of a list of vectors: their number in eight bytes, then the
/// vectors end to end.
pub open spec fn spec_vectors_bytes(vectors: Seq<Seq<u8>>) -> Seq<u8> {
    spec_u64_to_le_bytes(vectors.len() as u64) + flatten(vectors)
}

/// The list of vectors that `s` is the image of, if it is one.
pub open spec fn spec_vectors_parse(s: Seq<u8>) -> Option<Seq<Seq<u8>>> {
    match spec_read_u64(s, 0) {
        Some(n) => match parse_chunks(s, 8, n as nat, QUANTIZED_VECTOR_SIZE as int) {
            Some((chunks, end)) => if end == s.len() {
                Some(chunks)
            } else {
                None
            },
            None => None,
        },
        None => None,
    }
}

/// Reading the image of a list of vectors gives the list back.
pub proof fn lemma_vectors_round_trip(vectors: Seq<Seq<u8>>)
    requires
        vectors.len() <= u64::MAX,
        forall|i: int|
            0 <= i < vectors.len() ==> (#[trigger] vectors[i]).len() == QUANTIZED_VECTOR_SIZE,
    ensures
        spec_vectors_parse(spec_vectors_bytes(vectors)) == Some(vectors),
{
    lemma_auto_spec_u64_to_from_le_bytes();
    let n = spec_u64_to_le_bytes(vectors.len() as u64);
    let f = flatten(vectors);
    let s = spec_vectors_bytes(vectors);
    let z = Seq::<u8>::empty();
    assert(s =~= z + n + f);
    lemma_read_back(z, f);
    assert(s =~= n + f + z);
    lemma_parse_chunks_of_flatten(n, vectors, z, QUANTIZED_VECTOR_SIZE as int);
}

/// A copy of a vector.
pub fn copy_vector(v: &[u8; QUANTIZED_VECTOR_SIZE]) -> (copy: [u8; QUANTIZED_VECTOR_SIZE])
    ensures
        copy@ == v@,
{
    let mut copy: [u8; QUANTIZED_VECTOR_SIZE] = [0u8; QUANTIZED_VECTOR_SIZE];
    let mut i: usize = 0;
    while i < QUANTIZED_VECTOR_SIZE
        invariant
            i <= QUANTIZED_VECTOR_SIZE,
            forall|j: int| 0 <= j < i ==> copy@[j] == v@[j],
        decreases QUANTIZED_VECTOR_SIZE - i,
    {
        copy[i] = v[i];
        i = i + 1;
    }
    assert(copy@ =~= v@);
    copy
}

/// The vector that a chunk of the right length holds.
pub fn vector_of(chunk: &[u8]) -> (v: [u8; QUANTIZED_VECTOR_SIZE])
    requires
        chunk@.len() == QUANTIZED_VECTOR_SIZE,
    ensures
        v@ == chunk@,
{
    let mut v: [u8; QUANTIZED_VECTOR_SIZE] = [0u8; QUANTIZED_VECTOR_SIZE];
    let mut i: usize = 0;
    while i < QUANTIZED_VECTOR_SIZE
        invariant
            i <= QUANTIZED_VECTOR_SIZE,
            chunk@.len() == QUANTIZED_VECTOR_SIZE,
            forall|j: int| 0 <= j < i ==> v@[j] == chunk@[j],
        decreases QUANTIZED_VECTOR_SIZE - i,
    {
        v[i] = chunk[i];
        i = i + 1;
    }
    assert(v@ =~= chunk@);
    v
}

impl View for DenseVectorList {
    type V = Seq<Seq<u8>>;

    open spec fn view(&self) -> Seq<Seq<u8>> {
        vector_views(self.data@)
    }
}

impl DenseVectorList {
    /// An empty list with room reserved for `elements` vectors.
    pub fn new(elements: u64) -> (list: Self)
        ensures
            list@.len() == 0,
    {
        let capacity: usize = if elements > 4096 {
            4096
        } else {
            elements as usize
        };
        DenseVectorList { data: Vec::with_capacity(capacity) }
    }

    /// Appends a vector and gives its index, which is the length before.
    pub fn push(&mut self, vector: [u8; QUANTIZED_VECTOR_SIZE]) -> (r: Result<usize, HaystackError>)
        ensures
            r == Ok::<usize, HaystackError>(old(self)@.len() as usize),
            final(self)@ == old(self)@.push(vector@),
    {
        self.data.push(vector);
        assert(self@ =~= old(self)@.push(vector@));
        Ok(self.data.len() - 1)
    }

    /// Appends the vectors in their order and gives their indices, which
    /// follow the indices that were there.
    pub fn batch_push(&mut self, vectors: Vec<[u8; QUANTIZED_VECTOR_SIZE]>) -> (r: Result<
        Vec<usize>,
        HaystackError,
    >)
        ensures
            r is Ok,
            final(self)@ == old(self)@ + vector_views(vectors@),
            r.unwrap()@.len() == vectors@.len(),
            forall|i: int|
                0 <= i < vectors@.len() ==> (#[trigger] r.unwrap()@[i]) == old(self)@.len() + i,
    {
        let mut indices: Vec<usize> = Vec::new();
        let mut i: usize = 0;
        while i < vectors.len()
            invariant
                i <= vectors@.len(),
                indices@.len() == i,
                self@ == old(self)@ + vector_views(vectors@).subrange(0, i as int),
                forall|j: int| 0 <= j < i ==> (#[trigger] indices@[j]) == old(self)@.len() + j,
            decreases vectors@.len() - i,
        {
            let ghost before = self@;
            indices.push(self.data.len());
            self.data.push(copy_vector(&vectors[i]));
            i = i + 1;
            assert(self@ =~= before.push(vectors@[i - 1]@));
            assert(vector_views(vectors@).subrange(0, i as int) =~= vector_views(
                vectors@,
            ).subrange(0, i - 1).push(vectors@[i - 1]@));
            assert(self@ =~= old(self)@ + vector_views(vectors@).subrange(0, i as int));
        }
        assert(vector_views(vectors@).subrange(0, i as int) =~= vector_views(vectors@));
        Ok(indices)
    }

    /// The vector at `index`; fails with `OutOfBounds` exactly when `index`
    /// is not below the length.
    pub fn get(&self, index: usize) -> (r: Result<&[u8; QUANTIZED_VECTOR_SIZE], HaystackError>)
        ensures
            match r {
                Ok(v) => index < self@.len() && v@ == self@[index as int],
                Err(e) => e == HaystackError::OutOfBounds && index >= self@.len(),
            },
    {
        if index >= self.data.len() {
            return Err(HaystackError::OutOfBounds);
        }
        Ok(&self.data[index])
    }

    /// The `num_elements` vectors from `index` on, as one slice of the
    /// list's memory; fails with `OutOfBounds` exactly when they are not all
    /// there.
    pub fn get_contiguous(&self, index: usize, num_elements: usize) -> (r: Result<
        &[[u8; QUANTIZED_VECTOR_SIZE]],
        HaystackError,
    >)
        ensures
            match r {
                Ok(vectors) => index + num_elements <= self@.len() && vector_views(vectors@)
                    == self@.subrange(index as int, index + num_elements),
                Err(e) => e == HaystackError::OutOfBounds && index + num_elements > self@.len(),
            },
    {
        let total: usize = self.data.len();
        if index > total || num_elements > total - index {
            return Err(HaystackError::OutOfBounds);
        }
        let vectors = slice_subrange(self.data.as_slice(), index, index + num_elements);
        assert(vector_views(vectors@) =~= self@.subrange(index as int, index + num_elements));
        Ok(vectors)
    }

    /// The number of vectors.
    pub fn len(&self) -> (n: usize)
        ensures
            n == self@.len(),
    {
        self.data.len()
    }

    /// Puts a vector at `index` and moves the vectors from there on one
    /// place up; fails with `OutOfBounds`, changing nothing, exactly when
    /// `index` is above the length.
    pub fn insert(&mut self, index: usize, vector: [u8; QUANTIZED_VECTOR_SIZE]) -> (r: Result<
        (),
        HaystackError,
    >)
        ensures
            match r {
                Ok(()) => index <= old(self)@.len() && final(self)@ == old(self)@.insert(
                    index as int,
                    vector@,
                ),
                Err(e) => e == HaystackError::OutOfBounds && index > old(self)@.len()
                    && final(self)@ == old(self)@,
            },
    {
        if index > self.data.len() {
            return Err(HaystackError::OutOfBounds);
        }
        self.data.insert(index, vector);
        assert(self@ =~= old(self)@.insert(index as int, vector@));
        Ok(())
    }

    /// The image of the list.
    pub fn to_binary(&self) -> (bytes: Vec<u8>)
        ensures
            bytes@ == spec_vectors_bytes(self@),
    {
        let mut out: Vec<u8> = Vec::new();
        write_u64(&mut out, self.data.len() as u64);
        let ghost all = self@;
        let ghost head = out@;
        let mut i: usize = 0;
        assert(all.subrange(0, all.len() as int) =~= all);
        while i < self.data.len()
            invariant
                i <= self.data@.len(),
                all == self@,
                out@ + flatten(all.subrange(i as int, all.len() as int)) == head + flatten(all),
            decreases self.data@.len() - i,
        {
            let ghost before = out@;
            let ghost tail = all.subrange(i as int, all.len() as int);
            write_bytes(&mut out, self.data[i].as_slice());
            proof {
                assert(tail[0] == self.data@[i as int]@);
                assert(tail.drop_first() =~= all.subrange(i + 1, all.len() as int));
                assert(out@ + flatten(tail.drop_first()) =~= before + flatten(tail));
            }
            i = i + 1;
        }
        assert(all.subrange(all.len() as int, all.len() as int) =~= Seq::<Seq<u8>>::empty());
        assert(out@ + Seq::<u8>::empty() =~= out@);
        out
    }

    /// The list that `data` is the image of; fails with `Corruption` exactly
    /// when `data` is no image of a list.
    pub fn from_binary(data: &[u8]) -> (r: Result<Self, HaystackError>)
        ensures
            match r {
                Ok(list) => spec_vectors_parse(data@) == Some(list@),
                Err(e) => e == HaystackError::Corruption && spec_vectors_parse(data@) is None,
            },
    {
        let total: usize = data.len();
        let n = match read_u64(data, 0) {
            Some(n) => n,
            None => {
                return Err(HaystackError::Corruption);
            },
        };
        if n > total as u64 {
            proof {
                lemma_chunks_need_room(data@, 8, n as nat, QUANTIZED_VECTOR_SIZE as int);
            }
            return Err(HaystackError::Corruption);
        }
        let (chunks, end) = match read_chunks(data, 8, n as usize, QUANTIZED_VECTOR_SIZE) {
            Some(x) => x,
            None => {
                return Err(HaystackError::Corruption);
            },
        };
        if end != total {
            return Err(HaystackError::Corruption);
        }
        let mut list = DenseVectorList { data: Vec::new() };
        let mut i: usize = 0;
        while i < chunks.len()
            invariant
                i <= chunks@.len(),
                list.data@.len() == i,
                forall|j: int|
                    0 <= j < chunks@.len() ==> (#[trigger] chunks@[j])@.len()
                        == QUANTIZED_VECTOR_SIZE,
                forall|j: int| 0 <= j < i ==> (#[trigger] list.data@[j])@ == chunks@[j]@,
            decreases chunks@.len() - i,
        {
            list.data.push(vector_of(chunks[i].as_slice()));
            i = i + 1;
        }
        assert(list@ =~= blob_views(chunks@));
        Ok(list)
    }
}

} // verus!
