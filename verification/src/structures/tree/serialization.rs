use crate::errors::HaystackError;
use vstd::bytes::*;
use vstd::prelude::*;
use vstd::slice::*;
use vstd::utf8::*;

verus! {

/// A value with a byte image.
pub trait TreeSerialization: View + Sized {
    /// The byte image of a value, as a function of its view.
    spec fn spec_serialize(v: Self::V) -> Seq<u8>;

    /// Whether the lengths inside the value fit the length fields of its
    /// image. Every value in memory does.
    spec fn spec_encodable(v: Self::V) -> bool;

    /// Writes the byte image of the value.
    fn serialize(&self) -> (bytes: Vec<u8>)
        ensures
            bytes@ == Self::spec_serialize(self@),
            Self::spec_encodable(self@),
    ;

    /// A copy with the same view.
    fn duplicate(&self) -> (copy: Self)
        ensures
            copy@ == self@,
    ;
}

/// A value that can be read back from its byte image.
pub trait TreeDeserialization: TreeSerialization {
    /// The value that a byte sequence is the image of, if it is one.
    spec fn spec_deserialize(bytes: Seq<u8>) -> Option<Self::V>;

    /// Reading the image of a value gives the value back.
    proof fn lemma_round_trip(v: Self::V)
        requires
            Self::spec_encodable(v),
        ensures
            Self::spec_deserialize(Self::spec_serialize(v)) == Some(v),
    ;

    /// Reads a value from the whole of `data`; fails with `Corruption`
    /// exactly when `data` is no image.
    fn deserialize(data: &[u8]) -> (r: Result<Self, HaystackError>)
        ensures
            match r {
                Ok(x) => Self::spec_deserialize(data@) == Some(x@),
                Err(e) => e == HaystackError::Corruption && Self::spec_deserialize(data@) is None,
            },
    ;
}

/// The little-endian `u32` at `pos`, if four bytes are there.
pub open spec fn spec_read_u32(s: Seq<u8>, pos: int) -> Option<u32> {
    if 0 <= pos && pos + 4 <= s.len() {
        Some(spec_u32_from_le_bytes(s.subrange(pos, pos + 4)))
    } else {
        None
    }
}

/// The little-endian `u64` at `pos`, if eight bytes are there.
pub open spec fn spec_read_u64(s: Seq<u8>, pos: int) -> Option<u64> {
    if 0 <= pos && pos + 8 <= s.len() {
        Some(spec_u64_from_le_bytes(s.subrange(pos, pos + 8)))
    } else {
        None
    }
}

/// The little-endian `u128` at `pos`, if sixteen bytes are there.
pub open spec fn spec_read_u128(s: Seq<u8>, pos: int) -> Option<u128> {
    if 0 <= pos && pos + 16 <= s.len() {
        Some(spec_u128_from_le_bytes(s.subrange(pos, pos + 16)))
    } else {
        None
    }
}

/// The two's-complement `i64` that a `u64` stands for.
pub open spec fn spec_i64_of(x: u64) -> i64 {
    x as i64
}

/// The `u64` that stands for an `i64` in two's complement.
pub open spec fn spec_u64_of(x: i64) -> u64 {
    x as u64
}

/// The `u64` that stands for an `i64` stands for no other.
pub proof fn lemma_i64_u64_round_trip(x: i64)
    ensures
        spec_i64_of(spec_u64_of(x)) == x,
{
    assert((x as u64) as i64 == x) by (bit_vector);
}

/// The two's-complement `i64` that a `u64` stands for.
pub fn i64_of(x: u64) -> (r: i64)
    ensures
        r == spec_i64_of(x),
{
    x as i64
}

/// The `u64` that stands for an `i64` in two's complement.
pub fn u64_of(x: i64) -> (r: u64)
    ensures
        r == spec_u64_of(x),
{
    x as u64
}

/// The `u32` in the four bytes at `pos`, little-endian; none where the
/// bytes end before.
pub fn read_u32(data: &[u8], pos: usize) -> (r: Option<u32>)
    ensures
        r == spec_read_u32(data@, pos as int),
{
    if pos > data.len() || data.len() - pos < 4 {
        return None;
    }
    Some(u32_from_le_bytes(slice_subrange(data, pos, pos + 4)))
}

/// The `u64` in the eight bytes at `pos`, little-endian; none where the
/// bytes end before.
pub fn read_u64(data: &[u8], pos: usize) -> (r: Option<u64>)
    ensures
        r == spec_read_u64(data@, pos as int),
{
    if pos > data.len() || data.len() - pos < 8 {
        return None;
    }
    Some(u64_from_le_bytes(slice_subrange(data, pos, pos + 8)))
}

/// The `u128` in the sixteen bytes at `pos`, little-endian; none where the
/// bytes end before.
pub fn read_u128(data: &[u8], pos: usize) -> (r: Option<u128>)
    ensures
        r == spec_read_u128(data@, pos as int),
{
    if pos > data.len() || data.len() - pos < 16 {
        return None;
    }
    Some(u128_from_le_bytes(slice_subrange(data, pos, pos + 16)))
}

/// Appends `src` to `out`.
pub fn write_bytes(out: &mut Vec<u8>, src: &[u8])
    ensures
        final(out)@ == old(out)@ + src@,
{
    let mut i: usize = 0;
    while i < src.len()
        invariant
            i <= src.len(),
            out@ == old(out)@ + src@.subrange(0, i as int),
        decreases src.len() - i,
    {
        out.push(src[i]);
        i = i + 1;
        assert(out@ =~= old(out)@ + src@.subrange(0, i as int));
    }
    assert(src@.subrange(0, src.len() as int) =~= src@);
}

/// Appends the four bytes of a `u32`, little-endian.
pub fn write_u32(out: &mut Vec<u8>, x: u32)
    ensures
        final(out)@ == old(out)@ + spec_u32_to_le_bytes(x),
{
    let b = u32_to_le_bytes(x);
    write_bytes(out, b.as_slice());
}

/// Appends the eight bytes of a `u64`, little-endian.
pub fn write_u64(out: &mut Vec<u8>, x: u64)
    ensures
        final(out)@ == old(out)@ + spec_u64_to_le_bytes(x),
{
    let b = u64_to_le_bytes(x);
    write_bytes(out, b.as_slice());
}

/// Appends the sixteen bytes of a `u128`, little-endian.
pub fn write_u128(out: &mut Vec<u8>, x: u128)
    ensures
        final(out)@ == old(out)@ + spec_u128_to_le_bytes(x),
{
    let b = u128_to_le_bytes(x);
    write_bytes(out, b.as_slice());
}

/// A copy of the bytes of `data` from `start` up to `end`.
pub fn copy_range(data: &[u8], start: usize, end: usize) -> (out: Vec<u8>)
    requires
        start <= end <= data.len(),
    ensures
        out@ == data@.subrange(start as int, end as int),
{
    slice_to_vec(slice_subrange(data, start, end))
}

/// Number of bytes of a length prefix: eight when `wide`, else four.
pub open spec fn len_width(wide: bool) -> int {
    if wide {
        8
    } else {
        4
    }
}

/// Largest length that a prefix can hold.
pub open spec fn len_limit(wide: bool) -> int {
    if wide {
        u64::MAX as int
    } else {
        u32::MAX as int
    }
}

/// The little-endian length prefix for `n`.
pub open spec fn spec_len_bytes(wide: bool, n: int) -> Seq<u8> {
    if wide {
        spec_u64_to_le_bytes(n as u64)
    } else {
        spec_u32_to_le_bytes(n as u32)
    }
}

/// The length prefix at `pos`, if its bytes are there.
pub open spec fn spec_read_len(wide: bool, s: Seq<u8>, pos: int) -> Option<int> {
    if wide {
        match spec_read_u64(s, pos) {
            Some(x) => Some(x as int),
            None => None,
        }
    } else {
        match spec_read_u32(s, pos) {
            Some(x) => Some(x as int),
            None => None,
        }
    }
}

/// A blob with its length in front.
pub open spec fn frame(wide: bool, blob: Seq<u8>) -> Seq<u8> {
    spec_len_bytes(wide, blob.len() as int) + blob
}

/// The framed blob at `pos` and the position behind it.
pub open spec fn parse_frame(wide: bool, s: Seq<u8>, pos: int) -> Option<(Seq<u8>, int)> {
    match spec_read_len(wide, s, pos) {
        None => None,
        Some(n) => {
            let start = pos + len_width(wide);
            if start + n <= s.len() {
                Some((s.subrange(start, start + n), start + n))
            } else {
                None
            }
        },
    }
}

/// Framed blobs one after the other.
pub open spec fn frame_all(wide: bool, blobs: Seq<Seq<u8>>) -> Seq<u8>
    decreases blobs.len(),
{
    if blobs.len() == 0 {
        Seq::empty()
    } else {
        frame(wide, blobs[0]) + frame_all(wide, blobs.drop_first())
    }
}

/// The `n` framed blobs that start at `pos`, and the position behind them.
pub open spec fn parse_frames(wide: bool, s: Seq<u8>, pos: int, n: nat) -> Option<
    (Seq<Seq<u8>>, int),
>
    decreases n,
{
    if n == 0 {
        Some((Seq::empty(), pos))
    } else {
        match parse_frame(wide, s, pos) {
            None => None,
            Some((blob, next)) => match parse_frames(wide, s, next, (n - 1) as nat) {
                None => None,
                Some((rest, end)) => Some((seq![blob] + rest, end)),
            },
        }
    }
}

/// The framed blobs that fill `s` from `pos` to its end exactly.
pub open spec fn parse_frames_to_end(wide: bool, s: Seq<u8>, pos: int) -> Option<Seq<Seq<u8>>>
    decreases s.len() - pos,
{
    if pos >= s.len() {
        if pos == s.len() {
            Some(Seq::empty())
        } else {
            None
        }
    } else {
        match parse_frame(wide, s, pos) {
            None => None,
            Some((blob, next)) => if next <= pos {
                None
            } else {
                match parse_frames_to_end(wide, s, next) {
                    None => None,
                    Some(rest) => Some(seq![blob] + rest),
                }
            },
        }
    }
}

/// Chunks laid end to end.
pub open spec fn flatten(chunks: Seq<Seq<u8>>) -> Seq<u8>
    decreases chunks.len(),
{
    if chunks.len() == 0 {
        Seq::empty()
    } else {
        chunks[0] + flatten(chunks.drop_first())
    }
}

/// The `n` chunks of `w` bytes that start at `pos`, and the position behind
/// them.
pub open spec fn parse_chunks(s: Seq<u8>, pos: int, n: nat, w: int) -> Option<(Seq<Seq<u8>>, int)>
    decreases n,
{
    if n == 0 {
        Some((Seq::empty(), pos))
    } else if 0 <= pos && 0 <= w && pos + w <= s.len() {
        match parse_chunks(s, pos + w, (n - 1) as nat, w) {
            None => None,
            Some((rest, end)) => Some((seq![s.subrange(pos, pos + w)] + rest, end)),
        }
    } else {
        None
    }
}

/// Reading a length that was written gives the length.
pub proof fn lemma_len_round_trip(wide: bool, n: int)
    requires
        0 <= n <= len_limit(wide),
    ensures
        spec_len_bytes(wide, n).len() == len_width(wide),
        spec_read_len(wide, spec_len_bytes(wide, n), 0) == Some(n),
{
    lemma_auto_spec_u64_to_from_le_bytes();
    lemma_auto_spec_u32_to_from_le_bytes();
    let b = spec_len_bytes(wide, n);
    assert(b.subrange(0, b.len() as int) =~= b);
}

/// Reading a field that sits between `pre` and `post` gives the field.
pub proof fn lemma_subrange_of_concat(pre: Seq<u8>, mid: Seq<u8>, post: Seq<u8>)
    ensures
        (pre + mid + post).subrange(pre.len() as int, (pre.len() + mid.len()) as int) == mid,
        (pre + mid + post).len() == pre.len() + mid.len() + post.len(),
{
    assert((pre + mid + post).subrange(pre.len() as int, (pre.len() + mid.len()) as int) =~= mid);
}

/// Reading a frame that sits between `pre` and `post` gives its content
/// and the place behind it.
pub proof fn lemma_parse_frame_of_frame(wide: bool, pre: Seq<u8>, blob: Seq<u8>, post: Seq<u8>)
    requires
        blob.len() <= len_limit(wide),
    ensures
        parse_frame(wide, pre + frame(wide, blob) + post, pre.len() as int) == Some(
            (blob, (pre.len() + frame(wide, blob).len()) as int),
        ),
        frame(wide, blob).len() == len_width(wide) + blob.len(),
{
    let n = blob.len() as int;
    lemma_len_round_trip(wide, n);
    let lb = spec_len_bytes(wide, n);
    let s = pre + frame(wide, blob) + post;
    assert(s =~= pre + lb + (blob + post));
    lemma_subrange_of_concat(pre, lb, blob + post);
    assert(lb.subrange(0, lb.len() as int) =~= lb);
    assert(s =~= (pre + lb) + blob + post);
    lemma_subrange_of_concat(pre + lb, blob, post);
}

/// Reading as many frames as were written in a row between `pre` and
/// `post` gives their contents and the place behind them.
pub proof fn lemma_parse_frames_of_frame_all(
    wide: bool,
    pre: Seq<u8>,
    blobs: Seq<Seq<u8>>,
    post: Seq<u8>,
)
    requires
        forall|i: int| 0 <= i < blobs.len() ==> (#[trigger] blobs[i]).len() <= len_limit(wide),
    ensures
        parse_frames(wide, pre + frame_all(wide, blobs) + post, pre.len() as int, blobs.len())
            == Some((blobs, (pre.len() + frame_all(wide, blobs).len()) as int)),
    decreases blobs.len(),
{
    let s = pre + frame_all(wide, blobs) + post;
    if blobs.len() == 0 {
        assert(blobs =~= Seq::empty());
    } else {
        let first = blobs[0];
        let rest = blobs.drop_first();
        let f = frame(wide, first);
        assert(s =~= pre + f + (frame_all(wide, rest) + post));
        lemma_parse_frame_of_frame(wide, pre, first, frame_all(wide, rest) + post);
        assert(s =~= (pre + f) + frame_all(wide, rest) + post);
        assert forall|i: int| 0 <= i < rest.len() implies (#[trigger] rest[i]).len() <= len_limit(
            wide,
        ) by {
            assert(rest[i] == blobs[i + 1]);
        }
        lemma_parse_frames_of_frame_all(wide, pre + f, rest, post);
        assert(seq![first] + rest =~= blobs);
    }
}

/// Reading frames to the end of bytes that end with a row of frames
/// gives the contents of the frames.
pub proof fn lemma_parse_frames_to_end_of_frame_all(wide: bool, pre: Seq<u8>, blobs: Seq<Seq<u8>>)
    requires
        forall|i: int| 0 <= i < blobs.len() ==> (#[trigger] blobs[i]).len() <= len_limit(wide),
    ensures
        parse_frames_to_end(wide, pre + frame_all(wide, blobs), pre.len() as int) == Some(blobs),
    decreases blobs.len(),
{
    let s = pre + frame_all(wide, blobs);
    if blobs.len() == 0 {
        assert(blobs =~= Seq::empty());
    } else {
        let first = blobs[0];
        let rest = blobs.drop_first();
        let f = frame(wide, first);
        assert(s =~= pre + f + frame_all(wide, rest));
        lemma_parse_frame_of_frame(wide, pre, first, frame_all(wide, rest));
        assert(s =~= (pre + f) + frame_all(wide, rest));
        assert forall|i: int| 0 <= i < rest.len() implies (#[trigger] rest[i]).len() <= len_limit(
            wide,
        ) by {
            assert(rest[i] == blobs[i + 1]);
        }
        lemma_parse_frames_to_end_of_frame_all(wide, pre + f, rest);
        assert(seq![first] + rest =~= blobs);
    }
}

/// Chunks of one width, laid end to end, are as long as their number
/// times the width.
pub proof fn lemma_flatten_len(chunks: Seq<Seq<u8>>, w: int)
    requires
        forall|i: int| 0 <= i < chunks.len() ==> (#[trigger] chunks[i]).len() == w,
    ensures
        flatten(chunks).len() == chunks.len() * w,
    decreases chunks.len(),
{
    if chunks.len() > 0 {
        let rest = chunks.drop_first();
        assert forall|i: int| 0 <= i < rest.len() implies (#[trigger] rest[i]).len() == w by {
            assert(rest[i] == chunks[i + 1]);
        }
        lemma_flatten_len(rest, w);
        assert(chunks.len() * w == rest.len() * w + w) by (nonlinear_arith)
            requires
                chunks.len() == rest.len() + 1,
        ;
    } else {
        assert(chunks.len() * w == 0) by (nonlinear_arith)
            requires
                chunks.len() == 0,
        ;
    }
}

/// Reading as many chunks as were laid end to end between `pre` and
/// `post` gives the chunks and the place behind them.
pub proof fn lemma_parse_chunks_of_flatten(
    pre: Seq<u8>,
    chunks: Seq<Seq<u8>>,
    post: Seq<u8>,
    w: int,
)
    requires
        0 <= w,
        forall|i: int| 0 <= i < chunks.len() ==> (#[trigger] chunks[i]).len() == w,
    ensures
        parse_chunks(pre + flatten(chunks) + post, pre.len() as int, chunks.len(), w) == Some(
            (chunks, (pre.len() + flatten(chunks).len()) as int),
        ),
    decreases chunks.len(),
{
    let s = pre + flatten(chunks) + post;
    if chunks.len() == 0 {
        assert(chunks =~= Seq::empty());
    } else {
        let first = chunks[0];
        let rest = chunks.drop_first();
        assert(s =~= pre + first + (flatten(rest) + post));
        lemma_subrange_of_concat(pre, first, flatten(rest) + post);
        assert(s =~= (pre + first) + flatten(rest) + post);
        assert forall|i: int| 0 <= i < rest.len() implies (#[trigger] rest[i]).len() == w by {
            assert(rest[i] == chunks[i + 1]);
        }
        lemma_parse_chunks_of_flatten(pre + first, rest, post, w);
        assert(seq![first] + rest =~= chunks);
    }
}

/// Frames take room: `n` of them cannot start at `pos` unless at least `n`
/// bytes follow.
pub proof fn lemma_frames_need_room(wide: bool, s: Seq<u8>, pos: int, n: nat)
    requires
        0 <= pos,
    ensures
        parse_frames(wide, s, pos, n) is Some ==> pos + n <= s.len() || n == 0,
    decreases n,
{
    if n > 0 {
        match parse_frame(wide, s, pos) {
            None => {},
            Some((blob, next)) => {
                lemma_frames_need_room(wide, s, next, (n - 1) as nat);
            },
        }
    }
}

/// The views of a list of byte vectors.
pub open spec fn blob_views(blobs: Seq<Vec<u8>>) -> Seq<Seq<u8>> {
    Seq::new(blobs.len(), |i: int| blobs[i]@)
}

/// The length at `pos`, in eight bytes if `wide` and in four if not; none
/// where the bytes end before.
pub fn read_len(data: &[u8], pos: usize, wide: bool) -> (r: Option<u64>)
    ensures
        match r {
            Some(n) => spec_read_len(wide, data@, pos as int) == Some(n as int),
            None => spec_read_len(wide, data@, pos as int) is None,
        },
{
    if wide {
        read_u64(data, pos)
    } else {
        match read_u32(data, pos) {
            Some(x) => Some(x as u64),
            None => None,
        }
    }
}

/// Appends the length prefix for `n`.
pub fn write_len(out: &mut Vec<u8>, n: usize, wide: bool)
    requires
        n <= len_limit(wide),
    ensures
        final(out)@ == old(out)@ + spec_len_bytes(wide, n as int),
{
    if wide {
        write_u64(out, n as u64);
    } else {
        write_u32(out, n as u32);
    }
}

/// Appends `blob` with its length in front.
pub fn write_frame(out: &mut Vec<u8>, blob: &[u8], wide: bool)
    requires
        wide || blob@.len() <= u32::MAX,
    ensures
        final(out)@ == old(out)@ + frame(wide, blob@),
        blob@.len() <= len_limit(wide),
{
    write_len(out, blob.len(), wide);
    write_bytes(out, blob);
    assert(out@ =~= old(out)@ + frame(wide, blob@));
}

/// The bounds of the framed blob at `pos`: where it starts and where it ends.
pub fn read_frame(data: &[u8], pos: usize, wide: bool) -> (r: Option<(usize, usize)>)
    ensures
        match r {
            Some((start, end)) => start <= end <= data@.len() && parse_frame(
                wide,
                data@,
                pos as int,
            ) == Some((data@.subrange(start as int, end as int), end as int)),
            None => parse_frame(wide, data@, pos as int) is None,
        },
{
    match read_len(data, pos, wide) {
        None => None,
        Some(n) => {
            let width: usize = if wide {
                8
            } else {
                4
            };
            let total: usize = data.len();
            assert(pos + width <= total);
            let start: usize = pos + width;
            if n > (total - start) as u64 {
                None
            } else {
                Some((start, start + n as usize))
            }
        },
    }
}

/// Appends every blob with its length in front.
pub fn write_frames(out: &mut Vec<u8>, blobs: &Vec<Vec<u8>>, wide: bool)
    requires
        wide || forall|i: int| 0 <= i < blobs@.len() ==> (#[trigger] blobs@[i])@.len() <= u32::MAX,
    ensures
        final(out)@ == old(out)@ + frame_all(wide, blob_views(blobs@)),
        forall|i: int| 0 <= i < blobs@.len() ==> (#[trigger] blobs@[i])@.len() <= len_limit(wide),
{
    let ghost all = blob_views(blobs@);
    let mut i: usize = 0;
    assert(all.subrange(0, all.len() as int) =~= all);
    while i < blobs.len()
        invariant
            i <= blobs.len(),
            all == blob_views(blobs@),
            wide || forall|j: int|
                0 <= j < blobs@.len() ==> (#[trigger] blobs@[j])@.len() <= u32::MAX,
            forall|j: int| 0 <= j < i ==> (#[trigger] blobs@[j])@.len() <= len_limit(wide),
            out@ + frame_all(wide, all.subrange(i as int, all.len() as int)) == old(out)@
                + frame_all(wide, all),
        decreases blobs.len() - i,
    {
        let ghost before = out@;
        let ghost tail = all.subrange(i as int, all.len() as int);
        write_frame(out, blobs[i].as_slice(), wide);
        proof {
            assert(tail[0] == blobs@[i as int]@);
            assert(tail.drop_first() =~= all.subrange(i + 1, all.len() as int));
            assert(out@ + frame_all(wide, tail.drop_first()) =~= before + frame_all(wide, tail));
        }
        i = i + 1;
    }
    assert(all.subrange(all.len() as int, all.len() as int) =~= Seq::<Seq<u8>>::empty());
    assert(out@ + Seq::<u8>::empty() =~= out@);
}

/// Reads `n` framed blobs from `pos`; gives them with the position behind
/// the last.
pub fn read_frames(data: &[u8], pos: usize, n: usize, wide: bool) -> (r: Option<
    (Vec<Vec<u8>>, usize),
>)
    requires
        pos <= data@.len(),
    ensures
        match r {
            Some((blobs, end)) => end <= data@.len() && parse_frames(
                wide,
                data@,
                pos as int,
                n as nat,
            ) == Some((blob_views(blobs@), end as int)),
            None => parse_frames(wide, data@, pos as int, n as nat) is None,
        },
{
    let mut blobs: Vec<Vec<u8>> = Vec::new();
    let mut cur: usize = pos;
    let mut i: usize = 0;
    while i < n
        invariant
            i <= n,
            cur <= data@.len(),
            blobs@.len() == i,
            parse_frames(wide, data@, pos as int, n as nat) == match parse_frames(
                wide,
                data@,
                cur as int,
                (n - i) as nat,
            ) {
                Some((rest, end)) => Some((blob_views(blobs@) + rest, end)),
                None => None,
            },
        decreases n - i,
    {
        match read_frame(data, cur, wide) {
            None => {
                return None;
            },
            Some((start, end)) => {
                let ghost before = blob_views(blobs@);
                let blob = copy_range(data, start, end);
                blobs.push(blob);
                proof {
                    match parse_frames(wide, data@, end as int, (n - i - 1) as nat) {
                        Some((rest, e)) => {
                            assert(before + (seq![blob@] + rest) =~= blob_views(blobs@) + rest);
                        },
                        None => {},
                    }
                }
                cur = end;
                i = i + 1;
            },
        }
    }
    assert(blob_views(blobs@) + Seq::<Seq<u8>>::empty() =~= blob_views(blobs@));
    Some((blobs, cur))
}

/// Reads framed blobs from `pos` to the end of `data`, which the last one
/// must reach exactly.
pub fn read_frames_to_end(data: &[u8], pos: usize, wide: bool) -> (r: Option<Vec<Vec<u8>>>)
    requires
        pos <= data@.len(),
    ensures
        match r {
            Some(blobs) => parse_frames_to_end(wide, data@, pos as int) == Some(
                blob_views(blobs@),
            ),
            None => parse_frames_to_end(wide, data@, pos as int) is None,
        },
{
    let mut blobs: Vec<Vec<u8>> = Vec::new();
    let mut cur: usize = pos;
    let total: usize = data.len();
    while cur < total
        invariant
            cur <= total,
            total == data@.len(),
            parse_frames_to_end(wide, data@, pos as int) == match parse_frames_to_end(
                wide,
                data@,
                cur as int,
            ) {
                Some(rest) => Some(blob_views(blobs@) + rest),
                None => None,
            },
        decreases total - cur,
    {
        match read_frame(data, cur, wide) {
            None => {
                return None;
            },
            Some((start, end)) => {
                if end <= cur {
                    return None;
                }
                let ghost before = blob_views(blobs@);
                let blob = copy_range(data, start, end);
                blobs.push(blob);
                proof {
                    match parse_frames_to_end(wide, data@, end as int) {
                        Some(rest) => {
                            assert(before + (seq![blob@] + rest) =~= blob_views(blobs@) + rest);
                        },
                        None => {},
                    }
                }
                cur = end;
            },
        }
    }
    assert(blob_views(blobs@) + Seq::<Seq<u8>>::empty() =~= blob_views(blobs@));
    Some(blobs)
}

/// Appends every chunk.
pub fn write_chunks(out: &mut Vec<u8>, chunks: &Vec<Vec<u8>>)
    ensures
        final(out)@ == old(out)@ + flatten(blob_views(chunks@)),
{
    let ghost all = blob_views(chunks@);
    let mut i: usize = 0;
    assert(all.subrange(0, all.len() as int) =~= all);
    while i < chunks.len()
        invariant
            i <= chunks.len(),
            all == blob_views(chunks@),
            out@ + flatten(all.subrange(i as int, all.len() as int)) == old(out)@ + flatten(all),
        decreases chunks.len() - i,
    {
        let ghost before = out@;
        let ghost tail = all.subrange(i as int, all.len() as int);
        write_bytes(out, chunks[i].as_slice());
        proof {
            assert(tail[0] == chunks@[i as int]@);
            assert(tail.drop_first() =~= all.subrange(i + 1, all.len() as int));
            assert(out@ + flatten(tail.drop_first()) =~= before + flatten(tail));
        }
        i = i + 1;
    }
    assert(all.subrange(all.len() as int, all.len() as int) =~= Seq::<Seq<u8>>::empty());
    assert(out@ + Seq::<u8>::empty() =~= out@);
}

/// Reads `n` chunks of `w` bytes from `pos`; gives them with the position
/// behind the last.
pub fn read_chunks(data: &[u8], pos: usize, n: usize, w: usize) -> (r: Option<
    (Vec<Vec<u8>>, usize),
>)
    requires
        pos <= data@.len(),
    ensures
        match r {
            Some((chunks, end)) => end <= data@.len() && parse_chunks(
                data@,
                pos as int,
                n as nat,
                w as int,
            ) == Some((blob_views(chunks@), end as int)) && chunks@.len() == n && (forall|i: int|
                0 <= i < n ==> (#[trigger] chunks@[i])@.len() == w),
            None => parse_chunks(data@, pos as int, n as nat, w as int) is None,
        },
{
    let mut chunks: Vec<Vec<u8>> = Vec::new();
    let mut cur: usize = pos;
    let mut i: usize = 0;
    let total: usize = data.len();
    while i < n
        invariant
            i <= n,
            cur <= total,
            total == data@.len(),
            chunks@.len() == i,
            forall|j: int| 0 <= j < i ==> (#[trigger] chunks@[j])@.len() == w,
            parse_chunks(data@, pos as int, n as nat, w as int) == match parse_chunks(
                data@,
                cur as int,
                (n - i) as nat,
                w as int,
            ) {
                Some((rest, end)) => Some((blob_views(chunks@) + rest, end)),
                None => None,
            },
        decreases n - i,
    {
        if total - cur < w {
            return None;
        }
        let ghost before = blob_views(chunks@);
        let chunk = copy_range(data, cur, cur + w);
        chunks.push(chunk);
        proof {
            match parse_chunks(data@, cur + w, (n - i - 1) as nat, w as int) {
                Some((rest, e)) => {
                    assert(before + (seq![chunk@] + rest) =~= blob_views(chunks@) + rest);
                },
                None => {},
            }
        }
        cur = cur + w;
        i = i + 1;
    }
    assert(blob_views(chunks@) + Seq::<Seq<u8>>::empty() =~= blob_views(chunks@));
    Some((chunks, cur))
}

/// The views of the items of a list.
pub open spec fn elem_views<T: View>(s: Seq<T>) -> Seq<T::V> {
    Seq::new(s.len(), |i: int| s[i]@)
}

/// The byte image of every value of a list.
pub open spec fn encode_each<T: TreeSerialization>(vals: Seq<T::V>) -> Seq<Seq<u8>> {
    Seq::new(vals.len(), |i: int| T::spec_serialize(vals[i]))
}

/// The values that a list of byte images stands for, if each is an image.
pub open spec fn decode_each<T: TreeDeserialization>(blobs: Seq<Seq<u8>>) -> Option<Seq<T::V>> {
    if forall|i: int| 0 <= i < blobs.len() ==> (#[trigger] T::spec_deserialize(blobs[i])) is Some {
        Some(Seq::new(blobs.len(), |i: int| T::spec_deserialize(blobs[i]).unwrap()))
    } else {
        None
    }
}

/// Whether every value of a list is encodable.
pub open spec fn all_encodable<T: TreeSerialization>(vals: Seq<T::V>) -> bool {
    forall|i: int| 0 <= i < vals.len() ==> T::spec_encodable(#[trigger] vals[i])
}

/// Decoding the images of values gives the values.
pub proof fn lemma_decode_each_of_encode_each<T: TreeDeserialization>(vals: Seq<T::V>)
    requires
        all_encodable::<T>(vals),
    ensures
        decode_each::<T>(encode_each::<T>(vals)) == Some(vals),
{
    let blobs = encode_each::<T>(vals);
    assert forall|i: int| 0 <= i < blobs.len() implies (#[trigger] T::spec_deserialize(
        blobs[i],
    )) == Some(vals[i]) by {
        T::lemma_round_trip(vals[i]);
    }
    assert(Seq::new(blobs.len(), |i: int| T::spec_deserialize(blobs[i]).unwrap()) =~= vals);
}

/// The byte image of every item of `vals`.
pub fn encode_values<T: TreeSerialization>(vals: &Vec<T>) -> (blobs: Vec<Vec<u8>>)
    ensures
        blob_views(blobs@) == encode_each::<T>(elem_views(vals@)),
        all_encodable::<T>(elem_views(vals@)),
        blobs@.len() == vals@.len(),
{
    let mut blobs: Vec<Vec<u8>> = Vec::new();
    let mut i: usize = 0;
    while i < vals.len()
        invariant
            i <= vals.len(),
            blobs@.len() == i,
            forall|j: int| 0 <= j < i ==> (#[trigger] blobs@[j])@ == T::spec_serialize(vals@[j]@),
            forall|j: int| 0 <= j < i ==> T::spec_encodable(#[trigger] elem_views(vals@)[j]),
        decreases vals.len() - i,
    {
        blobs.push(vals[i].serialize());
        i = i + 1;
    }
    assert(blob_views(blobs@) =~= encode_each::<T>(elem_views(vals@)));
    blobs
}

/// The values that the blobs are images of; fails with `Corruption` exactly
/// when one of them is no image.
pub fn decode_blobs<T: TreeDeserialization>(blobs: &Vec<Vec<u8>>) -> (r: Result<
    Vec<T>,
    HaystackError,
>)
    ensures
        match r {
            Ok(vals) => decode_each::<T>(blob_views(blobs@)) == Some(elem_views(vals@)),
            Err(e) => e == HaystackError::Corruption && decode_each::<T>(blob_views(blobs@))
                is None,
        },
{
    let mut vals: Vec<T> = Vec::new();
    let mut i: usize = 0;
    let ghost all = blob_views(blobs@);
    while i < blobs.len()
        invariant
            i <= blobs.len(),
            all == blob_views(blobs@),
            vals@.len() == i,
            forall|j: int| 0 <= j < i ==> (#[trigger] T::spec_deserialize(all[j])) == Some(vals@[j]@),
        decreases blobs.len() - i,
    {
        match T::deserialize(blobs[i].as_slice()) {
            Ok(x) => {
                vals.push(x);
            },
            Err(_) => {
                assert(T::spec_deserialize(all[i as int]) is None);
                return Err(HaystackError::Corruption);
            },
        }
        i = i + 1;
    }
    assert(Seq::new(all.len(), |i: int| T::spec_deserialize(all[i]).unwrap()) =~= elem_views(
        vals@,
    ));
    Ok(vals)
}

/// A copy of every item of `vals`.
pub fn duplicate_all<T: TreeSerialization>(vals: &Vec<T>) -> (copy: Vec<T>)
    ensures
        elem_views(copy@) == elem_views(vals@),
{
    let mut copy: Vec<T> = Vec::new();
    let mut i: usize = 0;
    while i < vals.len()
        invariant
            i <= vals.len(),
            copy@.len() == i,
            forall|j: int| 0 <= j < i ==> (#[trigger] copy@[j])@ == vals@[j]@,
        decreases vals.len() - i,
    {
        copy.push(vals[i].duplicate());
        i = i + 1;
    }
    assert(elem_views(copy@) =~= elem_views(vals@));
    copy
}

/// `String::from_utf8` gives the string that the bytes encode, and fails
/// exactly when they are not valid UTF-8.
#[verifier::external_body]
pub(crate) fn string_from_utf8(bytes: Vec<u8>) -> (r: Option<String>)
    ensures
        match r {
            Some(s) => valid_utf8(bytes@) && s@ == decode_utf8(bytes@),
            None => !valid_utf8(bytes@),
        },
{
    String::from_utf8(bytes).ok()
}

impl TreeSerialization for String {
    open spec fn spec_encodable(v: Seq<char>) -> bool {
        true
    }

    open spec fn spec_serialize(v: Seq<char>) -> Seq<u8> {
        encode_utf8(v)
    }

    fn serialize(&self) -> (bytes: Vec<u8>) {
        slice_to_vec(self.as_str().as_bytes())
    }

    fn duplicate(&self) -> (copy: Self) {
        self.clone()
    }
}

impl TreeDeserialization for String {
    open spec fn spec_deserialize(bytes: Seq<u8>) -> Option<Seq<char>> {
        if valid_utf8(bytes) {
            Some(decode_utf8(bytes))
        } else {
            None
        }
    }

    proof fn lemma_round_trip(v: Seq<char>) {
        encode_utf8_valid_utf8(v);
        encode_utf8_decode_utf8(v);
    }

    fn deserialize(data: &[u8]) -> (r: Result<Self, HaystackError>) {
        match string_from_utf8(slice_to_vec(data)) {
            Some(s) => Ok(s),
            None => Err(HaystackError::Corruption),
        }
    }
}

impl TreeSerialization for u128 {
    open spec fn spec_encodable(v: u128) -> bool {
        true
    }

    open spec fn spec_serialize(v: u128) -> Seq<u8> {
        spec_u128_to_le_bytes(v)
    }

    fn serialize(&self) -> (bytes: Vec<u8>) {
        u128_to_le_bytes(*self)
    }

    fn duplicate(&self) -> (copy: Self) {
        *self
    }
}

impl TreeDeserialization for u128 {
    open spec fn spec_deserialize(bytes: Seq<u8>) -> Option<u128> {
        if bytes.len() == 16 {
            Some(spec_u128_from_le_bytes(bytes))
        } else {
            None
        }
    }

    proof fn lemma_round_trip(v: u128) {
        lemma_auto_spec_u128_to_from_le_bytes();
    }

    fn deserialize(data: &[u8]) -> (r: Result<Self, HaystackError>) {
        if data.len() != 16 {
            return Err(HaystackError::Corruption);
        }
        Ok(u128_from_le_bytes(data))
    }
}

impl TreeSerialization for usize {
    open spec fn spec_encodable(v: usize) -> bool {
        true
    }

    open spec fn spec_serialize(v: usize) -> Seq<u8> {
        spec_u64_to_le_bytes(v as u64)
    }

    fn serialize(&self) -> (bytes: Vec<u8>) {
        u64_to_le_bytes(*self as u64)
    }

    fn duplicate(&self) -> (copy: Self) {
        *self
    }
}

impl TreeDeserialization for usize {
    open spec fn spec_deserialize(bytes: Seq<u8>) -> Option<usize> {
        if bytes.len() == 8 && spec_u64_from_le_bytes(bytes) <= usize::MAX {
            Some(spec_u64_from_le_bytes(bytes) as usize)
        } else {
            None
        }
    }

    proof fn lemma_round_trip(v: usize) {
        lemma_auto_spec_u64_to_from_le_bytes();
    }

    fn deserialize(data: &[u8]) -> (r: Result<Self, HaystackError>) {
        if data.len() != 8 {
            return Err(HaystackError::Corruption);
        }
        let x = u64_from_le_bytes(data);
        if x > usize::MAX as u64 {
            return Err(HaystackError::Corruption);
        }
        Ok(x as usize)
    }
}

/// The `u32` that stands for an `i32` in two's complement.
pub open spec fn spec_u32_of(x: i32) -> u32 {
    x as u32
}

/// The two's-complement `i32` that a `u32` stands for.
pub open spec fn spec_i32_of(x: u32) -> i32 {
    x as i32
}

impl TreeSerialization for i32 {
    open spec fn spec_encodable(v: i32) -> bool {
        true
    }

    open spec fn spec_serialize(v: i32) -> Seq<u8> {
        spec_u32_to_le_bytes(spec_u32_of(v))
    }

    fn serialize(&self) -> (bytes: Vec<u8>) {
        u32_to_le_bytes(*self as u32)
    }

    fn duplicate(&self) -> (copy: Self) {
        *self
    }
}

impl TreeDeserialization for i32 {
    open spec fn spec_deserialize(bytes: Seq<u8>) -> Option<i32> {
        if bytes.len() == 4 {
            Some(spec_i32_of(spec_u32_from_le_bytes(bytes)))
        } else {
            None
        }
    }

    proof fn lemma_round_trip(v: i32) {
        lemma_auto_spec_u32_to_from_le_bytes();
        assert((v as u32) as i32 == v) by (bit_vector);
    }

    fn deserialize(data: &[u8]) -> (r: Result<Self, HaystackError>) {
        if data.len() != 4 {
            return Err(HaystackError::Corruption);
        }
        Ok(u32_from_le_bytes(data) as i32)
    }
}

impl TreeSerialization for i64 {
    open spec fn spec_encodable(v: i64) -> bool {
        true
    }

    open spec fn spec_serialize(v: i64) -> Seq<u8> {
        spec_u64_to_le_bytes(spec_u64_of(v))
    }

    fn serialize(&self) -> (bytes: Vec<u8>) {
        u64_to_le_bytes(u64_of(*self))
    }

    fn duplicate(&self) -> (copy: Self) {
        *self
    }
}

impl TreeDeserialization for i64 {
    open spec fn spec_deserialize(bytes: Seq<u8>) -> Option<i64> {
        if bytes.len() == 8 {
            Some(spec_i64_of(spec_u64_from_le_bytes(bytes)))
        } else {
            None
        }
    }

    proof fn lemma_round_trip(v: i64) {
        lemma_auto_spec_u64_to_from_le_bytes();
        lemma_i64_u64_round_trip(v);
    }

    fn deserialize(data: &[u8]) -> (r: Result<Self, HaystackError>) {
        if data.len() != 8 {
            return Err(HaystackError::Corruption);
        }
        Ok(i64_of(u64_from_le_bytes(data)))
    }
}

/// The `i64` at `pos`, if eight bytes are there.
pub open spec fn spec_read_i64(s: Seq<u8>, pos: int) -> Option<i64> {
    match spec_read_u64(s, pos) {
        Some(x) => Some(spec_i64_of(x)),
        None => None,
    }
}

/// The `i64` in the eight bytes at `pos`, little-endian; none where the
/// bytes end before.
pub fn read_i64(data: &[u8], pos: usize) -> (r: Option<i64>)
    ensures
        r == spec_read_i64(data@, pos as int),
{
    match read_u64(data, pos) {
        Some(x) => Some(i64_of(x)),
        None => None,
    }
}

/// Appends the eight bytes of an `i64`, little-endian.
pub fn write_i64(out: &mut Vec<u8>, x: i64)
    ensures
        final(out)@ == old(out)@ + spec_u64_to_le_bytes(spec_u64_of(x)),
{
    write_u64(out, u64_of(x));
}

/// The byte at `pos`, if there is one.
pub open spec fn spec_read_u8(s: Seq<u8>, pos: int) -> Option<u8> {
    if 0 <= pos < s.len() {
        Some(s[pos])
    } else {
        None
    }
}

/// The byte at `pos`; none where the bytes end before.
pub fn read_u8(data: &[u8], pos: usize) -> (r: Option<u8>)
    ensures
        r == spec_read_u8(data@, pos as int),
{
    if pos < data.len() {
        Some(data[pos])
    } else {
        None
    }
}

/// Reading an integer that sits between `pre` and `post` gives the integer.
pub proof fn lemma_read_back(pre: Seq<u8>, post: Seq<u8>)
    ensures
        forall|x: u8| #![trigger seq![x]] spec_read_u8(pre + seq![x] + post, pre.len() as int) == Some(x),
        forall|x: u32|
            #![trigger spec_u32_to_le_bytes(x)]
            spec_read_u32(pre + spec_u32_to_le_bytes(x) + post, pre.len() as int) == Some(x),
        forall|x: u64|
            #![trigger spec_u64_to_le_bytes(x)]
            spec_read_u64(pre + spec_u64_to_le_bytes(x) + post, pre.len() as int) == Some(x),
        forall|x: u128|
            #![trigger spec_u128_to_le_bytes(x)]
            spec_read_u128(pre + spec_u128_to_le_bytes(x) + post, pre.len() as int) == Some(x),
        forall|x: i64|
            #![trigger spec_u64_of(x)]
            spec_read_i64(pre + spec_u64_to_le_bytes(spec_u64_of(x)) + post, pre.len() as int)
                == Some(x),
{
    lemma_auto_spec_u32_to_from_le_bytes();
    lemma_auto_spec_u64_to_from_le_bytes();
    lemma_auto_spec_u128_to_from_le_bytes();
    assert forall|x: u8| #![trigger seq![x]] spec_read_u8(pre + seq![x] + post, pre.len() as int)
        == Some(x) by {
        lemma_subrange_of_concat(pre, seq![x], post);
        assert((pre + seq![x] + post)[pre.len() as int] == (pre + seq![x] + post).subrange(
            pre.len() as int,
            pre.len() as int + 1,
        )[0]);
    }
    assert forall|x: u32|
        #![trigger spec_u32_to_le_bytes(x)]
        spec_read_u32(pre + spec_u32_to_le_bytes(x) + post, pre.len() as int) == Some(x) by {
        lemma_subrange_of_concat(pre, spec_u32_to_le_bytes(x), post);
    }
    assert forall|x: u64|
        #![trigger spec_u64_to_le_bytes(x)]
        spec_read_u64(pre + spec_u64_to_le_bytes(x) + post, pre.len() as int) == Some(x) by {
        lemma_subrange_of_concat(pre, spec_u64_to_le_bytes(x), post);
    }
    assert forall|x: u128|
        #![trigger spec_u128_to_le_bytes(x)]
        spec_read_u128(pre + spec_u128_to_le_bytes(x) + post, pre.len() as int) == Some(x) by {
        lemma_subrange_of_concat(pre, spec_u128_to_le_bytes(x), post);
    }
    assert forall|x: i64|
        #![trigger spec_u64_of(x)]
        spec_read_i64(pre + spec_u64_to_le_bytes(spec_u64_of(x)) + post, pre.len() as int) == Some(
            x,
        ) by {
        lemma_subrange_of_concat(pre, spec_u64_to_le_bytes(spec_u64_of(x)), post);
        lemma_i64_u64_round_trip(x);
    }
}

/// A list of framed blobs behind their count in four bytes.
pub open spec fn counted_frames(wide: bool, blobs: Seq<Seq<u8>>) -> Seq<u8> {
    spec_u32_to_le_bytes(blobs.len() as u32) + frame_all(wide, blobs)
}

/// The counted list of framed blobs at `pos`, and the position behind it.
pub open spec fn parse_counted_frames(wide: bool, s: Seq<u8>, pos: int) -> Option<
    (Seq<Seq<u8>>, int),
> {
    match spec_read_u32(s, pos) {
        Some(n) => parse_frames(wide, s, pos + 4, n as nat),
        None => None,
    }
}

/// A list of chunks behind their count in four bytes.
pub open spec fn counted_chunks(chunks: Seq<Seq<u8>>) -> Seq<u8> {
    spec_u32_to_le_bytes(chunks.len() as u32) + flatten(chunks)
}

/// The counted list of chunks of `w` bytes at `pos`, and the position behind
/// it.
pub open spec fn parse_counted_chunks(s: Seq<u8>, pos: int, w: int) -> Option<(Seq<Seq<u8>>, int)> {
    match spec_read_u32(s, pos) {
        Some(n) => parse_chunks(s, pos + 4, n as nat, w),
        None => None,
    }
}

/// Reading a counted row of frames that sits between `pre` and `post`
/// gives the contents of the frames and the place behind the row.
pub proof fn lemma_counted_frames_round_trip(
    wide: bool,
    pre: Seq<u8>,
    blobs: Seq<Seq<u8>>,
    post: Seq<u8>,
)
    requires
        blobs.len() <= u32::MAX,
        forall|i: int| 0 <= i < blobs.len() ==> (#[trigger] blobs[i]).len() <= len_limit(wide),
    ensures
        parse_counted_frames(wide, pre + counted_frames(wide, blobs) + post, pre.len() as int)
            == Some((blobs, (pre.len() + counted_frames(wide, blobs).len()) as int)),
{
    lemma_auto_spec_u32_to_from_le_bytes();
    let n = spec_u32_to_le_bytes(blobs.len() as u32);
    let f = frame_all(wide, blobs);
    let s = pre + counted_frames(wide, blobs) + post;
    assert(s =~= pre + n + (f + post));
    lemma_read_back(pre, f + post);
    assert(s =~= (pre + n) + f + post);
    lemma_parse_frames_of_frame_all(wide, pre + n, blobs, post);
}

/// Reading a counted row of chunks that sits between `pre` and `post`
/// gives the chunks and the place behind the row.
pub proof fn lemma_counted_chunks_round_trip(
    pre: Seq<u8>,
    chunks: Seq<Seq<u8>>,
    post: Seq<u8>,
    w: int,
)
    requires
        0 <= w,
        chunks.len() <= u32::MAX,
        forall|i: int| 0 <= i < chunks.len() ==> (#[trigger] chunks[i]).len() == w,
    ensures
        parse_counted_chunks(pre + counted_chunks(chunks) + post, pre.len() as int, w) == Some(
            (chunks, (pre.len() + counted_chunks(chunks).len()) as int),
        ),
{
    lemma_auto_spec_u32_to_from_le_bytes();
    let n = spec_u32_to_le_bytes(chunks.len() as u32);
    let f = flatten(chunks);
    let s = pre + counted_chunks(chunks) + post;
    assert(s =~= pre + n + (f + post));
    lemma_read_back(pre, f + post);
    assert(s =~= (pre + n) + f + post);
    lemma_parse_chunks_of_flatten(pre + n, chunks, post, w);
}

/// Appends the count of the blobs and every blob behind its length.
pub fn write_counted_frames(out: &mut Vec<u8>, blobs: &Vec<Vec<u8>>, wide: bool)
    requires
        blobs@.len() <= u32::MAX,
        wide || forall|i: int| 0 <= i < blobs@.len() ==> (#[trigger] blobs@[i])@.len() <= u32::MAX,
    ensures
        final(out)@ == old(out)@ + counted_frames(wide, blob_views(blobs@)),
        forall|i: int| 0 <= i < blobs@.len() ==> (#[trigger] blobs@[i])@.len() <= len_limit(wide),
{
    write_u32(out, blobs.len() as u32);
    write_frames(out, blobs, wide);
    assert(out@ =~= old(out)@ + counted_frames(wide, blob_views(blobs@)));
}

/// Reads a counted list of framed blobs from `pos`.
pub fn read_counted_frames(data: &[u8], pos: usize, wide: bool) -> (r: Option<
    (Vec<Vec<u8>>, usize),
>)
    ensures
        match r {
            Some((blobs, end)) => end <= data@.len() && parse_counted_frames(
                wide,
                data@,
                pos as int,
            ) == Some((blob_views(blobs@), end as int)),
            None => parse_counted_frames(wide, data@, pos as int) is None,
        },
{
    let total: usize = data.len();
    match read_u32(data, pos) {
        Some(n) => {
            assert(pos + 4 <= total);
            read_frames(data, pos + 4, n as usize, wide)
        },
        None => None,
    }
}

/// Appends the count of the chunks and every chunk.
pub fn write_counted_chunks(out: &mut Vec<u8>, chunks: &Vec<Vec<u8>>)
    requires
        chunks@.len() <= u32::MAX,
    ensures
        final(out)@ == old(out)@ + counted_chunks(blob_views(chunks@)),
{
    write_u32(out, chunks.len() as u32);
    write_chunks(out, chunks);
    assert(out@ =~= old(out)@ + counted_chunks(blob_views(chunks@)));
}

/// Reads a counted list of chunks of `w` bytes from `pos`.
pub fn read_counted_chunks(data: &[u8], pos: usize, w: usize) -> (r: Option<
    (Vec<Vec<u8>>, usize),
>)
    ensures
        match r {
            Some((chunks, end)) => end <= data@.len() && parse_counted_chunks(
                data@,
                pos as int,
                w as int,
            ) == Some((blob_views(chunks@), end as int)) && (forall|i: int|
                0 <= i < chunks@.len() ==> (#[trigger] chunks@[i])@.len() == w),
            None => parse_counted_chunks(data@, pos as int, w as int) is None,
        },
{
    let total: usize = data.len();
    match read_u32(data, pos) {
        Some(n) => {
            assert(pos + 4 <= total);
            read_chunks(data, pos + 4, n as usize, w)
        },
        None => None,
    }
}

/// Chunks take room: `n` of them, of one byte or more, cannot start at `pos`
/// unless `n` bytes follow.
pub proof fn lemma_chunks_need_room(s: Seq<u8>, pos: int, n: nat, w: int)
    requires
        0 <= pos,
        1 <= w,
    ensures
        parse_chunks(s, pos, n, w) is Some ==> pos + n <= s.len() || n == 0,
    decreases n,
{
    if n > 0 && pos + w <= s.len() {
        lemma_chunks_need_room(s, pos + w, (n - 1) as nat, w);
    }
}

/// A list of chunks behind their count in eight bytes.
pub open spec fn long_chunks(chunks: Seq<Seq<u8>>) -> Seq<u8> {
    spec_u64_to_le_bytes(chunks.len() as u64) + flatten(chunks)
}

/// The list of chunks of `w` bytes behind their count in eight bytes at
/// `pos`, and the position behind it.
pub open spec fn parse_long_chunks(s: Seq<u8>, pos: int, w: int) -> Option<(Seq<Seq<u8>>, int)> {
    match spec_read_u64(s, pos) {
        Some(n) => parse_chunks(s, pos + 8, n as nat, w),
        None => None,
    }
}

/// Reading a row of chunks behind its count in eight bytes, between `pre`
/// and `post`, gives the chunks and the place behind the row.
pub proof fn lemma_long_chunks_round_trip(pre: Seq<u8>, chunks: Seq<Seq<u8>>, post: Seq<u8>, w: int)
    requires
        0 <= w,
        chunks.len() <= u64::MAX,
        forall|i: int| 0 <= i < chunks.len() ==> (#[trigger] chunks[i]).len() == w,
    ensures
        parse_long_chunks(pre + long_chunks(chunks) + post, pre.len() as int, w) == Some(
            (chunks, (pre.len() + long_chunks(chunks).len()) as int),
        ),
{
    lemma_auto_spec_u64_to_from_le_bytes();
    let n = spec_u64_to_le_bytes(chunks.len() as u64);
    let f = flatten(chunks);
    let s = pre + long_chunks(chunks) + post;
    assert(s =~= pre + n + (f + post));
    lemma_read_back(pre, f + post);
    assert(s =~= (pre + n) + f + post);
    lemma_parse_chunks_of_flatten(pre + n, chunks, post, w);
}

/// Appends the count of the chunks in eight bytes and every chunk.
pub fn write_long_chunks(out: &mut Vec<u8>, chunks: &Vec<Vec<u8>>)
    ensures
        final(out)@ == old(out)@ + long_chunks(blob_views(chunks@)),
{
    write_u64(out, chunks.len() as u64);
    write_chunks(out, chunks);
    assert(out@ =~= old(out)@ + long_chunks(blob_views(chunks@)));
}

/// Reads a list of chunks of `w` bytes behind their count in eight bytes
/// from `pos`.
pub fn read_long_chunks(data: &[u8], pos: usize, w: usize) -> (r: Option<(Vec<Vec<u8>>, usize)>)
    requires
        w >= 1,
    ensures
        match r {
            Some((chunks, end)) => end <= data@.len() && parse_long_chunks(
                data@,
                pos as int,
                w as int,
            ) == Some((blob_views(chunks@), end as int)) && (forall|i: int|
                0 <= i < chunks@.len() ==> (#[trigger] chunks@[i])@.len() == w),
            None => parse_long_chunks(data@, pos as int, w as int) is None,
        },
{
    let total: usize = data.len();
    match read_u64(data, pos) {
        Some(n) => {
            assert(pos + 8 <= total);
            if n > total as u64 {
                proof {
                    lemma_chunks_need_room(data@, pos + 8, n as nat, w as int);
                }
                return None;
            }
            read_chunks(data, pos + 8, n as usize, w)
        },
        None => None,
    }
}

} // verus!
