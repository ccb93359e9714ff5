use crate::constants::QUANTIZED_VECTOR_SIZE;
use crate::math::{hamming_distance, spec_hamming};
use crate::structures::dense_vector_list::{copy_vector, vector_views};
use vstd::prelude::*;

verus! {

/// A quantized vector.
pub type Vector = [u8; QUANTIZED_VECTOR_SIZE];

/// Number of bits of a quantized vector.
pub const VECTOR_BITS: usize = 1024;

/// Number of rounds of assigning entries and recomputing centroids.
pub const ROUNDS: usize = 4;

/// Whether bit `j` of a byte is set, the lowest bit being bit zero.
pub open spec fn byte_bit(x: u8, j: u8) -> bool {
    (x >> j) & 1 == 1
}

/// Whether bit `p` of a vector is set: bit `p % 8` of byte `p / 8`.
pub open spec fn spec_bit(v: Seq<u8>, p: int) -> bool {
    byte_bit(v[p / 8], (p % 8) as u8)
}

/// The number of vectors that have bit `p` set.
pub open spec fn count_set(vs: Seq<Seq<u8>>, p: int) -> nat
    decreases vs.len(),
{
    if vs.len() == 0 {
        0
    } else {
        count_set(vs.drop_last(), p) + if spec_bit(vs.last(), p) {
            1nat
        } else {
            0nat
        }
    }
}

/// `m` is the bitwise majority of the vectors: a bit of `m` is set exactly
/// when more than half of the vectors have it set, so that a tie, and no
/// vector at all, give zero.
pub open spec fn is_mode(vs: Seq<Seq<u8>>, m: Seq<u8>) -> bool {
    &&& m.len() == QUANTIZED_VECTOR_SIZE
    &&& forall|p: int|
        0 <= p < VECTOR_BITS ==> (#[trigger] spec_bit(m, p) <==> 2 * count_set(vs, p) > vs.len())
}

/// Two modes of the same vectors are the same vector.
pub proof fn lemma_mode_unique(vs: Seq<Seq<u8>>, a: Seq<u8>, b: Seq<u8>)
    requires
        is_mode(vs, a),
        is_mode(vs, b),
    ensures
        a == b,
{
    assert forall|i: int| 0 <= i < QUANTIZED_VECTOR_SIZE implies a[i] == b[i] by {
        let x = a[i];
        let y = b[i];
        assert forall|j: u8| 0 <= j < 8 implies byte_bit(x, j) == byte_bit(y, j) by {
            let p = 8 * i + j;
            assert(p / 8 == i && p % 8 == j as int);
            assert(spec_bit(a, p) == spec_bit(b, p));
        }
        assert(byte_bit(x, 0) == byte_bit(y, 0) && byte_bit(x, 1) == byte_bit(y, 1) && byte_bit(
            x,
            2,
        ) == byte_bit(y, 2) && byte_bit(x, 3) == byte_bit(y, 3) && byte_bit(x, 4) == byte_bit(
            y,
            4,
        ) && byte_bit(x, 5) == byte_bit(y, 5) && byte_bit(x, 6) == byte_bit(y, 6) && byte_bit(
            x,
            7,
        ) == byte_bit(y, 7));
        assert(x == y) by (bit_vector)
            requires
                ((x >> 0u8) & 1 == 1) == ((y >> 0u8) & 1 == 1),
                ((x >> 1u8) & 1 == 1) == ((y >> 1u8) & 1 == 1),
                ((x >> 2u8) & 1 == 1) == ((y >> 2u8) & 1 == 1),
                ((x >> 3u8) & 1 == 1) == ((y >> 3u8) & 1 == 1),
                ((x >> 4u8) & 1 == 1) == ((y >> 4u8) & 1 == 1),
                ((x >> 5u8) & 1 == 1) == ((y >> 5u8) & 1 == 1),
                ((x >> 6u8) & 1 == 1) == ((y >> 6u8) & 1 == 1),
                ((x >> 7u8) & 1 == 1) == ((y >> 7u8) & 1 == 1),
        ;
    }
    assert(a =~= b);
}

/// Setting bit `j` of a byte sets that bit and changes no other bit; zero
/// has no bit set.
proof fn lemma_set_bit(x: u8, j: u8, i: u8)
    requires
        j < 8,
        i < 8,
    ensures
        byte_bit(x | (1u8 << j), i) == (i == j || byte_bit(x, i)),
        byte_bit(0u8, i) == false,
{
    assert(((x | (1u8 << j)) >> i) & 1 == 1 <==> (i == j || (x >> i) & 1 == 1)) by (bit_vector)
        requires
            j < 8,
            i < 8,
    ;
    assert((0u8 >> i) & 1 == 0) by (bit_vector);
}

/// Whether bit `j` of a byte is set.
pub fn bit_is_set(x: u8, j: u8) -> (r: bool)
    requires
        j < 8,
    ensures
        r == byte_bit(x, j),
{
    (x >> j) & 1 == 1
}

/// The number of the vectors that have bit `j` of byte `b` set.
fn count_bit(vectors: &Vec<Vector>, b: usize, j: u8) -> (c: usize)
    requires
        b < QUANTIZED_VECTOR_SIZE,
        j < 8,
    ensures
        c == count_set(vector_views(vectors@), 8 * b + j),
        c <= vectors@.len(),
{
    let ghost vs = vector_views(vectors@);
    let ghost p = 8 * b + j;
    let mut c: usize = 0;
    let mut i: usize = 0;
    assert(vs.subrange(0, 0) =~= Seq::<Seq<u8>>::empty());
    while i < vectors.len()
        invariant
            i <= vectors@.len(),
            b < QUANTIZED_VECTOR_SIZE,
            j < 8,
            vs == vector_views(vectors@),
            p == 8 * b + j,
            c == count_set(vs.subrange(0, i as int), p),
            c <= i,
        decreases vectors@.len() - i,
    {
        proof {
            let next = vs.subrange(0, i + 1);
            assert(next.drop_last() =~= vs.subrange(0, i as int));
            assert(next.last() == vectors@[i as int]@);
            assert(p / 8 == b && p % 8 == j as int);
        }
        if bit_is_set(vectors[i][b], j) {
            c = c + 1;
        }
        i = i + 1;
    }
    assert(vs.subrange(0, i as int) =~= vs);
    c
}

/// The bitwise majority of the vectors, a tie giving zero.
pub fn find_modes(vectors: &Vec<Vector>) -> (m: Vector)
    ensures
        is_mode(vector_views(vectors@), m@),
{
    let ghost vs = vector_views(vectors@);
    let n: usize = vectors.len();
    let mut m: Vector = [0u8; QUANTIZED_VECTOR_SIZE];
    let mut b: usize = 0;
    while b < QUANTIZED_VECTOR_SIZE
        invariant
            b <= QUANTIZED_VECTOR_SIZE,
            n == vectors@.len(),
            vs == vector_views(vectors@),
            forall|p: int|
                0 <= p < 8 * b ==> (#[trigger] spec_bit(m@, p) <==> 2 * count_set(vs, p) > n),
        decreases QUANTIZED_VECTOR_SIZE - b,
    {
        let mut byte: u8 = 0;
        let mut j: u8 = 0;
        proof {
            assert forall|i: u8| 0 <= i < 8 implies !#[trigger] byte_bit(byte, i) by {
                lemma_set_bit(0u8, 0u8, i);
            }
        }
        while j < 8
            invariant
                j <= 8,
                b < QUANTIZED_VECTOR_SIZE,
                n == vectors@.len(),
                vs == vector_views(vectors@),
                forall|i: u8|
                    0 <= i < j ==> (#[trigger] byte_bit(byte, i) <==> 2 * count_set(vs, 8 * b + i)
                        > n),
                forall|i: u8| j <= i < 8 ==> !#[trigger] byte_bit(byte, i),
            decreases 8 - j,
        {
            let c = count_bit(vectors, b, j);
            let ghost before = byte;
            let set = c > n - c;
            if set {
                byte = byte | (1u8 << j);
            }
            proof {
                assert forall|i: u8| 0 <= i < 8 implies #[trigger] byte_bit(byte, i) == ((i == j
                    && set) || byte_bit(before, i)) by {
                    lemma_set_bit(before, j, i);
                }
            }
            j = j + 1;
        }
        let ghost old_m = m@;
        m[b] = byte;
        proof {
            assert forall|p: int| 0 <= p < 8 * (b + 1) implies (#[trigger] spec_bit(m@, p) <==> 2
                * count_set(vs, p) > n) by {
                if p < 8 * b {
                    assert(m@[p / 8] == old_m[p / 8]);
                    assert(spec_bit(old_m, p) <==> 2 * count_set(vs, p) > n);
                } else {
                    let i = (p % 8) as u8;
                    assert(p / 8 == b);
                    assert(8 * b + i == p);
                    assert(byte_bit(byte, i) <==> 2 * count_set(vs, 8 * b + i) > n);
                }
            }
        }
        b = b + 1;
    }
    m
}

/// The number of flags that are `which`.
pub open spec fn count_flag(side: Seq<bool>, which: bool) -> nat
    decreases side.len(),
{
    if side.len() == 0 {
        0
    } else {
        count_flag(side.drop_last(), which) + if side.last() == which {
            1nat
        } else {
            0nat
        }
    }
}

/// The least number of entries that each of the two clusters of `n`
/// entries gets: half of them, less a quarter.
pub open spec fn min_side(n: int) -> int {
    n / 2 - n / 4
}

/// The items whose flag is `which`, in their order.
pub open spec fn pick<T>(items: Seq<T>, side: Seq<bool>, which: bool) -> Seq<T>
    decreases items.len(),
{
    if items.len() == 0 {
        Seq::empty()
    } else {
        let rest = pick(items.drop_last(), side.drop_last(), which);
        if side.last() == which {
            rest.push(items.last())
        } else {
            rest
        }
    }
}

/// Every flag is the one or the other.
pub proof fn lemma_count_flags(side: Seq<bool>)
    ensures
        count_flag(side, true) + count_flag(side, false) == side.len(),
    decreases side.len(),
{
    if side.len() > 0 {
        lemma_count_flags(side.drop_last());
    }
}

/// Changing one flag changes the counts by one.
pub proof fn lemma_count_update(side: Seq<bool>, i: int, v: bool, which: bool)
    requires
        0 <= i < side.len(),
    ensures
        count_flag(side.update(i, v), which) == count_flag(side, which) + (if v == which {
            1int
        } else {
            0int
        }) - (if side[i] == which {
            1int
        } else {
            0int
        }),
    decreases side.len(),
{
    let after = side.update(i, v);
    if i == side.len() - 1 {
        assert(after.drop_last() =~= side.drop_last());
    } else {
        assert(after.drop_last() =~= side.drop_last().update(i, v));
        lemma_count_update(side.drop_last(), i, v, which);
    }
}

/// As many items are picked as there are flags of that kind.
pub proof fn lemma_pick_len<T>(items: Seq<T>, side: Seq<bool>, which: bool)
    requires
        items.len() == side.len(),
    ensures
        pick(items, side, which).len() == count_flag(side, which),
    decreases items.len(),
{
    if items.len() > 0 {
        lemma_pick_len(items.drop_last(), side.drop_last(), which);
    }
}

/// Where no flag is `which`, the count is zero.
pub proof fn lemma_count_none(side: Seq<bool>, which: bool)
    requires
        forall|i: int| 0 <= i < side.len() ==> side[i] != which,
    ensures
        count_flag(side, which) == 0,
    decreases side.len(),
{
    if side.len() > 0 {
        lemma_count_none(side.drop_last(), which);
    }
}

/// Every item is among the items that its flag picks.
pub proof fn lemma_pick_covers<T>(items: Seq<T>, side: Seq<bool>, j: int)
    requires
        items.len() == side.len(),
        0 <= j < items.len(),
    ensures
        exists|i: int|
            0 <= i < pick(items, side, side[j]).len() && (#[trigger] pick(items, side, side[j])[i])
                == items[j],
    decreases items.len(),
{
    let which = side[j];
    let rest = pick(items.drop_last(), side.drop_last(), which);
    if j == items.len() - 1 {
        assert(pick(items, side, which)[rest.len() as int] == items[j]);
    } else {
        lemma_pick_covers(items.drop_last(), side.drop_last(), j);
        let i = choose|i: int| 0 <= i < rest.len() && (#[trigger] rest[i]) == items.drop_last()[j];
        assert(pick(items, side, which)[i] == items[j]);
    }
}

/// What is picked from items that differ from one another differs from
/// one another.
pub proof fn lemma_pick_distinct<T>(items: Seq<T>, side: Seq<bool>, which: bool)
    requires
        items.len() == side.len(),
        items.no_duplicates(),
    ensures
        pick(items, side, which).no_duplicates(),
    decreases items.len(),
{
    if items.len() > 0 {
        let rest = pick(items.drop_last(), side.drop_last(), which);
        assert(items.drop_last().no_duplicates());
        lemma_pick_distinct(items.drop_last(), side.drop_last(), which);
        if side.last() == which {
            let all = pick(items, side, which);
            assert forall|a: int, b: int| 0 <= a < all.len() && 0 <= b < all.len() && a != b implies all[a]
                != all[b] by {
                if a < rest.len() && b < rest.len() {
                    assert(all[a] == rest[a] && all[b] == rest[b]);
                } else {
                    let low = if a < b {
                        a
                    } else {
                        b
                    };
                    lemma_pick_elem(items.drop_last(), side.drop_last(), which, low);
                    let i = choose|i: int|
                        0 <= i < items.drop_last().len() && (#[trigger] items.drop_last()[i])
                            == rest[low];
                    assert(items[i] == rest[low]);
                    assert(all[low] == rest[low]);
                }
            }
        }
    }
}

/// What the same flags pick at one place from two lists stood at one place
/// of the two lists.
pub proof fn lemma_pick_pairs<A, B>(a: Seq<A>, b: Seq<B>, side: Seq<bool>, which: bool, t: int)
    requires
        a.len() == side.len(),
        b.len() == side.len(),
        0 <= t < pick(a, side, which).len(),
    ensures
        pick(b, side, which).len() == pick(a, side, which).len(),
        exists|x: int|
            0 <= x < a.len() && (#[trigger] a[x]) == pick(a, side, which)[t] && b[x] == pick(
                b,
                side,
                which,
            )[t],
    decreases a.len(),
{
    lemma_pick_len(a, side, which);
    lemma_pick_len(b, side, which);
    if a.len() > 0 {
        let ra = pick(a.drop_last(), side.drop_last(), which);
        let rb = pick(b.drop_last(), side.drop_last(), which);
        lemma_pick_len(a.drop_last(), side.drop_last(), which);
        lemma_pick_len(b.drop_last(), side.drop_last(), which);
        if side.last() == which && t == ra.len() {
            let x = a.len() - 1;
            assert(a[x] == pick(a, side, which)[t] && b[x] == pick(b, side, which)[t]);
        } else {
            lemma_pick_pairs(a.drop_last(), b.drop_last(), side.drop_last(), which, t);
            let x = choose|x: int|
                0 <= x < a.drop_last().len() && (#[trigger] a.drop_last()[x]) == ra[t]
                    && b.drop_last()[x] == rb[t];
            assert(a[x] == pick(a, side, which)[t] && b[x] == pick(b, side, which)[t]);
        }
    }
}

/// What the one flag picks from items that differ from one another is not
/// picked by the other flag.
pub proof fn lemma_pick_disjoint<T>(items: Seq<T>, side: Seq<bool>, x: int, y: int)
    requires
        items.len() == side.len(),
        items.no_duplicates(),
        0 <= x < pick(items, side, false).len(),
        0 <= y < pick(items, side, true).len(),
    ensures
        pick(items, side, false)[x] != pick(items, side, true)[y],
    decreases items.len(),
{
    if items.len() > 0 {
        let rf = pick(items.drop_last(), side.drop_last(), false);
        let rt = pick(items.drop_last(), side.drop_last(), true);
        assert(items.drop_last().no_duplicates());
        if x < rf.len() && y < rt.len() {
            lemma_pick_disjoint(items.drop_last(), side.drop_last(), x, y);
        } else if x < rf.len() {
            lemma_pick_elem(items.drop_last(), side.drop_last(), false, x);
            let i = choose|i: int|
                0 <= i < items.drop_last().len() && (#[trigger] items.drop_last()[i]) == rf[x];
            assert(items[i] == rf[x]);
        } else {
            lemma_pick_elem(items.drop_last(), side.drop_last(), true, y);
            let i = choose|i: int|
                0 <= i < items.drop_last().len() && (#[trigger] items.drop_last()[i]) == rt[y];
            assert(items[i] == rt[y]);
        }
    }
}

/// Every picked item is one of the items.
pub proof fn lemma_pick_elem<T>(items: Seq<T>, side: Seq<bool>, which: bool, j: int)
    requires
        items.len() == side.len(),
        0 <= j < pick(items, side, which).len(),
    ensures
        exists|i: int| 0 <= i < items.len() && (#[trigger] items[i]) == pick(items, side, which)[j],
    decreases items.len(),
{
    if items.len() > 0 {
        let rest = pick(items.drop_last(), side.drop_last(), which);
        if side.last() == which && j == rest.len() {
            assert(items[items.len() - 1] == pick(items, side, which)[j]);
        } else {
            lemma_pick_elem(items.drop_last(), side.drop_last(), which, j);
            let i = choose|i: int|
                0 <= i < items.drop_last().len() && (#[trigger] items.drop_last()[i]) == rest[j];
            assert(items[i] == pick(items, side, which)[j]);
        }
    }
}

/// The number of flags that are `which`.
pub fn count_side(side: &Vec<bool>, which: bool) -> (c: usize)
    ensures
        c == count_flag(side@, which),
        c <= side@.len(),
{
    let mut c: usize = 0;
    let mut i: usize = 0;
    assert(side@.subrange(0, 0) =~= Seq::<bool>::empty());
    while i < side.len()
        invariant
            i <= side@.len(),
            c == count_flag(side@.subrange(0, i as int), which),
            c <= i,
        decreases side@.len() - i,
    {
        proof {
            let next = side@.subrange(0, i + 1);
            assert(next.drop_last() =~= side@.subrange(0, i as int));
            assert(next.last() == side@[i as int]);
        }
        if side[i] == which {
            c = c + 1;
        }
        i = i + 1;
    }
    assert(side@.subrange(0, i as int) =~= side@);
    c
}

/// For each vector, whether it is strictly closer to `c1` than to `c0`.
pub open spec fn spec_assign(vs: Seq<Seq<u8>>, c0: Seq<u8>, c1: Seq<u8>) -> Seq<bool> {
    Seq::new(vs.len(), |i: int| spec_hamming(vs[i], c1) < spec_hamming(vs[i], c0))
}

/// The bitwise majority of the vectors.
pub open spec fn spec_mode(vs: Seq<Seq<u8>>) -> Seq<u8> {
    choose|m: Seq<u8>| is_mode(vs, m)
}

/// The two centroids after so many rounds. At first they are the first
/// vector and the vector farthest from it. A round assigns each vector to
/// the centroid it is nearest to, the first winning a tie, and makes each
/// centroid the bitwise majority of its cluster; the centroid of an empty
/// cluster stays.
pub open spec fn spec_centroids(vs: Seq<Seq<u8>>, rounds: nat) -> (Seq<u8>, Seq<u8>)
    decreases rounds,
{
    if rounds == 0 {
        (vs[0], vs[spec_farthest(vs, vs[0])])
    } else {
        let c = spec_centroids(vs, (rounds - 1) as nat);
        let side = spec_assign(vs, c.0, c.1);
        let g0 = pick(vs, side, false);
        let g1 = pick(vs, side, true);
        (
            if g0.len() > 0 {
                spec_mode(g0)
            } else {
                c.0
            },
            if g1.len() > 0 {
                spec_mode(g1)
            } else {
                c.1
            },
        )
    }
}

/// No vector of the second cluster is farther from the border than one of
/// the first: the border is a threshold on how much closer a vector is to
/// the second centroid than to the first.
pub open spec fn cut_by(vs: Seq<Seq<u8>>, side: Seq<bool>, c0: Seq<u8>, c1: Seq<u8>) -> bool {
    forall|i: int, j: int|
        0 <= i < vs.len() && 0 <= j < vs.len() && #[trigger] side[i] && !#[trigger] side[j]
            ==> spec_pull(vs[i], c0, c1) <= spec_pull(vs[j], c0, c1)
}

/// The number of flags set in a balanced split of `n` entries of which
/// `ones` are nearest to the second centroid: that number, but not less
/// than the least share of a cluster, and not more than what leaves the
/// other cluster its least share.
pub open spec fn balanced_ones(n: int, ones: int) -> int {
    if ones < min_side(n) {
        min_side(n)
    } else if n - ones < min_side(n) {
        n - min_side(n)
    } else {
        ones
    }
}

/// Whether the flags are a balanced clustering of the vectors by two
/// modes: after the rounds each vector goes to the centroid it is nearest
/// to; where a cluster is left with less than its least share, the vectors
/// of the other cluster that lie nearest to the border come over, as many
/// as are missing.
pub open spec fn clustered(vs: Seq<Seq<u8>>, side: Seq<bool>) -> bool {
    let c = spec_centroids(vs, (ROUNDS - 1) as nat);
    let natural = spec_assign(vs, c.0, c.1);
    let ones = count_flag(natural, true) as int;
    let least = min_side(vs.len() as int);
    &&& side.len() == vs.len()
    &&& cut_by(vs, side, c.0, c.1)
    &&& count_flag(side, true) == balanced_ones(vs.len() as int, ones)
    &&& vs.len() - ones >= least ==> forall|i: int|
        0 <= i < vs.len() && natural[i] ==> #[trigger] side[i]
    &&& ones >= least ==> forall|i: int| 0 <= i < vs.len() && !natural[i] ==> !#[trigger] side[i]
}

/// For each vector, whether it is strictly closer to `c1` than to `c0`.
fn assign(vectors: &Vec<Vector>, c0: &Vector, c1: &Vector) -> (side: Vec<bool>)
    ensures
        side@ == spec_assign(vector_views(vectors@), c0@, c1@),
{
    let mut side: Vec<bool> = Vec::new();
    let mut i: usize = 0;
    while i < vectors.len()
        invariant
            i <= vectors@.len(),
            side@.len() == i,
            forall|j: int|
                0 <= j < i ==> (#[trigger] side@[j]) == (spec_hamming(vectors@[j]@, c1@)
                    < spec_hamming(vectors@[j]@, c0@)),
        decreases vectors@.len() - i,
    {
        let d0 = hamming_distance(&vectors[i], c0);
        let d1 = hamming_distance(&vectors[i], c1);
        side.push(d1 < d0);
        i = i + 1;
    }
    assert(side@ =~= spec_assign(vector_views(vectors@), c0@, c1@));
    side
}

/// The vectors whose flag is `which`, in their order.
fn group(vectors: &Vec<Vector>, side: &Vec<bool>, which: bool) -> (g: Vec<Vector>)
    requires
        side@.len() == vectors@.len(),
    ensures
        vector_views(g@) == pick(vector_views(vectors@), side@, which),
{
    let ghost vs = vector_views(vectors@);
    let mut g: Vec<Vector> = Vec::new();
    let mut i: usize = 0;
    assert(vs.subrange(0, 0) =~= Seq::<Seq<u8>>::empty());
    while i < vectors.len()
        invariant
            i <= vectors@.len(),
            side@.len() == vectors@.len(),
            vs == vector_views(vectors@),
            vector_views(g@) == pick(vs.subrange(0, i as int), side@.subrange(0, i as int), which),
        decreases vectors@.len() - i,
    {
        proof {
            let next = vs.subrange(0, i + 1);
            let flags = side@.subrange(0, i + 1);
            assert(next.drop_last() =~= vs.subrange(0, i as int));
            assert(flags.drop_last() =~= side@.subrange(0, i as int));
            assert(next.last() == vectors@[i as int]@);
            assert(flags.last() == side@[i as int]);
        }
        let ghost before = vector_views(g@);
        if side[i] == which {
            g.push(copy_vector(&vectors[i]));
            assert(vector_views(g@) =~= before.push(vectors@[i as int]@));
        }
        i = i + 1;
    }
    assert(vs.subrange(0, i as int) =~= vs);
    assert(side@.subrange(0, i as int) =~= side@);
    g
}

/// The vector at `b` is farthest from `c`, and the first that is so far.
pub open spec fn is_farthest(vs: Seq<Seq<u8>>, c: Seq<u8>, b: int) -> bool {
    &&& 0 <= b < vs.len()
    &&& forall|i: int|
        0 <= i < vs.len() ==> spec_hamming(#[trigger] vs[i], c) <= spec_hamming(vs[b], c)
    &&& forall|i: int| 0 <= i < b ==> spec_hamming(#[trigger] vs[i], c) < spec_hamming(vs[b], c)
}

/// The index of the first of the vectors that are farthest from `c`.
pub open spec fn spec_farthest(vs: Seq<Seq<u8>>, c: Seq<u8>) -> int {
    choose|b: int| is_farthest(vs, c, b)
}

/// Only one vector is the first of the farthest.
pub proof fn lemma_farthest_unique(vs: Seq<Seq<u8>>, c: Seq<u8>, b: int)
    requires
        is_farthest(vs, c, b),
    ensures
        spec_farthest(vs, c) == b,
{
    let a = spec_farthest(vs, c);
    assert(is_farthest(vs, c, a));
    if a < b {
        assert(spec_hamming(vs[a], c) < spec_hamming(vs[b], c));
        assert(spec_hamming(vs[b], c) <= spec_hamming(vs[a], c));
    } else if b < a {
        assert(spec_hamming(vs[b], c) < spec_hamming(vs[a], c));
        assert(spec_hamming(vs[a], c) <= spec_hamming(vs[b], c));
    }
}

/// The index of the vector that is farthest from `c`, the first of them.
fn farthest_from(vectors: &Vec<Vector>, c: &Vector) -> (best: usize)
    requires
        vectors@.len() > 0,
    ensures
        best == spec_farthest(vector_views(vectors@), c@),
        is_farthest(vector_views(vectors@), c@, best as int),
{
    let ghost vs = vector_views(vectors@);
    let mut best: usize = 0;
    let mut best_d: u16 = hamming_distance(&vectors[0], c);
    let mut i: usize = 1;
    while i < vectors.len()
        invariant
            1 <= i <= vectors@.len(),
            vs == vector_views(vectors@),
            best < i,
            best_d == spec_hamming(vs[best as int], c@),
            forall|j: int| 0 <= j < i ==> spec_hamming(#[trigger] vs[j], c@) <= best_d,
            forall|j: int| 0 <= j < best ==> spec_hamming(#[trigger] vs[j], c@) < best_d,
        decreases vectors@.len() - i,
    {
        let d = hamming_distance(&vectors[i], c);
        if d > best_d {
            best = i;
            best_d = d;
        }
        i = i + 1;
    }
    proof {
        lemma_farthest_unique(vs, c@, best as int);
    }
    best
}

/// How much closer a vector is to `to` than to `from`, as a number that is
/// the smaller the closer the vector is to `to`.
pub open spec fn spec_pull(v: Seq<u8>, from: Seq<u8>, to: Seq<u8>) -> int {
    spec_hamming(v, to) - spec_hamming(v, from)
}

/// The index of an entry with the flag `from` that lies nearest the border
/// to the other cluster: none with that flag is closer to `to` relative to
/// `c_from`.
fn nearest_border(
    vectors: &Vec<Vector>,
    side: &Vec<bool>,
    from: bool,
    c_from: &Vector,
    c_to: &Vector,
) -> (best: usize)
    requires
        side@.len() == vectors@.len(),
        count_flag(side@, from) > 0,
    ensures
        best < vectors@.len(),
        side@[best as int] == from,
        forall|i: int|
            0 <= i < vectors@.len() && side@[i] == from ==> spec_pull(
                vectors@[best as int]@,
                c_from@,
                c_to@,
            ) <= spec_pull(#[trigger] vectors@[i]@, c_from@, c_to@),
{
    let mut found = false;
    let mut best: usize = 0;
    let mut best_pull: i32 = 0;
    let mut i: usize = 0;
    while i < vectors.len()
        invariant
            i <= vectors@.len(),
            side@.len() == vectors@.len(),
            found || forall|j: int| 0 <= j < i ==> side@[j] != from,
            found ==> best < i && side@[best as int] == from && best_pull == spec_pull(
                vectors@[best as int]@,
                c_from@,
                c_to@,
            ),
            forall|j: int|
                0 <= j < i && side@[j] == from ==> best_pull <= spec_pull(
                    #[trigger] vectors@[j]@,
                    c_from@,
                    c_to@,
                ),
        decreases vectors@.len() - i,
    {
        if side[i] == from {
            let d_from = hamming_distance(&vectors[i], c_from);
            let d_to = hamming_distance(&vectors[i], c_to);
            let pull: i32 = d_to as i32 - d_from as i32;
            if !found || pull < best_pull {
                best = i;
                best_pull = pull;
                found = true;
            }
        }
        i = i + 1;
    }
    proof {
        if !found {
            lemma_count_none(side@, from);
        }
    }
    best
}

/// Splits the vectors in two clusters by two modes: the first vector and
/// the vector farthest from it are the first centroids; each vector goes to
/// the centroid it is nearest to, the first winning a tie; the centroids
/// become the bitwise majority of their clusters; and so for a fixed number
/// of rounds. Then entries at the border move from the larger cluster to
/// the smaller until each has its least share. A flag says that a vector is
/// in the second cluster.
pub fn balanced_k_modes(vectors: &Vec<Vector>) -> (side: Vec<bool>)
    requires
        vectors@.len() >= 2,
    ensures
        clustered(vector_views(vectors@), side@),
        side@.len() == vectors@.len(),
        count_flag(side@, true) >= min_side(vectors@.len() as int),
        count_flag(side@, false) >= min_side(vectors@.len() as int),
        count_flag(side@, true) >= 1,
        count_flag(side@, false) >= 1,
{
    let ghost vs = vector_views(vectors@);
    let n: usize = vectors.len();
    let mut c0 = copy_vector(&vectors[0]);
    let far = farthest_from(vectors, &c0);
    let mut c1 = copy_vector(&vectors[far]);
    let mut side = assign(vectors, &c0, &c1);
    let mut round: usize = 1;
    while round < ROUNDS
        invariant
            1 <= round <= ROUNDS,
            vs == vector_views(vectors@),
            (c0@, c1@) == spec_centroids(vs, (round - 1) as nat),
            side@ == spec_assign(vs, c0@, c1@),
        decreases ROUNDS - round,
    {
        let g0 = group(vectors, &side, false);
        let g1 = group(vectors, &side, true);
        if g0.len() > 0 {
            c0 = find_modes(&g0);
            proof {
                lemma_mode_unique(vector_views(g0@), c0@, spec_mode(vector_views(g0@)));
            }
        }
        if g1.len() > 0 {
            c1 = find_modes(&g1);
            proof {
                lemma_mode_unique(vector_views(g1@), c1@, spec_mode(vector_views(g1@)));
            }
        }
        side = assign(vectors, &c0, &c1);
        round = round + 1;
    }
    let ghost natural = side@;
    let ghost ones0 = count_flag(natural, true) as int;
    let target: usize = n / 2 - n / 4;
    assert(target >= 1 && 2 * target <= n);
    let mut ones = count_side(&side, true);
    proof {
        lemma_count_flags(side@);
    }
    if ones < target {
        while ones < target
            invariant
                n == vectors@.len(),
                n >= 2,
                vs == vector_views(vectors@),
                side@.len() == n,
                natural.len() == n,
                target == n / 2 - n / 4,
                ones == count_flag(side@, true),
                ones + count_flag(side@, false) == n,
                ones <= target,
                2 * target <= n,
                cut_by(vs, side@, c0@, c1@),
                forall|i: int| 0 <= i < n && natural[i] ==> #[trigger] side@[i],
            decreases target - ones,
        {
            let i = nearest_border(vectors, &side, false, &c0, &c1);
            let ghost before = side@;
            proof {
                lemma_count_update(side@, i as int, true, true);
                lemma_count_update(side@, i as int, true, false);
            }
            side[i] = true;
            ones = ones + 1;
            proof {
                assert forall|a: int, b: int|
                    0 <= a < vs.len() && 0 <= b < vs.len() && #[trigger] side@[a]
                        && !#[trigger] side@[b] implies spec_pull(vs[a], c0@, c1@) <= spec_pull(
                    vs[b],
                    c0@,
                    c1@,
                ) by {
                    assert(!before[b]);
                    if a == i {
                        assert(vs[b] == vectors@[b]@);
                        assert(vs[a] == vectors@[i as int]@);
                    } else {
                        assert(before[a]);
                    }
                }
                assert forall|x: int| 0 <= x < n && natural[x] implies #[trigger] side@[x] by {
                    assert(before[x]);
                }
            }
        }
    } else {
        let mut zeros: usize = n - ones;
        while zeros < target
            invariant
                n == vectors@.len(),
                n >= 2,
                vs == vector_views(vectors@),
                side@.len() == n,
                natural.len() == n,
                target == n / 2 - n / 4,
                zeros == count_flag(side@, false),
                zeros + count_flag(side@, true) == n,
                ones0 == count_flag(natural, true),
                zeros <= target || side@ == natural,
                n - ones0 < target ==> zeros <= target,
                n - ones0 >= target ==> side@ == natural,
                2 * target <= n,
                cut_by(vs, side@, c0@, c1@),
                forall|i: int| 0 <= i < n && !natural[i] ==> !#[trigger] side@[i],
            decreases target - zeros,
        {
            let i = nearest_border(vectors, &side, true, &c1, &c0);
            let ghost before = side@;
            proof {
                lemma_count_update(side@, i as int, false, true);
                lemma_count_update(side@, i as int, false, false);
            }
            side[i] = false;
            zeros = zeros + 1;
            proof {
                assert forall|a: int, b: int|
                    0 <= a < vs.len() && 0 <= b < vs.len() && #[trigger] side@[a]
                        && !#[trigger] side@[b] implies spec_pull(vs[a], c0@, c1@) <= spec_pull(
                    vs[b],
                    c0@,
                    c1@,
                ) by {
                    assert(before[a]);
                    if b == i {
                        assert(vs[a] == vectors@[a]@);
                        assert(vs[b] == vectors@[i as int]@);
                    } else {
                        assert(!before[b]);
                    }
                }
                assert forall|x: int| 0 <= x < n && !natural[x] implies !#[trigger] side@[x] by {
                    assert(!before[x]);
                }
            }
        }
    }
    proof {
        lemma_count_flags(side@);
    }
    side
}

} // verus!
