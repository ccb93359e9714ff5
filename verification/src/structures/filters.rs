use crate::structures::inverted_index::{InvertedIndex, InvertedIndexItem, InvertedIndexItemView};
use crate::structures::metadata_index::{KVPair, KVPairView};
use crate::structures::sorted_lists::{
    all_below, ascending, complement, intersect, lemma_ascending_is_picked, listed, picked, union,
};
use crate::structures::tree::serialization::elem_views;
use vstd::prelude::*;

verus! {

/// A boolean expression over attributes.
#[derive(Debug)]
pub enum Filter {
    /// The record has the attribute with this key and this value.
    Eq(String, String),
    /// The record has an attribute with this key and one of these values.
    In(String, Vec<String>),
    /// Every one of the filters holds.
    And(Vec<Filter>),
    /// One of the filters holds.
    Or(Vec<Filter>),
    /// The filter does not hold.
    Not(Box<Filter>),
}

/// Whether a list of attributes has the attribute.
pub open spec fn has_attribute(kvs: Seq<KVPairView>, key: Seq<char>, value: Seq<char>) -> bool {
    exists|i: int| 0 <= i < kvs.len() && (#[trigger] kvs[i]) == (KVPairView { key, value })
}

/// Whether a record with the attributes `kvs` satisfies the filter.
pub open spec fn spec_matches(f: Filter, kvs: Seq<KVPairView>) -> bool
    decreases f, 0nat,
{
    match f {
        Filter::Eq(key, value) => has_attribute(kvs, key@, value@),
        Filter::In(key, values) => exists|j: int|
            0 <= j < values@.len() && has_attribute(kvs, key@, (#[trigger] values@[j])@),
        Filter::And(fs) => spec_matches_all(fs, 0, kvs),
        Filter::Or(fs) => spec_matches_any(fs, 0, kvs),
        Filter::Not(g) => !spec_matches(*g, kvs),
    }
}

/// Whether the record satisfies every filter from `from` on.
pub open spec fn spec_matches_all(fs: Vec<Filter>, from: nat, kvs: Seq<KVPairView>) -> bool
    decreases fs, fs@.len() - from,
{
    if from >= fs@.len() {
        true
    } else {
        spec_matches(fs@[from as int], kvs) && spec_matches_all(fs, from + 1, kvs)
    }
}

/// Whether the record satisfies one of the filters from `from` on.
pub open spec fn spec_matches_any(fs: Vec<Filter>, from: nat, kvs: Seq<KVPairView>) -> bool
    decreases fs, fs@.len() - from,
{
    if from >= fs@.len() {
        false
    } else {
        spec_matches(fs@[from as int], kvs) || spec_matches_any(fs, from + 1, kvs)
    }
}

/// A record satisfies a conjunction exactly when it satisfies each of its
/// filters, and a disjunction exactly when it satisfies one of them.
pub proof fn lemma_matches_all_any(fs: Vec<Filter>, from: nat, kvs: Seq<KVPairView>)
    ensures
        spec_matches_all(fs, from, kvs) <==> (forall|j: int|
            from <= j < fs@.len() ==> spec_matches(#[trigger] fs@[j], kvs)),
        spec_matches_any(fs, from, kvs) <==> (exists|j: int|
            from <= j < fs@.len() && spec_matches(#[trigger] fs@[j], kvs)),
    decreases fs@.len() - from,
{
    if from < fs@.len() {
        lemma_matches_all_any(fs, from + 1, kvs);
        if spec_matches_any(fs, from, kvs) {
            if spec_matches(fs@[from as int], kvs) {
            } else {
                let j = choose|j: int|
                    from + 1 <= j < fs@.len() && spec_matches(#[trigger] fs@[j], kvs);
                assert(from <= j < fs@.len() && spec_matches(fs@[j], kvs));
            }
        }
    }
}

/// Whether the attributes have the attribute with this key and this value.
pub fn holds_attribute(metadata: &Vec<KVPair>, key: &String, value: &String) -> (r: bool)
    ensures
        r == has_attribute(elem_views(metadata@), key@, value@),
{
    let mut i: usize = 0;
    while i < metadata.len()
        invariant
            i <= metadata@.len(),
            forall|j: int|
                0 <= j < i ==> elem_views(metadata@)[j] != (KVPairView {
                    key: key@,
                    value: value@,
                }),
        decreases metadata@.len() - i,
    {
        if metadata[i].key == *key && metadata[i].value == *value {
            assert(elem_views(metadata@)[i as int] == (KVPairView { key: key@, value: value@ }));
            return true;
        }
        i = i + 1;
    }
    false
}

/// Whether the attributes have an attribute with this key and one of the
/// values from `from` on.
fn holds_one_of(metadata: &Vec<KVPair>, key: &String, values: &Vec<String>, from: usize) -> (r:
    bool)
    requires
        from <= values@.len(),
    ensures
        r == exists|j: int|
            from <= j < values@.len() && has_attribute(
                elem_views(metadata@),
                key@,
                (#[trigger] values@[j])@,
            ),
    decreases values@.len() - from,
{
    if from >= values.len() {
        false
    } else if holds_attribute(metadata, key, &values[from]) {
        true
    } else {
        holds_one_of(metadata, key, values, from + 1)
    }
}

/// Whether the record satisfies every filter from `from` on.
fn matches_all(fs: &Vec<Filter>, from: usize, metadata: &Vec<KVPair>) -> (r: bool)
    requires
        from <= fs@.len(),
    ensures
        r == spec_matches_all(*fs, from as nat, elem_views(metadata@)),
    decreases fs, fs@.len() - from,
{
    if from >= fs.len() {
        true
    } else if !Filters::matches(&fs[from], metadata) {
        false
    } else {
        matches_all(fs, from + 1, metadata)
    }
}

/// Whether the record satisfies one of the filters from `from` on.
fn matches_any(fs: &Vec<Filter>, from: usize, metadata: &Vec<KVPair>) -> (r: bool)
    requires
        from <= fs@.len(),
    ensures
        r == spec_matches_any(*fs, from as nat, elem_views(metadata@)),
    decreases fs, fs@.len() - from,
{
    if from >= fs.len() {
        false
    } else if Filters::matches(&fs[from], metadata) {
        true
    } else {
        matches_any(fs, from + 1, metadata)
    }
}

/// Whether the posting list of the attribute names the vector index `i`.
pub open spec fn posting_names(
    m: Map<KVPairView, InvertedIndexItemView>,
    key: Seq<char>,
    value: Seq<char>,
    i: int,
) -> bool {
    let kv = KVPairView { key, value };
    m.contains_key(kv) && listed(m[kv].indices, i)
}

/// Whether the filter selects the vector index `i` of a namespace with `n`
/// vectors and the posting lists `m`: an equality selects what the posting
/// list of its attribute names; a choice of values, what one of them
/// selects; a conjunction, what all of its filters select, and all indices
/// if it has none; a disjunction, what one of its filters selects; a
/// negation, the indices that its filter does not select.
pub open spec fn spec_selects(
    f: Filter,
    m: Map<KVPairView, InvertedIndexItemView>,
    n: int,
    i: int,
) -> bool
    decreases f, 0nat,
{
    0 <= i < n && match f {
        Filter::Eq(key, value) => posting_names(m, key@, value@, i),
        Filter::In(key, values) => exists|j: int|
            0 <= j < values@.len() && posting_names(m, key@, (#[trigger] values@[j])@, i),
        Filter::And(fs) => spec_selects_all(fs, 0, m, n, i),
        Filter::Or(fs) => spec_selects_any(fs, 0, m, n, i),
        Filter::Not(g) => !spec_selects(*g, m, n, i),
    }
}

/// Whether every filter from `from` on selects the vector index.
pub open spec fn spec_selects_all(
    fs: Vec<Filter>,
    from: nat,
    m: Map<KVPairView, InvertedIndexItemView>,
    n: int,
    i: int,
) -> bool
    decreases fs, fs@.len() - from,
{
    0 <= i < n && (from >= fs@.len() || (spec_selects(fs@[from as int], m, n, i)
        && spec_selects_all(fs, from + 1, m, n, i)))
}

/// Whether one of the filters from `from` on selects the vector index.
pub open spec fn spec_selects_any(
    fs: Vec<Filter>,
    from: nat,
    m: Map<KVPairView, InvertedIndexItemView>,
    n: int,
    i: int,
) -> bool
    decreases fs, fs@.len() - from,
{
    0 <= i < n && from < fs@.len() && (spec_selects(fs@[from as int], m, n, i)
        || spec_selects_any(fs, from + 1, m, n, i))
}

/// Whether every posting list is in strictly ascending order of its indices
/// and names vector indices below `n` only.
pub open spec fn postings_sorted(m: Map<KVPairView, InvertedIndexItemView>, n: int) -> bool {
    forall|kv: KVPairView| #[trigger]
        m.contains_key(kv) ==> ascending(m[kv].indices) && forall|j: int|
            0 <= j < m[kv].indices.len() ==> (#[trigger] m[kv].indices[j]) < n
}

/// The candidates that a filter selects in a namespace with the posting
/// lists `m`, in which `ids` names the id of every vector index: the
/// selected vector indices in ascending order, and beside each its id.
pub open spec fn spec_candidates(
    f: Filter,
    m: Map<KVPairView, InvertedIndexItemView>,
    ids: Seq<u128>,
) -> InvertedIndexItemView {
    let indices = picked(ids.len(), |i: int| spec_selects(f, m, ids.len() as int, i));
    InvertedIndexItemView { indices, ids: Seq::new(indices.len(), |j: int| ids[indices[j] as int]) }
}

/// The indices that the posting list of the attribute names.
fn posting_of(index: &InvertedIndex, key: &String, value: &String, n: usize) -> (r: Vec<usize>)
    requires
        index.wf(),
        postings_sorted(index@, n as int),
    ensures
        ascending(r@),
        forall|i: int| listed(r@, i) <==> 0 <= i < n && posting_names(index@, key@, value@, i),
{
    let kv = KVPair::new(key.clone(), value.clone());
    match index.tree.lookup(&kv) {
        Some(item) => {
            proof {
                assert(index@.contains_key(kv@));
                assert forall|i: int| listed(item.indices@, i) implies 0 <= i < n by {
                    let j = choose|j: int|
                        0 <= j < item.indices@.len() && (#[trigger] item.indices@[j]) == i;
                    assert(index@[kv@].indices[j] < n);
                }
            }
            item.indices
        },
        None => {
            let r: Vec<usize> = Vec::new();
            proof {
                assert forall|i: int| !listed(r@, i) by {}
            }
            r
        },
    }
}

/// The indices that an attribute with the key and one of the values from
/// `from` on selects.
fn eval_in(index: &InvertedIndex, key: &String, values: &Vec<String>, from: usize, n: usize) -> (r:
    Vec<usize>)
    requires
        index.wf(),
        postings_sorted(index@, n as int),
        from <= values@.len(),
    ensures
        ascending(r@),
        forall|i: int|
            listed(r@, i) <==> 0 <= i < n && exists|j: int|
                from <= j < values@.len() && posting_names(
                    index@,
                    key@,
                    (#[trigger] values@[j])@,
                    i,
                ),
    decreases values@.len() - from,
{
    if from >= values.len() {
        let r: Vec<usize> = Vec::new();
        proof {
            assert forall|i: int| !listed(r@, i) by {}
        }
        r
    } else {
        let a = posting_of(index, key, &values[from], n);
        let b = eval_in(index, key, values, from + 1, n);
        let r = union(&a, &b);
        proof {
            assert forall|i: int| listed(r@, i) implies 0 <= i < n && exists|j: int|
                from <= j < values@.len() && posting_names(
                    index@,
                    key@,
                    (#[trigger] values@[j])@,
                    i,
                ) by {
                if listed(a@, i) {
                    assert(posting_names(index@, key@, values@[from as int]@, i));
                } else {
                    let j = choose|j: int|
                        from + 1 <= j < values@.len() && posting_names(
                            index@,
                            key@,
                            (#[trigger] values@[j])@,
                            i,
                        );
                    assert(from <= j);
                }
            }
        }
        r
    }
}

/// The indices that every filter from `from` on selects.
fn eval_all(fs: &Vec<Filter>, from: usize, index: &InvertedIndex, n: usize) -> (r: Vec<usize>)
    requires
        index.wf(),
        postings_sorted(index@, n as int),
        from <= fs@.len(),
    ensures
        ascending(r@),
        forall|i: int| listed(r@, i) <==> spec_selects_all(*fs, from as nat, index@, n as int, i),
    decreases fs, fs@.len() - from,
{
    if from >= fs.len() {
        all_below(n)
    } else {
        let a = eval_indices(&fs[from], index, n);
        if from + 1 >= fs.len() {
            proof {
                assert forall|i: int|
                    #[trigger] spec_selects_all(*fs, (from + 1) as nat, index@, n as int, i) == (0
                        <= i < n) by {}
                assert forall|i: int| listed(a@, i) implies 0 <= i < n by {
                    lemma_selects_in_range(fs@[from as int], index@, n as int, i);
                }
            }
            proof {
                assert forall|i: int| listed(a@, i) <==> spec_selects_all(
                    *fs,
                    from as nat,
                    index@,
                    n as int,
                    i,
                ) by {
                    reveal_with_fuel(spec_selects_all, 3);
                    lemma_selects_in_range(fs@[from as int], index@, n as int, i);
                }
            }
            a
        } else {
            let b = eval_all(fs, from + 1, index, n);
            let r = intersect(&a, &b);
            proof {
                assert forall|i: int| listed(r@, i) <==> spec_selects_all(
                    *fs,
                    from as nat,
                    index@,
                    n as int,
                    i,
                ) by {
                    lemma_selects_in_range(fs@[from as int], index@, n as int, i);
                }
            }
            r
        }
    }
}

/// The indices that one of the filters from `from` on selects.
fn eval_any(fs: &Vec<Filter>, from: usize, index: &InvertedIndex, n: usize) -> (r: Vec<usize>)
    requires
        index.wf(),
        postings_sorted(index@, n as int),
        from <= fs@.len(),
    ensures
        ascending(r@),
        forall|i: int| listed(r@, i) <==> spec_selects_any(*fs, from as nat, index@, n as int, i),
    decreases fs, fs@.len() - from,
{
    if from >= fs.len() {
        let r: Vec<usize> = Vec::new();
        proof {
            assert forall|i: int| !listed(r@, i) by {}
        }
        r
    } else {
        let a = eval_indices(&fs[from], index, n);
        let b = eval_any(fs, from + 1, index, n);
        let r = union(&a, &b);
        proof {
            assert forall|i: int| listed(r@, i) <==> spec_selects_any(
                *fs,
                from as nat,
                index@,
                n as int,
                i,
            ) by {
                lemma_selects_in_range(fs@[from as int], index@, n as int, i);
                lemma_selects_below(*fs, (from + 1) as nat, index@, n as int, i);
            }
        }
        r
    }
}

/// The indices that the filter selects, in ascending order.
fn eval_indices(filter: &Filter, index: &InvertedIndex, n: usize) -> (r: Vec<usize>)
    requires
        index.wf(),
        postings_sorted(index@, n as int),
    ensures
        ascending(r@),
        forall|i: int| listed(r@, i) <==> spec_selects(*filter, index@, n as int, i),
    decreases filter, 0nat,
{
    match filter {
        Filter::Eq(key, value) => posting_of(index, key, value, n),
        Filter::In(key, values) => eval_in(index, key, values, 0, n),
        Filter::And(fs) => {
            let r = eval_all(fs, 0, index, n);
            proof {
                assert forall|i: int| listed(r@, i) implies 0 <= i < n by {
                    lemma_selects_below(*fs, 0, index@, n as int, i);
                }
            }
            r
        },
        Filter::Or(fs) => {
            let r = eval_any(fs, 0, index, n);
            proof {
                assert forall|i: int| listed(r@, i) implies 0 <= i < n by {
                    lemma_selects_below(*fs, 0, index@, n as int, i);
                }
            }
            r
        },
        Filter::Not(g) => {
            let a = eval_indices(g, index, n);
            complement(&a, n)
        },
    }
}

/// What a filter selects lies below the number of vectors.
pub proof fn lemma_selects_in_range(
    f: Filter,
    m: Map<KVPairView, InvertedIndexItemView>,
    n: int,
    i: int,
)
    ensures
        spec_selects(f, m, n, i) ==> 0 <= i < n,
{
}

/// What a list of filters selects lies below the number of vectors.
pub proof fn lemma_selects_below(
    fs: Vec<Filter>,
    from: nat,
    m: Map<KVPairView, InvertedIndexItemView>,
    n: int,
    i: int,
)
    ensures
        spec_selects_all(fs, from, m, n, i) ==> 0 <= i < n,
        spec_selects_any(fs, from, m, n, i) ==> 0 <= i < n,
    decreases fs@.len() - from,
{
    if from < fs@.len() {
        lemma_selects_below(fs, from + 1, m, n, i);
    }
}

/// In an empty namespace no filter selects anything, a negation no more
/// than another.
pub proof fn lemma_nothing_in_empty(f: Filter, m: Map<KVPairView, InvertedIndexItemView>)
    ensures
        spec_candidates(f, m, Seq::empty()).indices.len() == 0,
        spec_candidates(f, m, Seq::empty()).ids.len() == 0,
{
}

/// The evaluation of filters.
pub struct Filters {}

impl Filters {
    /// Whether a record with the attributes `metadata` satisfies the filter.
    pub fn matches(filter: &Filter, metadata: &Vec<KVPair>) -> (r: bool)
        ensures
            r == spec_matches(*filter, elem_views(metadata@)),
        decreases filter, 0nat,
    {
        match filter {
            Filter::Eq(key, value) => holds_attribute(metadata, key, value),
            Filter::In(key, values) => holds_one_of(metadata, key, values, 0),
            Filter::And(fs) => matches_all(fs, 0, metadata),
            Filter::Or(fs) => matches_any(fs, 0, metadata),
            Filter::Not(g) => !Filters::matches(g, metadata),
        }
    }

    /// The candidates that the filter selects: their vector indices in
    /// ascending order, and beside each its id. `universe` holds the id of
    /// every vector index of the namespace. Posting lists are joined by
    /// merging; a negation walks the indices and skips what its filter
    /// selects.
    pub fn evaluate(filter: &Filter, index: &InvertedIndex, universe: &Vec<u128>) -> (r:
        InvertedIndexItem)
        requires
            index.wf(),
            postings_sorted(index@, universe@.len() as int),
        ensures
            r@ == spec_candidates(*filter, index@, universe@),
            ascending(r.indices@),
            forall|i: int|
                listed(r.indices@, i) <==> spec_selects(
                    *filter,
                    index@,
                    universe@.len() as int,
                    i,
                ),
            r.ids@.len() == r.indices@.len(),
            forall|j: int|
                0 <= j < r.indices@.len() ==> (#[trigger] r.indices@[j]) < universe@.len()
                    && r.ids@[j] == universe@[r.indices@[j] as int],
    {
        let n: usize = universe.len();
        let indices = eval_indices(filter, index, n);
        let mut ids: Vec<u128> = Vec::new();
        let mut j: usize = 0;
        proof {
            assert forall|j: int| 0 <= j < indices@.len() implies (#[trigger] indices@[j]) < n by {
                assert(listed(indices@, indices@[j] as int));
            }
        }
        while j < indices.len()
            invariant
                j <= indices@.len(),
                n == universe@.len(),
                ids@.len() == j,
                forall|x: int| 0 <= x < indices@.len() ==> (#[trigger] indices@[x]) < n,
                forall|x: int| 0 <= x < j ==> (#[trigger] ids@[x]) == universe@[indices@[x] as int],
            decreases indices@.len() - j,
        {
            ids.push(universe[indices[j]]);
            j = j + 1;
        }
        proof {
            let p = |i: int| spec_selects(*filter, index@, n as int, i);
            assert forall|x: int| listed(indices@, x) <==> 0 <= x < n && p(x) by {
                lemma_selects_in_range(*filter, index@, n as int, x);
            }
            lemma_ascending_is_picked(indices@, n as nat, p);
            assert(ids@ =~= Seq::new(indices@.len(), |j: int| universe@[indices@[j] as int]));
        }
        InvertedIndexItem { indices, ids }
    }
}

} // verus!
