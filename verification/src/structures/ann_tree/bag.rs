use crate::structures::ann_tree::k_modes::pick;
use crate::structures::ann_tree::node::{aligned, split_by, NodeType, NodeView};
use crate::structures::ann_tree::{entries_upto, entry_at, node_entries, EntryView};
use crate::structures::metadata_index::KVPairView;
use vstd::multiset::Multiset;
use vstd::prelude::*;

verus! {

/// The entries of a leaf, in their order.
pub open spec fn entry_seq(v: NodeView) -> Seq<EntryView> {
    zip_entries(v.vectors, v.ids, v.metadata)
}

/// The entries that three lists of the same length give, place by place.
pub open spec fn zip_entries(
    vectors: Seq<Seq<u8>>,
    ids: Seq<u128>,
    metadata: Seq<Seq<KVPairView>>,
) -> Seq<EntryView> {
    Seq::new(
        vectors.len(),
        |j: int| EntryView { vector: vectors[j], id: ids[j], metadata: metadata[j] },
    )
}

/// The entries of a list, with their multiplicity.
pub open spec fn bag(s: Seq<EntryView>) -> Multiset<EntryView>
    decreases s.len(),
{
    if s.len() == 0 {
        Multiset::empty()
    } else {
        bag(s.drop_last()).insert(s.last())
    }
}

/// The first `n` entries of a leaf, as a bag, are the bag of the first `n`
/// entries of its list.
pub proof fn lemma_upto_is_bag(v: NodeView, n: nat)
    requires
        n <= v.vectors.len(),
    ensures
        entries_upto(v, n) == bag(entry_seq(v).subrange(0, n as int)),
    decreases n,
{
    let s = entry_seq(v).subrange(0, n as int);
    if n > 0 {
        lemma_upto_is_bag(v, (n - 1) as nat);
        assert(s.drop_last() =~= entry_seq(v).subrange(0, n - 1));
        assert(s.last() == entry_at(v, n - 1));
    }
}

/// The entries of a leaf are the entries of its list.
pub proof fn lemma_node_bag(v: NodeView)
    requires
        v.node_type == NodeType::Leaf,
    ensures
        node_entries(v) == bag(entry_seq(v)),
{
    lemma_upto_is_bag(v, v.vectors.len());
    assert(entry_seq(v).subrange(0, v.vectors.len() as int) =~= entry_seq(v));
}

/// Both parts of a list that is split by flags hold what the list held.
pub proof fn lemma_pick_bag(s: Seq<EntryView>, side: Seq<bool>)
    requires
        s.len() == side.len(),
    ensures
        bag(pick(s, side, false)).add(bag(pick(s, side, true))) == bag(s),
    decreases s.len(),
{
    if s.len() > 0 {
        lemma_pick_bag(s.drop_last(), side.drop_last());
        let l = pick(s.drop_last(), side.drop_last(), false);
        let r = pick(s.drop_last(), side.drop_last(), true);
        if side.last() {
            assert(r.push(s.last()).drop_last() =~= r);
        } else {
            assert(l.push(s.last()).drop_last() =~= l);
        }
        assert(bag(pick(s, side, false)).add(bag(pick(s, side, true))) =~= bag(s));
    } else {
        assert(bag(pick(s, side, false)).add(bag(pick(s, side, true))) =~= bag(s));
    }
}

/// Picking from three lists and pairing up is picking from the pairs.
pub proof fn lemma_pick_zip(
    vectors: Seq<Seq<u8>>,
    ids: Seq<u128>,
    metadata: Seq<Seq<KVPairView>>,
    side: Seq<bool>,
    which: bool,
)
    requires
        ids.len() == vectors.len(),
        metadata.len() == vectors.len(),
        side.len() == vectors.len(),
    ensures
        pick(zip_entries(vectors, ids, metadata), side, which) == zip_entries(
            pick(vectors, side, which),
            pick(ids, side, which),
            pick(metadata, side, which),
        ),
        pick(vectors, side, which).len() == pick(ids, side, which).len(),
        pick(vectors, side, which).len() == pick(metadata, side, which).len(),
    decreases vectors.len(),
{
    let z = zip_entries(vectors, ids, metadata);
    if vectors.len() > 0 {
        lemma_pick_zip(
            vectors.drop_last(),
            ids.drop_last(),
            metadata.drop_last(),
            side.drop_last(),
            which,
        );
        assert(z.drop_last() =~= zip_entries(
            vectors.drop_last(),
            ids.drop_last(),
            metadata.drop_last(),
        ));
        assert(pick(z, side, which) =~= zip_entries(
            pick(vectors, side, which),
            pick(ids, side, which),
            pick(metadata, side, which),
        ));
    } else {
        assert(pick(z, side, which) =~= zip_entries(
            pick(vectors, side, which),
            pick(ids, side, which),
            pick(metadata, side, which),
        ));
    }
}

/// A split keeps the entries: the two nodes hold what the one held.
pub proof fn lemma_split_entries(before: NodeView, left: NodeView, right: NodeView, side: Seq<bool>)
    requires
        aligned(before),
        split_by(before, left, right, side),
    ensures
        node_entries(before) == node_entries(left).add(node_entries(right)),
{
    match before.node_type {
        NodeType::Leaf => {
            lemma_node_bag(before);
            lemma_node_bag(left);
            lemma_node_bag(right);
            lemma_pick_zip(before.vectors, before.ids, before.metadata, side, false);
            lemma_pick_zip(before.vectors, before.ids, before.metadata, side, true);
            lemma_pick_bag(entry_seq(before), side);
        },
        NodeType::Internal => {
            assert(node_entries(before) =~= node_entries(left).add(node_entries(right)));
        },
    }
}

/// Two lists one behind the other hold what both hold.
pub proof fn lemma_bag_concat(a: Seq<EntryView>, b: Seq<EntryView>)
    ensures
        bag(a + b) == bag(a).add(bag(b)),
    decreases b.len(),
{
    if b.len() == 0 {
        assert(a + b =~= a);
        assert(bag(a).add(bag(b)) =~= bag(a));
    } else {
        lemma_bag_concat(a, b.drop_last());
        assert((a + b).drop_last() =~= a + b.drop_last());
        assert((a + b).last() == b.last());
        assert(bag(a + b) =~= bag(a).add(bag(b)));
    }
}

/// What is left when the same is taken from two equal bags is equal.
pub proof fn lemma_cancel<T>(a: Multiset<T>, b: Multiset<T>, x: Multiset<T>)
    requires
        a.add(x) == b.add(x),
    ensures
        a == b,
{
    assert(a =~= a.add(x).sub(x));
    assert(b =~= b.add(x).sub(x));
}

/// A leaf with one entry more at its end holds that entry more.
pub proof fn lemma_push_entry(v: NodeView, w: NodeView, e: EntryView)
    requires
        v.node_type == NodeType::Leaf,
        w.node_type == NodeType::Leaf,
        aligned(v),
        w.vectors == v.vectors.push(e.vector),
        w.ids == v.ids.push(e.id),
        w.metadata == v.metadata.push(e.metadata),
    ensures
        node_entries(w) == node_entries(v).insert(e),
{
    lemma_node_bag(v);
    lemma_node_bag(w);
    assert(entry_seq(w).drop_last() =~= entry_seq(v));
    assert(entry_seq(w).last() == e);
}

} // verus!
