use crate::structures::ann_tree::EntryView;
use crate::structures::filters::{
    has_attribute,
    posting_names,
    spec_matches,
    spec_matches_all,
    spec_matches_any,
    spec_selects,
    spec_selects_all,
    spec_selects_any,
    Filter,
};
use crate::structures::inverted_index::InvertedIndexItemView;
use crate::structures::metadata_index::{KVPairView, MetadataIndexItemView};
use crate::structures::sorted_lists::{ascending, listed};
use vstd::multiset::Multiset;
use vstd::prelude::*;

verus! {

/// The records of a namespace, by id.
pub type Records = Map<u128, MetadataIndexItemView>;

/// The posting lists of a namespace, by attribute.
pub type Postings = Map<KVPairView, InvertedIndexItemView>;

/// Whether a list of attributes has the attribute.
pub open spec fn has_kv(kvs: Seq<KVPairView>, kv: KVPairView) -> bool {
    has_attribute(kvs, kv.key, kv.value)
}

/// The record of the vector at index `i` is in its place: under the id that
/// `ids` names for the index, with this id and this index.
pub open spec fn record_at(records: Records, ids: Seq<u128>, i: int) -> bool {
    &&& records.contains_key(ids[i])
    &&& records[ids[i]].vector_index == i
    &&& records[ids[i]].id == ids[i]
}

/// Records and vector indices go together one to one: there are as many
/// records as indices, every index has its record, and every record sits at
/// an index that names its id.
pub open spec fn records_ok(records: Records, ids: Seq<u128>) -> bool {
    &&& records.dom().finite()
    &&& records.dom().len() == ids.len()
    &&& forall|i: int| 0 <= i < ids.len() ==> #[trigger] record_at(records, ids, i)
    &&& forall|id: u128| #[trigger]
        records.contains_key(id) ==> records[id].vector_index < ids.len()
            && ids[records[id].vector_index as int] == id
}

/// A posting list of the attribute `kv` is in order: as many ids as
/// indices, and one entry at least; the indices strictly ascending; every
/// entry names a vector index with its id, and the record of that id has the
/// attribute.
pub open spec fn posting_ok(
    p: InvertedIndexItemView,
    kv: KVPairView,
    records: Records,
    ids: Seq<u128>,
) -> bool {
    &&& p.ids.len() == p.indices.len()
    &&& p.indices.len() >= 1
    &&& ascending(p.indices)
    &&& forall|j: int|
        0 <= j < p.indices.len() ==> {
            let idx = (#[trigger] p.indices[j]) as int;
            &&& idx < ids.len()
            &&& p.ids[j] == ids[idx]
            &&& has_kv(records[ids[idx]].kvs, kv)
        }
}

/// Every posting list is in order.
pub open spec fn postings_ok(postings: Postings, records: Records, ids: Seq<u128>) -> bool {
    forall|kv: KVPairView| #[trigger]
        postings.contains_key(kv) ==> posting_ok(postings[kv], kv, records, ids)
}

/// The posting list of the attribute names the vector index.
pub open spec fn names(postings: Postings, kv: KVPairView, i: int) -> bool {
    postings.contains_key(kv) && listed(postings[kv].indices, i)
}

/// Every attribute of the record at index `i` names the index in its
/// posting list.
pub open spec fn indexed(postings: Postings, records: Records, ids: Seq<u128>, i: int) -> bool {
    forall|kv: KVPairView| #[trigger] has_kv(records[ids[i]].kvs, kv) ==> names(postings, kv, i)
}

/// Every attribute of every record names the record's index in its posting
/// list.
pub open spec fn postings_complete(postings: Postings, records: Records, ids: Seq<u128>) -> bool {
    forall|i: int| 0 <= i < ids.len() ==> #[trigger] indexed(postings, records, ids, i)
}

/// The invariant that ties the stores of a namespace together.
pub open spec fn stores_ok(postings: Postings, records: Records, ids: Seq<u128>) -> bool {
    &&& records_ok(records, ids)
    &&& postings_ok(postings, records, ids)
    &&& postings_complete(postings, records, ids)
}

/// What a posting list is after the vector index `n` with the id `id` was
/// appended.
pub open spec fn appended(p: InvertedIndexItemView, n: usize, id: u128) -> InvertedIndexItemView {
    InvertedIndexItemView { indices: p.indices.push(n), ids: p.ids.push(id) }
}

/// The posting list with one entry.
pub open spec fn single(n: usize, id: u128) -> InvertedIndexItemView {
    InvertedIndexItemView { indices: seq![n], ids: seq![id] }
}

/// A new record under a fresh id, at the index behind the last, keeps
/// records and indices together, and the posting lists in order.
pub proof fn lemma_record_added(
    postings: Postings,
    records: Records,
    ids: Seq<u128>,
    id: u128,
    rec: MetadataIndexItemView,
)
    requires
        stores_ok(postings, records, ids),
        !records.contains_key(id),
        rec.id == id,
        rec.vector_index == ids.len(),
    ensures
        records_ok(records.insert(id, rec), ids.push(id)),
        postings_ok(postings, records.insert(id, rec), ids.push(id)),
        forall|i: int|
            0 <= i < ids.len() ==> #[trigger] indexed(
                postings,
                records.insert(id, rec),
                ids.push(id),
                i,
            ),
        forall|kv: KVPairView| !names(postings, kv, ids.len() as int),
{
    let records2 = records.insert(id, rec);
    let ids2 = ids.push(id);
    assert forall|i: int| 0 <= i < ids2.len() implies #[trigger] record_at(records2, ids2, i) by {
        if i < ids.len() {
            assert(record_at(records, ids, i));
        }
    }
    assert forall|x: u128| #[trigger] records2.contains_key(x) implies records2[x].vector_index
        < ids2.len() && ids2[records2[x].vector_index as int] == x by {
        if x != id {
            assert(records.contains_key(x));
        }
    }
    assert forall|kv: KVPairView| #[trigger] postings.contains_key(kv) implies posting_ok(
        postings[kv],
        kv,
        records2,
        ids2,
    ) by {
        let p = postings[kv];
        assert(posting_ok(p, kv, records, ids));
        assert forall|j: int| 0 <= j < p.indices.len() implies {
            let idx = (#[trigger] p.indices[j]) as int;
            &&& idx < ids2.len()
            &&& p.ids[j] == ids2[idx]
            &&& has_kv(records2[ids2[idx]].kvs, kv)
        } by {
            let idx = p.indices[j] as int;
            assert(record_at(records, ids, idx));
        }
    }
    assert forall|i: int| 0 <= i < ids.len() implies #[trigger] indexed(
        postings,
        records2,
        ids2,
        i,
    ) by {
        assert(indexed(postings, records, ids, i));
        assert(record_at(records, ids, i));
    }
    assert forall|kv: KVPairView| !names(postings, kv, ids.len() as int) by {
        if names(postings, kv, ids.len() as int) {
            let p = postings[kv];
            assert(posting_ok(p, kv, records, ids));
            let j = choose|j: int| 0 <= j < p.indices.len() && (#[trigger] p.indices[j]) == ids.len();
        }
    }
}

/// Appending the last vector index to the posting list of one of the
/// attributes of its record, which did not name it yet, keeps the posting
/// lists in order, and makes this attribute name the index.
pub proof fn lemma_posting_appended(
    postings: Postings,
    records: Records,
    ids: Seq<u128>,
    kv: KVPairView,
)
    requires
        ids.len() >= 1,
        ids.len() - 1 <= usize::MAX,
        records_ok(records, ids),
        postings_ok(postings, records, ids),
        has_kv(records[ids.last()].kvs, kv),
        !names(postings, kv, ids.len() - 1),
    ensures
        ({
            let n = (ids.len() - 1) as usize;
            let after = postings.insert(
                kv,
                if postings.contains_key(kv) {
                    appended(postings[kv], n, ids.last())
                } else {
                    single(n, ids.last())
                },
            );
            &&& postings_ok(after, records, ids)
            &&& names(after, kv, n as int)
            &&& forall|other: KVPairView, i: int| #[trigger]
                names(postings, other, i) ==> names(after, other, i)
            &&& forall|other: KVPairView| #[trigger]
                names(after, other, n as int) ==> other == kv || names(postings, other, n as int)
        }),
{
    let n = (ids.len() - 1) as usize;
    let id = ids.last();
    let list = if postings.contains_key(kv) {
        appended(postings[kv], n, id)
    } else {
        single(n, id)
    };
    let after = postings.insert(kv, list);
    assert(record_at(records, ids, n as int));
    assert(posting_ok(list, kv, records, ids)) by {
        if postings.contains_key(kv) {
            let p = postings[kv];
            assert(posting_ok(p, kv, records, ids));
            assert forall|j: int| 0 <= j < p.indices.len() implies (#[trigger] p.indices[j]) < n by {
                if p.indices[j] == n {
                    assert(listed(p.indices, n as int));
                }
            }
            assert forall|a: int, b: int| 0 <= a < b < list.indices.len() implies (
            #[trigger] list.indices[a]) < (#[trigger] list.indices[b]) by {
                if b < p.indices.len() {
                    assert(list.indices[a] == p.indices[a] && list.indices[b] == p.indices[b]);
                } else {
                    assert(list.indices[a] == p.indices[a]);
                }
            }
            assert forall|j: int| 0 <= j < list.indices.len() implies {
                let idx = (#[trigger] list.indices[j]) as int;
                &&& idx < ids.len()
                &&& list.ids[j] == ids[idx]
                &&& has_kv(records[ids[idx]].kvs, kv)
            } by {
                if j < p.indices.len() {
                    assert(list.indices[j] == p.indices[j]);
                }
            }
        }
    }
    assert forall|other: KVPairView| #[trigger] after.contains_key(other) implies posting_ok(
        after[other],
        other,
        records,
        ids,
    ) by {
        if other != kv {
            assert(postings.contains_key(other));
        }
    }
    assert(list.indices[list.indices.len() - 1] == n);
    assert(names(after, kv, n as int));
    assert forall|other: KVPairView, i: int| #[trigger] names(postings, other, i) implies names(
        after,
        other,
        i,
    ) by {
        if other == kv {
            let p = postings[kv];
            let j = choose|j: int| 0 <= j < p.indices.len() && (#[trigger] p.indices[j]) == i;
            assert(list.indices[j] == i);
        }
    }
}

/// In a namespace whose stores go together, a filter selects a vector index
/// exactly when the record of the index satisfies it.
pub proof fn lemma_selects_what_matches(
    f: Filter,
    postings: Postings,
    records: Records,
    ids: Seq<u128>,
    i: int,
)
    requires
        stores_ok(postings, records, ids),
        0 <= i < ids.len(),
    ensures
        spec_selects(f, postings, ids.len() as int, i) <==> spec_matches(f, records[ids[i]].kvs),
    decreases f, 0nat,
{
    let kvs = records[ids[i]].kvs;
    match f {
        Filter::Eq(key, value) => {
            lemma_names_what_has(postings, records, ids, KVPairView { key: key@, value: value@ }, i);
        },
        Filter::In(key, values) => {
            assert forall|j: int| 0 <= j < values@.len() implies (posting_names(
                postings,
                key@,
                (#[trigger] values@[j])@,
                i,
            ) <==> has_attribute(kvs, key@, values@[j]@)) by {
                lemma_names_what_has(
                    postings,
                    records,
                    ids,
                    KVPairView { key: key@, value: values@[j]@ },
                    i,
                );
            }
        },
        Filter::And(fs) => {
            lemma_selects_list(fs, 0, postings, records, ids, i);
        },
        Filter::Or(fs) => {
            lemma_selects_list(fs, 0, postings, records, ids, i);
        },
        Filter::Not(g) => {
            lemma_selects_what_matches(*g, postings, records, ids, i);
        },
    }
}

/// A list of filters selects a vector index, all of them or one of them,
/// exactly when the record of the index satisfies them.
pub proof fn lemma_selects_list(
    fs: Vec<Filter>,
    from: nat,
    postings: Postings,
    records: Records,
    ids: Seq<u128>,
    i: int,
)
    requires
        stores_ok(postings, records, ids),
        0 <= i < ids.len(),
    ensures
        spec_selects_all(fs, from, postings, ids.len() as int, i) <==> spec_matches_all(
            fs,
            from,
            records[ids[i]].kvs,
        ),
        spec_selects_any(fs, from, postings, ids.len() as int, i) <==> spec_matches_any(
            fs,
            from,
            records[ids[i]].kvs,
        ),
    decreases fs, fs@.len() - from,
{
    if from < fs@.len() {
        lemma_selects_what_matches(fs@[from as int], postings, records, ids, i);
        lemma_selects_list(fs, from + 1, postings, records, ids, i);
    }
}

/// The posting list of an attribute names a vector index exactly when the
/// record of the index has the attribute.
pub proof fn lemma_names_what_has(
    postings: Postings,
    records: Records,
    ids: Seq<u128>,
    kv: KVPairView,
    i: int,
)
    requires
        stores_ok(postings, records, ids),
        0 <= i < ids.len(),
    ensures
        posting_names(postings, kv.key, kv.value, i) <==> has_attribute(
            records[ids[i]].kvs,
            kv.key,
            kv.value,
        ),
{
    if posting_names(postings, kv.key, kv.value, i) {
        let p = postings[kv];
        assert(posting_ok(p, kv, records, ids));
        let j = choose|j: int| 0 <= j < p.indices.len() && (#[trigger] p.indices[j]) == i;
        assert(has_kv(records[ids[i]].kvs, kv));
    }
    if has_attribute(records[ids[i]].kvs, kv.key, kv.value) {
        assert(indexed(postings, records, ids, i));
        assert(has_kv(records[ids[i]].kvs, kv));
        assert(names(postings, kv, i));
    }
}

/// The entry of a clustered tree is the entry of a record: the record of
/// its id has this id and these attributes.
pub open spec fn entry_recorded(e: EntryView, records: Records) -> bool {
    &&& records.contains_key(e.id)
    &&& records[e.id].id == e.id
    &&& records[e.id].kvs == e.metadata
}

/// Every entry of a clustered tree is the entry of a record.
pub open spec fn entries_recorded(entries: Multiset<EntryView>, records: Records) -> bool {
    forall|e: EntryView| entries.count(e) > 0 ==> #[trigger] entry_recorded(e, records)
}

/// A clustered tree that is fed with the entries of records holds entries
/// of records only: no tree holds an entry at first; an entry of a record
/// that is put into the tree keeps it so; and so does a record under a new
/// id that is put into the index.
pub proof fn lemma_entries_stay_recorded(
    entries: Multiset<EntryView>,
    records: Records,
    e: EntryView,
    item: MetadataIndexItemView,
)
    requires
        entries_recorded(entries, records),
    ensures
        entries_recorded(Multiset::empty(), records),
        entry_recorded(e, records) ==> entries_recorded(entries.insert(e), records),
        !records.contains_key(item.id) ==> entries_recorded(entries, records.insert(item.id, item)),
{
    if entry_recorded(e, records) {
        assert forall|x: EntryView| entries.insert(e).count(x) > 0 implies #[trigger] entry_recorded(
            x,
            records,
        ) by {
            if x != e {
                assert(entries.count(x) > 0);
            }
        }
    }
    if !records.contains_key(item.id) {
        let more = records.insert(item.id, item);
        assert forall|x: EntryView| entries.count(x) > 0 implies #[trigger] entry_recorded(
            x,
            more,
        ) by {
            assert(entry_recorded(x, records));
        }
    }
}

} // verus!
