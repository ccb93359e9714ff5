use crate::rules::{
    has_kv, indexed, names, posting_ok, postings_complete, postings_ok, record_at, records_ok,
    stores_ok, Postings, Records,
};
use crate::structures::filters::holds_attribute;
use crate::structures::metadata_index::KVPairView;
use crate::structures::namespace_state::NamespaceState;
use crate::structures::sorted_lists::{has_index, is_ascending};
use crate::structures::tree::key_listed;
use crate::structures::tree::serialization::elem_views;
use vstd::prelude::*;

verus! {

/// Whether records and posting lists go together for some naming of the ids
/// of `n` vector indices.
pub open spec fn consistent(postings: Postings, records: Records, n: nat) -> bool {
    exists|ids: Seq<u128>| ids.len() == n && #[trigger] stores_ok(postings, records, ids)
}

/// Records name the id of every vector index in one way only.
pub proof fn lemma_ids_unique(records: Records, a: Seq<u128>, b: Seq<u128>)
    requires
        records_ok(records, a),
        records_ok(records, b),
    ensures
        a == b,
{
    assert forall|i: int| 0 <= i < a.len() implies a[i] == b[i] by {
        assert(record_at(records, a, i));
        assert(records.contains_key(a[i]));
    }
    assert(a =~= b);
}

/// The id of every vector index, if records and indices go together one to
/// one.
fn collect_ids(state: &NamespaceState) -> (r: Option<Vec<u128>>)
    requires
        state.wf(),
    ensures
        match r {
            Some(ids) => ids@.len() == state.vectors@.len() && records_ok(
                state.metadata_index@,
                ids@,
            ),
            None => forall|ids: Seq<u128>|
                ids.len() == state.vectors@.len() ==> !#[trigger] records_ok(
                    state.metadata_index@,
                    ids,
                ),
        },
{
    let n: usize = state.vectors.len();
    let ghost records = state.metadata_index@;
    if state.metadata_index.tree.len() != n {
        return None;
    }
    let all = state.metadata_index.tree.entries();
    let mut ids: Vec<u128> = Vec::new();
    let mut seen: Vec<bool> = Vec::new();
    let mut i: usize = 0;
    while i < n
        invariant
            i <= n,
            ids@.len() == i,
            seen@.len() == i,
            forall|x: int| 0 <= x < i ==> !(#[trigger] seen@[x]),
        decreases n - i,
    {
        ids.push(0);
        seen.push(false);
        i = i + 1;
    }
    let mut e: usize = 0;
    while e < all.len()
        invariant
            e <= all@.len(),
            n == state.vectors@.len(),
            records == state.metadata_index@,
            records.dom().finite(),
            records.dom().len() == n,
            ids@.len() == n,
            seen@.len() == n,
            forall|x: int|
                0 <= x < all@.len() ==> records.contains_key((#[trigger] all@[x]).0@)
                    && records[all@[x].0@] == all@[x].1@,
            forall|k: u128| records.contains_key(k) ==> #[trigger] key_listed(all@, k),
            forall|x: int|
                0 <= x < n && (#[trigger] seen@[x]) ==> records.contains_key(ids@[x])
                    && records[ids@[x]].vector_index == x && records[ids@[x]].id == ids@[x],
            forall|x: int|
                0 <= x < e ==> (#[trigger] all@[x]).1.vector_index < n && seen@[all@[x].1.vector_index as int]
                    && ids@[all@[x].1.vector_index as int] == all@[x].0,
        decreases all@.len() - e,
    {
        let id: u128 = all[e].0;
        let at: usize = all[e].1.vector_index;
        proof {
            assert(records.contains_key(all@[e as int].0@));
            assert(records[id] == all@[e as int].1@);
        }
        if all[e].1.id != id || at >= n {
            proof {
                assert forall|other: Seq<u128>| other.len() == n implies !#[trigger] records_ok(
                    records,
                    other,
                ) by {
                    if records_ok(records, other) {
                        assert(records.contains_key(id));
                        assert(record_at(records, other, at as int));
                    }
                }
            }
            return None;
        }
        if seen[at] && ids[at] != id {
            proof {
                assert forall|other: Seq<u128>| other.len() == n implies !#[trigger] records_ok(
                    records,
                    other,
                ) by {
                    if records_ok(records, other) {
                        assert(records.contains_key(id));
                        assert(records.contains_key(ids@[at as int]));
                    }
                }
            }
            return None;
        }
        let ghost before_ids = ids@;
        let ghost before_seen = seen@;
        ids[at] = id;
        seen[at] = true;
        proof {
            assert forall|x: int| 0 <= x < e + 1 implies (#[trigger] all@[x]).1.vector_index < n
                && seen@[all@[x].1.vector_index as int] && ids@[all@[x].1.vector_index as int]
                == all@[x].0 by {
                if x < e {
                    let v = all@[x].1.vector_index as int;
                    assert(before_seen[v] && before_ids[v] == all@[x].0);
                }
            }
        }
        e = e + 1;
    }
    let mut i: usize = 0;
    while i < n
        invariant
            i <= n,
            n == state.vectors@.len(),
            records == state.metadata_index@,
            ids@.len() == n,
            seen@.len() == n,
            forall|x: int|
                0 <= x < all@.len() ==> records.contains_key((#[trigger] all@[x]).0@)
                    && records[all@[x].0@] == all@[x].1@,
            forall|k: u128| records.contains_key(k) ==> #[trigger] key_listed(all@, k),
            forall|x: int|
                0 <= x < all@.len() ==> (#[trigger] all@[x]).1.vector_index < n && seen@[all@[x].1.vector_index as int]
                    && ids@[all@[x].1.vector_index as int] == all@[x].0,
            forall|x: int| 0 <= x < i ==> #[trigger] seen@[x],
        decreases n - i,
    {
        if !seen[i] {
            proof {
                assert forall|other: Seq<u128>| other.len() == n implies !#[trigger] records_ok(
                    records,
                    other,
                ) by {
                    if records_ok(records, other) {
                        assert(record_at(records, other, i as int));
                        assert(key_listed(all@, other[i as int]));
                        let x = choose|x: int|
                            0 <= x < all@.len() && (#[trigger] all@[x]).0@ == other[i as int];
                        assert(all@[x].1.vector_index == i);
                    }
                }
            }
            return None;
        }
        i = i + 1;
    }
    proof {
        assert forall|x: int| 0 <= x < n implies #[trigger] record_at(records, ids@, x) by {
            assert(seen@[x]);
        }
        assert forall|id: u128| #[trigger] records.contains_key(id) implies records[id].vector_index
            < ids@.len() && ids@[records[id].vector_index as int] == id by {
            assert(key_listed(all@, id));
            let x = choose|x: int| 0 <= x < all@.len() && (#[trigger] all@[x]).0@ == id;
            assert(all@[x].1.vector_index < n);
        }
    }
    Some(ids)
}

/// Whether every posting list is in order.
fn check_postings(state: &NamespaceState, ids: &Vec<u128>) -> (r: bool)
    requires
        state.wf(),
        ids@.len() == state.vectors@.len(),
        records_ok(state.metadata_index@, ids@),
    ensures
        r == postings_ok(state.inverted_index@, state.metadata_index@, ids@),
{
    let n: usize = ids.len();
    let ghost records = state.metadata_index@;
    let ghost postings = state.inverted_index@;
    let all = state.inverted_index.tree.entries();
    let mut e: usize = 0;
    while e < all.len()
        invariant
            e <= all@.len(),
            state.wf(),
            n == ids@.len(),
            records == state.metadata_index@,
            postings == state.inverted_index@,
            records_ok(records, ids@),
            forall|x: int|
                0 <= x < all@.len() ==> postings.contains_key((#[trigger] all@[x]).0@)
                    && postings[all@[x].0@] == all@[x].1@,
            forall|kv: KVPairView| postings.contains_key(kv) ==> #[trigger] key_listed(all@, kv),
            forall|x: int|
                0 <= x < e ==> posting_ok((#[trigger] all@[x]).1@, all@[x].0@, records, ids@),
        decreases all@.len() - e,
    {
        let kv = &all[e].0;
        let p = &all[e].1;
        proof {
            assert(postings.contains_key(all@[e as int].0@));
        }
        if p.ids.len() != p.indices.len() || p.indices.len() == 0 || !is_ascending(&p.indices) {
            assert(!posting_ok(postings[kv@], kv@, records, ids@));
            return false;
        }
        let mut j: usize = 0;
        while j < p.indices.len()
            invariant
                j <= p.indices@.len(),
                state.wf(),
                n == ids@.len(),
                records == state.metadata_index@,
                postings == state.inverted_index@,
                records_ok(records, ids@),
                postings.contains_key(kv@),
                postings[kv@] == p@,
                p.ids@.len() == p.indices@.len(),
                forall|y: int|
                    0 <= y < j ==> {
                        let idx = (#[trigger] p.indices@[y]) as int;
                        &&& idx < ids@.len()
                        &&& p.ids@[y] == ids@[idx]
                        &&& has_kv(records[ids@[idx]].kvs, kv@)
                    },
            decreases p.indices@.len() - j,
        {
            let idx: usize = p.indices[j];
            if idx >= n || p.ids[j] != ids[idx] {
                assert(!posting_ok(postings[kv@], kv@, records, ids@));
                return false;
            }
            proof {
                assert(record_at(records, ids@, idx as int));
            }
            let held = match state.metadata_index.tree.lookup(&ids[idx]) {
                Some(record) => holds_attribute(&record.kvs, &kv.key, &kv.value),
                None => false,
            };
            if !held {
                assert(!posting_ok(postings[kv@], kv@, records, ids@));
                return false;
            }
            j = j + 1;
        }
        e = e + 1;
    }
    proof {
        assert forall|kv: KVPairView| #[trigger] postings.contains_key(kv) implies posting_ok(
            postings[kv],
            kv,
            records,
            ids@,
        ) by {
            assert(key_listed(all@, kv));
            let x = choose|x: int| 0 <= x < all@.len() && (#[trigger] all@[x]).0@ == kv;
            assert(posting_ok(all@[x].1@, all@[x].0@, records, ids@));
        }
    }
    true
}

/// Whether every attribute of every record names the record's index in its
/// posting list.
fn check_complete(state: &NamespaceState, ids: &Vec<u128>) -> (r: bool)
    requires
        state.wf(),
        ids@.len() == state.vectors@.len(),
        records_ok(state.metadata_index@, ids@),
        postings_ok(state.inverted_index@, state.metadata_index@, ids@),
    ensures
        r == postings_complete(state.inverted_index@, state.metadata_index@, ids@),
{
    let n: usize = ids.len();
    let ghost records = state.metadata_index@;
    let ghost postings = state.inverted_index@;
    let mut i: usize = 0;
    while i < n
        invariant
            i <= n,
            state.wf(),
            n == ids@.len(),
            records == state.metadata_index@,
            postings == state.inverted_index@,
            records_ok(records, ids@),
            postings_ok(postings, records, ids@),
            forall|x: int| 0 <= x < i ==> #[trigger] indexed(postings, records, ids@, x),
        decreases n - i,
    {
        proof {
            assert(record_at(records, ids@, i as int));
        }
        match state.metadata_index.tree.lookup(&ids[i]) {
            None => {
                return false;
            },
            Some(record) => {
                let ghost kvs = records[ids@[i as int]].kvs;
                let mut y: usize = 0;
                while y < record.kvs.len()
                    invariant
                        y <= record.kvs@.len(),
                        i < n,
                        state.wf(),
                        n == ids@.len(),
                        records == state.metadata_index@,
                        postings == state.inverted_index@,
                        postings_ok(postings, records, ids@),
                        kvs == records[ids@[i as int]].kvs,
                        kvs == elem_views(record.kvs@),
                        forall|z: int| 0 <= z < y ==> names(postings, #[trigger] kvs[z], i as int),
                    decreases record.kvs@.len() - y,
                {
                    let kv = &record.kvs[y];
                    let named = match state.inverted_index.tree.lookup(kv) {
                        Some(p) => {
                            proof {
                                assert(postings.contains_key(kv@));
                                assert(posting_ok(postings[kv@], kv@, records, ids@));
                            }
                            has_index(&p.indices, i)
                        },
                        None => false,
                    };
                    if !named {
                        proof {
                            assert(kvs[y as int] == kv@);
                            assert(has_kv(kvs, kv@));
                            assert(!names(postings, kv@, i as int));
                            assert(!indexed(postings, records, ids@, i as int));
                        }
                        return false;
                    }
                    y = y + 1;
                }
                proof {
                    assert forall|kv: KVPairView| #[trigger] has_kv(kvs, kv) implies names(
                        postings,
                        kv,
                        i as int,
                    ) by {
                        let z = choose|z: int| 0 <= z < kvs.len() && (#[trigger] kvs[z]) == kv;
                        assert(names(postings, kvs[z], i as int));
                    }
                }
            },
        }
        i = i + 1;
    }
    true
}

/// The id of every vector index, if records and posting lists go together
/// with the vectors; none exactly when they do not.
pub fn validate(state: &NamespaceState) -> (r: Option<Vec<u128>>)
    requires
        state.wf(),
    ensures
        match r {
            Some(ids) => ids@.len() == state.vectors@.len() && stores_ok(
                state.inverted_index@,
                state.metadata_index@,
                ids@,
            ),
            None => !consistent(
                state.inverted_index@,
                state.metadata_index@,
                state.vectors@.len(),
            ),
        },
{
    let ids = match collect_ids(state) {
        Some(ids) => ids,
        None => {
            return None;
        },
    };
    if !check_postings(state, &ids) || !check_complete(state, &ids) {
        proof {
            assert forall|other: Seq<u128>|
                other.len() == state.vectors@.len() implies !#[trigger] stores_ok(
                state.inverted_index@,
                state.metadata_index@,
                other,
            ) by {
                if records_ok(state.metadata_index@, other) {
                    lemma_ids_unique(state.metadata_index@, ids@, other);
                }
            }
        }
        return None;
    }
    Some(ids)
}

} // verus!
