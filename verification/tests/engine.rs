use haystack_embedded::constants::VECTOR_SIZE;
use haystack_embedded::errors::HaystackError;
use haystack_embedded::structures::filters::{Filter, Filters};
use haystack_embedded::structures::metadata_index::KVPair;
use haystack_embedded::structures::inverted_index::InvertedIndexItem;
use haystack_embedded::structures::metadata_index::MetadataIndexItem;
use haystack_embedded::structures::namespace_state::NamespaceState;
use haystack_embedded::HaystackEmbedded;
use libflate::gzip::{Decoder, Encoder};
use std::io::{Read, Write};

fn kv(key: &str, value: &str) -> KVPair {
    KVPair::new(key.to_string(), value.to_string())
}

fn bits(values: &[f32]) -> Vec<u32> {
    values.iter().map(|v| v.to_bits()).collect()
}

fn constant(value: f32) -> Vec<u32> {
    bits(&vec![value; VECTOR_SIZE])
}

fn alternating() -> Vec<u32> {
    let values: Vec<f32> = (0..VECTOR_SIZE)
        .map(|i| if i % 2 == 0 { 0.1 } else { -0.1 })
        .collect();
    bits(&values)
}

fn eq(key: &str, value: &str) -> Filter {
    Filter::Eq(key.to_string(), value.to_string())
}

fn names(results: &Vec<Vec<KVPair>>) -> Vec<String> {
    results
        .iter()
        .map(|kvs| kvs.iter().find(|p| p.key == "name").unwrap().value.clone())
        .collect()
}

#[test]
fn query_returns_the_nearest_first() {
    let mut engine = HaystackEmbedded::new("scenario".to_string());
    engine
        .add_vector(&constant(0.1), vec![kv("color", "red"), kv("name", "v1")])
        .unwrap();
    engine
        .add_vector(&constant(-0.1), vec![kv("color", "red"), kv("name", "v2")])
        .unwrap();
    engine
        .add_vector(&alternating(), vec![kv("color", "red"), kv("name", "v3")])
        .unwrap();
    let results = engine.query(&constant(0.1), &eq("color", "red"), 2).unwrap();
    assert_eq!(names(&results), vec!["v1".to_string(), "v3".to_string()]);
    let all = engine.query(&constant(0.1), &eq("color", "red"), 3).unwrap();
    assert_eq!(names(&all), vec!["v1".to_string(), "v3".to_string(), "v2".to_string()]);
}

#[test]
fn query_with_k_zero_is_empty() {
    let mut engine = HaystackEmbedded::new("k0".to_string());
    engine.add_vector(&constant(0.1), vec![kv("a", "x")]).unwrap();
    assert!(engine.query(&constant(0.1), &eq("a", "x"), 0).unwrap().is_empty());
}

#[test]
fn query_with_large_k_returns_the_candidates_only() {
    let mut engine = HaystackEmbedded::new("large".to_string());
    for i in 0..5 {
        let color = if i < 3 { "red" } else { "blue" };
        engine
            .add_vector(&constant(0.1), vec![kv("color", color), kv("name", &i.to_string())])
            .unwrap();
    }
    assert_eq!(engine.query(&constant(0.1), &eq("color", "red"), 100).unwrap().len(), 3);
    assert_eq!(engine.query(&constant(0.1), &eq("color", "blue"), 100).unwrap().len(), 2);
    assert_eq!(engine.query(&constant(0.1), &eq("color", "green"), 100).unwrap().len(), 0);
}

#[test]
fn query_on_one_vector_returns_one_hit() {
    let mut engine = HaystackEmbedded::new("one".to_string());
    engine.add_vector(&constant(0.1), vec![kv("a", "x")]).unwrap();
    let results = engine.query(&constant(-0.1), &eq("a", "x"), 5).unwrap();
    assert_eq!(results.len(), 1);
    assert_eq!(results[0][0].value, "x");
}

#[test]
fn equal_distances_are_ordered_by_id() {
    let mut engine = HaystackEmbedded::new("ties".to_string());
    engine
        .add_vector_with_id(&constant(0.1), vec![kv("a", "x"), kv("name", "late")], 9)
        .unwrap();
    engine
        .add_vector_with_id(&constant(0.1), vec![kv("a", "x"), kv("name", "early")], 3)
        .unwrap();
    engine
        .add_vector_with_id(&constant(-0.1), vec![kv("a", "x"), kv("name", "far")], 1)
        .unwrap();
    let results = engine.query(&constant(0.1), &eq("a", "x"), 3).unwrap();
    assert_eq!(
        names(&results),
        vec!["early".to_string(), "late".to_string(), "far".to_string()]
    );
}

#[test]
fn union_and_intersection_of_attributes() {
    let mut engine = HaystackEmbedded::new("sets".to_string());
    for i in 0..200 {
        let value = if i < 100 { "x" } else { "y" };
        engine.add_vector(&constant(0.1), vec![kv("a", value)]).unwrap();
    }
    let either = Filter::Or(vec![eq("a", "x"), eq("a", "y")]);
    let (indices, ids) =
        Filters::evaluate(&either, &engine.state.inverted_index, &engine.ids).get_indices();
    assert_eq!(indices, (0..200).collect::<Vec<usize>>());
    assert_eq!(ids, engine.ids);
    let both = Filter::And(vec![eq("a", "x"), eq("a", "y")]);
    let (indices, ids) =
        Filters::evaluate(&both, &engine.state.inverted_index, &engine.ids).get_indices();
    assert!(indices.is_empty());
    assert!(ids.is_empty());
    let chosen = Filter::In("a".to_string(), vec!["y".to_string(), "z".to_string()]);
    let (indices, _) =
        Filters::evaluate(&chosen, &engine.state.inverted_index, &engine.ids).get_indices();
    assert_eq!(indices, (100..200).collect::<Vec<usize>>());
    let not_x = Filter::Not(Box::new(eq("a", "x")));
    let (indices, ids) =
        Filters::evaluate(&not_x, &engine.state.inverted_index, &engine.ids).get_indices();
    assert_eq!(indices, (100..200).collect::<Vec<usize>>());
    assert_eq!(ids, engine.ids[100..].to_vec());
    let nested = Filter::And(vec![
        Filter::Not(Box::new(eq("a", "y"))),
        Filter::Or(vec![eq("a", "x"), eq("b", "q")]),
    ]);
    let (indices, _) =
        Filters::evaluate(&nested, &engine.state.inverted_index, &engine.ids).get_indices();
    assert_eq!(indices, (0..100).collect::<Vec<usize>>());
    let all = Filter::And(vec![]);
    let (indices, _) =
        Filters::evaluate(&all, &engine.state.inverted_index, &engine.ids).get_indices();
    assert_eq!(indices.len(), 200);
    let none = Filter::Or(vec![]);
    let (indices, _) =
        Filters::evaluate(&none, &engine.state.inverted_index, &engine.ids).get_indices();
    assert!(indices.is_empty());
}

#[test]
fn negation_in_an_empty_namespace_is_empty() {
    let mut engine = HaystackEmbedded::new("empty".to_string());
    let not_x = Filter::Not(Box::new(eq("a", "x")));
    let (indices, ids) =
        Filters::evaluate(&not_x, &engine.state.inverted_index, &engine.ids).get_indices();
    assert!(indices.is_empty());
    assert!(ids.is_empty());
    assert!(engine.query(&constant(0.1), &not_x, 10).unwrap().is_empty());
}

#[test]
fn matches_follows_the_evaluation() {
    let record = vec![kv("a", "x"), kv("b", "y")];
    assert!(Filters::matches(&eq("a", "x"), &record));
    assert!(!Filters::matches(&eq("a", "y"), &record));
    assert!(Filters::matches(
        &Filter::In("b".to_string(), vec!["z".to_string(), "y".to_string()]),
        &record
    ));
    assert!(Filters::matches(&Filter::And(vec![eq("a", "x"), eq("b", "y")]), &record));
    assert!(!Filters::matches(&Filter::And(vec![eq("a", "x"), eq("b", "z")]), &record));
    assert!(Filters::matches(&Filter::Or(vec![eq("a", "q"), eq("b", "y")]), &record));
    assert!(Filters::matches(&Filter::Not(Box::new(eq("a", "q"))), &record));
    assert!(Filters::matches(&Filter::And(vec![]), &record));
    assert!(!Filters::matches(&Filter::Or(vec![]), &record));
}

#[test]
fn wrong_dimension_changes_nothing() {
    let mut engine = HaystackEmbedded::new("dims".to_string());
    engine.add_vector(&constant(0.1), vec![kv("a", "x")]).unwrap();
    let short = bits(&vec![0.1f32; VECTOR_SIZE - 1]);
    assert_eq!(
        engine.add_vector(&short, vec![kv("a", "x")]).err(),
        Some(HaystackError::DimMismatch)
    );
    assert_eq!(engine.state.vectors.len(), 1);
    assert_eq!(engine.state.metadata_index.len(), 1);
    assert_eq!(engine.state.inverted_index.len(), 1);
    assert_eq!(engine.ids.len(), 1);
    assert_eq!(
        engine.query(&short, &eq("a", "x"), 1).err(),
        Some(HaystackError::DimMismatch)
    );
    assert_eq!(
        engine
            .batch_add_vectors(vec![constant(0.1), short], vec![vec![], vec![]])
            .err(),
        Some(HaystackError::DimMismatch)
    );
    assert_eq!(engine.state.vectors.len(), 1);
}

#[test]
fn an_id_is_used_once() {
    let mut engine = HaystackEmbedded::new("ids".to_string());
    engine.add_vector_with_id(&constant(0.1), vec![kv("a", "x")], 7).unwrap();
    assert_eq!(
        engine.add_vector_with_id(&constant(0.1), vec![kv("a", "y")], 7).err(),
        Some(HaystackError::OutOfBounds)
    );
    assert_eq!(engine.state.vectors.len(), 1);
    assert!(engine.state.inverted_index.get(kv("a", "y")).is_none());
    assert_eq!(
        engine
            .batch_add_vectors_with_ids(
                vec![constant(0.1), constant(0.1)],
                vec![vec![], vec![]],
                vec![8, 8],
            )
            .err(),
        Some(HaystackError::OutOfBounds)
    );
    assert_eq!(engine.state.vectors.len(), 1);
}

#[test]
fn fresh_ids_differ() {
    let mut engine = HaystackEmbedded::new("fresh".to_string());
    engine.add_vector(&constant(0.1), vec![kv("a", "x")]).unwrap();
    engine.add_vector(&constant(0.1), vec![kv("a", "x")]).unwrap();
    assert_eq!(engine.ids.len(), 2);
    assert!(engine.ids[0] != engine.ids[1]);
    let list = engine.state.inverted_index.get(kv("a", "x")).unwrap();
    assert_eq!(list.indices, vec![0, 1]);
    assert_eq!(list.ids, engine.ids);
}

#[test]
fn a_repeated_attribute_is_listed_once() {
    let mut engine = HaystackEmbedded::new("repeat".to_string());
    engine
        .add_vector_with_id(&constant(0.1), vec![kv("a", "x"), kv("b", "y"), kv("a", "x")], 5)
        .unwrap();
    let list = engine.state.inverted_index.get(kv("a", "x")).unwrap();
    assert_eq!(list.indices, vec![0]);
    assert_eq!(list.ids, vec![5]);
    let record = engine.state.metadata_index.get(5).unwrap();
    assert_eq!(record.kvs.len(), 3);
    assert_eq!(record.vector_index, 0);
}

#[test]
fn batch_of_nothing_is_a_no_op() {
    let mut engine = HaystackEmbedded::new("nothing".to_string());
    engine.add_vector(&constant(0.1), vec![kv("a", "x")]).unwrap();
    let before = engine.save_state().len();
    engine.batch_add_vectors(vec![], vec![]).unwrap();
    assert_eq!(engine.state.vectors.len(), 1);
    assert_eq!(engine.state.metadata_index.len(), 1);
    assert_eq!(engine.state.inverted_index.len(), 1);
    assert_eq!(engine.ids.len(), 1);
    assert!(before > 0);
}

#[test]
fn batch_lengths_must_agree() {
    let mut engine = HaystackEmbedded::new("lengths".to_string());
    assert_eq!(
        engine.batch_add_vectors(vec![constant(0.1)], vec![]).err(),
        Some(HaystackError::LengthMismatch)
    );
    assert_eq!(
        engine
            .batch_add_vectors_with_ids(vec![constant(0.1)], vec![vec![]], vec![1, 2])
            .err(),
        Some(HaystackError::LengthMismatch)
    );
    assert_eq!(engine.state.vectors.len(), 0);
}

#[test]
fn batch_adds_in_order() {
    let mut engine = HaystackEmbedded::new("batch".to_string());
    engine
        .batch_add_vectors(
            vec![constant(0.1), constant(-0.1), alternating()],
            vec![
                vec![kv("color", "red"), kv("name", "v1")],
                vec![kv("color", "red"), kv("name", "v2")],
                vec![kv("color", "blue"), kv("name", "v3")],
            ],
        )
        .unwrap();
    assert_eq!(engine.state.vectors.len(), 3);
    let list = engine.state.inverted_index.get(kv("color", "red")).unwrap();
    assert_eq!(list.indices, vec![0, 1]);
    let results = engine.query(&constant(-0.1), &eq("color", "red"), 1).unwrap();
    assert_eq!(names(&results), vec!["v2".to_string()]);
}

#[test]
fn snapshot_round_trips_ten_thousand_inserts() {
    let mut engine = HaystackEmbedded::new("big".to_string());
    let n: usize = 10_000;
    let vectors: Vec<Vec<u32>> = (0..n)
        .map(|i| if i % 3 == 0 { constant(0.1) } else { alternating() })
        .collect();
    let metadata: Vec<Vec<KVPair>> = (0..n)
        .map(|i| vec![kv("n", &i.to_string()), kv("third", &(i % 3).to_string())])
        .collect();
    let ids: Vec<u128> = (0..n).map(|i| (i as u128) * 7 + 1).collect();
    engine.batch_add_vectors_with_ids(vectors, metadata, ids.clone()).unwrap();
    let snapshot = engine.save_state();
    assert_eq!(&snapshot[..2], &[0x1f, 0x8b]);

    let mut fresh = HaystackEmbedded::new("big".to_string());
    fresh.load_state(snapshot).unwrap();
    assert_eq!(fresh.state.vectors.len(), n);
    assert_eq!(fresh.ids, ids);
    for i in 0..n {
        let record = fresh.state.metadata_index.get(ids[i]).unwrap();
        assert_eq!(record.id, ids[i]);
        assert_eq!(record.vector_index, i);
        assert_eq!(record.kvs.len(), 2);
        assert_eq!(record.kvs[0].value, i.to_string());
        assert_eq!(record.kvs[1].value, (i % 3).to_string());
    }
    let results = fresh.query(&constant(0.1), &eq("n", "4711"), 5).unwrap();
    assert_eq!(results.len(), 1);
    assert_eq!(results[0][0].value, "4711");
}

#[test]
fn a_broken_snapshot_is_rejected_and_changes_nothing() {
    let mut engine = HaystackEmbedded::new("broken".to_string());
    engine.add_vector(&constant(0.1), vec![kv("a", "x")]).unwrap();
    assert_eq!(
        engine.load_state(vec![1, 2, 3, 4]).err(),
        Some(HaystackError::Corruption)
    );
    let snapshot = engine.save_state();
    let mut cut = snapshot.clone();
    cut.truncate(snapshot.len() / 2);
    assert_eq!(engine.load_state(cut).err(), Some(HaystackError::Corruption));
    assert_eq!(engine.state.vectors.len(), 1);
    assert_eq!(engine.query(&constant(0.1), &eq("a", "x"), 1).unwrap().len(), 1);
}

fn gzip(bytes: &[u8]) -> Vec<u8> {
    let mut encoder = Encoder::new(Vec::new()).unwrap();
    encoder.write_all(bytes).unwrap();
    encoder.finish().into_result().unwrap()
}

#[test]
fn a_snapshot_whose_parts_disagree_is_rejected() {
    let mut orphan = NamespaceState::new("parts".to_string());
    orphan.vectors.push([0u8; 128]).unwrap();
    let mut fresh = HaystackEmbedded::new("parts".to_string());
    assert_eq!(
        fresh.load_state(gzip(&orphan.save_state())).err(),
        Some(HaystackError::Corruption)
    );
    assert_eq!(fresh.state.vectors.len(), 0);

    let mut unlisted = NamespaceState::new("parts".to_string());
    unlisted.vectors.push([0u8; 128]).unwrap();
    unlisted
        .metadata_index
        .insert(5, MetadataIndexItem { kvs: vec![kv("a", "x")], id: 5, vector_index: 0 })
        .unwrap();
    assert_eq!(
        fresh.load_state(gzip(&unlisted.save_state())).err(),
        Some(HaystackError::Corruption)
    );

    unlisted
        .inverted_index
        .insert_append(kv("a", "x"), InvertedIndexItem { indices: vec![0], ids: vec![5] })
        .unwrap();
    fresh.load_state(gzip(&unlisted.save_state())).unwrap();
    assert_eq!(fresh.ids, vec![5]);
    assert_eq!(fresh.query(&constant(-0.1), &eq("a", "x"), 3).unwrap().len(), 1);
}

#[test]
fn a_snapshot_is_a_gzip_stream_of_the_three_images() {
    let mut engine = HaystackEmbedded::new("stream".to_string());
    engine.add_vector_with_id(&constant(0.1), vec![kv("a", "x")], 1).unwrap();
    let snapshot = engine.save_state();
    let mut decoder = Decoder::new(&snapshot[..]).unwrap();
    let mut plain = Vec::new();
    decoder.read_to_end(&mut plain).unwrap();
    assert_eq!(plain, engine.state.save_state());
    let first = u64::from_le_bytes(plain[..8].try_into().unwrap()) as usize;
    assert_eq!(&plain[8..8 + first], &engine.state.metadata_index.to_binary()[..]);
    let tail = &plain[plain.len() - (8 + 8 + 128)..];
    assert_eq!(&tail[..8], &[136, 0, 0, 0, 0, 0, 0, 0]);
    assert_eq!(&tail[8..16], &[1, 0, 0, 0, 0, 0, 0, 0]);
    assert_eq!(tail[16], 0xff);
}

#[test]
fn every_posting_names_a_record_with_the_attribute() {
    let mut engine = HaystackEmbedded::new("postings".to_string());
    for i in 0..60u32 {
        let metadata = vec![
            kv("parity", if i % 2 == 0 { "even" } else { "odd" }),
            kv("third", &(i % 3).to_string()),
            kv("n", &i.to_string()),
        ];
        engine.add_vector(&constant(0.1), metadata).unwrap();
    }
    assert_eq!(engine.state.vectors.len(), 60);
    assert_eq!(engine.state.metadata_index.len(), 60);
    assert_eq!(engine.ids.len(), 60);
    let attributes = [kv("parity", "even"), kv("parity", "odd"), kv("third", "0"), kv("n", "17")];
    let lengths = [30, 30, 20, 1];
    for (attribute, length) in attributes.iter().zip(lengths) {
        let list = engine.state.inverted_index.get(attribute.clone()).unwrap();
        assert_eq!(list.indices.len(), length);
        assert_eq!(list.ids.len(), length);
        assert!(list.indices.windows(2).all(|w| w[0] < w[1]));
        for (index, id) in list.indices.iter().zip(list.ids.iter()) {
            assert_eq!(engine.ids[*index], *id);
            let record = engine.state.metadata_index.get(*id).unwrap();
            assert_eq!(record.vector_index, *index);
            assert_eq!(record.id, *id);
            assert!(record.kvs.iter().any(|p| p == attribute));
        }
    }
}

#[test]
fn a_new_namespace_has_room_and_keeps_it() {
    let mut engine = HaystackEmbedded::new("room".to_string());
    assert!(engine.has_room_for(0, 0));
    assert!(engine.has_room_for(1_000_000, 3_000_000));
    assert!(!engine.has_room_for(usize::MAX, 0));
    for i in 0..50u32 {
        assert!(engine.has_room_for(1, 2));
        engine
            .add_vector(&constant(0.1), vec![kv("n", &i.to_string()), kv("a", "x")])
            .unwrap();
    }
    assert!(engine.has_room_for(1_000_000, 3_000_000));
    assert_eq!(engine.state.vectors.len(), 50);
}

#[test]
fn a_second_snapshot_holds_what_the_first_held() {
    let mut engine = HaystackEmbedded::new("twice".to_string());
    for i in 0..300u32 {
        engine
            .add_vector(&alternating(), vec![kv("n", &i.to_string()), kv("a", "x")])
            .unwrap();
    }
    let first = engine.save_state();
    let mut loaded = HaystackEmbedded::new("twice".to_string());
    loaded.load_state(first).unwrap();
    assert_eq!(loaded.ids, engine.ids);
    assert_eq!(loaded.state.vectors.len(), 300);
    assert_eq!(loaded.state.save_state(), engine.state.save_state());
    assert_eq!(
        loaded.state.metadata_index.tree.storage_manager.data.len(),
        engine.state.metadata_index.tree.storage_manager.data.len()
    );
    assert_eq!(
        loaded.state.inverted_index.tree.storage_manager.data.len(),
        engine.state.inverted_index.tree.storage_manager.data.len()
    );
    let second = loaded.save_state();
    let mut again = HaystackEmbedded::new("twice".to_string());
    again.load_state(second).unwrap();
    assert_eq!(again.ids, engine.ids);
    let list = again.state.inverted_index.get(kv("a", "x")).unwrap();
    assert_eq!(list.indices, (0..300).collect::<Vec<usize>>());
}

#[test]
fn a_loaded_namespace_has_the_room_of_the_saved_one() {
    let mut engine = HaystackEmbedded::new("room".to_string());
    for i in 0..500u128 {
        engine
            .add_vector_with_id(&alternating(), vec![kv("n", &i.to_string()), kv("a", "x")], i)
            .unwrap();
    }
    let snapshot = engine.save_state();
    let mut loaded = HaystackEmbedded::new("room".to_string());
    loaded.load_state(snapshot).unwrap();
    assert_eq!(loaded.ids, engine.ids);
    for (records, attributes) in [(0, 0), (1, 2), (1000, 5000), (3_037_000_000, 1), (usize::MAX, 0)] {
        assert_eq!(
            loaded.has_room_for(records, attributes),
            engine.has_room_for(records, attributes)
        );
    }
    assert_eq!(
        loaded.state.metadata_index.tree.levels,
        engine.state.metadata_index.tree.levels
    );
    assert_eq!(loaded.state.inverted_index.tree.len(), engine.state.inverted_index.tree.len());
    loaded.add_vector_with_id(&constant(0.1), vec![kv("a", "x"), kv("n", "new")], 500).unwrap();
    assert_eq!(
        loaded.add_vector_with_id(&constant(0.1), vec![], 7).err(),
        Some(HaystackError::OutOfBounds)
    );
    let hits = loaded.query(&constant(0.1), &eq("n", "new"), 3).unwrap();
    assert_eq!(hits.len(), 1);
    let list = loaded.state.inverted_index.get(kv("a", "x")).unwrap();
    assert_eq!(list.indices.len(), 501);
}

#[test]
fn a_snapshot_with_a_tree_out_of_order_is_rejected() {
    let mut engine = HaystackEmbedded::new("bad".to_string());
    for i in 0..300u128 {
        engine.add_vector_with_id(&alternating(), vec![kv("n", &i.to_string())], i).unwrap();
    }
    let root = engine.state.metadata_index.tree.storage_manager.root_offset() as usize;
    let first = engine.state.metadata_index.tree.storage_manager.data[root].children[0];
    let second = engine.state.metadata_index.tree.storage_manager.data[root].children[1];
    engine.state.metadata_index.tree.storage_manager.data[root].children[1] = first;
    let mut fresh = HaystackEmbedded::new("bad".to_string());
    fresh.add_vector_with_id(&constant(0.1), vec![kv("a", "x")], 9).unwrap();
    assert_eq!(
        fresh.load_state(gzip(&engine.state.save_state())).err(),
        Some(HaystackError::Corruption)
    );
    assert_eq!(fresh.ids, vec![9]);
    engine.state.metadata_index.tree.storage_manager.data[root].children[1] = second;
    fresh.load_state(gzip(&engine.state.save_state())).unwrap();
    assert_eq!(fresh.ids.len(), 300);
}
