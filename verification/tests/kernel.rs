use haystack_embedded::constants::{QUANTIZED_VECTOR_SIZE, VECTOR_SIZE};
use haystack_embedded::errors::HaystackError;
use haystack_embedded::math::hamming_distance;
use haystack_embedded::structures::dense_vector_list::DenseVectorList;
use haystack_embedded::structures::top_k::insert_bounded;
use haystack_embedded::utils::{not_below_zero, quantize};

fn raw(values: &[f32]) -> [u32; VECTOR_SIZE] {
    let mut out = [0u32; VECTOR_SIZE];
    for (i, v) in values.iter().enumerate() {
        out[i] = v.to_bits();
    }
    out
}

#[test]
fn hamming_counts_differing_bits() {
    let a = [0u8; QUANTIZED_VECTOR_SIZE];
    let mut b = [0u8; QUANTIZED_VECTOR_SIZE];
    assert_eq!(hamming_distance(&a, &b), 0);
    b[0] = 0b1010_0001;
    b[127] = 0xff;
    assert_eq!(hamming_distance(&a, &b), 11);
    let c = [0xffu8; QUANTIZED_VECTOR_SIZE];
    assert_eq!(hamming_distance(&a, &c), 1024);
}

#[test]
fn hamming_is_symmetric_and_zero_on_itself() {
    let mut a = [0u8; QUANTIZED_VECTOR_SIZE];
    let mut b = [0u8; QUANTIZED_VECTOR_SIZE];
    for i in 0..QUANTIZED_VECTOR_SIZE {
        a[i] = (i * 37 + 11) as u8;
        b[i] = (i * 101 + 3) as u8;
    }
    assert_eq!(hamming_distance(&a, &b), hamming_distance(&b, &a));
    assert_eq!(hamming_distance(&a, &a), 0);
    assert_eq!(hamming_distance(&b, &b), 0);
}

#[test]
fn quantize_sets_a_bit_for_each_component_at_least_zero() {
    let mut values = vec![-1.0f32; VECTOR_SIZE];
    values[0] = 0.5;
    values[3] = 0.0;
    values[8] = 2.0;
    values[1023] = 1.0e-30;
    let q = quantize(&raw(&values));
    assert_eq!(q[0], 0b0000_1001);
    assert_eq!(q[1], 0b0000_0001);
    assert_eq!(q[127], 0b1000_0000);
    for i in 2..127 {
        assert_eq!(q[i], 0);
    }
}

#[test]
fn quantize_is_deterministic() {
    let values: Vec<f32> = (0..VECTOR_SIZE).map(|i| ((i % 7) as f32) - 3.0).collect();
    let first = quantize(&raw(&values));
    let second = quantize(&raw(&values));
    assert_eq!(first.to_vec(), second.to_vec());
}

#[test]
fn sign_test_follows_the_float_comparison() {
    let samples = [
        0.0f32,
        -0.0,
        1.0,
        -1.0,
        f32::MIN_POSITIVE,
        -f32::MIN_POSITIVE,
        f32::INFINITY,
        f32::NEG_INFINITY,
        f32::NAN,
        -f32::NAN,
        f32::MAX,
        f32::MIN,
    ];
    for v in samples {
        assert_eq!(not_below_zero(v.to_bits()), v >= 0.0);
    }
}

#[test]
fn dense_store_assigns_stable_indices() {
    let mut list = DenseVectorList::new(4);
    assert_eq!(list.len(), 0);
    assert_eq!(list.push([1u8; QUANTIZED_VECTOR_SIZE]).unwrap(), 0);
    assert_eq!(list.push([2u8; QUANTIZED_VECTOR_SIZE]).unwrap(), 1);
    let more = list
        .batch_push(vec![[3u8; QUANTIZED_VECTOR_SIZE], [4u8; QUANTIZED_VECTOR_SIZE]])
        .unwrap();
    assert_eq!(more, vec![2, 3]);
    assert_eq!(list.len(), 4);
    assert_eq!(list.get(1).unwrap()[0], 2);
    assert_eq!(list.get(3).unwrap()[5], 4);
    let run = list.get_contiguous(1, 3).unwrap();
    assert_eq!(run.len(), 3);
    assert_eq!(run[0][0], 2);
    assert_eq!(run[2][0], 4);
}

#[test]
fn dense_store_reports_out_of_bounds() {
    let mut list = DenseVectorList::new(0);
    list.push([7u8; QUANTIZED_VECTOR_SIZE]).unwrap();
    assert_eq!(list.get(1).err(), Some(HaystackError::OutOfBounds));
    assert_eq!(list.get_contiguous(0, 2).err(), Some(HaystackError::OutOfBounds));
    assert_eq!(list.get_contiguous(1, 1).err(), Some(HaystackError::OutOfBounds));
    assert!(list.get_contiguous(1, 0).is_ok());
    assert_eq!(
        list.insert(2, [0u8; QUANTIZED_VECTOR_SIZE]).err(),
        Some(HaystackError::OutOfBounds)
    );
    list.insert(0, [9u8; QUANTIZED_VECTOR_SIZE]).unwrap();
    assert_eq!(list.get(0).unwrap()[0], 9);
    assert_eq!(list.get(1).unwrap()[0], 7);
}

#[test]
fn dense_store_image_round_trips() {
    let mut list = DenseVectorList::new(2);
    list.push([1u8; QUANTIZED_VECTOR_SIZE]).unwrap();
    list.push([2u8; QUANTIZED_VECTOR_SIZE]).unwrap();
    let bytes = list.to_binary();
    assert_eq!(bytes.len(), 8 + 2 * QUANTIZED_VECTOR_SIZE);
    assert_eq!(&bytes[..8], &[2, 0, 0, 0, 0, 0, 0, 0]);
    assert_eq!(bytes[8], 1);
    assert_eq!(bytes[8 + QUANTIZED_VECTOR_SIZE], 2);
    let back = DenseVectorList::from_binary(&bytes).unwrap();
    assert_eq!(back.len(), 2);
    assert_eq!(back.get(0).unwrap().to_vec(), vec![1u8; QUANTIZED_VECTOR_SIZE]);
    assert_eq!(back.get(1).unwrap().to_vec(), vec![2u8; QUANTIZED_VECTOR_SIZE]);
}

#[test]
fn dense_store_rejects_a_broken_image() {
    assert_eq!(
        DenseVectorList::from_binary(&[1, 2, 3]).err(),
        Some(HaystackError::Corruption)
    );
    let mut bytes = vec![1u8, 0, 0, 0, 0, 0, 0, 0];
    bytes.extend(vec![0u8; QUANTIZED_VECTOR_SIZE - 1]);
    assert_eq!(
        DenseVectorList::from_binary(&bytes).err(),
        Some(HaystackError::Corruption)
    );
    bytes.extend(vec![0u8; 2]);
    assert_eq!(
        DenseVectorList::from_binary(&bytes).err(),
        Some(HaystackError::Corruption)
    );
}

#[test]
fn bounded_insertion_keeps_the_nearest_in_order() {
    let mut best: Vec<(u16, u128)> = Vec::new();
    for hit in [(5u16, 1u128), (3, 9), (5, 0), (9, 2), (1, 7), (3, 4)] {
        insert_bounded(&mut best, hit, 4);
    }
    assert_eq!(best, vec![(1, 7), (3, 4), (3, 9), (5, 0)]);
    let mut none: Vec<(u16, u128)> = Vec::new();
    insert_bounded(&mut none, (1, 1), 0);
    assert!(none.is_empty());
}
