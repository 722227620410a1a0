use std::collections::BTreeSet;

use protocache::access::{ArrayView, MapView, MessageView, StringView, ViewArray};
use protocache::buffer::Buffer;
use protocache::perfect_hash::{
    build_perfect_hash_index, build_perfect_hash_index_with_positions, PerfectHashView,
};
use protocache::serialize::{
    fold_field, serialize_array, serialize_array_at, serialize_bool, serialize_map,
    serialize_message, serialize_scalar, serialize_str, Unit,
};

fn f32_units(values: &[f32]) -> Vec<Unit> {
    values
        .iter()
        .map(|value| serialize_scalar::<u32>(value.to_bits()))
        .collect()
}

fn f32_values(array: ArrayView<'_>) -> Vec<f32> {
    array
        .scalars::<u32>()
        .unwrap()
        .iter()
        .into_iter()
        .map(f32::from_bits)
        .collect()
}

#[test]
fn serializes_inline_string() {
    let mut buffer = Buffer::new();
    let unit = serialize_str("hi", &mut buffer).unwrap();
    assert_eq!(unit.inline_words().len(), 1);
    assert!(buffer.is_empty());
}

#[test]
fn folds_segmented_field_when_small() {
    let mut buffer = Buffer::new();
    let mut unit = serialize_str("hello", &mut buffer).unwrap();
    assert!(unit.is_segment());
    fold_field(&mut buffer, &mut unit);
    assert_eq!(unit.inline_words().len(), 2);
    assert!(buffer.is_empty());

    let mut small = serialize_str("abc", &mut buffer).unwrap();
    assert_eq!(small.inline_words().len(), 1);
    fold_field(&mut buffer, &mut small);
    assert_eq!(small.inline_words().len(), 1);
}

#[test]
fn serializes_simple_message_roundtrip() {
    let mut buffer = Buffer::new();
    let field0 = serialize_scalar::<i32>(42);
    let field1 = serialize_bool(true);
    let field3 = serialize_str("hi", &mut buffer).unwrap();
    let mut fields = vec![field0, field1, Unit::empty(), field3];
    let _message = serialize_message(&mut fields, &mut buffer).unwrap();

    let view = MessageView::new(buffer.view()).unwrap();
    assert_eq!(view.scalar::<i32>(0), Some(42));
    assert_eq!(view.scalar::<bool>(1), Some(true));
    assert_eq!(view.string(3).unwrap().as_str().as_deref(), Some("hi"));
    assert!(view.scalar::<i32>(2).is_none());
}

#[test]
fn serializes_all_empty_fields_as_empty_message() {
    let mut buffer = Buffer::new();
    let mut fields = vec![Unit::empty(), Unit::empty()];
    let _message = serialize_message(&mut fields, &mut buffer).unwrap();
    let view = MessageView::new(buffer.view()).unwrap();
    assert!(!view.has_field(0));
    assert!(!view.has_field(1));
}

#[test]
fn serializes_scalar_array_roundtrip() {
    let mut buffer = Buffer::new();
    let elements = vec![serialize_scalar::<i32>(1), serialize_scalar::<i32>(2)];
    let _array = serialize_array(&elements, &mut buffer).unwrap();
    let view = ArrayView::new(buffer.view()).unwrap();
    let scalars = view.scalars::<i32>().unwrap();
    assert_eq!(scalars.get(0), Some(1));
    assert_eq!(scalars.get(1), Some(2));
}

#[test]
fn serializes_string_array_roundtrip() {
    let mut buffer = Buffer::new();
    let a = serialize_str("abc", &mut buffer).unwrap();
    let b = serialize_str("apple", &mut buffer).unwrap();
    let elements = vec![a, b];
    let _array = serialize_array(&elements, &mut buffer).unwrap();
    let view = ArrayView::new(buffer.view()).unwrap();
    let strings = ViewArray::<StringView<'_>>::new(view);
    assert_eq!(strings.get(0).unwrap().as_str().as_deref(), Some("abc"));
    assert_eq!(strings.get(1).unwrap().as_str().as_deref(), Some("apple"));
}

#[test]
fn builds_index_and_serializes_string_int_map_roundtrip() {
    let keys_bytes = vec![b"abc-1".to_vec(), b"abc-2".to_vec()];
    let (index, positions) = build_perfect_hash_index_with_positions(&keys_bytes).unwrap();

    let mut buffer = Buffer::new();
    let key0 = serialize_str("abc-1", &mut buffer).unwrap();
    let key1 = serialize_str("abc-2", &mut buffer).unwrap();
    let mut keys = vec![Unit::empty(); 2];
    let mut values = vec![Unit::empty(); 2];
    keys[positions[0]] = key0;
    keys[positions[1]] = key1;
    values[positions[0]] = serialize_scalar::<i32>(1);
    values[positions[1]] = serialize_scalar::<i32>(2);
    let _map = serialize_map(&index, &keys, &values, &mut buffer).unwrap();

    let view = MapView::new(buffer.view()).unwrap();
    assert_eq!(
        view.find_str("abc-1").unwrap().value().scalar::<i32>(),
        Some(1)
    );
    assert_eq!(
        view.find_str("abc-2").unwrap().value().scalar::<i32>(),
        Some(2)
    );
    assert!(view.find_str("abc-3").is_none());
}

#[test]
fn index_builder_matches_reader_expectations() {
    let keys = vec![b"abc-1".to_vec(), b"abc-2".to_vec(), b"abc-4".to_vec()];
    let index = build_perfect_hash_index(&keys).unwrap();
    let view = PerfectHashView::new(&index).unwrap();
    let mut seen = BTreeSet::new();
    for key in &keys {
        seen.insert(view.locate(key).unwrap());
    }
    assert_eq!(seen.len(), keys.len());
}

#[test]
fn index_builder_rejects_duplicate_keys() {
    let keys = [b"duplicate".as_slice(), b"duplicate".as_slice()];
    assert!(build_perfect_hash_index(&keys).is_none());
    assert!(build_perfect_hash_index_with_positions(&keys).is_none());
}

#[test]
fn serializes_short_string_key_float_array_map_roundtrip() {
    let keys_bytes = vec![b"lv5".to_vec(), b"lv9".to_vec()];
    let (index, positions) = build_perfect_hash_index_with_positions(&keys_bytes).unwrap();

    let mut buffer = Buffer::new();
    let key0 = serialize_str("lv5", &mut buffer).unwrap();
    let key1 = serialize_str("lv9", &mut buffer).unwrap();

    let last = buffer.len();
    let value0 = serialize_array_at(&f32_units(&[51.0, 52.0, 53.0]), &mut buffer, last).unwrap();
    let last = buffer.len();
    let value1 = serialize_array_at(&f32_units(&[91.0, 92.0]), &mut buffer, last).unwrap();

    let mut keys = vec![Unit::empty(); 2];
    let mut values = vec![Unit::empty(); 2];
    keys[positions[0]] = key0;
    keys[positions[1]] = key1;
    values[positions[0]] = value0;
    values[positions[1]] = value1;
    let _map = serialize_map(&index, &keys, &values, &mut buffer).unwrap();

    let view = MapView::new(buffer.view()).unwrap();
    let lv5 = view.find_str("lv5").unwrap().value().array().unwrap();
    assert_eq!(f32_values(lv5), vec![51.0, 52.0, 53.0]);
    let lv9 = view.find_str("lv9").unwrap().value().array().unwrap();
    assert_eq!(f32_values(lv9), vec![91.0, 92.0]);
}

#[test]
fn serializes_multi_entry_short_string_key_float_array_map_roundtrip() {
    let keys = ["lv1", "lv2", "lv3", "lv4", "lv5", "lv9"];
    let key_bytes = keys
        .iter()
        .map(|key| key.as_bytes().to_vec())
        .collect::<Vec<_>>();
    let (index, positions) = build_perfect_hash_index_with_positions(&key_bytes).unwrap();

    let values_src = [
        vec![11.0f32, 12.0],
        vec![21.0, 22.0],
        vec![31.0, 32.0],
        vec![41.0, 42.0],
        vec![51.0, 52.0, 53.0],
        vec![91.0, 92.0],
    ];

    let mut buffer = Buffer::new();
    let encoded_keys = keys
        .iter()
        .map(|key| serialize_str(key, &mut buffer).unwrap())
        .collect::<Vec<_>>();
    let encoded_values = values_src
        .iter()
        .map(|values| serialize_array(&f32_units(values), &mut buffer).unwrap())
        .collect::<Vec<_>>();

    let mut keys = vec![Unit::empty(); positions.len()];
    let mut values = vec![Unit::empty(); positions.len()];
    for (idx, pos) in positions.iter().copied().enumerate() {
        keys[pos] = encoded_keys[idx];
        values[pos] = encoded_values[idx];
    }

    let _map = serialize_map(&index, &keys, &values, &mut buffer).unwrap();
    let view = MapView::new(buffer.view()).unwrap();
    for (key, expected) in ["lv1", "lv2", "lv3", "lv4", "lv5", "lv9"]
        .into_iter()
        .zip(values_src.iter())
    {
        let array = view.find_str(key).unwrap().value().array().unwrap();
        assert_eq!(f32_values(array), expected.clone());
    }
}

#[test]
fn message_with_many_fields_uses_sections() {
    let mut buffer = Buffer::new();
    let mut fields = vec![Unit::empty(); 40];
    fields[0] = serialize_scalar::<u32>(7);
    fields[13] = serialize_scalar::<u64>(0x1_0000_0002);
    fields[39] = serialize_str("tail", &mut buffer).unwrap();
    let _message = serialize_message(&mut fields, &mut buffer).unwrap();
    let view = MessageView::new(buffer.view()).unwrap();
    assert_eq!(buffer.view()[0] & 0xff, 2);
    assert_eq!(view.scalar::<u32>(0), Some(7));
    assert_eq!(view.scalar::<u64>(13), Some(0x1_0000_0002));
    assert_eq!(view.string(39).unwrap().as_str().as_deref(), Some("tail"));
    assert!(!view.has_field(12));
    assert!(!view.has_field(38));
}

#[test]
fn message_refers_to_long_strings_by_offset() {
    let mut buffer = Buffer::new();
    let long = serialize_str("a string longer than three words", &mut buffer).unwrap();
    assert!(long.is_segment());
    let mut fields = vec![long, serialize_scalar::<i64>(-5)];
    let _message = serialize_message(&mut fields, &mut buffer).unwrap();
    let view = MessageView::new(buffer.view()).unwrap();
    assert_eq!(
        view.string(0).unwrap().as_str().as_deref(),
        Some("a string longer than three words")
    );
    assert_eq!(view.scalar::<i64>(1), Some(-5));
    assert_eq!(buffer.view()[1] & 3, 3);
}

#[test]
fn empty_array_and_map_are_inline() {
    let mut buffer = Buffer::new();
    let array = serialize_array(&[], &mut buffer).unwrap();
    assert_eq!(array.inline_words(), &[1]);
    let map = serialize_map(&[], &[], &[], &mut buffer).unwrap();
    assert_eq!(map.inline_words(), &[5u32 << 28]);
    assert!(serialize_map(&[0, 0, 0, 0], &[Unit::empty()], &[], &mut buffer).is_none());
    assert!(buffer.is_empty());
}

#[test]
fn array_chooses_the_narrowest_cheapest_width() {
    let mut buffer = Buffer::new();
    let elements = vec![serialize_scalar::<u64>(1), serialize_scalar::<u64>(2)];
    let _array = serialize_array(&elements, &mut buffer).unwrap();
    let view = ArrayView::new(buffer.view()).unwrap();
    assert_eq!(view.width(), 2);
    assert_eq!(buffer.view()[0], (2 << 2) | 2);
    assert_eq!(view.scalars::<u64>().unwrap().iter(), vec![1, 2]);
}
