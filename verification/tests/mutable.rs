use protocache::mutable::{array_extent, drop_present_unit, map_extent, should_omit_message_unit};
use protocache::{build_perfect_hash_index_with_positions, serialize_map};
use protocache::{
    serialize_array, serialize_bool, serialize_message, serialize_scalar, serialize_str, ArrayView,
    Buffer, MapView, MutableArray, MutableField, MutableMap, MutableMessage, Unit,
};

fn floats_of(words: Vec<u32>) -> Vec<f32> {
    words.into_iter().map(f32::from_bits).collect()
}

fn bits_of(values: &[f32]) -> Vec<u32> {
    values.iter().map(|v| v.to_bits()).collect()
}

#[test]
fn array_ex_iter_mut_marks_collection_dirty() {
    let mut array = MutableArray::from(vec![1u32, 2u32]);
    assert!(!array.is_dirty());

    for value in array.iter_mut() {
        *value += 10;
    }

    assert!(array.is_dirty());
    assert_eq!(array.as_slice(), &[11, 12]);
}

#[test]
fn map_ex_get_mut_marks_collection_dirty() {
    let mut map = MutableMap::from_pairs(vec![("alpha".to_owned(), 1u32)]);
    assert!(!map.is_dirty());

    *map.get_mut(&"alpha".to_owned()).unwrap() = 7;

    assert!(map.is_dirty());
    assert_eq!(map.get(&"alpha".to_owned()), Some(&7));
}

#[test]
fn map_ex_mut_into_iter_marks_collection_dirty() {
    let mut map =
        MutableMap::from_pairs(vec![("alpha".to_owned(), 1u32), ("beta".to_owned(), 2u32)]);
    assert!(!map.is_dirty());

    let (_, values) = map.iter_mut();
    for value in values.iter_mut() {
        *value *= 2;
    }

    assert!(map.is_dirty());
    assert_eq!(map.get(&"alpha".to_owned()), Some(&2));
    assert_eq!(map.get(&"beta".to_owned()), Some(&4));
}

#[test]
fn map_ex_supports_borrowed_string_lookup() {
    let mut map =
        MutableMap::from_pairs(vec![("alpha".to_owned(), 1u32), ("beta".to_owned(), 2u32)]);

    assert!(map.contains_key_str("alpha"));
    assert_eq!(map.get_str("beta"), Some(&2));
    assert_eq!(map.remove_str("alpha"), Some(1));
    assert!(!map.contains_key_str("alpha"));
}

#[test]
fn default_present_units_are_omitted_by_shape() {
    assert!(should_omit_message_unit(&Unit::inline(&[0])));
    assert!(should_omit_message_unit(&Unit::inline(&[1])));
    assert!(!should_omit_message_unit(&Unit::inline(&[0, 0])));
    assert!(!should_omit_message_unit(&Unit::inline(&[2, 0])));
}

#[test]
fn dropping_segment_present_unit_rewinds_buffer() {
    let mut buffer = Buffer::new();
    buffer.put(0);
    let mut unit = Unit::segment(0, buffer.len());

    assert!(should_omit_message_unit(&unit));
    drop_present_unit(&mut buffer, &mut unit);

    assert!(buffer.is_empty());
    assert!(unit.is_empty());
}

#[test]
fn mutable_nested_float_arrays_roundtrip() {
    let mut rows = MutableArray::new();
    rows.push(MutableArray::new());
    rows.push(MutableArray::from(bits_of(&[7.0f32, 8.0, 9.0])));

    let mut buffer = Buffer::new();
    let unit = rows.encode(&mut buffer).unwrap();
    assert!(unit.is_segment());

    let view = ArrayView::new(buffer.view()).unwrap();
    assert_eq!(view.len(), 2);

    let row0 = ArrayView::new(view.field(0).unwrap().object_words().unwrap()).unwrap();
    assert!(row0.scalars::<u32>().unwrap().is_empty());

    let row1_words = view.field(1).unwrap().object_words().unwrap();
    let row1 = ArrayView::new(row1_words).unwrap();
    assert_eq!(row1.width(), 1, "row1 words: {:?}", row1_words);
    assert_eq!(
        floats_of(row1.scalars::<u32>().unwrap().iter()),
        vec![7.0, 8.0, 9.0]
    );
}

#[test]
fn empty_mutable_map_encodes_as_inline_empty_map() {
    let map = MutableMap::<String, i32>::new();
    let mut buffer = Buffer::new();

    let unit = map.encode_to_unit(&mut buffer).unwrap();

    assert_eq!(unit.inline_words(), &[5u32 << 28]);
    assert_eq!(buffer.len(), 0);
    assert_eq!(MapView::new(unit.inline_words()).unwrap().len(), 0);
}

#[test]
fn mutable_array_with_empty_map_element_roundtrips() {
    let map = MutableMap::<String, i32>::new();
    let maps = MutableArray::from(vec![map]);
    let mut buffer = Buffer::new();

    maps.encode_to_unit(&mut buffer).unwrap();

    let array = ArrayView::new(buffer.view()).unwrap();
    assert_eq!(array.len(), 1);
    let map_words = array.field(0).unwrap().object_words().unwrap();
    assert_eq!(MapView::new(map_words).unwrap().len(), 0);
}

#[test]
fn mutable_string_key_float_array_map_roundtrip() {
    let mut map = MutableMap::new();
    map.insert(
        "lv5".to_owned(),
        MutableArray::from(bits_of(&[51.0f32, 52.0, 53.0])),
    );
    map.insert("lv9".to_owned(), MutableArray::from(bits_of(&[91.0f32, 92.0])));

    let mut buffer = Buffer::new();
    let unit = map.encode(&mut buffer).unwrap();
    assert!(unit.is_segment());

    let view = MapView::new(buffer.view()).unwrap();
    let lv5 = view
        .find_str("lv5")
        .unwrap_or_else(|| panic!("words: {:?}", buffer.view()))
        .value()
        .array()
        .unwrap();
    assert_eq!(
        floats_of(lv5.scalars::<u32>().unwrap().iter()),
        vec![51.0, 52.0, 53.0]
    );
    let lv9 = view.find_str("lv9").unwrap().value().array().unwrap();
    assert_eq!(
        floats_of(lv9.scalars::<u32>().unwrap().iter()),
        vec![91.0, 92.0]
    );
}

#[test]
fn mutable_message_copies_untouched_fields_and_decodes_taken_ones() {

    let mut source = Buffer::new();
    let field0 = serialize_scalar::<i32>(42);
    let field1 = serialize_bool(true);
    let field3 = serialize_str("a longer string value", &mut source).unwrap();
    let mut fields = vec![field0, field1, Unit::empty(), field3];
    serialize_message(&mut fields, &mut source).unwrap();
    let words = source.view().to_vec();

    let mut state = MutableMessage::<4, 1>::from_words(&words).unwrap();
    assert!(state.has_field(0));
    assert!(!state.has_field(2));
    assert!(state.clean_words().is_some());

    let mut out = Buffer::new();
    let mut unit = Unit::empty();
    state.serialize_field::<i32>(0, &0, &mut out, &mut unit).unwrap();
    assert_eq!(unit.inline_words(), &[42]);
    state.serialize_field::<String>(2, &String::new(), &mut out, &mut unit).unwrap();
    assert!(unit.is_empty());
    state.serialize_field::<String>(3, &String::new(), &mut out, &mut unit).unwrap();
    assert!(unit.is_segment());
    assert_eq!(out.len(), unit.size());

    let mut slot = String::new();
    let text = state.get_field::<String>(3, &mut slot).clone();
    assert_eq!(text, "a longer string value");
    assert!(state.was_accessed(3));
    assert!(!state.was_accessed(0));
    assert!(state.clean_words().is_none());

    let mut number = 0i32;
    *state.get_field::<i32>(0, &mut number) += 1;
    assert_eq!(number, 43);
    let mut out2 = Buffer::new();
    let mut unit2 = Unit::empty();
    state.serialize_field::<i32>(0, &number, &mut out2, &mut unit2).unwrap();
    assert_eq!(unit2.inline_words(), &[43]);
}

#[test]
fn mutable_map_decodes_what_it_encoded() {
    let mut map = MutableMap::new();
    map.insert(7u32, "seven".to_owned());
    map.insert(9u32, "nine".to_owned());
    assert_eq!(map.insert(7u32, "SEVEN".to_owned()), Some("seven".to_owned()));
    assert_eq!(map.len(), 2);

    let mut buffer = Buffer::new();
    map.encode_to_unit(&mut buffer).unwrap();
    let words = buffer.view().to_vec();

    let decoded = MutableMap::<u32, String>::from_words(&words).unwrap();
    assert!(!decoded.is_dirty());
    assert_eq!(decoded.len(), 2);
    assert_eq!(decoded.get(&7), Some(&"SEVEN".to_owned()));
    assert_eq!(decoded.get(&9), Some(&"nine".to_owned()));
    assert_eq!(decoded.get(&8), None);
}

#[test]
fn array_extent_reaches_past_the_cells_to_spilled_strings() {

    let mut buffer = Buffer::new();
    let short = serialize_str("abc", &mut buffer).unwrap();
    let long = serialize_str("this string spills past the array body", &mut buffer).unwrap();
    serialize_array(&[short, long], &mut buffer).unwrap();
    let words = buffer.view();

    let extent = array_extent::<String>(words).unwrap();
    assert!(extent > ArrayView::detect_len(words).unwrap());
    assert_eq!(extent, 13);
}

#[test]
fn encoding_an_array_keeps_earlier_words() {
    let mut buffer = Buffer::new();
    buffer.put(0xdead_beef);
    let array = MutableArray::from(vec!["x".to_owned(), "a much longer string".to_owned()]);
    let unit = array.encode_to_unit(&mut buffer).unwrap();
    assert!(unit.is_segment());
    assert_eq!(buffer.view().last(), Some(&0xdead_beef));

    let decoded =
        MutableArray::<String>::from_words(&buffer.view()[..buffer.len() - 1]).unwrap();
    assert_eq!(decoded.as_slice(), array.as_slice());
}

#[test]
fn scalar_arrays_encode_as_cells_of_their_width() {
    let mut buffer = Buffer::new();
    let array = MutableArray::from(vec![1u64, 2u64 << 40]);
    let unit = array.encode_to_unit(&mut buffer).unwrap();
    assert!(unit.is_segment());
    assert_eq!(buffer.view(), &[(2u32 << 2) | 2, 1, 0, 0, 512]);

    let empty = MutableArray::<u64>::new();
    let unit = empty.encode_to_unit(&mut Buffer::new()).unwrap();
    assert_eq!(unit.inline_words(), &[2]);

    let bools = MutableArray::from(vec![true, false, true]);
    let mut buffer = Buffer::new();
    let unit = bools.encode_to_unit(&mut buffer).unwrap();
    let decoded = MutableArray::<bool>::from_words(unit.inline_words()).unwrap();
    assert_eq!(decoded.as_slice(), &[true, false, true]);
}

#[test]
fn reading_fails_only_where_the_words_do_not_read() {
    // An empty word sequence holds no array and no map.
    assert!(MutableArray::<u32>::from_words(&[]).is_none());
    assert!(MutableMap::<u32, String>::from_words(&[]).is_none());

    // An array of strings whose elements are all strings reads.
    let mut buffer = Buffer::new();
    let mut array = MutableArray::from(vec!["a".to_owned(), "bc".to_owned()]);
    array.encode_to_unit(&mut buffer).unwrap();
    let words = buffer.view().to_vec();
    let decoded = MutableArray::<String>::from_words(&words).unwrap();
    assert_eq!(decoded.len(), 2);
}

#[test]
fn a_set_field_counts_as_present() {
    let mut state = MutableMessage::<1, 1>::new();
    assert!(!state.has_field(0));
    let mut slot: i32 = 0;
    *state.get_field(0, &mut slot) = 5;
    assert!(state.has_field(0));
    assert!(!state.has_field(1));
}

#[test]
fn string_keys_can_be_changed_through_their_text() {
    let mut map = MutableMap::from_pairs(vec![("alpha".to_owned(), 1u32)]);
    assert!(!map.is_dirty());
    *map.get_mut_str("alpha").unwrap() = 7;
    assert!(map.is_dirty());
    assert_eq!(map.get_str("alpha"), Some(&7));
    assert_eq!(map.get_str("beta"), None);
}

#[test]
fn a_scalar_array_encodes_as_its_header_and_values() {
    let array = MutableArray::from(vec![7u32, 8u32, 9u32]);
    let mut buffer = Buffer::new();
    let unit = array.encode_to_unit(&mut buffer).unwrap();
    assert!(unit.is_segment());
    assert_eq!(buffer.view(), &[(3 << 2) | 1, 7, 8, 9]);
    let view = ArrayView::new(buffer.view()).unwrap();
    assert_eq!(view.len(), 3);
}

#[test]
fn map_extent_reaches_past_the_cells_to_a_spilled_value() {
    let keys_src = vec![b"k0".to_vec(), b"k1".to_vec()];
    let (index, positions) = build_perfect_hash_index_with_positions(&keys_src).unwrap();

    let mut buffer = Buffer::new();
    let key0 = serialize_str("k0", &mut buffer).unwrap();
    let key1 = serialize_str("k1", &mut buffer).unwrap();
    let short = serialize_str("x", &mut buffer).unwrap();
    let long = serialize_str("this map value spills past the map body", &mut buffer).unwrap();

    let last = if positions[0] > positions[1] { 0 } else { 1 };
    let mut keys = vec![Unit::empty(); 2];
    let mut values = vec![Unit::empty(); 2];
    keys[positions[0]] = key0;
    keys[positions[1]] = key1;
    values[positions[last]] = long;
    values[positions[1 - last]] = short;

    serialize_map(&index, &keys, &values, &mut buffer).unwrap();
    let words = buffer.view();

    let extent = map_extent::<String, String>(words).unwrap();
    assert!(extent > MapView::detect_len(words).unwrap());
    assert_eq!(extent, 19);
}

#[test]
fn a_first_access_loads_the_source_value_and_marks_the_message() {
    let src = [0x0000_0100u32, 42];
    let mut m = MutableMessage::<1, 1>::from_words(&src).unwrap();
    assert!(!m.has_any_accessed());
    let mut slot: i32 = 0;
    assert_eq!(*m.get_field(0, &mut slot), 42);
    assert!(m.was_accessed(0));
    assert!(m.has_any_accessed());
    assert!(m.clean_words().is_none());
    slot = 7;
    assert_eq!(*m.get_field(0, &mut slot), 7);
}

#[test]
fn an_untouched_source_field_is_copied_and_the_given_value_ignored() {
    let src = [0x0000_0100u32, 42];
    let m = MutableMessage::<1, 1>::from_words(&src).unwrap();
    let mut b = Buffer::new();
    let mut unit = Unit::empty();
    assert!(m.serialize_field::<i32>(0, &7, &mut b, &mut unit).is_ok());
    assert_eq!(unit.inline_words(), &[42]);
    assert!(b.is_empty());
}
