use bit_vec::BitVec;
use std::rc::Rc;
use string_column::column::{build_string_column, StringColumn, Type, MAX_UNIQUE_STRINGS};
use string_column::dict::{DictEncodedStrings, MAX_DICTIONARY_SIZE};
use string_column::packer::StringPacker;

fn rows(v: &[Option<&str>]) -> Vec<Option<Rc<String>>> {
    v.iter().map(|o| o.map(|s| Rc::new(s.to_string()))).collect()
}

fn mask(bits: &[bool]) -> BitVec {
    let mut m = BitVec::from_elem(bits.len(), false);
    for (i, b) in bits.iter().enumerate() {
        m.set(i, *b);
    }
    m
}

#[test]
fn packer_round_trip() {
    let values = rows(&[Some("a"), Some("bc"), Some(""), Some("héllo wörld")]);
    let sp = StringPacker::from_strings(&values);
    assert_eq!(sp.collect_decoded(), vec!["a", "bc", "", "héllo wörld"]);
}

#[test]
fn packer_empty_column() {
    let sp = StringPacker::from_strings(&Vec::new());
    assert!(sp.collect_decoded().is_empty());
    assert!(sp.iter().next().is_none());
}

#[test]
fn packer_null_collapses_to_empty() {
    let values = rows(&[Some("x"), None, Some("")]);
    let sp = StringPacker::from_strings(&values);
    assert_eq!(sp.collect_decoded(), vec!["x", "", ""]);
}

#[test]
fn packer_push_and_iter() {
    let mut sp = StringPacker::new();
    sp.push("one");
    sp.push("");
    sp.push("three");
    sp.shrink_to_fit();
    let mut it = sp.iter();
    assert_eq!(it.next(), Some("one"));
    assert_eq!(it.next(), Some(""));
    assert_eq!(it.next(), Some("three"));
    assert_eq!(it.next(), None);
    assert_eq!(it.next(), None);
}

#[test]
fn packer_nul_character_splits_row() {
    let mut sp = StringPacker::new();
    sp.push("a\0b");
    assert_eq!(sp.collect_decoded(), vec!["a", "b"]);
}

#[test]
fn packer_filter_decode() {
    let values = rows(&[Some("a"), Some("b"), None, Some("d"), Some("e")]);
    let sp = StringPacker::from_strings(&values);
    let m = mask(&[true, false, true, false, true]);
    assert_eq!(sp.filter_decode(&m), vec!["a", "", "e"]);
    assert!(sp.filter_decode(&mask(&[false; 5])).is_empty());
    assert_eq!(sp.filter_decode(&mask(&[true; 5])), sp.collect_decoded());
}

#[test]
fn dict_round_trip_and_filter() {
    let values = rows(&[Some("a"), Some("b"), Some("a"), None, Some("c")]);
    let unique = rows(&[Some("c"), None, Some("a"), Some("b")]);
    let d = DictEncodedStrings::from_strings(&values, unique);
    assert_eq!(d.collect_decoded(), vec!["a", "b", "a", "", "c"]);
    let m = mask(&[false, true, true, true, false]);
    assert_eq!(d.filter_decode(&m), vec!["b", "a", ""]);
    assert_eq!(d.decoded_type(), Type::String);
    assert_eq!(d.encoded_type(), Type::U16);
    assert_eq!(d.ref_encoded_type(), Type::RefU16);
}

#[test]
fn dict_encoded_access() {
    let values = rows(&[Some("a"), Some("b"), Some("a"), None, Some("c")]);
    let unique = rows(&[Some("c"), None, Some("a"), Some("b")]);
    let d = DictEncodedStrings::from_strings(&values, unique);
    let (indices, codec) = d.get_encoded();
    assert_eq!(indices, &vec![2u16, 3, 2, 1, 0]);
    assert_eq!(codec.decode(indices), d.collect_decoded());
    let m = mask(&[true, false, true, false, true]);
    let (filtered, codec) = d.filter_encoded(&m);
    assert_eq!(filtered, vec![2u16, 2, 0]);
    assert_eq!(codec.decode(&filtered), d.filter_decode(&m));
    assert_eq!(d.decode(&[3, 0, 3]), vec!["b", "c", "b"]);
}

#[test]
fn dict_to_raw() {
    let values = rows(&[Some("x"), None]);
    let unique = rows(&[Some("x"), None]);
    let d = DictEncodedStrings::from_strings(&values, unique);
    assert_eq!(d.to_raw(0), "x".to_string());
    assert_eq!(d.to_raw(1), String::new());
}

#[test]
fn builder_chooses_dictionary() {
    let values = rows(&[Some("a"), Some("b"), Some("a"), None, Some("c")]);
    let unique = rows(&[Some("a"), Some("b"), None, Some("c")]);
    let col = build_string_column(values, Some(unique));
    assert!(matches!(col, StringColumn::Dict(_)));
    let codec = col.to_codec().unwrap();
    let (indices, _) = codec.get_encoded();
    assert_eq!(indices.iter().copied().max(), Some(3));
    assert_eq!(col.collect_decoded(), vec!["a", "b", "a", "", "c"]);
    assert_eq!(col.decoded_type(), Type::String);
}

#[test]
fn builder_chooses_packer_without_unique_set() {
    let values = rows(&[Some("a"), Some("b"), None]);
    let col = build_string_column(values, None);
    assert!(matches!(col, StringColumn::Packed(_)));
    assert!(col.to_codec().is_none());
    assert_eq!(col.collect_decoded(), vec!["a", "b", ""]);
    assert_eq!(col.filter_decode(&mask(&[false, true, true])), vec!["b", ""]);
}

#[test]
fn builder_packs_oversized_unique_set() {
    let unique: Vec<Option<Rc<String>>> =
        (0..MAX_DICTIONARY_SIZE + 1).map(|i| Some(Rc::new(i.to_string()))).collect();
    let values = rows(&[Some("7"), Some("65536")]);
    let col = build_string_column(values, Some(unique));
    assert!(matches!(col, StringColumn::Packed(_)));
    assert_eq!(col.collect_decoded(), vec!["7", "65536"]);
}

#[test]
fn dictionary_of_full_index_width() {
    let unique: Vec<Option<Rc<String>>> =
        (0..MAX_DICTIONARY_SIZE).map(|i| Some(Rc::new(i.to_string()))).collect();
    let values = rows(&[Some("65535"), Some("0")]);
    let col = build_string_column(values, Some(unique));
    assert!(matches!(col, StringColumn::Dict(_)));
    let (indices, _) = col.to_codec().unwrap().get_encoded();
    assert_eq!(indices, &vec![65535u16, 0]);
    assert_eq!(col.collect_decoded(), vec!["65535", "0"]);
}

#[test]
fn decode_is_repeatable() {
    let values = rows(&[Some("p"), None, Some("q")]);
    let unique = rows(&[Some("p"), None, Some("q")]);
    let m = mask(&[true, true, false]);
    for col in [build_string_column(values.clone(), None), build_string_column(values, Some(unique))] {
        assert_eq!(col.collect_decoded(), col.collect_decoded());
        assert_eq!(col.filter_decode(&m), col.filter_decode(&m));
        assert_eq!(col.filter_decode(&m), vec!["p", ""]);
    }
}

#[test]
fn unique_ceiling_value() {
    assert_eq!(MAX_UNIQUE_STRINGS, 10000);
    assert_eq!(MAX_DICTIONARY_SIZE, 65536);
}

#[test]
fn heap_size_reports_buffers() {
    let values = rows(&[Some("abcdefgh"), Some("ijklmnop")]);
    let sp = StringPacker::from_strings(&values);
    assert!(sp.heap_size_of_children() >= 18);
    let unique = rows(&[Some("abcdefgh"), Some("ijklmnop")]);
    let d = DictEncodedStrings::from_strings(&values, unique);
    assert!(d.heap_size_of_children() >= 16 + 4);
    assert_eq!(StringPacker::new().heap_size_of_children(), 0);
}
