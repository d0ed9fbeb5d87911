use city_match::index::{IndexEntry, NameIndex};
use city_match::record::CityRecord;

fn city(id: i64, name: &str) -> CityRecord {
    CityRecord {
        id,
        name: name.to_string(),
        country: "Nowhere".to_string(),
        latitude_bits: 0,
        longitude_bits: 0,
    }
}

#[test]
fn empty_records_give_an_empty_index() {
    let index = NameIndex::build(&Vec::new());
    assert_eq!(index.len(), 0);
    assert_eq!(index.lookup("nairobi"), None);
    assert_eq!(index, NameIndex::new());
}

#[test]
fn build_indexes_the_folded_names() {
    let index = NameIndex::build(&vec![city(1, "Nairobi"), city(2, "Chennai"), city(3, "ZÜRICH")]);
    assert_eq!(index.len(), 3);
    assert_eq!(index.lookup("nairobi"), Some(1));
    assert_eq!(index.lookup("chennai"), Some(2));
    assert_eq!(index.lookup("zürich"), Some(3));
    assert_eq!(index.lookup("Nairobi"), None);
    assert_eq!(index.lookup("nai"), None);
}

#[test]
fn build_keeps_whitespace_and_punctuation() {
    let index = NameIndex::build(&vec![city(7, " St. John's")]);
    assert_eq!(index.lookup(" st. john's"), Some(7));
    assert_eq!(index.lookup("st. john's"), None);
}

#[test]
fn the_later_record_takes_a_shared_key() {
    let index = NameIndex::build(&vec![
        city(1, "Springfield"),
        city(2, "Nairobi"),
        city(3, "SPRINGFIELD"),
    ]);
    assert_eq!(index.len(), 2);
    assert_eq!(index.lookup("springfield"), Some(3));
    assert_eq!(index.lookup("nairobi"), Some(2));
}

#[test]
fn put_adds_and_replaces() {
    let mut index = NameIndex::new();
    index.put("a".to_string(), 1);
    index.put("b".to_string(), 2);
    assert_eq!(index.len(), 2);
    index.put("a".to_string(), 3);
    assert_eq!(index.len(), 2);
    assert_eq!(index.lookup("a"), Some(3));
    assert_eq!(index.lookup("b"), Some(2));
    assert_eq!(index.lookup("c"), None);
}

#[test]
fn position_finds_the_entry_of_a_key() {
    let index = NameIndex::build(&vec![city(1, "Nairobi"), city(2, "Chennai")]);
    assert_eq!(index.position(&"chennai".to_string()), Some(1));
    assert_eq!(index.position(&"nairobi".to_string()), Some(0));
    assert_eq!(index.position(&"paris".to_string()), None);
    assert_eq!(index.entries[1], IndexEntry { key: "chennai".to_string(), id: 2 });
}
