use city_match::record::{CityRecord, OutputRecord};
use city_match::resolver::SearchError;
use city_match::search::{checked_query, search, search_snapshot, search_with_cap, MAX_RESULTS};
use city_match::similarity::Strategy;

fn city(id: i64, name: &str, country: &str, lat: f64, lng: f64) -> CityRecord {
    CityRecord {
        id,
        name: name.to_string(),
        country: country.to_string(),
        latitude_bits: lat.to_bits(),
        longitude_bits: lng.to_bits(),
    }
}

fn out(name: &str, country: &str, lat: f64, lng: f64) -> OutputRecord {
    OutputRecord {
        city: name.to_string(),
        country: country.to_string(),
        latitude_bits: lat.to_bits(),
        longitude_bits: lng.to_bits(),
    }
}

fn two_cities() -> Vec<CityRecord> {
    vec![city(1, "Nairobi", "Kenya", -1.29, 36.82), city(2, "Chennai", "India", 13.08, 80.27)]
}

#[test]
fn nai_finds_nairobi_then_chennai() {
    let found = search(&two_cities(), "Nai", Strategy::HeuristicPercentage);
    assert_eq!(
        found.records,
        vec![out("Nairobi", "Kenya", -1.29, 36.82), out("Chennai", "India", 13.08, 80.27)]
    );
    assert_eq!(found.missing, Vec::<i64>::new());
    assert_eq!(found.walked, 2);
}

#[test]
fn nai_is_too_far_from_both_by_edit_distance() {
    let found = search(&two_cities(), "Nai", Strategy::EditDistance);
    assert_eq!(found.records, vec![]);
}

#[test]
fn a_misspelled_name_is_found_by_edit_distance() {
    let found = search(&two_cities(), "Nairoby", Strategy::EditDistance);
    assert_eq!(found.records, vec![out("Nairobi", "Kenya", -1.29, 36.82)]);
}

#[test]
fn no_match_is_an_empty_result() {
    let found = search(&two_cities(), "Q", Strategy::HeuristicPercentage);
    assert_eq!(found.records, vec![]);
    assert_eq!(found.walked, 0);
    let found = search(&Vec::new(), "Nairobi", Strategy::EditDistance);
    assert_eq!(found.records, vec![]);
}

#[test]
fn exact_match_comes_first() {
    let records = vec![
        city(1, "Anairobi", "X", 1.0, 1.0),
        city(2, "Nairobis", "Y", 2.0, 2.0),
        city(3, "Nairobi", "Kenya", -1.29, 36.82),
    ];
    for strategy in [Strategy::HeuristicPercentage, Strategy::EditDistance] {
        let found = search(&records, "nairobi", strategy);
        assert_eq!(found.records[0], out("Nairobi", "Kenya", -1.29, 36.82));
        assert_eq!(found.records.len(), 3);
    }
}

#[test]
fn search_hands_out_at_most_twenty() {
    let mut records = Vec::new();
    for id in 0..30 {
        records.push(city(id, &format!("Nai{:02}", id), "Z", 0.0, 0.0));
    }
    let found = search(&records, "nai", Strategy::HeuristicPercentage);
    assert_eq!(MAX_RESULTS, 20);
    assert_eq!(found.records.len(), 20);
    for (i, record) in found.records.iter().enumerate() {
        assert_eq!(record.city, format!("Nai{:02}", i));
    }
    let found = search_with_cap(&records, "nai", Strategy::HeuristicPercentage, 25);
    assert_eq!(found.records.len(), 25);
    let found = search_with_cap(&records, "nai", Strategy::HeuristicPercentage, 40);
    assert_eq!(found.records.len(), 30);
}

#[test]
fn a_record_that_lost_its_name_is_not_found_by_it() {
    let records = vec![city(1, "Springfield", "First", 1.0, 1.0), city(2, "SPRINGFIELD", "Second", 2.0, 2.0)];
    let found = search(&records, "springfield", Strategy::EditDistance);
    assert_eq!(found.records, vec![out("SPRINGFIELD", "Second", 2.0, 2.0)]);
}

#[test]
fn searching_twice_gives_the_same() {
    let records = two_cities();
    for strategy in [Strategy::HeuristicPercentage, Strategy::EditDistance] {
        assert_eq!(search(&records, "Nai", strategy), search(&records, "Nai", strategy));
    }
}

#[test]
fn a_snapshot_is_searched() {
    let records = two_cities();
    let found = search_snapshot(Some(&records), "Nai", Strategy::HeuristicPercentage);
    assert_eq!(found, Ok(search(&records, "Nai", Strategy::HeuristicPercentage)));
}

#[test]
fn a_missing_snapshot_is_data_unavailable() {
    let found = search_snapshot(None, "Nai", Strategy::HeuristicPercentage);
    assert_eq!(found, Err(SearchError::DataUnavailable));
}

#[test]
fn checked_query_refuses_a_blank_query() {
    assert_eq!(checked_query(""), Err(SearchError::MalformedQuery));
    assert_eq!(checked_query(" \t\n"), Err(SearchError::MalformedQuery));
}

#[test]
fn checked_query_hands_back_the_normalized_query() {
    assert_eq!(checked_query("  Nai "), Ok("nai".to_string()));
}
