use places_autocomplete_rs::index::{initialize_location_data, LocationData};
use places_autocomplete_rs::query::{
    query_by_coordinates, query_postal_code, query_street, search, PostalResponse, SearchParams,
};

const HEADER: &str = "postal_code,street,house_number,city,area,neighborhood,municipality,province";

fn file(rows: &[&str]) -> Vec<String> {
    let mut lines = vec![HEADER.to_string()];
    for r in rows {
        lines.push(r.to_string());
    }
    lines
}

fn index_of(rows: &[&str]) -> LocationData {
    initialize_location_data(&vec![file(rows)])
}

fn params() -> SearchParams {
    SearchParams {
        postal_code: None,
        street: None,
        house_number: None,
        limit: 10,
        unique_street_only: false,
    }
}

#[test]
fn same_street_matches_collapse_into_one_entry() {
    let data = index_of(&[
        "1000AA,Main St,1,City,Area,Hood,Muni,Prov",
        "1000AA,Main St,2,City,Area,Hood,Muni,Prov",
    ]);
    match query_postal_code(&data, "1000AA") {
        PostalResponse::Single { entry, house_numbers, total_entries } => {
            assert_eq!(entry.street, "Main St");
            assert_eq!(house_numbers, vec!["1".to_string(), "2".to_string()]);
            assert_eq!(total_entries, 2);
        },
        _ => panic!("expected a collapsed entry"),
    }
}

#[test]
fn mixed_street_matches_return_the_full_list() {
    let data = index_of(&[
        "1000AA,Main St,1,City,Area,Hood,Muni,Prov",
        "1000AA,Side St,2,City,Area,Hood,Muni,Prov",
    ]);
    match query_postal_code(&data, "1000AA") {
        PostalResponse::Multi { entries, total_entries } => {
            assert_eq!(entries.len(), 2);
            assert_eq!(total_entries, 2);
        },
        _ => panic!("expected the full list"),
    }
}

#[test]
fn postal_separators_are_stripped_before_matching() {
    let data = index_of(&["1000AA,Main St,1,City,Area,Hood,Muni,Prov"]);
    match query_postal_code(&data, "1000 A-A_") {
        PostalResponse::Single { total_entries, .. } => assert_eq!(total_entries, 1),
        _ => panic!("expected a match after stripping separators"),
    }
}

#[test]
fn unknown_postal_code_gives_the_not_found_shape() {
    let data = index_of(&["1000AA,Main St,1,City,Area,Hood,Muni,Prov"]);
    assert!(matches!(query_postal_code(&data, "9999ZZ"), PostalResponse::NotFound));
    assert!(matches!(query_postal_code(&data, ""), PostalResponse::NotFound));
}

#[test]
fn street_search_is_a_case_insensitive_substring_match() {
    let data = index_of(&[
        "1000AA,Main St,1,City,Area,Hood,Muni,Prov",
        "2000BB,Side Road,2,City,Area,Hood,Muni,Prov",
    ]);
    let r = query_street(&data, "mAiN");
    assert_eq!(r.entries.len(), 1);
    assert_eq!(r.entries[0].street, "Main St");
    assert_eq!(r.total_entries, 1);
    assert!(r.consistent_street);
    let all = query_street(&data, "S");
    assert_eq!(all.entries.len(), 2);
    assert!(!all.consistent_street);
}

#[test]
fn street_query_ending_in_a_known_house_number_narrows_to_it() {
    // the whole query must still match the street name as a substring,
    // so the narrowing fires for street names that carry a number
    let data = index_of(&[
        "1000AA,Route 2,2,City,Area,Hood,Muni,Prov",
        "1000AA,Route 2,7,City,Area,Hood,Muni,Prov",
    ]);
    let r = query_street(&data, "route 2");
    assert_eq!(r.entries.len(), 1);
    assert_eq!(r.entries[0].house_number, "2");
    assert_eq!(r.house_numbers, vec!["2".to_string()]);
    assert_eq!(r.total_entries, 1);
    assert!(r.consistent_street);
}

#[test]
fn street_query_ending_in_an_unmatched_number_is_a_plain_search() {
    // "route 2" matches the street, but no record has house number "2",
    // so every matching record is answered
    let data = index_of(&["1000AA,Route 2,7,City,Area,Hood,Muni,Prov"]);
    let r = query_street(&data, "route 2");
    assert_eq!(r.entries.len(), 1);
    assert_eq!(r.entries[0].house_number, "7");
    assert_eq!(r.total_entries, 1);
    assert!(r.consistent_street);
}

#[test]
fn street_query_for_an_unknown_street_is_empty() {
    let data = index_of(&["1000AA,Main St,1,City,Area,Hood,Muni,Prov"]);
    let r = query_street(&data, "main st 9");
    assert_eq!(r.entries.len(), 0);
    assert_eq!(r.total_entries, 0);
    assert!(!r.consistent_street);
}

#[test]
fn empty_street_result_has_the_empty_shape() {
    let data = index_of(&["1000AA,Main St,1,City,Area,Hood,Muni,Prov"]);
    let r = query_street(&data, "nowhere");
    assert_eq!(r.entries.len(), 0);
    assert_eq!(r.house_numbers.len(), 0);
    assert_eq!(r.total_entries, 0);
    assert!(!r.consistent_street);
}

#[test]
fn coordinate_results_are_sorted_capped_and_street_unique() {
    let mut rows: Vec<String> = Vec::new();
    for i in 0..120 {
        // two records per street so the dedup pass has work to do
        rows.push(format!("1{:03}AA,Street {},1,City,Area,Hood,Muni,Prov,52.0,4.0", i, i));
        rows.push(format!("1{:03}AA,Street {},2,City,Area,Hood,Muni,Prov,52.0,4.0", i, i));
    }
    let refs: Vec<&str> = rows.iter().map(|s| s.as_str()).collect();
    let data = index_of(&refs);
    let cands = data.coordinate_candidates();
    assert_eq!(cands.len(), 240);
    // the farther a record stands in the list, the larger its distance key
    let distances: Vec<u64> = (0..cands.len()).map(|i| (cands.len() - i) as u64).collect();
    let r = query_by_coordinates(&data, &distances);
    assert_eq!(r.entries.len(), 100);
    assert_eq!(r.total_entries, 100);
    for w in r.entries.windows(2) {
        assert!(w[0].distance <= w[1].distance);
    }
    for i in 0..r.entries.len() {
        for j in (i + 1)..r.entries.len() {
            assert_ne!(r.entries[i].entry.street, r.entries[j].entry.street);
        }
    }
    // nearest first: the last record had the smallest key
    assert_eq!(r.entries[0].distance, 1);
}

#[test]
fn ties_keep_candidate_order() {
    let data = index_of(&[
        "1000AA,First,1,City,Area,Hood,Muni,Prov,52.0,4.0",
        "2000BB,Second,2,City,Area,Hood,Muni,Prov,52.0,4.0",
    ]);
    let r = query_by_coordinates(&data, &vec![5, 5]);
    assert_eq!(r.entries.len(), 2);
    assert_eq!(r.entries[0].entry.street, "First");
    assert_eq!(r.entries[1].entry.street, "Second");
}

#[test]
fn coordinate_query_without_candidates_is_empty_not_an_error() {
    let data = index_of(&["1000AA,Main St,1,City,Area,Hood,Muni,Prov"]);
    let cands = data.coordinate_candidates();
    assert_eq!(cands.len(), 0);
    let r = query_by_coordinates(&data, &Vec::new());
    assert_eq!(r.entries.len(), 0);
    assert_eq!(r.total_entries, 0);
}

#[test]
fn combined_search_reports_found_only_when_a_side_matched() {
    let data = index_of(&["1000AA,Main St,1,City,Area,Hood,Muni,Prov"]);
    let mut p = params();
    p.postal_code = Some("9999ZZ".to_string());
    p.street = Some("nowhere".to_string());
    let r = search(&data, &p);
    assert!(!r.found());
    let mut p2 = params();
    p2.street = Some("main".to_string());
    assert!(search(&data, &p2).found());
}

#[test]
fn combined_search_truncates_to_the_limit() {
    let data = index_of(&[
        "1000AA,A St,1,City,Area,Hood,Muni,Prov",
        "1000AA,B St,2,City,Area,Hood,Muni,Prov",
        "1000AA,C St,3,City,Area,Hood,Muni,Prov",
    ]);
    let mut p = params();
    p.postal_code = Some("1000AA".to_string());
    p.limit = 2;
    match search(&data, &p).postal_code {
        Some(PostalResponse::Multi { entries, total_entries }) => {
            assert_eq!(entries.len(), 2);
            // the total still counts every match
            assert_eq!(total_entries, 3);
        },
        _ => panic!("expected a truncated list"),
    }
}

#[test]
fn combined_search_can_keep_one_record_per_street() {
    let data = index_of(&[
        "1000AA,A St,1,City,Area,Hood,Muni,Prov",
        "1000AA,A St,2,City,Area,Hood,Muni,Prov",
        "1000AA,B St,3,City,Area,Hood,Muni,Prov",
    ]);
    let mut p = params();
    p.postal_code = Some("1000AA".to_string());
    p.unique_street_only = true;
    match search(&data, &p).postal_code {
        Some(PostalResponse::Multi { entries, .. }) => {
            assert_eq!(entries.len(), 2);
            assert_eq!(entries[0].street, "A St");
            assert_eq!(entries[0].house_number, "1");
            assert_eq!(entries[1].street, "B St");
        },
        _ => panic!("expected one record per street"),
    }
}

#[test]
fn a_mismatched_house_number_clears_a_collapsed_postal_entry() {
    let data = index_of(&["1000AA,Main St,1,City,Area,Hood,Muni,Prov"]);
    let mut p = params();
    p.postal_code = Some("1000AA".to_string());
    p.house_number = Some("9".to_string());
    let r = search(&data, &p);
    assert!(r.postal_code.is_none());
    let mut p2 = params();
    p2.postal_code = Some("1000AA".to_string());
    p2.house_number = Some("1".to_string());
    assert!(search(&data, &p2).postal_code.is_some());
}

#[test]
fn the_street_side_filters_by_house_number() {
    let data = index_of(&[
        "1000AA,Main St,1,City,Area,Hood,Muni,Prov",
        "1000AA,Main St,2,City,Area,Hood,Muni,Prov",
    ]);
    let mut p = params();
    p.street = Some("main".to_string());
    p.house_number = Some("2".to_string());
    let r = search(&data, &p);
    let side = r.street.expect("expected street entries");
    assert_eq!(side.entries.len(), 1);
    assert_eq!(side.entries[0].house_number, "2");
    // every field describes the filtered match set
    assert_eq!(side.total_entries, 1);
    assert_eq!(side.house_numbers, vec!["2".to_string()]);
    assert!(side.consistent_street);
}

#[test]
fn the_postal_side_filters_by_house_number() {
    let data = index_of(&[
        "1000AA,A St,1,City,Area,Hood,Muni,Prov",
        "1000AA,B St,1,City,Area,Hood,Muni,Prov",
        "1000AA,A St,2,City,Area,Hood,Muni,Prov",
    ]);
    // two streets keep house number 1: the restricted set stays a list
    let mut p = params();
    p.postal_code = Some("1000AA".to_string());
    p.house_number = Some("1".to_string());
    match search(&data, &p).postal_code {
        Some(PostalResponse::Multi { entries, total_entries }) => {
            assert_eq!(entries.len(), 2);
            assert_eq!(total_entries, 2);
            assert!(entries.iter().all(|e| e.house_number == "1"));
        },
        _ => panic!("expected the restricted list"),
    }
    // only one record carries house number 2: the restricted set collapses
    let mut p2 = params();
    p2.postal_code = Some("1000AA".to_string());
    p2.house_number = Some("2".to_string());
    match search(&data, &p2).postal_code {
        Some(PostalResponse::Single { entry, house_numbers, total_entries }) => {
            assert_eq!(entry.street, "A St");
            assert_eq!(entry.house_number, "2");
            assert_eq!(house_numbers, vec!["2".to_string()]);
            assert_eq!(total_entries, 1);
        },
        _ => panic!("expected a collapsed entry"),
    }
}

#[test]
fn collapsed_house_numbers_are_distinct() {
    // two records share postal code, street and house number but differ
    // elsewhere, so both are kept while the number is listed once
    let data = index_of(&[
        "1000AA,Main St,1,CityA,Area,Hood,Muni,Prov",
        "1000AA,Main St,1,CityB,Area,Hood,Muni,Prov",
        "1000AA,Main St,2,CityA,Area,Hood,Muni,Prov",
    ]);
    match query_postal_code(&data, "1000AA") {
        PostalResponse::Single { house_numbers, total_entries, .. } => {
            assert_eq!(house_numbers, vec!["1".to_string(), "2".to_string()]);
            assert_eq!(total_entries, 3);
        },
        _ => panic!("expected a collapsed entry"),
    }
}

#[test]
fn consistent_street_describes_the_returned_entries() {
    // the query "2" matches both streets and ends in the known house
    // number 2, so the entries narrow to the one record with that number;
    // the returned entries all share one street, so the flag holds even
    // though the first pre-filter match was on another street
    let data = index_of(&[
        "1000AA,Alpha 2,7,City,Area,Hood,Muni,Prov",
        "2000BB,Beta 2,2,City,Area,Hood,Muni,Prov",
    ]);
    let r = query_street(&data, "2");
    assert_eq!(r.entries.len(), 1);
    assert_eq!(r.entries[0].street, "Beta 2");
    assert_eq!(r.house_numbers, vec!["2".to_string()]);
    assert!(r.consistent_street);
}
