use places_autocomplete_rs::index::{initialize_location_data, LocationData};
use places_autocomplete_rs::query::{query_postal_code, PostalResponse};
use places_autocomplete_rs::record::Coordinates;

const HEADER: &str = "postal_code,street,house_number,city,area,neighborhood,municipality,province";

fn file(rows: &[&str]) -> Vec<String> {
    let mut lines = vec![HEADER.to_string()];
    for r in rows {
        lines.push(r.to_string());
    }
    lines
}

fn index_of(rows: &[&str]) -> LocationData {
    initialize_location_data(&vec![file(rows)])
}

#[test]
fn eight_field_rows_load_without_coordinates() {
    let data = index_of(&["1000AA,Main St,1,City,Area,Hood,Muni,Prov"]);
    let found = data.lookup_by_postal_code("1000AA");
    assert_eq!(found.len(), 1);
    assert_eq!(found[0].postal_code, "1000AA");
    assert_eq!(found[0].street, "Main St");
    assert_eq!(found[0].house_number, "1");
    assert_eq!(found[0].province, "Prov");
    assert!(found[0].coordinates.is_none());
}

#[test]
fn ten_field_rows_carry_microdegree_coordinates() {
    let data = index_of(&["1000AA,Main St,1,City,Area,Hood,Muni,Prov,52.370216,4.895168"]);
    let found = data.lookup_by_postal_code("1000AA");
    assert_eq!(found.len(), 1);
    assert_eq!(
        found[0].coordinates,
        Some(Coordinates { latitude_udeg: 52_370_216, longitude_udeg: 4_895_168 })
    );
}

#[test]
fn negative_and_short_coordinates_parse() {
    let data = index_of(&["1000AA,Main St,1,City,Area,Hood,Muni,Prov,-52.5,4"]);
    let found = data.lookup_by_postal_code("1000AA");
    assert_eq!(
        found[0].coordinates,
        Some(Coordinates { latitude_udeg: -52_500_000, longitude_udeg: 4_000_000 })
    );
}

#[test]
fn coordinate_fractions_truncate_to_microdegrees() {
    let data = index_of(&["1000AA,Main St,1,City,Area,Hood,Muni,Prov,1.23456789,+4.2"]);
    let found = data.lookup_by_postal_code("1000AA");
    assert_eq!(
        found[0].coordinates,
        Some(Coordinates { latitude_udeg: 1_234_567, longitude_udeg: 4_200_000 })
    );
}

#[test]
fn coordinates_may_leave_one_side_of_the_point_empty() {
    let data = index_of(&[
        "1000AA,Main St,1,City,Area,Hood,Muni,Prov,52.,.5",
        "1000AA,Main St,2,City,Area,Hood,Muni,Prov,.,5.0",
    ]);
    let found = data.lookup_by_postal_code("1000AA");
    // "." alone has no digits at all, so that row is skipped
    assert_eq!(found.len(), 1);
    assert_eq!(
        found[0].coordinates,
        Some(Coordinates { latitude_udeg: 52_000_000, longitude_udeg: 500_000 })
    );
}

#[test]
fn rows_with_the_wrong_field_count_are_skipped() {
    let data = index_of(&[
        "1000AA,Main St,1,City,Area,Hood,Muni",
        "1000AA,Main St,2,City,Area,Hood,Muni,Prov,52.0",
        "1000AA,Main St,3,City,Area,Hood,Muni,Prov",
    ]);
    let found = data.lookup_by_postal_code("1000AA");
    assert_eq!(found.len(), 1);
    assert_eq!(found[0].house_number, "3");
}

#[test]
fn rows_with_unparsable_coordinates_are_skipped() {
    let data = index_of(&[
        "1000AA,Main St,1,City,Area,Hood,Muni,Prov,abc,4.9",
        "1000AA,Main St,2,City,Area,Hood,Muni,Prov,52.1,4.9",
    ]);
    let found = data.lookup_by_postal_code("1000AA");
    assert_eq!(found.len(), 1);
    assert_eq!(found[0].house_number, "2");
}

#[test]
fn the_header_line_is_never_a_record() {
    let data = index_of(&[]);
    assert_eq!(data.lookup_by_postal_code("postal_code").len(), 0);
}

#[test]
fn exact_lookup_returns_only_equal_postal_codes() {
    let data = index_of(&[
        "1234AB,Canal,1,City,Area,Hood,Muni,Prov",
        "1234CD,Canal,2,City,Area,Hood,Muni,Prov",
        "5678AB,Canal,3,City,Area,Hood,Muni,Prov",
    ]);
    let found = data.lookup_by_postal_code("1234AB");
    assert_eq!(found.len(), 1);
    assert_eq!(found[0].postal_code, "1234AB");
    assert_eq!(data.lookup_by_postal_code("").len(), 0);
}

#[test]
fn four_digit_codes_match_as_a_prefix() {
    let data = index_of(&[
        "1234AB,Canal,1,City,Area,Hood,Muni,Prov",
        "1234CD,Canal,2,City,Area,Hood,Muni,Prov",
        "5678AB,Canal,3,City,Area,Hood,Muni,Prov",
    ]);
    match query_postal_code(&data, "1234") {
        PostalResponse::Single { entry: _, house_numbers, total_entries } => {
            assert_eq!(total_entries, 2);
            assert_eq!(house_numbers, vec!["1".to_string(), "2".to_string()]);
        },
        _ => panic!("expected a collapsed entry"),
    }
}

#[test]
fn loading_the_same_files_twice_answers_queries_alike() {
    let files = vec![file(&[
        "1000AA,Main St,1,City,Area,Hood,Muni,Prov",
        "2000BB,Side St,2,City,Area,Hood,Muni,Prov",
    ])];
    let a = initialize_location_data(&files);
    let b = initialize_location_data(&files);
    assert_eq!(a.lookup_by_postal_code("1000AA"), b.lookup_by_postal_code("1000AA"));
    assert_eq!(a.search_by_street("st"), b.search_by_street("st"));
    assert_eq!(a.coordinate_candidates(), b.coordinate_candidates());
}

#[test]
fn load_all_appends_files_in_order() {
    let files = vec![
        file(&["1000AA,Main St,1,City,Area,Hood,Muni,Prov"]),
        file(&["1000AA,Main St,2,City,Area,Hood,Muni,Prov"]),
    ];
    let data = initialize_location_data(&files);
    let found = data.lookup_by_postal_code("1000AA");
    assert_eq!(found.len(), 2);
    assert_eq!(found[0].house_number, "1");
    assert_eq!(found[1].house_number, "2");
}

#[test]
fn load_from_csv_appends_to_an_existing_index() {
    let mut data = LocationData::new();
    data.load_from_csv(&file(&["1000AA,Main St,1,City,Area,Hood,Muni,Prov"]));
    data.load_from_csv(&file(&["1000AA,Main St,2,City,Area,Hood,Muni,Prov"]));
    assert_eq!(data.lookup_by_postal_code("1000AA").len(), 2);
}
