use places_autocomplete_rs::expand::enumerate_house_numbers;

#[test]
fn range_row_expands_to_each_house_number() {
    let rows = enumerate_house_numbers("1000AA,Main St,1 t/m 3,City,Area,Hood,Muni,Prov");
    assert_eq!(rows.len(), 3);
    assert_eq!(rows[0], "1000AA,Main St,1,City,Area,Hood,Muni,Prov");
    assert_eq!(rows[1], "1000AA,Main St,2,City,Area,Hood,Muni,Prov");
    assert_eq!(rows[2], "1000AA,Main St,3,City,Area,Hood,Muni,Prov");
}

#[test]
fn range_length_is_end_minus_start_plus_one() {
    let rows = enumerate_house_numbers("A,B,10 t/m 14");
    assert_eq!(rows.len(), 5);
    assert_eq!(rows[0], "A,B,10");
    assert_eq!(rows[4], "A,B,14");
}

#[test]
fn reversed_range_yields_no_rows() {
    let rows = enumerate_house_numbers("A,B,5 t/m 3,C");
    assert_eq!(rows.len(), 0);
}

#[test]
fn non_numeric_endpoint_yields_no_rows() {
    assert_eq!(enumerate_house_numbers("A,B,a t/m 3").len(), 0);
    assert_eq!(enumerate_house_numbers("A,B,3 t/m x").len(), 0);
    assert_eq!(enumerate_house_numbers("A,B, t/m 3").len(), 0);
}

#[test]
fn a_field_without_the_full_marker_is_no_range() {
    // " t/m " needs its trailing space: this row passes through unchanged
    let rows = enumerate_house_numbers("A,B,3 t/m");
    assert_eq!(rows.len(), 1);
    assert_eq!(rows[0], "A,B,3 t/m");
}

#[test]
fn endpoint_too_large_for_u32_yields_no_rows() {
    assert_eq!(enumerate_house_numbers("A,B,4294967296 t/m 4294967297").len(), 0);
}

#[test]
fn endpoints_may_carry_plus_signs_and_whitespace() {
    let rows = enumerate_house_numbers("A,B, +7 t/m 9 ,C");
    assert_eq!(rows.len(), 3);
    assert_eq!(rows[0], "A,B,7,C");
    assert_eq!(rows[1], "A,B,8,C");
    assert_eq!(rows[2], "A,B,9,C");
}

#[test]
fn short_rows_are_dropped() {
    assert_eq!(enumerate_house_numbers("A,B").len(), 0);
    assert_eq!(enumerate_house_numbers("").len(), 0);
}

#[test]
fn row_without_marker_passes_through_unchanged() {
    let rows = enumerate_house_numbers("1000AA,Main St,7,City");
    assert_eq!(rows.len(), 1);
    assert_eq!(rows[0], "1000AA,Main St,7,City");
}

#[test]
fn only_the_first_marker_splits_the_field() {
    // the end side "2 t/m 3" is not a number, so the row is dropped
    assert_eq!(enumerate_house_numbers("A,B,1 t/m 2 t/m 3").len(), 0);
}

#[test]
fn single_number_range_yields_one_row() {
    let rows = enumerate_house_numbers("A,B,4 t/m 4,C");
    assert_eq!(rows.len(), 1);
    assert_eq!(rows[0], "A,B,4,C");
}
