use places_autocomplete_rs::ingest::{next_chunk_index, process_rows, Chunk};

fn lines(rows: &[&str]) -> Vec<String> {
    rows.iter().map(|r| r.to_string()).collect()
}

fn all_rows(chunks: &[Chunk]) -> Vec<String> {
    let mut out = Vec::new();
    for c in chunks {
        for r in &c.rows {
            out.push(r.clone());
        }
    }
    out
}

#[test]
fn duplicates_are_dropped_across_the_whole_run() {
    let input = lines(&[
        "1000AA,Main St,1,C",
        "1000AA,Main St,1,C",
        "1000AA,Main St,2,C",
        "1000AA,Main St,1,C",
    ]);
    let chunks = process_rows(&input, 100, 1);
    let rows = all_rows(&chunks);
    assert_eq!(rows, vec!["1000AA,Main St,1,C".to_string(), "1000AA,Main St,2,C".to_string()]);
}

#[test]
fn expansion_feeds_the_dedup_writer() {
    let input = lines(&["A,B,1 t/m 3,C", "A,B,2,C", "A,B,4,C"]);
    let chunks = process_rows(&input, 100, 1);
    let rows = all_rows(&chunks);
    assert_eq!(
        rows,
        vec![
            "A,B,1,C".to_string(),
            "A,B,2,C".to_string(),
            "A,B,3,C".to_string(),
            "A,B,4,C".to_string(),
        ]
    );
}

#[test]
fn chunks_respect_the_bound_and_are_numbered_contiguously() {
    let input = lines(&["A,B,1 t/m 5,C"]);
    let chunks = process_rows(&input, 2, 7);
    assert_eq!(chunks.len(), 3);
    assert_eq!(chunks[0].index, 7);
    assert_eq!(chunks[1].index, 8);
    assert_eq!(chunks[2].index, 9);
    assert_eq!(chunks[0].rows, vec!["A,B,1,C".to_string(), "A,B,2,C".to_string()]);
    assert_eq!(chunks[1].rows, vec!["A,B,3,C".to_string(), "A,B,4,C".to_string()]);
    assert_eq!(chunks[2].rows, vec!["A,B,5,C".to_string()]);
    for c in &chunks {
        assert!(c.rows.len() <= 2);
    }
}

#[test]
fn a_chunk_that_fills_exactly_opens_an_empty_next_chunk() {
    let input = lines(&["A,B,1 t/m 2,C"]);
    let chunks = process_rows(&input, 2, 1);
    assert_eq!(chunks.len(), 2);
    assert_eq!(chunks[0].rows.len(), 2);
    assert_eq!(chunks[1].rows.len(), 0);
    assert_eq!(chunks[1].index, 2);
}

#[test]
fn empty_input_still_produces_the_first_chunk() {
    let chunks = process_rows(&Vec::new(), 10, 1);
    assert_eq!(chunks.len(), 1);
    assert_eq!(chunks[0].index, 1);
    assert!(chunks[0].rows.is_empty());
}

#[test]
fn malformed_rows_are_silently_discarded() {
    let input = lines(&["A,B", "A,B,1,C"]);
    let rows = all_rows(&process_rows(&input, 10, 1));
    assert_eq!(rows, vec!["A,B,1,C".to_string()]);
}

#[test]
fn next_index_is_one_when_no_chunk_file_exists() {
    assert_eq!(next_chunk_index(&Vec::new()), 1);
    let names = lines(&["notes.txt", "data.csv"]);
    assert_eq!(next_chunk_index(&names), 1);
}

#[test]
fn next_index_is_one_past_the_highest_found() {
    let names = lines(&["data_nl_3.csv", "data_nl_7.csv", "other.txt", "data_nl_2.csv"]);
    assert_eq!(next_chunk_index(&names), 8);
}

#[test]
fn names_that_do_not_parse_are_ignored() {
    let names = lines(&["data_nl_x.csv", "data_nl_12.csv.bak", "data_nl_.csv"]);
    assert_eq!(next_chunk_index(&names), 1);
}

#[test]
fn a_plus_sign_in_the_index_still_parses() {
    let names = lines(&["data_nl_+3.csv"]);
    assert_eq!(next_chunk_index(&names), 4);
}

#[test]
fn an_index_of_zero_still_yields_one() {
    let names = lines(&["data_nl_0.csv"]);
    assert_eq!(next_chunk_index(&names), 1);
}
