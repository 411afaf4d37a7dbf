//! Tests for the table builders, the chance arithmetic, and the data model
//! defaults.

use rpick::Cell;
use rpick::ValueError;
use rpick::default_weight;
use rpick::pool::Candidate;
use rpick::table::build_lru_table;
use rpick::table::build_weighted_table;

#[test]
fn test_defaults() {
    assert_eq!(default_weight(), 1);
}

#[test]
fn test_value_error_message() {
    let e = ValueError::new("something went wrong".to_string());
    assert_eq!(e.message(), "something went wrong");
}

/// The displayed chance percentages of a weighted table sum to exactly 100,
/// and the chosen row's chance is its weight over the total.
#[test]
fn test_weighted_table_percentages() {
    let names: Vec<String> = vec!["a".to_string(), "b".to_string(), "c".to_string()];
    let pool = vec![
        Candidate { index: 0, weight: 5 },
        Candidate { index: 1, weight: 15 },
        Candidate { index: 2, weight: 30 },
    ];
    let table = build_weighted_table(&names, &pool, 1);

    let mut sum = 0.0f64;
    let mut chosen_rows = 0;
    for row in &table.rows {
        match &row.cells[2] {
            Cell::Ratio { part, whole } => {
                assert_eq!(*whole, 50);
                sum += *part as f64 / *whole as f64 * 100.0;
            }
            other => panic!("chance cell is not a ratio: {:?}", other),
        }
        if row.chosen {
            chosen_rows += 1;
            assert_eq!(row.cells[0], Cell::Text("b".to_string()));
            assert_eq!(row.cells[1], Cell::Unsigned(15));
            assert_eq!(row.cells[2], Cell::Ratio { part: 15, whole: 50 });
        }
    }
    assert_eq!(chosen_rows, 1);
    assert!((sum - 100.0).abs() < 1e-9);
    assert_eq!(table.footer[1], Cell::Unsigned(50));
    assert_eq!(table.footer[2], Cell::Ratio { part: 50, whole: 50 });
}

/// Rows of a weighted table come in ascending order of weight.
#[test]
fn test_weighted_table_sorted() {
    let names: Vec<String> = vec!["a".to_string(), "b".to_string(), "c".to_string()];
    let pool = vec![
        Candidate { index: 0, weight: 9 },
        Candidate { index: 1, weight: 1 },
        Candidate { index: 2, weight: 4 },
    ];
    let table = build_weighted_table(&names, &pool, 0);

    let weights: Vec<u64> = table
        .rows
        .iter()
        .map(|row| match row.cells[1] {
            Cell::Unsigned(w) => w,
            _ => panic!("weight cell is not unsigned"),
        })
        .collect();
    assert_eq!(weights, vec![1, 4, 9]);
}

/// The LRU table lists the not-yet-rejected tail of the list in reverse
/// order, with the scanned candidate last and flagged.
#[test]
fn test_lru_table_from_scan_position() {
    let choices: Vec<String> =
        vec!["a".to_string(), "b".to_string(), "c".to_string(), "d".to_string()];
    let table = build_lru_table(&choices, 1);

    assert_eq!(table.header, vec![Cell::Text("Name".to_string())]);
    assert!(table.footer.is_empty());
    assert_eq!(table.rows.len(), 3);
    let texts: Vec<String> = table
        .rows
        .iter()
        .map(|row| match &row.cells[0] {
            Cell::Text(t) => t.clone(),
            _ => panic!("name cell is not text"),
        })
        .collect();
    assert_eq!(texts, vec!["d".to_string(), "c".to_string(), "b".to_string()]);
    assert_eq!(table.rows[0].chosen, false);
    assert_eq!(table.rows[1].chosen, false);
    assert_eq!(table.rows[2].chosen, true);
}
