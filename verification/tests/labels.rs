use grid_wasm::label::{col_label, row_label};

#[test]
fn single_letter_columns() {
    assert_eq!(col_label(0), "A");
    assert_eq!(col_label(1), "B");
    assert_eq!(col_label(25), "Z");
}

#[test]
fn multi_letter_columns() {
    assert_eq!(col_label(26), "AA");
    assert_eq!(col_label(27), "AB");
    assert_eq!(col_label(51), "AZ");
    assert_eq!(col_label(52), "BA");
    assert_eq!(col_label(701), "ZZ");
    assert_eq!(col_label(702), "AAA");
    assert_eq!(col_label(u32::MAX), "MWLQKWV");
}

#[test]
fn column_labels_are_distinct() {
    let mut seen = std::collections::HashSet::new();
    for c in 0..2000u32 {
        assert!(seen.insert(col_label(c)));
    }
}

#[test]
fn row_labels_count_from_one() {
    assert_eq!(row_label(0), "1");
    assert_eq!(row_label(8), "9");
    assert_eq!(row_label(9), "10");
    assert_eq!(row_label(99), "100");
    assert_eq!(row_label(u32::MAX - 1), "4294967295");
}
