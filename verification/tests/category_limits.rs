use sooboost::categorical::{check_category_counts, FeatureEncoding};

#[test]
fn category_counts_within_the_limit_pass() {
    assert_eq!(check_category_counts(&vec![], 3), Ok(()));
    assert_eq!(check_category_counts(&vec![Some(3), None, Some(1)], 3), Ok(()));
}

#[test]
fn first_oversized_dictionary_is_reported() {
    assert_eq!(check_category_counts(&vec![Some(2), None, Some(5), Some(9)], 4), Err((2, 5)));
    assert_eq!(check_category_counts(&vec![Some(1)], 0), Err((0, 1)));
    assert_eq!(check_category_counts(&vec![None, Some(0)], 0), Ok(()));
}

#[test]
fn encoding_entries_come_out_sorted_and_values_are_found() {
    let entries: Vec<(u32, u64)> = (0..200u32).map(|k| (k * 7 + 3, u64::from(k) * 11)).collect();
    let e = FeatureEncoding::new(entries.clone(), 999, 1).expect("ascending keys");
    assert_eq!(e.entries(), entries);
    assert_eq!(e.value(3), 0);
    assert_eq!(e.value(7 * 150 + 3), 150 * 11);
    assert_eq!(e.value(4), 999);
    let empty = FeatureEncoding::new(vec![], 5, 1).expect("no entries");
    assert!(empty.entries().is_empty());
    assert_eq!(empty.value(0), 5);
}
