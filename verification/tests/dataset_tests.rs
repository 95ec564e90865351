use rust_bart::dataset::{build_init_splits, check_columns, select_features, ColumnError};
use rust_bart::tree::split::Split;

#[test]
fn test_find_threshes() {
    let s = [0, 1, 1, 1, 1, 2, 3, 5, 8, 13, 21, 34, 55];
    let s = [2, 5, 7];
    println!("{:?}", s.binary_search(&0));
    println!("{:?}", s.binary_search(&2));
    println!("{:?}", s.binary_search(&4));
    println!("{:?}", s.binary_search(&5));
    println!("{:?}", s.binary_search(&8));
}

#[test]
fn init_splits_of_a_data_set() {
    let splits = build_init_splits(&vec![3, 1], &vec![vec![0, 2], vec![4]]);
    assert_eq!(splits.len(), 4);
    assert_eq!(splits[0], Split::new_continuous(0, 3));
    assert_eq!(splits[1], Split::new_continuous(1, 1));
    assert_eq!(splits[2].feat_idx, 4);
    assert_eq!(Split::cats(splits[2].idx_or_bit()), vec![0, 2]);
    assert_eq!(splits[3].feat_idx, 5);
    assert_eq!(Split::cats(splits[3].idx_or_bit()), vec![4]);
}

fn names(v: &[&str]) -> Vec<String> {
    v.iter().map(|s| s.to_string()).collect()
}

fn sorted(mut v: Vec<String>) -> Vec<String> {
    v.sort();
    v
}

#[test]
fn columns_checked() {
    let cols = names(&["a", "y", "b"]);
    let label = "y".to_string();
    assert_eq!(check_columns(&cols, &vec![true, true, false], &label), Ok(()));
    assert_eq!(
        check_columns(&cols, &vec![true, true, false], &"z".to_string()),
        Err(ColumnError::NoLabel)
    );
    assert_eq!(
        check_columns(&cols, &vec![true, false, false], &label),
        Err(ColumnError::LabelNotNumeric)
    );
    let dup = names(&["a", "y", "a"]);
    assert_eq!(
        check_columns(&dup, &vec![true, true, true], &label),
        Err(ColumnError::DuplicateColumns)
    );
    // The label twice counts as a duplicate once its first column is numeric.
    let twice = names(&["y", "a", "y"]);
    assert_eq!(
        check_columns(&twice, &vec![true, true, false], &label),
        Err(ColumnError::DuplicateColumns)
    );
    assert_eq!(
        check_columns(&twice, &vec![false, true, true], &label),
        Err(ColumnError::LabelNotNumeric)
    );
}

#[test]
fn features_default_to_all_columns() {
    let cols = names(&["a", "y", "b", "c", "d"]);
    let numeric = vec![true, true, false, true, false];
    let label = "y".to_string();
    let (all, cat) = select_features(&cols, &numeric, &label, &vec![], &vec![], &names(&["d"]));
    assert_eq!(sorted(all), names(&["a", "b", "c"]));
    assert_eq!(sorted(cat), names(&["b"]));
}

#[test]
fn features_from_lists() {
    let cols = names(&["a", "y", "b", "c", "d"]);
    let numeric = vec![true, true, false, true, false];
    let label = "y".to_string();
    let (all, cat) = select_features(
        &cols,
        &numeric,
        &label,
        &names(&["c", "a", "c", "d"]),
        &names(&["a", "b", "x"]),
        &names(&["d", "q"]),
    );
    assert_eq!(sorted(all), names(&["a", "c"]));
    assert_eq!(sorted(cat), names(&["a"]));
    // With no categorical list, the text columns among the features are.
    let (all, cat) = select_features(&cols, &numeric, &label, &names(&["d", "b", "a"]), &vec![], &vec![]);
    assert_eq!(sorted(all), names(&["a", "b", "d"]));
    assert_eq!(sorted(cat), names(&["b", "d"]));
}
