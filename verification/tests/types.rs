use ici_core::types::make_group_id;

#[test]
fn empty_columns_yield_one_group() {
    assert_eq!(make_group_id(&[], 5), vec![0, 0, 0, 0, 0]);
}

#[test]
fn groups_rows_sharing_a_key() {
    let col = vec!["A", "A", "B", "A", "B"]
        .into_iter()
        .map(String::from)
        .collect::<Vec<_>>();
    let ids = make_group_id(&[col], 5);
    assert_eq!(ids[0], ids[1]);
    assert_eq!(ids[1], ids[3]);
    assert_eq!(ids[2], ids[4]);
    assert_ne!(ids[0], ids[2]);
}

#[test]
fn combines_multiple_columns() {
    let a = vec!["A", "A", "A", "A"]
        .into_iter()
        .map(String::from)
        .collect::<Vec<_>>();
    let b = vec!["1", "1", "2", "2"]
        .into_iter()
        .map(String::from)
        .collect::<Vec<_>>();
    let ids = make_group_id(&[a, b], 4);
    assert_eq!(ids[0], ids[1]);
    assert_ne!(ids[0], ids[2]);
    assert_eq!(ids[2], ids[3]);
}

#[test]
fn group_ids_are_ranks_of_sorted_keys() {
    let col: Vec<String> = vec!["b", "a", "c", "a", "é", "b"].into_iter().map(String::from).collect();
    assert_eq!(make_group_id(&[col], 6), vec![1, 0, 2, 0, 3, 1]);
}

#[test]
fn separator_keeps_column_boundaries_apart() {
    let a: Vec<String> = vec!["ab", "a"].into_iter().map(String::from).collect();
    let b: Vec<String> = vec!["c", "bc"].into_iter().map(String::from).collect();
    let ids = make_group_id(&[a, b], 2);
    assert_ne!(ids[0], ids[1]);
    // "a\u{1f}bc" sorts before "ab\u{1f}c".
    assert_eq!(ids, vec![1, 0]);
}

#[test]
fn fewer_rows_than_column_cells() {
    let col: Vec<String> = vec!["z", "y", "x"].into_iter().map(String::from).collect();
    assert_eq!(make_group_id(&[col], 2), vec![1, 0]);
}
