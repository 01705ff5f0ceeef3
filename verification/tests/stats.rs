use query_term::stats::{create_all_stats, IndexReport};

fn report(uid: &str, database_size: u64, updated_at: i128, authorized: bool) -> IndexReport {
    IndexReport { uid: uid.to_string(), database_size, updated_at, authorized }
}

#[test]
fn sizes_of_all_indexes_count() {
    let reports = vec![
        report("movies", 100, 50, true),
        report("secret", 1000, 90, false),
        report("books", 10, 70, true),
    ];
    let stats = create_all_stats(&reports, 1, 2, 3);
    assert_eq!(stats.database_size, 1116);
    assert_eq!(stats.last_update, Some(70));
    assert_eq!(stats.indexes, vec!["movies".to_string(), "books".to_string()]);
}

#[test]
fn no_index_gives_no_update() {
    let stats = create_all_stats(&Vec::new(), 5, 6, 7);
    assert_eq!(stats.database_size, 18);
    assert_eq!(stats.last_update, None);
    assert!(stats.indexes.is_empty());
}

#[test]
fn hidden_indexes_give_no_update() {
    let reports = vec![report("secret", 8, 90, false)];
    let stats = create_all_stats(&reports, 0, 0, 0);
    assert_eq!(stats.database_size, 8);
    assert_eq!(stats.last_update, None);
    assert!(stats.indexes.is_empty());
}

#[test]
fn latest_update_may_come_first_and_be_negative() {
    let reports = vec![report("a", 0, -5, true), report("b", 0, -9, true)];
    let stats = create_all_stats(&reports, 0, 0, u64::MAX);
    assert_eq!(stats.database_size, u64::MAX);
    assert_eq!(stats.last_update, Some(-5));
    assert_eq!(stats.indexes, vec!["a".to_string(), "b".to_string()]);
}
