use dev_cleaner_core::folderscan::partition_removals;

fn path(components: &[&str]) -> Vec<String> {
    components.iter().map(|c| c.to_string()).collect()
}

#[test]
fn empty_batch_yields_two_empty_lists() {
    let (removed, failed) = partition_removals(&Vec::new(), &Vec::new());
    assert_eq!(removed.len(), 0);
    assert_eq!(failed.len(), 0);
}

#[test]
fn failed_path_lands_only_in_failed() {
    let paths = vec![path(&["/", "no", "such", "path"])];
    let (removed, failed) = partition_removals(&paths, &vec![false]);
    assert_eq!(removed.len(), 0);
    assert_eq!(failed, vec![path(&["/", "no", "such", "path"])]);
}

#[test]
fn partition_preserves_order_and_counts() {
    let paths = vec![
        path(&["/", "a"]),
        path(&["/", "b"]),
        path(&["/", "c"]),
        path(&["/", "d"]),
    ];
    let outcomes = vec![true, false, true, false];
    let (removed, failed) = partition_removals(&paths, &outcomes);
    assert_eq!(removed, vec![path(&["/", "a"]), path(&["/", "c"])]);
    assert_eq!(failed, vec![path(&["/", "b"]), path(&["/", "d"])]);
    assert_eq!(removed.len() + failed.len(), paths.len());
}

#[test]
fn all_successes_leave_failed_empty() {
    let paths = vec![path(&["/", "a"]), path(&["/", "b"])];
    let (removed, failed) = partition_removals(&paths, &vec![true, true]);
    assert_eq!(removed, paths);
    assert_eq!(failed.len(), 0);
}
