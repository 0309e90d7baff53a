use dev_cleaner_core::filters::Filters;
use dev_cleaner_core::folderscan::path_is_prefix_of;
use dev_cleaner_core::folderscan::scan_entries;
use dev_cleaner_core::folderscan::scan_folders;
use dev_cleaner_core::folderscan::select_by_indices;
use dev_cleaner_core::folderscan::Entry;
use dev_cleaner_core::folderscan::EntryKind;

fn path(components: &[&str]) -> Vec<String> {
    components.iter().map(|c| c.to_string()).collect()
}

fn dir(components: &[&str]) -> Entry {
    Entry { path: path(components), kind: EntryKind::Directory }
}

fn file(components: &[&str]) -> Entry {
    Entry { path: path(components), kind: EntryKind::File }
}

fn symlink(components: &[&str]) -> Entry {
    Entry { path: path(components), kind: EntryKind::Symlink }
}

fn filters(patterns: &[&str]) -> Filters {
    Filters::new(patterns.iter().map(|p| p.to_string()).collect())
}

#[test]
fn nested_self_match_is_pruned() {
    // /root/project/node_modules/node_modules: only the outer one is found.
    let entries = vec![
        dir(&["/", "root"]),
        dir(&["/", "root", "project"]),
        dir(&["/", "root", "project", "node_modules"]),
        dir(&["/", "root", "project", "node_modules", "node_modules"]),
    ];
    let found = scan_entries(&entries, &filters(&["node_modules"]));
    assert_eq!(found, vec![path(&["/", "root", "project", "node_modules"])]);
}

#[test]
fn default_filter_scenario() {
    // /a/dist, /a/target, /a/target/dist (nested), /b/node_modules under the
    // default patterns: the nested dist is beneath the matched target.
    let mut defaults = Filters::new(Vec::new());
    defaults.reset();
    let entries = vec![
        dir(&["/"]),
        dir(&["/", "a"]),
        dir(&["/", "a", "dist"]),
        dir(&["/", "a", "target"]),
        dir(&["/", "a", "target", "dist"]),
        dir(&["/", "b"]),
        dir(&["/", "b", "node_modules"]),
    ];
    let found = scan_entries(&entries, &defaults);
    assert_eq!(
        found,
        vec![
            path(&["/", "a", "dist"]),
            path(&["/", "a", "target"]),
            path(&["/", "b", "node_modules"]),
        ]
    );
}

#[test]
fn empty_pattern_list_finds_nothing() {
    let entries = vec![dir(&["/", "a"]), dir(&["/", "a", "dist"])];
    let found = scan_entries(&entries, &filters(&[]));
    assert_eq!(found.len(), 0);
}

#[test]
fn empty_walk_finds_nothing() {
    let found = scan_entries(&Vec::new(), &filters(&["dist"]));
    assert_eq!(found.len(), 0);
}

#[test]
fn matching_root_is_reported_and_prunes_everything_beneath() {
    let entries = vec![
        dir(&["/", "work", "target"]),
        dir(&["/", "work", "target", "debug"]),
        dir(&["/", "work", "target", "debug", "target"]),
    ];
    let found = scan_entries(&entries, &filters(&["target"]));
    assert_eq!(found, vec![path(&["/", "work", "target"])]);
}

#[test]
fn files_and_symlinks_never_match() {
    let entries = vec![
        dir(&["/", "a"]),
        file(&["/", "a", "dist"]),
        symlink(&["/", "a", "node_modules"]),
        dir(&["/", "a", "out"]),
    ];
    let found = scan_entries(&entries, &filters(&["dist", "node_modules", "out"]));
    assert_eq!(found, vec![path(&["/", "a", "out"])]);
}

#[test]
fn pruning_only_applies_beneath_matches() {
    // A sibling of a match with the same name deeper down is still found.
    let entries = vec![
        dir(&["/", "a"]),
        dir(&["/", "a", "dist"]),
        dir(&["/", "b"]),
        dir(&["/", "b", "sub"]),
        dir(&["/", "b", "sub", "dist"]),
    ];
    let found = scan_entries(&entries, &filters(&["dist"]));
    assert_eq!(found, vec![path(&["/", "a", "dist"]), path(&["/", "b", "sub", "dist"])]);
}

#[test]
fn rescanning_the_same_entries_gives_the_same_result() {
    let entries = || {
        vec![
            dir(&["/", "a"]),
            dir(&["/", "a", "target"]),
            file(&["/", "a", "readme"]),
            dir(&["/", "b"]),
            dir(&["/", "b", "dist"]),
        ]
    };
    let first = scan_entries(&entries(), &filters(&["target", "dist"]));
    let second = scan_entries(&entries(), &filters(&["target", "dist"]));
    assert_eq!(first, second);
    assert_eq!(first, vec![path(&["/", "a", "target"]), path(&["/", "b", "dist"])]);
}

#[test]
fn scanning_a_missing_root_finds_nothing() {
    let root = path(&["/", "no", "such", "directory", "anywhere", "at", "all"]);
    let found = scan_folders(&root, &filters(&["target"]));
    assert_eq!(found.len(), 0);
}

#[test]
fn prefix_check_works_component_wise() {
    assert!(path_is_prefix_of(&path(&["/", "a"]), &path(&["/", "a"])));
    assert!(path_is_prefix_of(&path(&["/", "a"]), &path(&["/", "a", "dist"])));
    assert!(!path_is_prefix_of(&path(&["/", "a", "dist"]), &path(&["/", "a"])));
    // A string prefix of a component is not a component prefix.
    assert!(!path_is_prefix_of(&path(&["/", "a"]), &path(&["/", "ab"])));
    assert!(!path_is_prefix_of(&path(&["/", "b"]), &path(&["/", "a", "b"])));
}

#[test]
fn select_by_indices_picks_in_given_order() {
    let matches = vec![path(&["/", "a"]), path(&["/", "b"]), path(&["/", "c"])];
    let selected = select_by_indices(&matches, &vec![2usize, 0usize]);
    assert_eq!(selected, vec![path(&["/", "c"]), path(&["/", "a"])]);
}

#[test]
fn select_by_no_indices_picks_nothing() {
    let matches = vec![path(&["/", "a"])];
    let selected = select_by_indices(&matches, &Vec::new());
    assert_eq!(selected.len(), 0);
}
