use folder_sync::tree::{count_files_recursive, DirEntry, FsTree};
use folder_sync::exclude::is_excluded;
use folder_sync::utils::{
    copy_recursive, count_copies, count_ticks, CopyDecision, SyncError, SyncOutcome,
};

fn ft_file(len: u64, mtime: u64) -> FsTree {
    FsTree::File { len, mtime }
}

fn ft_dir(children: Vec<(&str, FsTree)>) -> FsTree {
    let entries = children
        .into_iter()
        .map(|(name, tree)| DirEntry { name: name.to_string(), tree })
        .collect();
    FsTree::Dir { entries }
}

fn comps(parts: &[&str]) -> Vec<String> {
    parts.iter().map(|p| p.to_string()).collect()
}

fn pat_list(pats: &[&[&str]]) -> Vec<Vec<String>> {
    pats.iter().map(|p| comps(p)).collect()
}

fn run_copy(
    source: &FsTree,
    path: &[&str],
    overwrite: bool,
    pats: &[&[&str]],
    dest: Option<FsTree>,
) -> SyncOutcome {
    let p = comps(path);
    let dest_name = p.last().unwrap().clone();
    copy_recursive(source, &p, &dest_name, overwrite, &pat_list(pats), dest)
}

#[test]
fn exclusion_matches_whole_trailing_component_only() {
    // a pattern must equal the final component exactly, not a prefix of it
    assert!(is_excluded(&comps(&["home", "log"]), &pat_list(&[&["log"]])));
    assert!(!is_excluded(&comps(&["home", "logs"]), &pat_list(&[&["log"]])));
    assert!(!is_excluded(&comps(&["home", "mylog"]), &pat_list(&[&["log"]])));
}

#[test]
fn exclusion_matches_multi_component_suffix() {
    let pats = pat_list(&[&["node_modules", "cache"]]);
    assert!(is_excluded(&comps(&["p", "node_modules", "cache"]), &pats));
    assert!(!is_excluded(&comps(&["p", "node_modules", "cache2"]), &pats));
    assert!(!is_excluded(&comps(&["p", "cache"]), &pats));
    // a pattern longer than the path cannot match
    assert!(!is_excluded(&comps(&["cache"]), &pats));
}

#[test]
fn exclusion_with_no_patterns_matches_nothing() {
    assert!(!is_excluded(&comps(&["a", "b"]), &pat_list(&[])));
}

#[test]
fn exclusion_checks_any_pattern_of_the_list() {
    let pats = pat_list(&[&["tmp"], &["skip"]]);
    assert!(is_excluded(&comps(&["x", "skip"]), &pats));
    assert!(is_excluded(&comps(&["x", "tmp"]), &pats));
    assert!(!is_excluded(&comps(&["x", "keep"]), &pats));
}

#[test]
fn counting_counts_every_leaf_and_ignores_exclusions() {
    // the counting pre-pass has no exclusion parameter at all: entries that a
    // copy run would prune (here "skip") are still counted
    let tree = ft_dir(vec![
        ("b", ft_dir(vec![("c.txt", ft_file(3, 10))])),
        ("skip", ft_dir(vec![("d.txt", ft_file(4, 11))])),
        ("e.txt", ft_file(5, 12)),
    ]);
    assert_eq!(count_files_recursive(&tree), 3);
}

#[test]
fn counting_a_lone_file_gives_one() {
    assert_eq!(count_files_recursive(&ft_file(9, 9)), 1);
}

#[test]
fn counting_an_empty_directory_gives_zero() {
    assert_eq!(count_files_recursive(&ft_dir(vec![])), 0);
}

#[test]
fn fresh_copy_mirrors_the_source() {
    let source = ft_dir(vec![("b", ft_dir(vec![("c.txt", ft_file(3, 10))]))]);
    let r = run_copy(&source, &["a"], false, &[], None);
    assert_eq!(r.error, None);
    assert_eq!(r.dest, Some(source));
    assert_eq!(count_copies(&r.actions), 1);
    assert_eq!(count_ticks(&r.actions), 1);
}

#[test]
fn excluded_subtree_is_not_created_at_all() {
    // source {a/b/c.txt, a/skip/d.txt}, exclusion ["skip"]: the copy creates
    // a/b/c.txt and not even an empty a/skip directory
    let source = ft_dir(vec![
        ("b", ft_dir(vec![("c.txt", ft_file(3, 10))])),
        ("skip", ft_dir(vec![("d.txt", ft_file(4, 11))])),
    ]);
    let r = run_copy(&source, &["a"], false, &[&["skip"]], None);
    assert_eq!(r.error, None);
    let expected = ft_dir(vec![("b", ft_dir(vec![("c.txt", ft_file(3, 10))]))]);
    assert_eq!(r.dest, Some(expected));
    // one pruning decision is recorded, and nothing below the pruned path
    let excluded: Vec<_> = r
        .actions
        .iter()
        .filter(|a| a.decision == CopyDecision::Excluded)
        .collect();
    assert_eq!(excluded.len(), 1);
    assert_eq!(excluded[0].path, comps(&["a", "skip"]));
    for a in &r.actions {
        assert!(!(a.path.len() > 2 && a.path[1] == "skip"));
    }
    // the pruned subtree never ticks: only c.txt does
    assert_eq!(count_ticks(&r.actions), 1);
}

#[test]
fn second_run_without_overwrite_copies_nothing() {
    let build = || {
        ft_dir(vec![
            ("b", ft_dir(vec![("c.txt", ft_file(3, 10))])),
            ("e.txt", ft_file(5, 12)),
        ])
    };
    let source = build();
    let r1 = run_copy(&source, &["a"], false, &[], None);
    assert_eq!(count_copies(&r1.actions), 2);
    let r2 = run_copy(&source, &["a"], false, &[], r1.dest);
    assert_eq!(count_copies(&r2.actions), 0);
    assert_eq!(r2.dest, Some(build()));
    assert_eq!(r2.error, None);
    // skipped files still tick
    assert_eq!(count_ticks(&r2.actions), 2);
}

#[test]
fn second_run_with_overwrite_skips_unchanged_files() {
    let source = ft_dir(vec![("c.txt", ft_file(3, 10))]);
    let r1 = run_copy(&source, &["a"], true, &[], None);
    assert_eq!(count_copies(&r1.actions), 1);
    let r2 = run_copy(&source, &["a"], true, &[], r1.dest);
    assert_eq!(count_copies(&r2.actions), 0);
    assert!(r2
        .actions
        .iter()
        .any(|a| a.decision == CopyDecision::FileSkipUnchanged));
    assert_eq!(r2.dest, Some(ft_dir(vec![("c.txt", ft_file(3, 10))])));
}

#[test]
fn changed_file_is_recopied_and_others_left_alone() {
    // an initial copy, then the source file's content (and stamp) changes:
    // the rerun with overwrite copies exactly that file
    let v1 = ft_dir(vec![
        ("c.txt", ft_file(3, 10)),
        ("d.txt", ft_file(7, 20)),
    ]);
    let r1 = run_copy(&v1, &["a"], true, &[], None);
    assert_eq!(count_copies(&r1.actions), 2);
    let v2 = ft_dir(vec![
        ("c.txt", ft_file(4, 33)),
        ("d.txt", ft_file(7, 20)),
    ]);
    let r2 = run_copy(&v2, &["a"], true, &[], r1.dest);
    assert_eq!(count_copies(&r2.actions), 1);
    assert_eq!(r2.error, None);
    let copied: Vec<_> = r2
        .actions
        .iter()
        .filter(|a| a.decision == CopyDecision::FileCopy)
        .collect();
    assert_eq!(copied[0].path, comps(&["a", "c.txt"]));
    assert_eq!(
        r2.dest,
        Some(ft_dir(vec![
            ("c.txt", ft_file(4, 33)),
            ("d.txt", ft_file(7, 20)),
        ]))
    );
}

#[test]
fn existing_file_is_kept_when_overwrite_is_off() {
    let source = ft_dir(vec![("c.txt", ft_file(3, 10))]);
    let stale = ft_dir(vec![("c.txt", ft_file(99, 1))]);
    let r = run_copy(&source, &["a"], false, &[], Some(stale));
    assert_eq!(count_copies(&r.actions), 0);
    assert!(r
        .actions
        .iter()
        .any(|a| a.decision == CopyDecision::FileSkipNoOverwrite));
    // the stale destination content survives
    assert_eq!(r.dest, Some(ft_dir(vec![("c.txt", ft_file(99, 1))])));
}

#[test]
fn renamed_destination_root_file_is_always_recopied() {
    // at the root a file may carry another name at the destination; the name
    // criterion then fails and the file is copied again on every run
    let source = ft_file(3, 10);
    let p = comps(&["a", "x.txt"]);
    let dname = "y.txt".to_string();
    let pats: Vec<Vec<String>> = vec![];
    let r1 = copy_recursive(&source, &p, &dname, true, &pats, None);
    assert_eq!(count_copies(&r1.actions), 1);
    let r2 = copy_recursive(&source, &p, &dname, true, &pats, r1.dest);
    assert_eq!(count_copies(&r2.actions), 1);
}

#[test]
fn directory_over_existing_file_aborts_that_subtree() {
    let source = ft_dir(vec![("b", ft_dir(vec![]))]);
    let dest = ft_dir(vec![("b", ft_file(1, 1))]);
    let r = run_copy(&source, &["a"], true, &[], Some(dest));
    assert_eq!(
        r.error,
        Some(SyncError::Traversal { path: comps(&["a", "b"]) })
    );
    // the conflicting entry is left as it was
    assert_eq!(r.dest, Some(ft_dir(vec![("b", ft_file(1, 1))])));
}

#[test]
fn file_over_existing_directory_aborts_under_overwrite() {
    let source = ft_dir(vec![("b", ft_file(1, 1))]);
    let dest = ft_dir(vec![("b", ft_dir(vec![]))]);
    let r = run_copy(&source, &["a"], true, &[], Some(dest));
    assert_eq!(
        r.error,
        Some(SyncError::Traversal { path: comps(&["a", "b"]) })
    );
    // a failed copy emits no tick
    assert_eq!(count_ticks(&r.actions), 0);
}

#[test]
fn abort_skips_later_siblings() {
    let source = ft_dir(vec![
        ("b", ft_dir(vec![])),
        ("c.txt", ft_file(2, 2)),
    ]);
    let dest = ft_dir(vec![("b", ft_file(1, 1))]);
    let r = run_copy(&source, &["a"], false, &[], Some(dest));
    assert!(r.error.is_some());
    // c.txt was never visited
    assert!(!r.actions.iter().any(|a| a.path == comps(&["a", "c.txt"])));
}

#[test]
fn excluded_root_leaves_destination_untouched() {
    let source = ft_dir(vec![("b", ft_file(1, 1))]);
    let dest = ft_dir(vec![("old", ft_file(9, 9))]);
    let r = run_copy(&source, &["backups", "skip"], true, &[&["skip"]], Some(dest));
    assert_eq!(r.error, None);
    assert_eq!(r.dest, Some(ft_dir(vec![("old", ft_file(9, 9))])));
    assert_eq!(r.actions.len(), 1);
    assert_eq!(r.actions[0].decision, CopyDecision::Excluded);
    assert_eq!(count_ticks(&r.actions), 0);
}

#[test]
fn deeply_nested_tree_round_trips() {
    let build = || {
        ft_dir(vec![(
            "l1",
            ft_dir(vec![(
                "l2",
                ft_dir(vec![("l3", ft_dir(vec![("x.txt", ft_file(8, 80))]))]),
            )]),
        )])
    };
    let source = build();
    let r1 = run_copy(&source, &["root"], false, &[], None);
    assert_eq!(r1.error, None);
    assert_eq!(r1.dest, Some(build()));
    assert_eq!(count_copies(&r1.actions), 1);
    let r2 = run_copy(&source, &["root"], false, &[], r1.dest);
    assert_eq!(count_copies(&r2.actions), 0);
    assert_eq!(r2.dest, Some(build()));
}

#[test]
fn multi_component_pattern_prunes_only_its_full_suffix() {
    // pattern b/c prunes the subtree whose path ends with exactly b, c —
    // a directory named c elsewhere is copied
    let source = ft_dir(vec![
        ("b", ft_dir(vec![("c", ft_dir(vec![("x.txt", ft_file(1, 1))]))])),
        ("c", ft_dir(vec![("y.txt", ft_file(2, 2))])),
    ]);
    let r = run_copy(&source, &["a"], false, &[&["b", "c"]], None);
    assert_eq!(r.error, None);
    let expected = ft_dir(vec![
        ("b", ft_dir(vec![])),
        ("c", ft_dir(vec![("y.txt", ft_file(2, 2))])),
    ]);
    assert_eq!(r.dest, Some(expected));
    assert_eq!(count_copies(&r.actions), 1);
}

#[test]
fn tick_and_copy_counters_count_exactly() {
    let source = ft_dir(vec![
        ("a.txt", ft_file(1, 1)),
        ("b.txt", ft_file(2, 2)),
        ("sub", ft_dir(vec![("c.txt", ft_file(3, 3))])),
    ]);
    let r = run_copy(&source, &["root"], false, &[], None);
    // three file copies tick three times; directories never tick
    assert_eq!(count_copies(&r.actions), 3);
    assert_eq!(count_ticks(&r.actions), 3);
    // four visited entries in all: the root, two files, the subdirectory, its file
    assert_eq!(r.actions.len(), 5);
}
