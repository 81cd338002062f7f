use folder_sync::commands::{command_for_mode, Commands};
use folder_sync::backup::{backup_to_ssd, execute_backup};
use folder_sync::folders::execute_create_folders;
use folder_sync::tree::{DirEntry, FsTree};
use folder_sync::utils::{
    count_copies, count_files, count_ticks, CopyDecision, SyncError, SyncJob,
};

fn o_file(len: u64, mtime: u64) -> FsTree {
    FsTree::File { len, mtime }
}

fn o_dir(children: Vec<(&str, FsTree)>) -> FsTree {
    let entries = children
        .into_iter()
        .map(|(name, tree)| DirEntry { name: name.to_string(), tree })
        .collect();
    FsTree::Dir { entries }
}

fn o_comps(parts: &[&str]) -> Vec<String> {
    parts.iter().map(|p| p.to_string()).collect()
}

fn o_job(
    source_path: &[&str],
    dest_path: &[&str],
    overwrite: bool,
    source: Option<FsTree>,
    dest: Option<FsTree>,
) -> SyncJob {
    SyncJob {
        source_path: o_comps(source_path),
        dest_path: o_comps(dest_path),
        overwrite,
        source,
        dest,
    }
}

#[test]
fn mode_one_is_backup_and_mode_two_is_folders() {
    assert_eq!(command_for_mode(1), Some(Commands::BackupToSsd));
    assert_eq!(command_for_mode(2), Some(Commands::CreateFolders));
    assert_eq!(command_for_mode(0), None);
    assert_eq!(command_for_mode(3), None);
    assert_eq!(command_for_mode(u32::MAX), None);
}

#[test]
fn missing_source_fails_the_job_without_touching_the_destination() {
    let job = o_job(&["src"], &["dst"], true, None, Some(o_file(5, 5)));
    let r = backup_to_ssd(job, &vec![]);
    assert_eq!(
        r.error,
        Some(SyncError::SourceMissing { path: o_comps(&["src"]) })
    );
    assert_eq!(r.dest, Some(o_file(5, 5)));
    assert!(r.actions.is_empty());
}

#[test]
fn counting_sums_all_roots_and_treats_missing_roots_as_zero() {
    let jobs = vec![
        o_job(&["a"], &["b"], false, Some(o_dir(vec![
            ("x.txt", o_file(1, 1)),
            ("y.txt", o_file(2, 2)),
        ])), None),
        o_job(&["c"], &["d"], false, None, None),
        o_job(&["e"], &["f"], false, Some(o_file(3, 3)), None),
    ];
    assert_eq!(count_files(&jobs), 3);
}

#[test]
fn one_failing_job_does_not_disturb_its_sibling() {
    // two jobs with disjoint roots; the second one's source is missing:
    // the valid job completes fully, the invalid one only reports its failure
    let jobs = vec![
        o_job(
            &["srcA"],
            &["dstA"],
            false,
            Some(o_dir(vec![("x.txt", o_file(1, 1))])),
            None,
        ),
        o_job(&["srcB"], &["dstB"], false, None, None),
    ];
    let report = execute_backup(jobs, &vec![]);
    assert_eq!(report.total, 1);
    assert_eq!(report.outcomes.len(), 2);
    let good = &report.outcomes[0];
    assert_eq!(good.error, None);
    assert_eq!(good.dest, Some(o_dir(vec![("x.txt", o_file(1, 1))])));
    assert_eq!(count_ticks(&good.actions), 1);
    let bad = &report.outcomes[1];
    assert_eq!(
        bad.error,
        Some(SyncError::SourceMissing { path: o_comps(&["srcB"]) })
    );
    assert!(bad.actions.is_empty());
    // the progress the run emits stays within the pre-computed ceiling
    assert!(count_ticks(&good.actions) + count_ticks(&bad.actions) <= report.total);
}

#[test]
fn jobs_share_one_exclusion_list() {
    let tree = || o_dir(vec![("skip", o_dir(vec![("d.txt", o_file(1, 1))]))]);
    let jobs = vec![
        o_job(&["a"], &["b"], false, Some(tree()), None),
        o_job(&["c"], &["d"], false, Some(tree()), None),
    ];
    let report = execute_backup(jobs, &vec![o_comps(&["skip"])]);
    for outcome in &report.outcomes {
        assert_eq!(outcome.dest, Some(o_dir(vec![])));
        assert_eq!(count_ticks(&outcome.actions), 0);
    }
}

#[test]
fn skeleton_creates_directories_and_never_files() {
    let source = o_dir(vec![
        ("b", o_dir(vec![("deep", o_dir(vec![]))])),
        ("c.txt", o_file(3, 10)),
    ]);
    let r = execute_create_folders(Some(&source), &o_comps(&["a"]), None).unwrap();
    assert_eq!(r.error, None);
    let expected = o_dir(vec![("b", o_dir(vec![("deep", o_dir(vec![]))]))]);
    assert_eq!(r.dest, Some(expected));
    assert_eq!(r.actions.len(), 3);
    for a in &r.actions {
        assert_eq!(a.decision, CopyDecision::DirectoryCreate);
    }
    assert_eq!(count_ticks(&r.actions), 0);
}

#[test]
fn skeleton_keeps_existing_directories() {
    let source = o_dir(vec![("b", o_dir(vec![]))]);
    let dest = o_dir(vec![
        ("b", o_dir(vec![("old", o_dir(vec![]))])),
        ("other", o_file(1, 1)),
    ]);
    let r = execute_create_folders(Some(&source), &o_comps(&["a"]), Some(dest)).unwrap();
    assert_eq!(r.error, None);
    // nothing needed creating, nothing was removed
    assert!(r.actions.is_empty());
    assert_eq!(
        r.dest,
        Some(o_dir(vec![
            ("b", o_dir(vec![("old", o_dir(vec![]))])),
            ("other", o_file(1, 1)),
        ]))
    );
}

#[test]
fn skeleton_with_missing_source_is_refused() {
    let r = execute_create_folders(None, &o_comps(&["gone"]), None);
    assert_eq!(
        r,
        Err(SyncError::SourceMissing { path: o_comps(&["gone"]) })
    );
}

#[test]
fn skeleton_cannot_create_below_a_destination_file() {
    // the destination root exists as a file: creation is skipped, and the
    // first directory child then fails because nothing can be created there
    let source = o_dir(vec![("b", o_dir(vec![]))]);
    let r = execute_create_folders(Some(&source), &o_comps(&["a"]), Some(o_file(7, 7))).unwrap();
    assert_eq!(
        r.error,
        Some(SyncError::Traversal { path: o_comps(&["a", "b"]) })
    );
    assert_eq!(r.dest, Some(o_file(7, 7)));
}

#[test]
fn skeleton_over_destination_file_with_only_file_children_passes() {
    // file children are never inspected, so nothing fails
    let source = o_dir(vec![("c.txt", o_file(1, 1))]);
    let r = execute_create_folders(Some(&source), &o_comps(&["a"]), Some(o_file(7, 7))).unwrap();
    assert_eq!(r.error, None);
    assert_eq!(r.dest, Some(o_file(7, 7)));
}

#[test]
fn backup_report_counts_copies_per_job() {
    let jobs = vec![o_job(
        &["src"],
        &["dst"],
        true,
        Some(o_dir(vec![
            ("a.txt", o_file(1, 1)),
            ("b.txt", o_file(2, 2)),
        ])),
        Some(o_dir(vec![("a.txt", o_file(1, 1))])),
    )];
    let report = execute_backup(jobs, &vec![]);
    let outcome = &report.outcomes[0];
    assert_eq!(outcome.error, None);
    // a.txt is unchanged, b.txt is new: one copy, two ticks
    assert_eq!(count_copies(&outcome.actions), 1);
    assert_eq!(count_ticks(&outcome.actions), 2);
}
