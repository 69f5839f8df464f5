use patchr::apply::{apply, apply_all, apply_one, Job, DEFAULT_MODE};
use patchr::change::{FileChange, PackageIdentity, PatchFile};
use patchr::diff::generate;
use patchr::filter::Filter;
use patchr::hunk::Hunk;
use patchr::lock::{apply_locked, ApplyError, TargetLocks};
use patchr::merge::{merge_hunks, trim, try_merge_hunk, ApplyOutcome, Conflict};
use patchr::snapshot::Snapshot;

fn tree(files: &[(&str, &str)]) -> Snapshot {
    let mut snapshot = Snapshot::new();
    for (path, content) in files {
        snapshot = snapshot.with_file(path.as_bytes().to_vec(), content.as_bytes().to_vec(), 0o755);
    }
    snapshot
}

fn lines(text: &[&str]) -> Vec<Vec<u8>> {
    text.iter().map(|l| l.as_bytes().to_vec()).collect()
}

fn package() -> PackageIdentity {
    PackageIdentity { scope: None, name: b"left-pad".to_vec(), version: b"1.3.0".to_vec() }
}

fn b_to_b2() -> Hunk {
    Hunk {
        old_start: 1,
        old_lines: 3,
        new_start: 1,
        new_lines: 3,
        context_before: lines(&["A\n"]),
        removed: lines(&["B\n"]),
        added: lines(&["B2\n"]),
        context_after: lines(&["C\n"]),
    }
}

fn patch_of(changes: Vec<FileChange>) -> PatchFile {
    PatchFile { package: package(), changes }
}

#[test]
fn applying_a_generated_patch_gives_the_edited_tree() {
    let pristine = tree(&[("lib/a.js", "one\ntwo\nthree\n"), ("b.txt", "keep\n")]);
    let edited = tree(&[("lib/a.js", "one\ntwo\nadded\nthree\n"), ("b.txt", "keep\n")]);
    let filter = Filter::everything();
    let patch = generate(&pristine, &edited, &filter, package());
    let (result, report) = apply(&patch, &pristine.copy(), &filter);
    assert_eq!(result, edited);
    assert!(report.fully_applied);
    assert_eq!(report.files.len(), 1);
    assert_eq!(report.files[0].path, b"lib/a.js".to_vec());
    assert_eq!(report.files[0].outcomes, vec![ApplyOutcome::Applied { at_line: 1 }]);
    assert!(report.files[0].written);
}

#[test]
fn hunk_whose_lines_are_gone_conflicts_and_leaves_the_file() {
    let original = tree(&[("f.txt", "A\nB\nC\n")]);
    let changed = tree(&[("f.txt", "A\nB2\nC\n")]);
    let filter = Filter::everything();
    let patch = generate(&original, &changed, &filter, package());
    let target = tree(&[("f.txt", "A\nX\nC\n")]);
    let (result, report) = apply(&patch, &target, &filter);
    assert_eq!(result, target);
    assert!(!report.fully_applied);
    assert_eq!(
        report.files[0].outcomes,
        vec![ApplyOutcome::Conflicted { reason: Conflict::ContextNotFound }]
    );
    assert!(!report.files[0].written);
}

#[test]
fn hunk_is_found_where_its_lines_have_moved_to() {
    let file = lines(&["new\n", "top\n", "A\n", "B\n", "C\n"]);
    let merged = merge_hunks(&file, &vec![b_to_b2()]);
    assert_eq!(merged.outcomes, vec![ApplyOutcome::Applied { at_line: 3 }]);
    assert_eq!(merged.lines, lines(&["new\n", "top\n", "A\n", "B2\n", "C\n"]));
}

#[test]
fn hunk_is_applied_loosely_when_context_differs_in_blanks() {
    let file = lines(&["x\n", "A  \r\n", "B\n", "\tC\n"]);
    let merged = merge_hunks(&file, &vec![b_to_b2()]);
    assert_eq!(merged.outcomes, vec![ApplyOutcome::AppliedFuzzy { at_line: 2, offset: 1 }]);
    assert_eq!(merged.lines, lines(&["x\n", "A  \r\n", "B2\n", "\tC\n"]));
}

#[test]
fn removed_lines_must_match_exactly_even_loosely() {
    let file = lines(&["A\n", "B \n", "C\n"]);
    let (next, outcome) = try_merge_hunk(&file, &b_to_b2(), 3);
    assert_eq!(next, None);
    assert_eq!(outcome, ApplyOutcome::Conflicted { reason: Conflict::ContextNotFound });
}

#[test]
fn one_conflict_does_not_stop_the_other_hunks() {
    let second = Hunk {
        old_start: 5,
        old_lines: 2,
        new_start: 5,
        new_lines: 3,
        context_before: lines(&["Y\n"]),
        removed: vec![],
        added: lines(&["new\n"]),
        context_after: lines(&["Z\n"]),
    };
    let file = lines(&["A\n", "changed\n", "C\n", "x\n", "Y\n", "Z\n"]);
    let merged = merge_hunks(&file, &vec![b_to_b2(), second]);
    assert_eq!(
        merged.outcomes,
        vec![
            ApplyOutcome::Conflicted { reason: Conflict::ContextNotFound },
            ApplyOutcome::Applied { at_line: 5 },
        ]
    );
    let target = tree(&[("f", "A\nchanged\nC\nx\nY\nZ\n")]);
    let patch = patch_of(vec![FileChange::Modified {
        path: b"f".to_vec(),
        hunks: vec![b_to_b2(), Hunk {
            old_start: 5,
            old_lines: 2,
            new_start: 5,
            new_lines: 3,
            context_before: lines(&["Y\n"]),
            removed: vec![],
            added: lines(&["new\n"]),
            context_after: lines(&["Z\n"]),
        }],
    }]);
    let (result, report) = apply(&patch, &target, &Filter::everything());
    assert_eq!(result, target);
    assert!(!report.files[0].written);
    assert!(!report.fully_applied);
}

#[test]
fn later_hunks_are_expected_where_earlier_ones_moved_them() {
    let first = Hunk {
        old_start: 1,
        old_lines: 1,
        new_start: 1,
        new_lines: 3,
        context_before: vec![],
        removed: vec![],
        added: lines(&["h1\n", "h2\n"]),
        context_after: lines(&["a\n"]),
    };
    let second = Hunk {
        old_start: 3,
        old_lines: 1,
        new_start: 5,
        new_lines: 1,
        context_before: vec![],
        removed: lines(&["c\n"]),
        added: lines(&["C\n"]),
        context_after: vec![],
    };
    let merged = merge_hunks(&lines(&["a\n", "b\n", "c\n", "c\n"]), &vec![first, second]);
    assert_eq!(
        merged.outcomes,
        vec![ApplyOutcome::Applied { at_line: 1 }, ApplyOutcome::Applied { at_line: 5 }]
    );
    assert_eq!(merged.lines, lines(&["h1\n", "h2\n", "a\n", "b\n", "C\n", "c\n"]));
}

#[test]
fn blanks_are_trimmed_at_both_ends_only() {
    assert_eq!(trim(&b" \t a b \r\n".to_vec()), b"a b".to_vec());
    assert_eq!(trim(&b" \n".to_vec()), Vec::<u8>::new());
    assert_eq!(trim(&b"x".to_vec()), b"x".to_vec());
}

#[test]
fn added_file_is_written_unless_it_exists() {
    let add = FileChange::Added { path: b"n.txt".to_vec(), content: b"hi\n".to_vec() };
    let filter = Filter::everything();
    let (result, report) = apply_one(tree(&[("a", "1")]), &add, &filter);
    assert_eq!(result.len(), 2);
    assert_eq!(result.entry(1).content, b"hi\n".to_vec());
    assert_eq!(result.entry(1).mode, DEFAULT_MODE);
    assert_eq!(report.outcomes, vec![ApplyOutcome::Applied { at_line: 1 }]);
    let target = tree(&[("n.txt", "mine\n")]);
    let (result, report) = apply_one(target.copy(), &add, &filter);
    assert_eq!(result, target);
    assert_eq!(
        report.outcomes,
        vec![ApplyOutcome::Conflicted { reason: Conflict::AlreadyExists }]
    );
    assert_eq!(Conflict::AlreadyExists.reason(), "already exists");
}

#[test]
fn removed_file_is_deleted_only_with_the_recorded_content() {
    let remove = FileChange::Removed { path: b"old".to_vec(), content: b"bye\n".to_vec() };
    let filter = Filter::everything();
    let (result, report) = apply_one(tree(&[("old", "bye\n"), ("x", "1")]), &remove, &filter);
    assert_eq!(result, tree(&[("x", "1")]));
    assert!(report.written);
    let target = tree(&[("old", "edited\n")]);
    let (result, report) = apply_one(target.copy(), &remove, &filter);
    assert_eq!(result, target);
    assert_eq!(
        report.outcomes,
        vec![ApplyOutcome::Conflicted { reason: Conflict::LocalModification }]
    );
    assert_eq!(Conflict::LocalModification.reason(), "local modification");
    let (_, report) = apply_one(Snapshot::new(), &remove, &filter);
    assert_eq!(report.outcomes, vec![ApplyOutcome::Conflicted { reason: Conflict::Missing }]);
}

#[test]
fn renamed_file_moves_and_keeps_its_mode() {
    let rename = FileChange::Renamed {
        from: b"a.js".to_vec(),
        to: b"b.js".to_vec(),
        hunks: vec![b_to_b2()],
    };
    let (result, report) = apply_one(tree(&[("a.js", "A\nB\nC\n")]), &rename, &Filter::everything());
    assert_eq!(result, tree(&[("b.js", "A\nB2\nC\n")]));
    assert_eq!(result.entry(0).mode, 0o755);
    assert_eq!(report.path, b"a.js".to_vec());
    let occupied = tree(&[("a.js", "A\nB\nC\n"), ("b.js", "taken")]);
    let (result, report) = apply_one(occupied.copy(), &rename, &Filter::everything());
    assert_eq!(result, occupied);
    assert_eq!(
        report.outcomes,
        vec![ApplyOutcome::Conflicted { reason: Conflict::AlreadyExists }]
    );
}

#[test]
fn change_to_a_path_that_the_filter_shuts_out_is_skipped() {
    let filter = Filter::new(vec![], vec![b"*.lock".to_vec()]);
    let change = FileChange::Modified { path: b"yarn.lock".to_vec(), hunks: vec![b_to_b2()] };
    let target = tree(&[("yarn.lock", "A\nB\nC\n")]);
    let (result, report) = apply_one(target.copy(), &change, &filter);
    assert_eq!(result, target);
    assert_eq!(report.outcomes, vec![ApplyOutcome::Skipped]);
    assert!(!report.written);
}

#[test]
fn conflict_in_one_file_leaves_the_others_to_be_written() {
    let patch = patch_of(vec![
        FileChange::Modified { path: b"bad".to_vec(), hunks: vec![b_to_b2()] },
        FileChange::Modified { path: b"good".to_vec(), hunks: vec![b_to_b2()] },
    ]);
    let target = tree(&[("bad", "nothing alike\n"), ("good", "A\nB\nC\n")]);
    let (result, report) = apply(&patch, &target, &Filter::everything());
    assert_eq!(result, tree(&[("bad", "nothing alike\n"), ("good", "A\nB2\nC\n")]));
    assert!(!report.fully_applied);
    assert!(!report.files[0].written);
    assert!(report.files[1].written);
}

#[test]
fn each_patch_of_a_batch_is_applied_to_its_own_tree() {
    let jobs = vec![
        Job {
            patch: patch_of(vec![FileChange::Modified { path: b"f".to_vec(), hunks: vec![b_to_b2()] }]),
            target: tree(&[("f", "A\nB\nC\n")]),
        },
        Job {
            patch: patch_of(vec![FileChange::Modified { path: b"f".to_vec(), hunks: vec![b_to_b2()] }]),
            target: tree(&[("f", "other\n")]),
        },
    ];
    let done = apply_all(&jobs, &Filter::everything());
    assert_eq!(done.len(), 2);
    assert!(done[0].1.fully_applied);
    assert_eq!(done[0].0, tree(&[("f", "A\nB2\nC\n")]));
    assert!(!done[1].1.fully_applied);
    assert_eq!(done[1].0, tree(&[("f", "other\n")]));
}

#[test]
fn second_lock_on_one_target_fails_with_target_busy() {
    let mut locks = TargetLocks::new();
    let target = b"node_modules/left-pad".to_vec();
    assert_eq!(locks.acquire(&target), Ok(()));
    assert_eq!(locks.acquire(&target), Err(ApplyError::TargetBusy));
    assert_eq!(locks.acquire(&b"node_modules/other".to_vec()), Ok(()));
    assert!(locks.is_held(&target));
    locks.release(&target);
    assert!(!locks.is_held(&target));
    assert_eq!(locks.acquire(&target), Ok(()));
}

#[test]
fn applying_to_a_locked_target_does_nothing() {
    let mut locks = TargetLocks::new();
    let dir = b"node_modules/left-pad".to_vec();
    let patch = patch_of(vec![FileChange::Modified { path: b"f".to_vec(), hunks: vec![b_to_b2()] }]);
    let target = tree(&[("f", "A\nB\nC\n")]);
    let filter = Filter::everything();
    assert_eq!(locks.acquire(&dir), Ok(()));
    assert_eq!(apply_locked(&mut locks, &dir, &patch, &target, &filter), Err(ApplyError::TargetBusy));
    locks.release(&dir);
    let done = apply_locked(&mut locks, &dir, &patch, &target, &filter);
    assert!(matches!(&done, Ok((result, report))
        if *result == tree(&[("f", "A\nB2\nC\n")]) && report.fully_applied));
    assert!(!locks.is_held(&dir));
}

fn plain(files: &[(&str, &[u8])]) -> Snapshot {
    let mut snapshot = Snapshot::new();
    for (path, content) in files {
        snapshot = snapshot.with_file(path.as_bytes().to_vec(), content.to_vec(), DEFAULT_MODE);
    }
    snapshot
}

#[test]
fn generated_patch_restores_added_removed_changed_and_moved_files() {
    let pristine = plain(&[
        ("a.txt", b"1\n2\n3\n4\n5\n6\n7\n8\n9\n"),
        ("b.bin", b"\0\x01\x02"),
        ("c.txt", b"stays\n"),
        ("docs/old.md", b"title\n\nbody one\nbody two\nend\n"),
        ("gone.txt", b"bye"),
        ("pic.png", b"\x89PNG\0\0"),
    ]);
    let edited = plain(&[
        ("a.txt", b"0\n1\n2\n3\n4\n5\n6\n7\neight\n9\n10"),
        ("b.bin", b"\0\x01\x02"),
        ("c.txt", b"stays\n"),
        ("docs/new.md", b"title\n\nbody one\nbody 2\nend\n"),
        ("fresh.bin", b"\0\xff"),
        ("img/pic.png", b"\x89PNG\0\0"),
        ("zz.txt", b""),
    ]);
    let filter = Filter::everything();
    let patch = generate(&pristine, &edited, &filter, package());
    assert!(patchr::validate::is_writable(&patch));
    let read = patchr::parse::parse(&patchr::format::serialize(&patch));
    assert_eq!(read.as_ref(), Ok(&patch));
    let (result, report) = apply(&patch, &pristine, &filter);
    assert!(report.fully_applied);
    assert_eq!(result, edited);
    assert_eq!(report.files.len(), patch.changes.len());
    assert!(patch.changes.iter().any(|c| matches!(c, FileChange::Renamed { from, to, hunks }
        if from == b"docs/old.md" && to == b"docs/new.md" && hunks.len() == 1)));
    assert!(patch.changes.iter().any(|c| matches!(c, FileChange::Renamed { from, to, hunks }
        if from == b"pic.png" && to == b"img/pic.png" && hunks.is_empty())));
}
