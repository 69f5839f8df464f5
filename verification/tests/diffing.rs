use patchr::change::{FileChange, PackageIdentity};
use patchr::diff::{diff, generate};
use patchr::filter::Filter;
use patchr::format::serialize;
use patchr::hunk::Hunk;
use patchr::linediff::{compute_hunks, lcs_length};
use patchr::rename::{measure, path_distance};
use patchr::snapshot::{classify, Snapshot};
use patchr::text::{from_lines, to_lines};

fn tree(files: &[(&str, &str)]) -> Snapshot {
    let mut snapshot = Snapshot::new();
    for (path, content) in files {
        snapshot = snapshot.with_file(path.as_bytes().to_vec(), content.as_bytes().to_vec(), 0o644);
    }
    snapshot
}

fn lines(text: &[&str]) -> Vec<Vec<u8>> {
    text.iter().map(|l| l.as_bytes().to_vec()).collect()
}

fn package() -> PackageIdentity {
    PackageIdentity { scope: None, name: b"left-pad".to_vec(), version: b"1.3.0".to_vec() }
}

#[test]
fn lines_keep_their_line_feeds() {
    assert_eq!(to_lines(&b"a\nb".to_vec()), lines(&["a\n", "b"]));
    assert_eq!(to_lines(&b"a\n\nb\n".to_vec()), lines(&["a\n", "\n", "b\n"]));
    assert_eq!(to_lines(&Vec::new()), Vec::<Vec<u8>>::new());
    assert_eq!(from_lines(&lines(&["a\n", "b"])), b"a\nb".to_vec());
}

#[test]
fn lines_put_together_are_the_text_again() {
    let text = b"one\r\ntwo\n\n\nthree".to_vec();
    assert_eq!(from_lines(&to_lines(&text)), text);
}

#[test]
fn snapshot_orders_files_by_path() {
    let snapshot = tree(&[("b.txt", "2"), ("a/z.txt", "1"), ("a.txt", "0"), ("b.txt", "3")]);
    assert_eq!(snapshot.len(), 3);
    assert_eq!(snapshot.entry(0).path, b"a.txt".to_vec());
    assert_eq!(snapshot.entry(1).path, b"a/z.txt".to_vec());
    assert_eq!(snapshot.entry(2).path, b"b.txt".to_vec());
    assert_eq!(snapshot.entry(2).content, b"3".to_vec());
    assert_eq!(snapshot.find(&b"a/z.txt".to_vec()), Some(1));
    assert_eq!(snapshot.find(&b"nope".to_vec()), None);
    let fewer = snapshot.without(&b"a.txt".to_vec());
    assert_eq!(fewer.len(), 2);
    assert_eq!(fewer.entry(0).path, b"a/z.txt".to_vec());
}

#[test]
fn binary_files_are_told_from_text() {
    assert!(!classify(&b"plain text\n".to_vec()));
    assert!(!classify(&"gr\u{fc}n\n".as_bytes().to_vec()));
    assert!(classify(&vec![0xff, 0xfe, 0x00]));
    assert!(classify(&vec![0xc3]));
    assert!(classify(&b"abc\0def".to_vec()));
    let mut late_zero = vec![b'a'; 8000];
    late_zero.push(0);
    assert!(!classify(&late_zero));
    let mut early_zero = vec![b'a'; 7999];
    early_zero.push(0);
    assert!(classify(&early_zero));
    assert!(tree(&[("x", "a\0b")]).entry(0).is_binary);
}

#[test]
fn longest_common_subsequence_is_counted() {
    assert_eq!(lcs_length(&lines(&["a", "b", "c", "d"]), &lines(&["b", "x", "d"])), 2);
    assert_eq!(lcs_length(&lines(&[]), &lines(&["b"])), 0);
    assert_eq!(lcs_length(&lines(&["a", "b"]), &lines(&["a", "b"])), 2);
}

#[test]
fn one_changed_line_gives_one_hunk_with_context() {
    let hunks = compute_hunks(&lines(&["A\n", "B\n", "C\n"]), &lines(&["A\n", "B2\n", "C\n"]));
    assert_eq!(
        hunks,
        vec![Hunk {
            old_start: 1,
            old_lines: 3,
            new_start: 1,
            new_lines: 3,
            context_before: lines(&["A\n"]),
            removed: lines(&["B\n"]),
            added: lines(&["B2\n"]),
            context_after: lines(&["C\n"]),
        }]
    );
}

#[test]
fn changes_far_apart_give_hunks_that_do_not_overlap() {
    let old = lines(&["1\n", "2\n", "3\n", "4\n", "5\n", "6\n", "7\n", "8\n", "9\n", "10\n"]);
    let new = lines(&["1\n", "two\n", "3\n", "4\n", "5\n", "6\n", "7\n", "8\n", "nine\n", "10\n"]);
    let hunks = compute_hunks(&old, &new);
    assert_eq!(hunks.len(), 2);
    assert_eq!(hunks[0].old_start, 1);
    assert_eq!(hunks[0].old_lines, 5);
    assert_eq!(hunks[0].context_before, lines(&["1\n"]));
    assert_eq!(hunks[0].context_after, lines(&["3\n", "4\n", "5\n"]));
    assert_eq!(hunks[1].old_start, 6);
    assert_eq!(hunks[1].new_start, 6);
    assert_eq!(hunks[1].old_lines, 5);
    assert_eq!(hunks[1].context_before, lines(&["6\n", "7\n", "8\n"]));
    assert_eq!(hunks[1].removed, lines(&["9\n"]));
    assert_eq!(hunks[1].added, lines(&["nine\n"]));
    assert_eq!(hunks[1].context_after, lines(&["10\n"]));
}

#[test]
fn lines_added_to_an_empty_file_start_at_line_one() {
    let hunks = compute_hunks(&lines(&[]), &lines(&["a\n", "b\n"]));
    assert_eq!(hunks.len(), 1);
    assert_eq!((hunks[0].old_start, hunks[0].old_lines), (1, 0));
    assert_eq!((hunks[0].new_start, hunks[0].new_lines), (1, 2));
    assert_eq!(hunks[0].added, lines(&["a\n", "b\n"]));
}

#[test]
fn equal_files_give_no_hunks() {
    assert_eq!(compute_hunks(&lines(&["a\n", "b\n"]), &lines(&["a\n", "b\n"])), vec![]);
}

#[test]
fn diff_reports_added_removed_and_modified_files_by_path() {
    let pristine = tree(&[("a.txt", "A\nB\nC\n"), ("keep.txt", "same\n"), ("gone.txt", "bye\n")]);
    let edited = tree(&[("a.txt", "A\nB2\nC\n"), ("keep.txt", "same\n"), ("new.txt", "hi\n")]);
    let changes = diff(&pristine, &edited);
    assert_eq!(changes.len(), 3);
    assert!(matches!(&changes[0], FileChange::Modified { path, hunks }
        if path == b"a.txt" && hunks.len() == 1));
    assert_eq!(
        changes[1],
        FileChange::Removed { path: b"gone.txt".to_vec(), content: b"bye\n".to_vec() }
    );
    assert_eq!(
        changes[2],
        FileChange::Added { path: b"new.txt".to_vec(), content: b"hi\n".to_vec() }
    );
}

#[test]
fn snapshot_compared_to_itself_has_no_changes() {
    let snapshot = tree(&[("a.txt", "A\n"), ("b/c.bin", "\0\x01"), ("d", "")]);
    assert_eq!(diff(&snapshot, &snapshot), vec![]);
    assert_eq!(diff(&Snapshot::new(), &Snapshot::new()), vec![]);
}

#[test]
fn changed_binary_file_is_modified_without_hunks() {
    let pristine = tree(&[("logo.png", "\0\x01\x02")]);
    let edited = tree(&[("logo.png", "\0\x01\x03")]);
    assert_eq!(
        diff(&pristine, &edited),
        vec![FileChange::Modified { path: b"logo.png".to_vec(), hunks: vec![] }]
    );
}

#[test]
fn change_to_an_excluded_file_is_not_recorded() {
    let filter = Filter::new(vec![], vec![b"*.lock".to_vec()]);
    let pristine = tree(&[("foo.lock", "1\n"), ("a.js", "x\n")]);
    let edited = tree(&[("foo.lock", "2\n"), ("a.js", "x\n")]);
    let patch = generate(&pristine, &edited, &filter, package());
    assert_eq!(patch.changes, vec![]);
    assert_eq!(patch.package, package());
}

#[test]
fn generating_twice_gives_the_same_bytes() {
    let pristine = tree(&[("a.txt", "A\nB\nC\n"), ("gone.txt", "bye\n")]);
    let edited = tree(&[("a.txt", "A\nB2\nC\n"), ("new.txt", "hi\n")]);
    let filter = Filter::everything();
    let first = serialize(&generate(&pristine, &edited, &filter, package()));
    let second = serialize(&generate(&pristine, &edited, &filter, package()));
    assert_eq!(first, second);
    assert!(first.starts_with(b"patchr left-pad+1.3.0\n--- a/a.txt\n+++ b/a.txt\n"));
}

#[test]
fn moved_file_is_one_rename_without_hunks() {
    let pristine = tree(&[("old/path.js", "x\ny\n")]);
    let edited = tree(&[("new/path.js", "x\ny\n")]);
    assert_eq!(
        diff(&pristine, &edited),
        vec![FileChange::Renamed {
            from: b"old/path.js".to_vec(),
            to: b"new/path.js".to_vec(),
            hunks: vec![],
        }]
    );
}

#[test]
fn moved_and_edited_file_is_a_rename_with_hunks() {
    let pristine = tree(&[("a.js", "1\n2\n3\n4\n")]);
    let edited = tree(&[("b.js", "1\n2\n3\nfour\n")]);
    let changes = diff(&pristine, &edited);
    assert_eq!(changes.len(), 1);
    assert!(matches!(&changes[0], FileChange::Renamed { from, to, hunks }
        if from == b"a.js" && to == b"b.js" && hunks.len() == 1));
}

#[test]
fn files_that_are_not_alike_are_not_paired() {
    let pristine = tree(&[("a.js", "1\n2\n3\n4\n")]);
    let edited = tree(&[("b.js", "1\n2\nx\ny\n")]);
    let changes = diff(&pristine, &edited);
    assert_eq!(changes.len(), 2);
    assert!(matches!(&changes[0], FileChange::Removed { .. }));
    assert!(matches!(&changes[1], FileChange::Added { .. }));
}

#[test]
fn of_two_equal_copies_the_nearer_path_is_the_rename() {
    let pristine = tree(&[("lib/util.js", "x\ny\n")]);
    let edited = tree(&[("lib/utils.js", "x\ny\n"), ("zzz/far/away.js", "x\ny\n")]);
    let changes = diff(&pristine, &edited);
    assert_eq!(changes.len(), 2);
    assert_eq!(
        changes[0],
        FileChange::Renamed {
            from: b"lib/util.js".to_vec(),
            to: b"lib/utils.js".to_vec(),
            hunks: vec![],
        }
    );
    assert!(matches!(&changes[1], FileChange::Added { path, .. } if path == b"zzz/far/away.js"));
}

#[test]
fn likeness_counts_shared_lines() {
    assert_eq!(measure(&b"a\nb\nc\n".to_vec(), &b"a\nb\nc\n".to_vec()), Some((1, 1)));
    assert_eq!(measure(&b"a\nb\nc\n".to_vec(), &b"a\nb\nx\n".to_vec()), Some((2, 3)));
    assert_eq!(measure(&b"a\nb\n".to_vec(), &b"a\nx\n".to_vec()), None);
    assert_eq!(measure(&b"a\0".to_vec(), &b"a\0b".to_vec()), None);
    assert_eq!(measure(&Vec::new(), &Vec::new()), Some((1, 1)));
}

#[test]
fn edit_distance_of_paths() {
    assert_eq!(path_distance(&b"kitten".to_vec(), &b"sitting".to_vec()), 3);
    assert_eq!(path_distance(&b"".to_vec(), &b"abc".to_vec()), 3);
    assert_eq!(path_distance(&b"abc".to_vec(), &b"abc".to_vec()), 0);
    assert_eq!(path_distance(&b"lib/util.js".to_vec(), &b"lib/utils.js".to_vec()), 1);
}
