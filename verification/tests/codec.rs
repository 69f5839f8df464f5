use patchr::change::{FileChange, PackageIdentity, PatchFile};
use patchr::format::serialize;
use patchr::hunk::Hunk;
use patchr::parse::{parse, PatchFormatError};

fn package() -> PackageIdentity {
    PackageIdentity {
        scope: Some(b"@types".to_vec()),
        name: b"node".to_vec(),
        version: b"1.2.3".to_vec(),
    }
}

fn sample() -> PatchFile {
    PatchFile {
        package: package(),
        changes: vec![
            FileChange::Added { path: b"a/new.txt".to_vec(), content: b"one\ntwo".to_vec() },
            FileChange::Modified {
                path: b"lib/index.js".to_vec(),
                hunks: vec![Hunk {
                    old_start: 1,
                    old_lines: 3,
                    new_start: 1,
                    new_lines: 3,
                    context_before: vec![b"A\n".to_vec()],
                    removed: vec![b"B\n".to_vec()],
                    added: vec![b"B2\n".to_vec()],
                    context_after: vec![b"C\n".to_vec()],
                }],
            },
            FileChange::Removed { path: b"old.txt".to_vec(), content: b"gone\n".to_vec() },
            FileChange::Renamed { from: b"x.js".to_vec(), to: b"y.js".to_vec(), hunks: vec![] },
        ],
    }
}

#[test]
fn serialize_writes_the_expected_text() {
    let text = serialize(&sample());
    let expected = "patchr @types~node+1.2.3\n\
--- /dev/null\n\
+++ b/a/new.txt\n\
@@ -0,0 +1,2 @@\n\
+one\n\
+two\n\
\\ No newline at end of file\n\
--- a/lib/index.js\n\
+++ b/lib/index.js\n\
@@ -1,3 +1,3 @@\n A\n-B\n+B2\n C\n\
--- a/old.txt\n\
+++ /dev/null\n\
@@ -1,1 +0,0 @@\n\
-gone\n\
--- a/x.js\n\
+++ b/y.js\n";
    assert_eq!(String::from_utf8(text).unwrap(), expected);
}

#[test]
fn parse_reads_back_what_serialize_wrote() {
    let patch = sample();
    let text = serialize(&patch);
    assert_eq!(parse(&text), Ok(patch));
}

#[test]
fn serialize_is_deterministic() {
    assert_eq!(serialize(&sample()), serialize(&sample()));
}

#[test]
fn parse_refuses_text_without_heading() {
    assert_eq!(parse(&b"--- a/x\n+++ b/x\n".to_vec()), Err(PatchFormatError::UnknownFormat));
    assert_eq!(parse(&Vec::new()), Err(PatchFormatError::UnknownFormat));
}

#[test]
fn parse_refuses_heading_without_version() {
    assert_eq!(parse(&b"patchr left-pad\n".to_vec()), Err(PatchFormatError::MalformedHeader));
}

#[test]
fn parse_refuses_wrong_line_counts() {
    let text = b"patchr left-pad+1.0.0\n--- a/x\n+++ b/x\n@@ -1,3 +1,3 @@\n A\n-B\n+B2\n".to_vec();
    assert_eq!(parse(&text), Err(PatchFormatError::HunkRangeMismatch));
}

#[test]
fn parse_refuses_broken_range_line() {
    let text = b"patchr left-pad+1.0.0\n--- a/x\n+++ b/x\n@@ -1,x +1,3 @@\n".to_vec();
    assert_eq!(parse(&text), Err(PatchFormatError::MalformedHeader));
}

#[test]
fn sample_patch_is_writable() {
    assert!(patchr::validate::is_writable(&sample()));
}

#[test]
fn patch_that_cannot_be_read_back_is_not_writable() {
    let mut same_path = sample();
    same_path.changes.push(FileChange::Renamed {
        from: b"p".to_vec(),
        to: b"p".to_vec(),
        hunks: vec![],
    });
    assert!(!patchr::validate::is_writable(&same_path));
    let mut broken_path = sample();
    broken_path.changes.push(FileChange::Added { path: b"a\nb".to_vec(), content: vec![] });
    assert!(!patchr::validate::is_writable(&broken_path));
    let mut wrong_count = sample();
    wrong_count.changes.push(FileChange::Modified {
        path: b"q".to_vec(),
        hunks: vec![Hunk {
            old_start: 1,
            old_lines: 9,
            new_start: 1,
            new_lines: 1,
            context_before: vec![],
            removed: vec![],
            added: vec![b"x\n".to_vec()],
            context_after: vec![],
        }],
    });
    assert!(!patchr::validate::is_writable(&wrong_count));
    let mut no_version = sample();
    no_version.package.version = Vec::new();
    assert!(!patchr::validate::is_writable(&no_version));
    let mut plus_in_name = sample();
    plus_in_name.package.name = b"a+b".to_vec();
    assert!(!patchr::validate::is_writable(&plus_in_name));
}

#[test]
fn lines_are_told_from_other_bytes() {
    assert!(patchr::validate::is_one_line(&b"abc\n".to_vec()));
    assert!(patchr::validate::is_one_line(&b"abc".to_vec()));
    assert!(patchr::validate::is_one_line(&b"\n".to_vec()));
    assert!(!patchr::validate::is_one_line(&b"".to_vec()));
    assert!(!patchr::validate::is_one_line(&b"a\nb".to_vec()));
    assert!(!patchr::validate::is_one_line(&b"a\n\n".to_vec()));
}

#[test]
fn added_binary_content_is_read_back_byte_for_byte() {
    let patch = PatchFile {
        package: package(),
        changes: vec![
            FileChange::Added { path: b"bin".to_vec(), content: vec![0, 10, 10, 255, 13, 10, 92, 32] },
            FileChange::Added { path: b"empty".to_vec(), content: vec![] },
            FileChange::Removed { path: b"zero".to_vec(), content: b"\n\\ No newline at end of file\n".to_vec() },
        ],
    };
    assert_eq!(parse(&serialize(&patch)), Ok(patch));
}

#[test]
fn hunk_lines_without_line_feed_are_read_back() {
    let patch = PatchFile {
        package: PackageIdentity { scope: None, name: b"x".to_vec(), version: b"0+1".to_vec() },
        changes: vec![FileChange::Modified {
            path: b"f".to_vec(),
            hunks: vec![
                Hunk {
                    old_start: 3,
                    old_lines: 2,
                    new_start: 3,
                    new_lines: 2,
                    context_before: vec![b"--- a/f\n".to_vec()],
                    removed: vec![b"last".to_vec()],
                    added: vec![b"last\n".to_vec()],
                    context_after: vec![],
                },
                Hunk {
                    old_start: 18446744073709551615,
                    old_lines: 1,
                    new_start: 0,
                    new_lines: 2,
                    context_before: vec![],
                    removed: vec![b"@@ -1,1 +1,1 @@\n".to_vec()],
                    added: vec![b"+\n".to_vec(), b" ".to_vec()],
                    context_after: vec![],
                },
            ],
        }],
    };
    assert!(patchr::validate::is_writable(&patch));
    assert_eq!(parse(&serialize(&patch)), Ok(patch));
}

#[test]
fn heading_that_names_another_package_is_refused_on_loading() {
    let text = serialize(&sample());
    let right = patchr::registry::PatchRef {
        file_name: b"@types~node+1.2.3.patch".to_vec(),
        package: package(),
    };
    assert_eq!(patchr::registry::load_patch(&right, &text), Ok(sample()));
    let wrong = patchr::registry::PatchRef {
        file_name: b"@types~node+9.9.9.patch".to_vec(),
        package: PackageIdentity {
            scope: Some(b"@types".to_vec()),
            name: b"node".to_vec(),
            version: b"9.9.9".to_vec(),
        },
    };
    assert_eq!(
        patchr::registry::load_patch(&wrong, &text),
        Err(PatchFormatError::MalformedHeader)
    );
    assert_eq!(
        patchr::registry::load_patch(&right, &b"garbage".to_vec()),
        Err(PatchFormatError::UnknownFormat)
    );
}

#[test]
fn number_too_great_for_a_line_count_is_a_malformed_header() {
    let text =
        b"patchr a+1\n--- a/x\n+++ b/x\n@@ -1,99999999999999999999999 +1,1 @@\n".to_vec();
    assert_eq!(parse(&text), Err(PatchFormatError::MalformedHeader));
}

#[test]
fn text_that_ends_in_the_middle_of_a_line_is_refused() {
    assert_eq!(parse(&b"patchr a+1".to_vec()), Err(PatchFormatError::MalformedHeader));
    assert_eq!(
        parse(&b"patchr a+1\n--- a/x\n+++ b/x".to_vec()),
        Err(PatchFormatError::MalformedHeader)
    );
    assert_eq!(parse(&b"patchr a+1\n--- a/x\n".to_vec()), Err(PatchFormatError::MalformedHeader));
}

#[test]
fn patch_without_changes_is_only_a_heading() {
    let patch = PatchFile { package: package(), changes: vec![] };
    assert_eq!(serialize(&patch), b"patchr @types~node+1.2.3\n".to_vec());
    assert_eq!(parse(&b"patchr @types~node+1.2.3\n".to_vec()), Ok(patch));
}
