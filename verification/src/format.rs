//! The text form of a patch: a heading line that names the package, and for
//! each change the two lines that name the file before and after, then its
//! hunks, each with a line of ranges and its lines marked ` `, `-` or `+`.

use vstd::prelude::*;
use crate::bytes::{append_bytes, lines_of};
use crate::change::{
    changes_of, FileChange, FileChangeView, PackageIdentity, PackageIdentityView, PatchFile,
    PatchFileView,
};
use crate::hunk::{hunks_of, Hunk, HunkView};
use crate::text::{concat_lines, from_lines, split_lines, to_lines, LF};

verus! {

/// The space, which marks a line of context.
pub const SPACE: u8 = 32;

/// `+`, which marks an added line and stands before the version of a package.
pub const PLUS: u8 = 43;

/// The comma between a line number and a count.
pub const COMMA: u8 = 44;

/// `-`, which marks a removed line.
pub const MINUS: u8 = 45;

/// The digit 0.
pub const ZERO: u8 = 48;

/// `~`, which stands between the scope and the name of a package.
pub const TILDE: u8 = 126;

/// `patchr `, which opens the heading line.
pub open spec fn magic() -> Seq<u8> {
    seq![112u8, 97u8, 116u8, 99u8, 104u8, 114u8, 32u8]
}

/// `--- `, which opens the line that names the file before the change.
pub open spec fn old_tag() -> Seq<u8> {
    seq![45u8, 45u8, 45u8, 32u8]
}

/// `+++ `, which opens the line that names the file after the change.
pub open spec fn new_tag() -> Seq<u8> {
    seq![43u8, 43u8, 43u8, 32u8]
}

/// `a/`, which stands before the path of the file before the change.
pub open spec fn old_dir() -> Seq<u8> {
    seq![97u8, 47u8]
}

/// `b/`, which stands before the path of the file after the change.
pub open spec fn new_dir() -> Seq<u8> {
    seq![98u8, 47u8]
}

/// `/dev/null`, which stands for no file.
pub open spec fn no_file() -> Seq<u8> {
    seq![47u8, 100u8, 101u8, 118u8, 47u8, 110u8, 117u8, 108u8, 108u8]
}

/// `@@ -`, which opens a line of ranges.
pub open spec fn range_open() -> Seq<u8> {
    seq![64u8, 64u8, 32u8, 45u8]
}

/// ` +`, which stands between the two ranges.
pub open spec fn range_mid() -> Seq<u8> {
    seq![32u8, 43u8]
}

/// ` @@`, which closes a line of ranges.
pub open spec fn range_close() -> Seq<u8> {
    seq![32u8, 64u8, 64u8]
}

/// The line that follows a line of a file that has no line feed.
pub open spec fn marker() -> Seq<u8> {
    seq![
        92u8, 32u8, 78u8, 111u8, 32u8, 110u8, 101u8, 119u8, 108u8, 105u8, 110u8, 101u8, 32u8,
        97u8, 116u8, 32u8, 101u8, 110u8, 100u8, 32u8, 111u8, 102u8, 32u8, 102u8, 105u8, 108u8,
        101u8, 10u8,
    ]
}

/// The number in decimal digits.
pub open spec fn digits(n: nat) -> Seq<u8>
    decreases n,
{
    if n < 10 {
        seq![(ZERO + n) as u8]
    } else {
        digits(n / 10).push((ZERO + n % 10) as u8)
    }
}

/// The package as it is written in the heading and in the name of a patch
/// file: the scope and `~` if there is a scope, the name, `+`, the version.
pub open spec fn identity_text(id: PackageIdentityView) -> Seq<u8> {
    (match id.scope {
        Some(scope) => scope + seq![TILDE],
        None => Seq::empty(),
    }) + id.name + seq![PLUS] + id.version
}

/// The heading line.
pub open spec fn heading_record(id: PackageIdentityView) -> Seq<u8> {
    magic() + identity_text(id) + seq![LF]
}

/// The line that names a file before or after the change, or no file.
#[verifier::opaque]
pub open spec fn side_record(tag: Seq<u8>, dir: Seq<u8>, path: Option<Seq<u8>>) -> Seq<u8> {
    tag + (match path {
        Some(p) => dir + p,
        None => no_file(),
    }) + seq![LF]
}

/// The line of ranges.
#[verifier::opaque]
pub open spec fn range_record(old_start: nat, old_lines: nat, new_start: nat, new_lines: nat) -> Seq<
    u8,
> {
    range_open() + digits(old_start) + seq![COMMA] + digits(old_lines) + range_mid() + digits(
        new_start,
    ) + seq![COMMA] + digits(new_lines) + range_close() + seq![LF]
}

/// A line of a file with its mark in front. A line without a line feed gets
/// one, and the marker line behind it.
pub open spec fn line_records(mark: u8, line: Seq<u8>) -> Seq<Seq<u8>> {
    if line.len() > 0 && line.last() == LF {
        seq![seq![mark] + line]
    } else {
        seq![seq![mark] + line + seq![LF], marker()]
    }
}

/// Lines of a file, each with the mark in front.
pub open spec fn body_records(mark: u8, lines: Seq<Seq<u8>>) -> Seq<Seq<u8>>
    decreases lines.len(),
{
    if lines.len() == 0 {
        Seq::empty()
    } else {
        body_records(mark, lines.drop_last()) + line_records(mark, lines.last())
    }
}

/// A hunk: its ranges, then its leading context, removed lines, added lines
/// and trailing context.
pub open spec fn hunk_records(h: HunkView) -> Seq<Seq<u8>> {
    seq![
        range_record(
            h.old_start as nat,
            h.old_lines as nat,
            h.new_start as nat,
            h.new_lines as nat,
        ),
    ] + body_records(SPACE, h.context_before) + body_records(MINUS, h.removed) + body_records(
        PLUS,
        h.added,
    ) + body_records(SPACE, h.context_after)
}

/// Hunks, one after the other.
pub open spec fn hunks_records(hunks: Seq<HunkView>) -> Seq<Seq<u8>>
    decreases hunks.len(),
{
    if hunks.len() == 0 {
        Seq::empty()
    } else {
        hunks_records(hunks.drop_last()) + hunk_records(hunks.last())
    }
}

/// A change: the lines that name the file before and after, then what
/// changes. An added file is written as one range of added lines, a removed
/// file as one range of removed lines.
pub open spec fn change_records(c: FileChangeView) -> Seq<Seq<u8>> {
    match c {
        FileChangeView::Added { path, content } => seq![
            side_record(old_tag(), old_dir(), None),
            side_record(new_tag(), new_dir(), Some(path)),
            range_record(0, 0, 1, split_lines(content).len()),
        ] + body_records(PLUS, split_lines(content)),
        FileChangeView::Removed { path, content } => seq![
            side_record(old_tag(), old_dir(), Some(path)),
            side_record(new_tag(), new_dir(), None),
            range_record(1, split_lines(content).len(), 0, 0),
        ] + body_records(MINUS, split_lines(content)),
        FileChangeView::Modified { path, hunks } => seq![
            side_record(old_tag(), old_dir(), Some(path)),
            side_record(new_tag(), new_dir(), Some(path)),
        ] + hunks_records(hunks),
        FileChangeView::Renamed { from, to, hunks } => seq![
            side_record(old_tag(), old_dir(), Some(from)),
            side_record(new_tag(), new_dir(), Some(to)),
        ] + hunks_records(hunks),
    }
}

/// Changes, one after the other.
pub open spec fn changes_records(changes: Seq<FileChangeView>) -> Seq<Seq<u8>>
    decreases changes.len(),
{
    if changes.len() == 0 {
        Seq::empty()
    } else {
        changes_records(changes.drop_last()) + change_records(changes.last())
    }
}

/// The lines of the text form of a patch.
pub open spec fn patch_records(p: PatchFileView) -> Seq<Seq<u8>> {
    seq![heading_record(p.package)] + changes_records(p.changes)
}

/// The text form of a patch.
pub open spec fn serialize_spec(p: PatchFileView) -> Seq<u8> {
    concat_lines(patch_records(p))
}

fn push_digits(out: &mut Vec<u8>, n: usize)
    ensures
        final(out)@ == old(out)@ + digits(n as nat),
    decreases n,
{
    if n >= 10 {
        push_digits(out, n / 10);
    }
    let digit: u8 = (n % 10) as u8;
    out.push(ZERO + digit);
    assert(final(out)@ =~= old(out)@ + digits(n as nat));
}

fn push_magic(out: &mut Vec<u8>)
    ensures
        final(out)@ == old(out)@ + magic(),
{
    out.push(112);
    out.push(97);
    out.push(116);
    out.push(99);
    out.push(104);
    out.push(114);
    out.push(32);
    assert(final(out)@ =~= old(out)@ + magic());
}

fn push_no_file(out: &mut Vec<u8>)
    ensures
        final(out)@ == old(out)@ + no_file(),
{
    out.push(47);
    out.push(100);
    out.push(101);
    out.push(118);
    out.push(47);
    out.push(110);
    out.push(117);
    out.push(108);
    out.push(108);
    assert(final(out)@ =~= old(out)@ + no_file());
}

/// The line that follows a line of a file that has no line feed.
pub fn marker_record() -> (record: Vec<u8>)
    ensures
        record@ == marker(),
{
    let mut record: Vec<u8> = Vec::new();
    record.push(92);
    record.push(32);
    record.push(78);
    record.push(111);
    record.push(32);
    record.push(110);
    record.push(101);
    record.push(119);
    record.push(108);
    record.push(105);
    record.push(110);
    record.push(101);
    record.push(32);
    record.push(97);
    record.push(116);
    record.push(32);
    record.push(101);
    record.push(110);
    record.push(100);
    record.push(32);
    record.push(111);
    record.push(102);
    record.push(32);
    record.push(102);
    record.push(105);
    record.push(108);
    record.push(101);
    record.push(10);
    assert(record@ =~= marker());
    record
}

/// The package as it is written in the heading and in the name of a patch
/// file.
pub fn identity_bytes(id: &PackageIdentity) -> (text: Vec<u8>)
    ensures
        text@ == identity_text(id@),
{
    let mut text: Vec<u8> = Vec::new();
    match &id.scope {
        Some(scope) => {
            append_bytes(&mut text, scope);
            text.push(TILDE);
        },
        None => {},
    }
    append_bytes(&mut text, &id.name);
    text.push(PLUS);
    append_bytes(&mut text, &id.version);
    assert(text@ =~= identity_text(id@));
    text
}

fn heading(id: &PackageIdentity) -> (record: Vec<u8>)
    ensures
        record@ == heading_record(id@),
{
    let mut record: Vec<u8> = Vec::new();
    push_magic(&mut record);
    let text = identity_bytes(id);
    append_bytes(&mut record, &text);
    record.push(LF);
    assert(record@ =~= heading_record(id@));
    record
}

fn side(new: bool, path: Option<&Vec<u8>>) -> (record: Vec<u8>)
    ensures
        record@ == side_record(
            if new {
                new_tag()
            } else {
                old_tag()
            },
            if new {
                new_dir()
            } else {
                old_dir()
            },
            match path {
                Some(p) => Some(p@),
                None => None,
            },
        ),
{
    let mut record: Vec<u8> = Vec::new();
    let sign: u8 = if new {
        PLUS
    } else {
        MINUS
    };
    record.push(sign);
    record.push(sign);
    record.push(sign);
    record.push(SPACE);
    match path {
        Some(p) => {
            record.push(
                if new {
                    98
                } else {
                    97
                },
            );
            record.push(47);
            append_bytes(&mut record, p);
        },
        None => {
            push_no_file(&mut record);
        },
    }
    record.push(LF);
    reveal(side_record);
    assert(record@ =~= side_record(
        if new {
            new_tag()
        } else {
            old_tag()
        },
        if new {
            new_dir()
        } else {
            old_dir()
        },
        match path {
            Some(p) => Some(p@),
            None => None,
        },
    ));
    record
}

fn ranges(old_start: usize, old_lines: usize, new_start: usize, new_lines: usize) -> (record: Vec<
    u8,
>)
    ensures
        record@ == range_record(
            old_start as nat,
            old_lines as nat,
            new_start as nat,
            new_lines as nat,
        ),
{
    let mut record: Vec<u8> = Vec::new();
    record.push(64);
    record.push(64);
    record.push(32);
    record.push(45);
    assert(record@ =~= range_open());
    push_digits(&mut record, old_start);
    record.push(COMMA);
    push_digits(&mut record, old_lines);
    record.push(32);
    record.push(43);
    push_digits(&mut record, new_start);
    record.push(COMMA);
    push_digits(&mut record, new_lines);
    record.push(32);
    record.push(64);
    record.push(64);
    record.push(LF);
    reveal(range_record);
    assert(record@ =~= range_record(
        old_start as nat,
        old_lines as nat,
        new_start as nat,
        new_lines as nat,
    ));
    record
}

fn push_body(records: &mut Vec<Vec<u8>>, mark: u8, lines: &Vec<Vec<u8>>)
    ensures
        lines_of(final(records)@) == lines_of(old(records)@) + body_records(mark, lines_of(lines@)),
{
    let ghost start = lines_of(records@);
    let ghost all = lines_of(lines@);
    let mut i: usize = 0;
    assert(body_records(mark, all.subrange(0, 0)) =~= Seq::<Seq<u8>>::empty());
    assert(start + Seq::<Seq<u8>>::empty() =~= start);
    while i < lines.len()
        invariant
            i <= lines@.len(),
            all == lines_of(lines@),
            lines_of(records@) == start + body_records(mark, all.subrange(0, i as int)),
        decreases lines@.len() - i,
    {
        let line = &lines[i];
        let ghost before = lines_of(records@);
        let mut record: Vec<u8> = Vec::new();
        record.push(mark);
        append_bytes(&mut record, line);
        if line.len() > 0 && line[line.len() - 1] == LF {
            records.push(record);
            assert(lines_of(records@) =~= before + line_records(mark, line@));
        } else {
            record.push(LF);
            assert(record@ =~= seq![mark] + line@ + seq![LF]);
            let ghost first = record@;
            records.push(record);
            assert(lines_of(records@) =~= before + seq![first]);
            records.push(marker_record());
            assert(lines_of(records@) =~= before + seq![first, marker()]);
            assert(lines_of(records@) =~= before + line_records(mark, line@));
        }
        proof {
            let next = all.subrange(0, i + 1);
            assert(next.drop_last() =~= all.subrange(0, i as int));
            assert(next.last() == line@);
            assert(lines_of(records@) =~= start + body_records(mark, next));
        }
        i += 1;
    }
    assert(all.subrange(0, all.len() as int) =~= all);
}

fn push_hunk(records: &mut Vec<Vec<u8>>, hunk: &Hunk)
    ensures
        lines_of(final(records)@) == lines_of(old(records)@) + hunk_records(hunk@),
{
    let ghost start = lines_of(records@);
    let record = ranges(hunk.old_start, hunk.old_lines, hunk.new_start, hunk.new_lines);
    records.push(record);
    assert(lines_of(records@) =~= start + seq![
        range_record(
            hunk@.old_start as nat,
            hunk@.old_lines as nat,
            hunk@.new_start as nat,
            hunk@.new_lines as nat,
        ),
    ]);
    push_body(records, SPACE, &hunk.context_before);
    push_body(records, MINUS, &hunk.removed);
    push_body(records, PLUS, &hunk.added);
    push_body(records, SPACE, &hunk.context_after);
    assert(lines_of(records@) =~= start + hunk_records(hunk@));
}

fn push_hunks(records: &mut Vec<Vec<u8>>, hunks: &Vec<Hunk>)
    ensures
        lines_of(final(records)@) == lines_of(old(records)@) + hunks_records(hunks_of(hunks@)),
{
    let ghost start = lines_of(records@);
    let ghost all = hunks_of(hunks@);
    let mut i: usize = 0;
    assert(hunks_records(all.subrange(0, 0)) =~= Seq::<Seq<u8>>::empty());
    assert(start + Seq::<Seq<u8>>::empty() =~= start);
    while i < hunks.len()
        invariant
            i <= hunks@.len(),
            all == hunks_of(hunks@),
            lines_of(records@) == start + hunks_records(all.subrange(0, i as int)),
        decreases hunks@.len() - i,
    {
        push_hunk(records, &hunks[i]);
        proof {
            let next = all.subrange(0, i + 1);
            assert(next.drop_last() =~= all.subrange(0, i as int));
            assert(next.last() == hunks@[i as int]@);
            assert(lines_of(records@) =~= start + hunks_records(next));
        }
        i += 1;
    }
    assert(all.subrange(0, all.len() as int) =~= all);
}

fn push_change(records: &mut Vec<Vec<u8>>, change: &FileChange)
    ensures
        lines_of(final(records)@) == lines_of(old(records)@) + change_records(change@),
{
    let ghost start = lines_of(records@);
    match change {
        FileChange::Added { path, content } => {
            let lines = to_lines(content);
            records.push(side(false, None));
            records.push(side(true, Some(path)));
            records.push(ranges(0, 0, 1, lines.len()));
            assert(lines_of(records@) =~= start + seq![
                side_record(old_tag(), old_dir(), None),
                side_record(new_tag(), new_dir(), Some(path@)),
                range_record(0, 0, 1, split_lines(content@).len()),
            ]);
            push_body(records, PLUS, &lines);
            assert(lines_of(records@) =~= start + change_records(change@));
        },
        FileChange::Removed { path, content } => {
            let lines = to_lines(content);
            records.push(side(false, Some(path)));
            records.push(side(true, None));
            records.push(ranges(1, lines.len(), 0, 0));
            assert(lines_of(records@) =~= start + seq![
                side_record(old_tag(), old_dir(), Some(path@)),
                side_record(new_tag(), new_dir(), None),
                range_record(1, split_lines(content@).len(), 0, 0),
            ]);
            push_body(records, MINUS, &lines);
            assert(lines_of(records@) =~= start + change_records(change@));
        },
        FileChange::Modified { path, hunks } => {
            records.push(side(false, Some(path)));
            records.push(side(true, Some(path)));
            assert(lines_of(records@) =~= start + seq![
                side_record(old_tag(), old_dir(), Some(path@)),
                side_record(new_tag(), new_dir(), Some(path@)),
            ]);
            push_hunks(records, hunks);
            assert(lines_of(records@) =~= start + change_records(change@));
        },
        FileChange::Renamed { from, to, hunks } => {
            records.push(side(false, Some(from)));
            records.push(side(true, Some(to)));
            assert(lines_of(records@) =~= start + seq![
                side_record(old_tag(), old_dir(), Some(from@)),
                side_record(new_tag(), new_dir(), Some(to@)),
            ]);
            push_hunks(records, hunks);
            assert(lines_of(records@) =~= start + change_records(change@));
        },
    }
}

/// The text form of the patch. The same patch always gives the same text.
pub fn serialize(patch: &PatchFile) -> (text: Vec<u8>)
    ensures
        text@ == serialize_spec(patch@),
{
    let mut records: Vec<Vec<u8>> = Vec::new();
    records.push(heading(&patch.package));
    let ghost start = lines_of(records@);
    assert(start =~= seq![heading_record(patch@.package)]);
    let ghost all = changes_of(patch.changes@);
    let mut i: usize = 0;
    assert(changes_records(all.subrange(0, 0)) =~= Seq::<Seq<u8>>::empty());
    assert(start + Seq::<Seq<u8>>::empty() =~= start);
    while i < patch.changes.len()
        invariant
            i <= patch.changes@.len(),
            all == changes_of(patch.changes@),
            lines_of(records@) == start + changes_records(all.subrange(0, i as int)),
        decreases patch.changes@.len() - i,
    {
        push_change(&mut records, &patch.changes[i]);
        proof {
            let next = all.subrange(0, i + 1);
            assert(next.drop_last() =~= all.subrange(0, i as int));
            assert(next.last() == patch.changes@[i as int]@);
            assert(lines_of(records@) =~= start + changes_records(next));
        }
        i += 1;
    }
    assert(all.subrange(0, all.len() as int) =~= all);
    from_lines(&records)
}

} // verus!
