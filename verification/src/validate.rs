//! Checking that a patch can be written to text and read back.

use vstd::prelude::*;
use crate::bytes::{bytes_eq, lines_of};
use crate::change::{FileChange, PackageIdentity, PatchFile};
use crate::format::{PLUS, TILDE};
use crate::hunk::{hunks_of, Hunk};
use crate::roundtrip::{change_wf, hunk_wf, hunks_wf, identity_wf, no_byte, patch_wf};
use crate::text::{all_lines, is_line, LF};

verus! {

/// Whether the text has nowhere the byte `b`.
pub fn lacks_byte(s: &Vec<u8>, b: u8) -> (yes: bool)
    ensures
        yes == no_byte(s@, b),
{
    let mut i: usize = 0;
    while i < s.len()
        invariant
            i <= s@.len(),
            forall|j: int| 0 <= j < i ==> s@[j] != b,
        decreases s@.len() - i,
    {
        if s[i] == b {
            return false;
        }
        i += 1;
    }
    true
}

/// Whether the bytes are a line: not empty, with no line feed but at the end.
pub fn is_one_line(line: &Vec<u8>) -> (yes: bool)
    ensures
        yes == is_line(line@),
{
    let n = line.len();
    if n == 0 {
        return false;
    }
    let mut i: usize = 0;
    while i < n - 1
        invariant
            n == line@.len(),
            n > 0,
            i <= n - 1,
            forall|j: int| 0 <= j < i ==> line@[j] != LF,
        decreases n - i,
    {
        if line[i] == LF {
            return false;
        }
        i += 1;
    }
    true
}

/// Whether each of the byte strings is a line.
pub fn are_lines(lines: &Vec<Vec<u8>>) -> (yes: bool)
    ensures
        yes == all_lines(lines_of(lines@)),
{
    let mut i: usize = 0;
    while i < lines.len()
        invariant
            i <= lines@.len(),
            forall|j: int| 0 <= j < i ==> is_line(#[trigger] lines_of(lines@)[j]),
        decreases lines@.len() - i,
    {
        assert(lines_of(lines@)[i as int] == lines@[i as int]@);
        if !is_one_line(&lines[i]) {
            return false;
        }
        i += 1;
    }
    true
}

/// Whether the package can be written in a heading and read back.
pub fn identity_is_writable(id: &PackageIdentity) -> (yes: bool)
    ensures
        yes == identity_wf(id@),
{
    if id.name.len() == 0 || id.version.len() == 0 {
        return false;
    }
    if !lacks_byte(&id.name, PLUS) || !lacks_byte(&id.name, LF) || !lacks_byte(&id.version, LF) {
        return false;
    }
    match &id.scope {
        Some(scope) => scope.len() > 0 && lacks_byte(scope, TILDE) && lacks_byte(scope, PLUS)
            && lacks_byte(scope, LF),
        None => lacks_byte(&id.name, TILDE),
    }
}

/// Whether the hunk can be written and read back.
pub fn hunk_is_writable(hunk: &Hunk) -> (yes: bool)
    ensures
        yes == hunk_wf(hunk@),
{
    let before = hunk.context_before.len() as u128;
    let removed = hunk.removed.len() as u128;
    let added = hunk.added.len() as u128;
    let after = hunk.context_after.len() as u128;
    if hunk.old_lines as u128 != before + removed + after {
        return false;
    }
    if hunk.new_lines as u128 != before + added + after {
        return false;
    }
    if removed + added == 0 {
        return false;
    }
    are_lines(&hunk.context_before) && are_lines(&hunk.removed) && are_lines(&hunk.added)
        && are_lines(&hunk.context_after)
}

/// Whether each of the hunks can be written and read back.
pub fn hunks_are_writable(hunks: &Vec<Hunk>) -> (yes: bool)
    ensures
        yes == hunks_wf(hunks_of(hunks@)),
{
    let mut i: usize = 0;
    while i < hunks.len()
        invariant
            i <= hunks@.len(),
            forall|j: int| 0 <= j < i ==> hunk_wf(#[trigger] hunks_of(hunks@)[j]),
        decreases hunks@.len() - i,
    {
        assert(hunks_of(hunks@)[i as int] == hunks@[i as int]@);
        if !hunk_is_writable(&hunks[i]) {
            return false;
        }
        i += 1;
    }
    true
}

/// Whether the change can be written and read back.
pub fn change_is_writable(change: &FileChange) -> (yes: bool)
    ensures
        yes == change_wf(change@),
{
    match change {
        FileChange::Added { path, content } => {
            assert(content.len() <= usize::MAX);
            lacks_byte(path, LF)
        },
        FileChange::Removed { path, content } => {
            assert(content.len() <= usize::MAX);
            lacks_byte(path, LF)
        },
        FileChange::Modified { path, hunks } => lacks_byte(path, LF) && hunks_are_writable(hunks),
        FileChange::Renamed { from, to, hunks } => !bytes_eq(from, to) && lacks_byte(from, LF)
            && lacks_byte(to, LF) && hunks_are_writable(hunks),
    }
}

/// Whether the patch can be written to text and read back as it is: its
/// heading names the package unmistakably, its paths stay on one line, its
/// hunks declare the lines they hold and change something, and a file that
/// moves has another path than before.
pub fn is_writable(patch: &PatchFile) -> (yes: bool)
    ensures
        yes == patch_wf(patch@),
{
    if !identity_is_writable(&patch.package) {
        return false;
    }
    let mut i: usize = 0;
    while i < patch.changes.len()
        invariant
            i <= patch.changes@.len(),
            identity_wf(patch@.package),
            forall|j: int| 0 <= j < i ==> change_wf(#[trigger] patch@.changes[j]),
        decreases patch.changes@.len() - i,
    {
        assert(patch@.changes[i as int] == patch.changes@[i as int]@);
        if !change_is_writable(&patch.changes[i]) {
            return false;
        }
        i += 1;
    }
    true
}

} // verus!
