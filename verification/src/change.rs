//! What a patch holds: the package it is for and the changes to its files.

use vstd::prelude::*;
use crate::bytes::copy_bytes;
use crate::hunk::{copy_hunks, hunks_of, Hunk, HunkView};

verus! {

/// The change to one file.
#[derive(Debug, PartialEq, Eq)]
pub enum FileChange {
    /// A new file with its whole content.
    Added { path: Vec<u8>, content: Vec<u8> },
    /// A file that is gone, with the content it had.
    Removed { path: Vec<u8>, content: Vec<u8> },
    /// A file whose lines changed. A binary file has no hunks.
    Modified { path: Vec<u8>, hunks: Vec<Hunk> },
    /// A file that moved, with the changes to its lines if there are any.
    Renamed { from: Vec<u8>, to: Vec<u8>, hunks: Vec<Hunk> },
}

/// The mathematical value of a [`FileChange`].
pub enum FileChangeView {
    Added { path: Seq<u8>, content: Seq<u8> },
    Removed { path: Seq<u8>, content: Seq<u8> },
    Modified { path: Seq<u8>, hunks: Seq<HunkView> },
    Renamed { from: Seq<u8>, to: Seq<u8>, hunks: Seq<HunkView> },
}

impl View for FileChange {
    type V = FileChangeView;

    open spec fn view(&self) -> FileChangeView {
        match self {
            FileChange::Added { path, content } => FileChangeView::Added {
                path: path@,
                content: content@,
            },
            FileChange::Removed { path, content } => FileChangeView::Removed {
                path: path@,
                content: content@,
            },
            FileChange::Modified { path, hunks } => FileChangeView::Modified {
                path: path@,
                hunks: hunks_of(hunks@),
            },
            FileChange::Renamed { from, to, hunks } => FileChangeView::Renamed {
                from: from@,
                to: to@,
                hunks: hunks_of(hunks@),
            },
        }
    }
}

impl FileChangeView {
    /// The path by which the change is ordered: the path of the file, and for
    /// a file that moved the path it had before.
    pub open spec fn key(self) -> Seq<u8> {
        match self {
            FileChangeView::Added { path, .. } => path,
            FileChangeView::Removed { path, .. } => path,
            FileChangeView::Modified { path, .. } => path,
            FileChangeView::Renamed { from, .. } => from,
        }
    }

    /// The path at which the change leaves a file or takes one away: the path
    /// of the file, and for a file that moved the path it has now.
    pub open spec fn target(self) -> Seq<u8> {
        match self {
            FileChangeView::Added { path, .. } => path,
            FileChangeView::Removed { path, .. } => path,
            FileChangeView::Modified { path, .. } => path,
            FileChangeView::Renamed { to, .. } => to,
        }
    }
}

impl FileChange {
    /// The path by which the change is ordered.
    pub fn key(&self) -> (path: &Vec<u8>)
        ensures
            path@ == self@.key(),
    {
        match self {
            FileChange::Added { path, .. } => path,
            FileChange::Removed { path, .. } => path,
            FileChange::Modified { path, .. } => path,
            FileChange::Renamed { from, .. } => from,
        }
    }

    /// A copy of the change.
    pub fn copy(&self) -> (copy: FileChange)
        ensures
            copy@ == self@,
    {
        match self {
            FileChange::Added { path, content } => FileChange::Added {
                path: copy_bytes(path),
                content: copy_bytes(content),
            },
            FileChange::Removed { path, content } => FileChange::Removed {
                path: copy_bytes(path),
                content: copy_bytes(content),
            },
            FileChange::Modified { path, hunks } => FileChange::Modified {
                path: copy_bytes(path),
                hunks: copy_hunks(hunks),
            },
            FileChange::Renamed { from, to, hunks } => FileChange::Renamed {
                from: copy_bytes(from),
                to: copy_bytes(to),
                hunks: copy_hunks(hunks),
            },
        }
    }
}

/// The values of the changes in a vector.
pub open spec fn changes_of(v: Seq<FileChange>) -> Seq<FileChangeView> {
    Seq::new(v.len(), |i: int| v[i]@)
}

/// The package that a patch is for.
#[derive(Debug, PartialEq, Eq)]
pub struct PackageIdentity {
    pub scope: Option<Vec<u8>>,
    pub name: Vec<u8>,
    pub version: Vec<u8>,
}

/// The mathematical value of a [`PackageIdentity`].
pub struct PackageIdentityView {
    pub scope: Option<Seq<u8>>,
    pub name: Seq<u8>,
    pub version: Seq<u8>,
}

impl View for PackageIdentity {
    type V = PackageIdentityView;

    open spec fn view(&self) -> PackageIdentityView {
        PackageIdentityView {
            scope: match self.scope {
                Some(scope) => Some(scope@),
                None => None,
            },
            name: self.name@,
            version: self.version@,
        }
    }
}

impl PackageIdentity {
    /// A copy of the identity.
    pub fn copy(&self) -> (copy: PackageIdentity)
        ensures
            copy@ == self@,
    {
        PackageIdentity {
            scope: match &self.scope {
                Some(scope) => Some(copy_bytes(scope)),
                None => None,
            },
            name: copy_bytes(&self.name),
            version: copy_bytes(&self.version),
        }
    }
}

/// A patch: the package and the changes to its files, in the order of their
/// paths.
#[derive(Debug, PartialEq, Eq)]
pub struct PatchFile {
    pub package: PackageIdentity,
    pub changes: Vec<FileChange>,
}

/// The mathematical value of a [`PatchFile`].
pub struct PatchFileView {
    pub package: PackageIdentityView,
    pub changes: Seq<FileChangeView>,
}

impl View for PatchFile {
    type V = PatchFileView;

    open spec fn view(&self) -> PatchFileView {
        PatchFileView { package: self.package@, changes: changes_of(self.changes@) }
    }
}

} // verus!
