//! The snapshot of a directory tree: its files by path, in the order of their
//! paths, each with its content, its mode and whether it is binary.

use vstd::prelude::*;
use crate::bytes::{bytes_eq, bytes_less, copy_bytes, lemma_lex_transitive, lemma_lex_trichotomy, lex_less};
use crate::filter::{Filter, FilterView};

verus! {

/// How many bytes at the start of a file are searched for a zero byte.
pub const BINARY_SCAN: usize = 8000;

/// One of the first [`BINARY_SCAN`] bytes of the content is zero.
pub open spec fn has_early_zero(content: Seq<u8>) -> bool {
    exists|i: int| 0 <= i < content.len() && i < BINARY_SCAN && content[i] == 0
}

/// The content is that of a binary file: it has a zero byte near its start,
/// or it is not UTF-8.
pub open spec fn is_binary_content(content: Seq<u8>) -> bool {
    has_early_zero(content) || !vstd::utf8::valid_utf8(content)
}

/// Asks `std::str::from_utf8` whether the bytes are UTF-8, which is what
/// makes that function return `Ok`.
#[verifier::external_body]
fn is_utf8(bytes: &Vec<u8>) -> (valid: bool)
    ensures
        valid == vstd::utf8::valid_utf8(bytes@),
{
    std::str::from_utf8(bytes.as_slice()).is_ok()
}

/// Whether the content is that of a binary file.
pub fn classify(content: &Vec<u8>) -> (binary: bool)
    ensures
        binary == is_binary_content(content@),
{
    let n = content.len();
    let mut i: usize = 0;
    while i < n && i < BINARY_SCAN
        invariant
            n == content@.len(),
            i <= n,
            i <= BINARY_SCAN,
            forall|j: int| 0 <= j < i ==> content@[j] != 0,
        decreases n - i,
    {
        if content[i] == 0 {
            return true;
        }
        i += 1;
    }
    !is_utf8(content)
}

/// A file of a snapshot.
#[derive(Debug, PartialEq, Eq)]
pub struct FileEntry {
    pub path: Vec<u8>,
    pub content: Vec<u8>,
    pub is_binary: bool,
    pub mode: u32,
}

/// The mathematical value of a [`FileEntry`].
pub struct FileEntryView {
    pub path: Seq<u8>,
    pub content: Seq<u8>,
    pub is_binary: bool,
    pub mode: u32,
}

impl View for FileEntry {
    type V = FileEntryView;

    open spec fn view(&self) -> FileEntryView {
        FileEntryView {
            path: self.path@,
            content: self.content@,
            is_binary: self.is_binary,
            mode: self.mode,
        }
    }
}

impl FileEntry {
    /// A copy of the entry.
    pub fn copy(&self) -> (copy: FileEntry)
        ensures
            copy@ == self@,
    {
        FileEntry {
            path: copy_bytes(&self.path),
            content: copy_bytes(&self.content),
            is_binary: self.is_binary,
            mode: self.mode,
        }
    }
}

/// The file with the given path, content and mode, classified by its content.
pub open spec fn file_view(path: Seq<u8>, content: Seq<u8>, mode: u32) -> FileEntryView {
    FileEntryView { path, content, is_binary: is_binary_content(content), mode }
}

/// The values of the entries in a vector.
pub open spec fn entries_of(v: Seq<FileEntry>) -> Seq<FileEntryView> {
    Seq::new(v.len(), |i: int| v[i]@)
}

/// The paths ascend strictly, so no path occurs twice.
pub open spec fn paths_ascend(entries: Seq<FileEntryView>) -> bool {
    forall|i: int, j: int|
        #![trigger entries[i], entries[j]]
        0 <= i < j < entries.len() ==> lex_less(entries[i].path, entries[j].path)
}

/// The entry is classified by its content.
pub open spec fn entry_ok(e: FileEntryView) -> bool {
    e.is_binary == is_binary_content(e.content)
}

/// What holds of the entries of every snapshot.
pub open spec fn snapshot_ok(entries: Seq<FileEntryView>) -> bool {
    &&& paths_ascend(entries)
    &&& forall|i: int| 0 <= i < entries.len() ==> entry_ok(#[trigger] entries[i])
}

/// The first position at or after `i` whose path is not less than `path`.
pub open spec fn lower_bound(entries: Seq<FileEntryView>, path: Seq<u8>, i: int) -> int
    decreases entries.len() - i,
{
    if i < 0 || i >= entries.len() {
        entries.len() as int
    } else if lex_less(entries[i].path, path) {
        lower_bound(entries, path, i + 1)
    } else {
        i
    }
}

/// The position at which `path` stands or would stand.
pub open spec fn position_of(entries: Seq<FileEntryView>, path: Seq<u8>) -> int {
    lower_bound(entries, path, 0)
}

/// The entries have a file at `path`.
pub open spec fn holds(entries: Seq<FileEntryView>, path: Seq<u8>) -> bool {
    position_of(entries, path) < entries.len() && entries[position_of(entries, path)].path
        == path
}

/// The entries with `e` put at its path, in place of the file that was there
/// if there was one.
pub open spec fn put(entries: Seq<FileEntryView>, e: FileEntryView) -> Seq<FileEntryView> {
    if holds(entries, e.path) {
        entries.update(position_of(entries, e.path), e)
    } else {
        entries.insert(position_of(entries, e.path), e)
    }
}

/// The entries without the file at `path`.
pub open spec fn drop_path(entries: Seq<FileEntryView>, path: Seq<u8>) -> Seq<FileEntryView> {
    if holds(entries, path) {
        entries.remove(position_of(entries, path))
    } else {
        entries
    }
}

/// Those of the first `n` entries whose path the filter admits.
pub open spec fn admitted(entries: Seq<FileEntryView>, filter: FilterView, n: int) -> Seq<
    FileEntryView,
>
    decreases n,
{
    if n <= 0 {
        Seq::empty()
    } else if filter.admits(entries[n - 1].path) {
        admitted(entries, filter, n - 1).push(entries[n - 1])
    } else {
        admitted(entries, filter, n - 1)
    }
}

/// Up to the lower bound every path is less than `path`, and the path at the
/// bound is not.
pub proof fn lemma_lower_bound(entries: Seq<FileEntryView>, path: Seq<u8>, i: int)
    requires
        0 <= i <= entries.len(),
    ensures
        i <= lower_bound(entries, path, i) <= entries.len(),
        forall|j: int|
            i <= j < lower_bound(entries, path, i) ==> lex_less((#[trigger] entries[j]).path, path),
        lower_bound(entries, path, i) < entries.len() ==> !lex_less(
            entries[lower_bound(entries, path, i)].path,
            path,
        ),
    decreases entries.len() - i,
{
    if i < entries.len() && lex_less(entries[i].path, path) {
        lemma_lower_bound(entries, path, i + 1);
    }
}

/// In ascending entries the position of a path splits them: before it every
/// path is less, from it on every path is greater, but for the path itself
/// which can only stand at the position.
pub proof fn lemma_position(entries: Seq<FileEntryView>, path: Seq<u8>)
    requires
        paths_ascend(entries),
    ensures
        0 <= position_of(entries, path) <= entries.len(),
        forall|j: int|
            0 <= j < position_of(entries, path) ==> lex_less((#[trigger] entries[j]).path, path),
        forall|j: int|
            position_of(entries, path) <= j < entries.len() && (#[trigger] entries[j]).path
                != path ==> lex_less(path, entries[j].path),
        forall|j: int|
            0 <= j < entries.len() && (#[trigger] entries[j]).path == path ==> j == position_of(
                entries,
                path,
            ),
        holds(entries, path) <==> exists|j: int|
            0 <= j < entries.len() && (#[trigger] entries[j]).path == path,
{
    lemma_lower_bound(entries, path, 0);
    let k = position_of(entries, path);
    assert forall|j: int| k <= j < entries.len() && (#[trigger] entries[j]).path
        != path implies lex_less(path, entries[j].path) by {
        lemma_lex_trichotomy(entries[k].path, path);
        lemma_lex_trichotomy(entries[j].path, path);
        if j > k {
            assert(lex_less(entries[k].path, entries[j].path));
            if entries[k].path != path {
                lemma_lex_transitive(path, entries[k].path, entries[j].path);
            }
        }
    }
    assert forall|j: int| 0 <= j < entries.len() && (#[trigger] entries[j]).path
        == path implies j == k by {
        lemma_lex_trichotomy(path, path);
        if j < k {
            assert(lex_less(entries[j].path, path));
        } else if j > k {
            assert(lex_less(entries[k].path, entries[j].path));
        }
    }
    if holds(entries, path) {
        assert(entries[k].path == path);
    }
}

/// Putting a file keeps the paths ascending.
pub proof fn lemma_put_ok(entries: Seq<FileEntryView>, e: FileEntryView)
    requires
        snapshot_ok(entries),
        entry_ok(e),
    ensures
        snapshot_ok(put(entries, e)),
{
    lemma_position(entries, e.path);
    let k = position_of(entries, e.path);
    let next = put(entries, e);
    assert forall|i: int, j: int|
        #![trigger next[i], next[j]]
        0 <= i < j < next.len() implies lex_less(next[i].path, next[j].path) by {
        if holds(entries, e.path) {
            assert(lex_less(entries[i].path, entries[j].path));
        } else {
            let oi = if i < k {
                i
            } else {
                i - 1
            };
            let oj = if j < k {
                j
            } else {
                j - 1
            };
            if i == k {
                assert(next[j] == entries[oj]);
            } else if j == k {
                assert(next[i] == entries[oi]);
            } else {
                assert(next[i] == entries[oi]);
                assert(next[j] == entries[oj]);
                assert(lex_less(entries[oi].path, entries[oj].path));
            }
        }
    }
    assert forall|i: int| 0 <= i < next.len() implies entry_ok(#[trigger] next[i]) by {
        if holds(entries, e.path) {
            if i != k {
                assert(next[i] == entries[i]);
            }
        } else {
            if i < k {
                assert(next[i] == entries[i]);
            } else if i > k {
                assert(next[i] == entries[i - 1]);
            }
        }
    }
}

/// Dropping a file keeps the paths ascending.
pub proof fn lemma_drop_ok(entries: Seq<FileEntryView>, path: Seq<u8>)
    requires
        snapshot_ok(entries),
    ensures
        snapshot_ok(drop_path(entries, path)),
{
    lemma_position(entries, path);
    let k = position_of(entries, path);
    let next = drop_path(entries, path);
    if holds(entries, path) {
        assert forall|i: int, j: int|
            #![trigger next[i], next[j]]
            0 <= i < j < next.len() implies lex_less(next[i].path, next[j].path) by {
            let oi = if i < k {
                i
            } else {
                i + 1
            };
            let oj = if j < k {
                j
            } else {
                j + 1
            };
            assert(next[i] == entries[oi]);
            assert(next[j] == entries[oj]);
            assert(lex_less(entries[oi].path, entries[oj].path));
        }
        assert forall|i: int| 0 <= i < next.len() implies entry_ok(#[trigger] next[i]) by {
            let oi = if i < k {
                i
            } else {
                i + 1
            };
            assert(next[i] == entries[oi]);
        }
    }
}

/// The file at `path`, if the entries have one.
pub open spec fn lookup(entries: Seq<FileEntryView>, path: Seq<u8>) -> Option<FileEntryView> {
    if holds(entries, path) {
        Some(entries[position_of(entries, path)])
    } else {
        None
    }
}

/// Every file of a snapshot is found at its path.
pub proof fn lemma_lookup_at(entries: Seq<FileEntryView>, j: int)
    requires
        paths_ascend(entries),
        0 <= j < entries.len(),
    ensures
        lookup(entries, entries[j].path) == Some(entries[j]),
{
    lemma_position(entries, entries[j].path);
}

/// A path that no file of a snapshot has is not found.
pub proof fn lemma_lookup_none(entries: Seq<FileEntryView>, path: Seq<u8>)
    requires
        paths_ascend(entries),
        forall|j: int| 0 <= j < entries.len() ==> (#[trigger] entries[j]).path != path,
    ensures
        lookup(entries, path) is None,
{
    lemma_position(entries, path);
    if holds(entries, path) {
        assert(entries[position_of(entries, path)].path == path);
    }
}

/// After a file is put, it is found at its path, and every other path holds
/// what it held before.
pub proof fn lemma_put_lookup(entries: Seq<FileEntryView>, e: FileEntryView, path: Seq<u8>)
    requires
        snapshot_ok(entries),
        entry_ok(e),
    ensures
        lookup(put(entries, e), path) == if path == e.path {
            Some(e)
        } else {
            lookup(entries, path)
        },
{
    let next = put(entries, e);
    lemma_put_ok(entries, e);
    lemma_position(entries, e.path);
    lemma_position(entries, path);
    let k = position_of(entries, e.path);
    let shift = if holds(entries, e.path) {
        0int
    } else {
        1int
    };
    assert(next[k] == e);
    if path == e.path {
        lemma_lookup_at(next, k);
    } else if holds(entries, path) {
        let j = position_of(entries, path);
        let nj = if j < k {
            j
        } else {
            j + shift
        };
        assert(next[nj] == entries[j]);
        lemma_lookup_at(next, nj);
    } else {
        assert forall|j: int| 0 <= j < next.len() implies (#[trigger] next[j]).path != path by {
            if j != k {
                let oj = if j < k {
                    j
                } else {
                    j - shift
                };
                assert(next[j] == entries[oj]);
            }
        }
        lemma_lookup_none(next, path);
    }
}

/// After a file is dropped, its path holds nothing, and every other path
/// holds what it held before.
pub proof fn lemma_drop_lookup(entries: Seq<FileEntryView>, gone: Seq<u8>, path: Seq<u8>)
    requires
        snapshot_ok(entries),
    ensures
        lookup(drop_path(entries, gone), path) == if path == gone {
            None
        } else {
            lookup(entries, path)
        },
{
    let next = drop_path(entries, gone);
    lemma_drop_ok(entries, gone);
    lemma_position(entries, gone);
    lemma_position(entries, path);
    let k = position_of(entries, gone);
    if holds(entries, gone) {
        if path != gone && holds(entries, path) {
            let j = position_of(entries, path);
            let nj = if j < k {
                j
            } else {
                j - 1
            };
            assert(next[nj] == entries[j]);
            lemma_lookup_at(next, nj);
        } else {
            assert forall|j: int| 0 <= j < next.len() implies (#[trigger] next[j]).path != path by {
                let oj = if j < k {
                    j
                } else {
                    j + 1
                };
                assert(next[j] == entries[oj]);
                if path == gone {
                    lemma_lex_trichotomy(gone, gone);
                    if oj < k {
                        assert(lex_less(entries[oj].path, entries[k].path));
                    } else {
                        assert(lex_less(entries[k].path, entries[oj].path));
                    }
                }
            }
            lemma_lookup_none(next, path);
        }
    }
}

/// `e` is one of the first `n` entries.
pub open spec fn among(entries: Seq<FileEntryView>, n: int, e: FileEntryView) -> bool {
    exists|j: int| 0 <= j < n && j < entries.len() && entries[j] == e
}

/// Every admitted entry is one of the entries and has a path that the filter
/// admits.
pub proof fn lemma_admitted_sound(entries: Seq<FileEntryView>, filter: FilterView, n: int)
    requires
        0 <= n <= entries.len(),
    ensures
        forall|r: int|
            0 <= r < admitted(entries, filter, n).len() ==> {
                &&& filter.admits((#[trigger] admitted(entries, filter, n)[r]).path)
                &&& among(entries, n, admitted(entries, filter, n)[r])
            },
    decreases n,
{
    if n > 0 {
        lemma_admitted_sound(entries, filter, n - 1);
        let before = admitted(entries, filter, n - 1);
        let now = admitted(entries, filter, n);
        assert forall|r: int| 0 <= r < now.len() implies {
            &&& filter.admits((#[trigger] now[r]).path)
            &&& among(entries, n, now[r])
        } by {
            if r < before.len() {
                assert(now[r] == before[r]);
                assert(among(entries, n - 1, before[r]));
                let j = choose|j: int| 0 <= j < n - 1 && j < entries.len() && entries[j] == before[r];
                assert(0 <= j < n && entries[j] == now[r]);
            } else {
                assert(entries[n - 1] == now[r]);
            }
        }
    }
}

/// Every entry whose path the filter admits is among the admitted entries.
pub proof fn lemma_admitted_complete(
    entries: Seq<FileEntryView>,
    filter: FilterView,
    n: int,
    j: int,
)
    requires
        0 <= j < n <= entries.len(),
        filter.admits(entries[j].path),
    ensures
        among(admitted(entries, filter, n), admitted(entries, filter, n).len() as int, entries[j]),
    decreases n,
{
    let now = admitted(entries, filter, n);
    let before = admitted(entries, filter, n - 1);
    if j < n - 1 {
        lemma_admitted_complete(entries, filter, n - 1, j);
        let r = choose|r: int| 0 <= r < before.len() && before[r] == entries[j];
        assert(now[r] == entries[j]);
    } else {
        assert(now[now.len() - 1] == entries[j]);
    }
}

/// The admitted entries of a snapshot make a snapshot.
pub proof fn lemma_admitted(entries: Seq<FileEntryView>, filter: FilterView, n: int)
    requires
        snapshot_ok(entries),
        0 <= n <= entries.len(),
    ensures
        snapshot_ok(admitted(entries, filter, n)),
    decreases n,
{
    if n > 0 {
        lemma_admitted(entries, filter, n - 1);
        lemma_admitted_sound(entries, filter, n - 1);
        let before = admitted(entries, filter, n - 1);
        let now = admitted(entries, filter, n);
        if filter.admits(entries[n - 1].path) {
            assert forall|i: int, j: int|
                #![trigger now[i], now[j]]
                0 <= i < j < now.len() implies lex_less(now[i].path, now[j].path) by {
                assert(now[i] == before[i]);
                if j < before.len() {
                    assert(now[j] == before[j]);
                    assert(lex_less(before[i].path, before[j].path));
                } else {
                    assert(among(entries, n - 1, before[i]));
                    let oi = choose|oi: int|
                        0 <= oi < n - 1 && oi < entries.len() && entries[oi] == before[i];
                    assert(lex_less(entries[oi].path, entries[n - 1].path));
                }
            }
            assert forall|i: int| 0 <= i < now.len() implies entry_ok(#[trigger] now[i]) by {
                if i < before.len() {
                    assert(now[i] == before[i]);
                }
            }
        }
    }
}

/// The files of a directory tree at one moment.
#[derive(Debug, PartialEq, Eq)]
pub struct Snapshot {
    entries: Vec<FileEntry>,
}

impl View for Snapshot {
    type V = Seq<FileEntryView>;

    closed spec fn view(&self) -> Seq<FileEntryView> {
        entries_of(self.entries@)
    }
}

impl Snapshot {
    #[verifier::type_invariant]
    spec fn inv(&self) -> bool {
        snapshot_ok(entries_of(self.entries@))
    }

    /// The snapshot of an empty tree.
    pub fn new() -> (empty: Snapshot)
        ensures
            empty@.len() == 0,
    {
        let entries: Vec<FileEntry> = Vec::new();
        Snapshot { entries }
    }

    /// The number of files. Of every snapshot the paths ascend and each file
    /// is classified by its content.
    pub fn len(&self) -> (count: usize)
        ensures
            count == self@.len(),
            snapshot_ok(self@),
    {
        proof {
            use_type_invariant(self);
        }
        self.entries.len()
    }

    /// The `i`-th file in the order of the paths.
    pub fn entry(&self, i: usize) -> (file: &FileEntry)
        requires
            i < self@.len(),
        ensures
            file@ == self@[i as int],
    {
        &self.entries[i]
    }

    /// The position at which `path` stands or would stand.
    pub fn position(&self, path: &Vec<u8>) -> (at: usize)
        ensures
            at == position_of(self@, path@),
            at <= self@.len(),
    {
        let mut i: usize = 0;
        while i < self.entries.len()
            invariant
                i <= self.entries@.len(),
                lower_bound(self@, path@, 0) == lower_bound(self@, path@, i as int),
            decreases self.entries@.len() - i,
        {
            if !bytes_less(&self.entries[i].path, path) {
                return i;
            }
            i += 1;
        }
        i
    }

    /// The place of the file at `path`, if the snapshot has one.
    pub fn find(&self, path: &Vec<u8>) -> (found: Option<usize>)
        ensures
            found is Some <==> holds(self@, path@),
            found matches Some(at) ==> at == position_of(self@, path@) && at < self@.len()
                && self@[at as int].path == path@,
    {
        let at = self.position(path);
        if at < self.entries.len() && bytes_eq(&self.entries[at].path, path) {
            Some(at)
        } else {
            None
        }
    }

    /// The snapshot with the given file at `path`, in place of the file that
    /// was there if there was one.
    pub fn with_file(self, path: Vec<u8>, content: Vec<u8>, mode: u32) -> (next: Snapshot)
        ensures
            next@ == put(self@, file_view(path@, content@, mode)),
    {
        proof {
            use_type_invariant(&self);
            lemma_put_ok(self@, file_view(path@, content@, mode));
        }
        let found = self.find(&path);
        let at = self.position(&path);
        let is_binary = classify(&content);
        let ghost before = self@;
        let mut entries = self.entries;
        if found.is_some() {
            entries.remove(at);
        }
        entries.insert(at, FileEntry { path, content, is_binary, mode });
        assert(entries_of(entries@) =~= put(before, file_view(path@, content@, mode)));
        Snapshot { entries }
    }

    /// The snapshot without the file at `path`.
    pub fn without(self, path: &Vec<u8>) -> (next: Snapshot)
        ensures
            next@ == drop_path(self@, path@),
    {
        proof {
            use_type_invariant(&self);
            lemma_drop_ok(self@, path@);
        }
        let found = self.find(path);
        let ghost before = self@;
        let mut entries = self.entries;
        if let Some(at) = found {
            entries.remove(at);
        }
        assert(entries_of(entries@) =~= drop_path(before, path@));
        Snapshot { entries }
    }

    /// A copy of the snapshot.
    pub fn copy(&self) -> (copy: Snapshot)
        ensures
            copy@ == self@,
    {
        proof {
            use_type_invariant(self);
        }
        let mut entries: Vec<FileEntry> = Vec::new();
        let mut i: usize = 0;
        while i < self.entries.len()
            invariant
                i <= self.entries@.len(),
                entries@.len() == i,
                forall|j: int| 0 <= j < i ==> entries@[j]@ == self.entries@[j]@,
            decreases self.entries@.len() - i,
        {
            entries.push(self.entries[i].copy());
            i += 1;
        }
        assert(entries_of(entries@) =~= entries_of(self.entries@));
        Snapshot { entries }
    }

    /// The files whose path the filter admits.
    pub fn filtered(&self, filter: &Filter) -> (kept: Snapshot)
        ensures
            kept@ == admitted(self@, filter@, self@.len() as int),
    {
        proof {
            use_type_invariant(self);
        }
        let mut entries: Vec<FileEntry> = Vec::new();
        let mut i: usize = 0;
        while i < self.entries.len()
            invariant
                i <= self.entries@.len(),
                entries_of(entries@) == admitted(self@, filter@, i as int),
            decreases self.entries@.len() - i,
        {
            if filter.matches(&self.entries[i].path) {
                let ghost before = entries_of(entries@);
                entries.push(self.entries[i].copy());
                assert(entries_of(entries@) =~= before.push(self@[i as int]));
            }
            i += 1;
        }
        proof {
            lemma_admitted(self@, filter@, self@.len() as int);
        }
        Snapshot { entries }
    }
}

} // verus!
