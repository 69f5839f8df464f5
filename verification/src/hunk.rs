//! The hunk: one block of removed and added lines with the unchanged lines
//! around it, and what a sequence of hunks makes of a file.

use vstd::prelude::*;
use crate::bytes::{copy_lines, lines_of};

verus! {

/// One change to a file. Line numbers count from 1. `old_start` is the line of
/// the old file at which the hunk begins (its first line of leading context),
/// `new_start` the line of the new file at which it begins.
#[derive(Debug, PartialEq, Eq)]
pub struct Hunk {
    pub old_start: usize,
    pub old_lines: usize,
    pub new_start: usize,
    pub new_lines: usize,
    pub context_before: Vec<Vec<u8>>,
    pub removed: Vec<Vec<u8>>,
    pub added: Vec<Vec<u8>>,
    pub context_after: Vec<Vec<u8>>,
}

/// The mathematical value of a [`Hunk`].
pub struct HunkView {
    pub old_start: int,
    pub old_lines: int,
    pub new_start: int,
    pub new_lines: int,
    pub context_before: Seq<Seq<u8>>,
    pub removed: Seq<Seq<u8>>,
    pub added: Seq<Seq<u8>>,
    pub context_after: Seq<Seq<u8>>,
}

impl View for Hunk {
    type V = HunkView;

    open spec fn view(&self) -> HunkView {
        HunkView {
            old_start: self.old_start as int,
            old_lines: self.old_lines as int,
            new_start: self.new_start as int,
            new_lines: self.new_lines as int,
            context_before: lines_of(self.context_before@),
            removed: lines_of(self.removed@),
            added: lines_of(self.added@),
            context_after: lines_of(self.context_after@),
        }
    }
}

impl HunkView {
    /// The declared line counts are those of the lines held, the hunk starts
    /// at a line that exists, and it changes something.
    pub open spec fn consistent(self) -> bool {
        &&& self.old_start >= 1
        &&& self.new_start >= 1
        &&& self.old_lines == self.context_before.len() + self.removed.len()
            + self.context_after.len()
        &&& self.new_lines == self.context_before.len() + self.added.len()
            + self.context_after.len()
        &&& self.removed.len() + self.added.len() > 0
    }

    /// The lines that the hunk expects to find in the old file.
    pub open spec fn old_text(self) -> Seq<Seq<u8>> {
        self.context_before + self.removed + self.context_after
    }

    /// The position in the old file, counted from 0, of the first removed line.
    pub open spec fn change_start(self) -> int {
        self.old_start - 1 + self.context_before.len()
    }

    /// The position in the old file, counted from 0, behind the last removed
    /// line.
    pub open spec fn change_end(self) -> int {
        self.change_start() + self.removed.len()
    }

    /// The position in the old file, counted from 0, behind the hunk.
    pub open spec fn old_end(self) -> int {
        self.old_start - 1 + self.old_lines
    }

    /// The lines of `file` from position `at` on are those that the hunk
    /// expects.
    pub open spec fn fits_at(self, file: Seq<Seq<u8>>, at: int) -> bool {
        &&& 0 <= at
        &&& at + self.old_text().len() <= file.len()
        &&& file.subrange(at, at + self.old_text().len()) == self.old_text()
    }

    /// `file` with the removed lines of the hunk, taken to begin with its
    /// context at position `at`, replaced by the added lines.
    pub open spec fn splice(self, file: Seq<Seq<u8>>, at: int) -> Seq<Seq<u8>> {
        file.subrange(0, at + self.context_before.len()) + self.added + file.subrange(
            at + self.context_before.len() + self.removed.len(),
            file.len() as int,
        )
    }
}

/// By how many lines the hunks before the `k`-th have made the file longer.
pub open spec fn delta_before(hunks: Seq<HunkView>, k: int) -> int
    decreases k,
{
    if k <= 0 {
        0
    } else {
        delta_before(hunks, k - 1) + hunks[k - 1].added.len() - hunks[k - 1].removed.len()
    }
}

/// The `k`-th hunk is consistent, finds its lines in `old` at its declared
/// place, ends before the next hunk begins, and declares the place in the new
/// file that the earlier hunks leave it at.
pub open spec fn hunk_in_place(old: Seq<Seq<u8>>, hunks: Seq<HunkView>, k: int) -> bool {
    &&& hunks[k].consistent()
    &&& hunks[k].fits_at(old, hunks[k].old_start - 1)
    &&& hunks[k].new_start == hunks[k].old_start + delta_before(hunks, k)
    &&& k + 1 < hunks.len() ==> hunks[k].old_end() <= hunks[k + 1].old_start - 1
}

/// The hunks describe changes to `old`: each is in its place, so they come in
/// ascending order without overlap.
pub open spec fn hunks_fit(old: Seq<Seq<u8>>, hunks: Seq<HunkView>) -> bool {
    forall|k: int| 0 <= k < hunks.len() ==> #[trigger] hunk_in_place(old, hunks, k)
}

/// The first `i` lines of `old` after the changes of `hunks`, all of which
/// end at or before line `i`.
pub open spec fn patched_upto(old: Seq<Seq<u8>>, hunks: Seq<HunkView>, i: int) -> Seq<Seq<u8>>
    decreases hunks.len(),
{
    if hunks.len() == 0 {
        old.subrange(0, i)
    } else {
        let h = hunks.last();
        patched_upto(old, hunks.drop_last(), h.change_start()) + h.added + old.subrange(
            h.change_end(),
            i,
        )
    }
}

/// The file that `hunks` make of `old`.
pub open spec fn patched(old: Seq<Seq<u8>>, hunks: Seq<HunkView>) -> Seq<Seq<u8>> {
    patched_upto(old, hunks, old.len() as int)
}

/// The position up to which `hunks` have changed the old file.
pub open spec fn changed_upto(hunks: Seq<HunkView>) -> int {
    if hunks.len() == 0 {
        0
    } else {
        hunks.last().change_end()
    }
}

/// Reading further in the old file behind the last change adds the lines read.
pub proof fn lemma_patched_extend(old: Seq<Seq<u8>>, hunks: Seq<HunkView>, i: int, j: int)
    requires
        0 <= changed_upto(hunks) <= i <= j <= old.len(),
    ensures
        patched_upto(old, hunks, j) == patched_upto(old, hunks, i) + old.subrange(i, j),
{
    if hunks.len() == 0 {
        assert(old.subrange(0, j) =~= old.subrange(0, i) + old.subrange(i, j));
    } else {
        let h = hunks.last();
        assert(old.subrange(h.change_end(), j) =~= old.subrange(h.change_end(), i)
            + old.subrange(i, j));
        assert(patched_upto(old, hunks, j) =~= patched_upto(old, hunks, i) + old.subrange(i, j));
    }
}

/// The length of the patched prefix: that of the old prefix and the growth by
/// the hunks.
pub proof fn lemma_patched_len(old: Seq<Seq<u8>>, hunks: Seq<HunkView>, i: int)
    requires
        hunks_fit(old, hunks),
        changed_upto(hunks) <= i <= old.len(),
    ensures
        patched_upto(old, hunks, i).len() == i + delta_before(hunks, hunks.len() as int),
        0 <= changed_upto(hunks),
    decreases hunks.len(),
{
    if hunks.len() > 0 {
        let h = hunks.last();
        let rest = hunks.drop_last();
        let n = hunks.len() as int;
        assert(hunk_in_place(old, hunks, n - 1));
        lemma_fit_prefix(old, hunks, n - 1);
        assert(rest =~= hunks.subrange(0, n - 1));
        if n >= 2 {
            assert(rest.last() == hunks[n - 2]);
            assert(hunk_in_place(old, hunks, n - 2));
        }
        lemma_patched_len(old, rest, h.change_start());
        lemma_delta_prefix(hunks, rest, n - 1);
    }
}

/// The growth before a hunk depends only on the hunks before it.
pub proof fn lemma_delta_prefix(hunks: Seq<HunkView>, other: Seq<HunkView>, k: int)
    requires
        0 <= k <= hunks.len(),
        k <= other.len(),
        forall|j: int| 0 <= j < k ==> hunks[j] == other[j],
    ensures
        delta_before(hunks, k) == delta_before(other, k),
    decreases k,
{
    if k > 0 {
        lemma_delta_prefix(hunks, other, k - 1);
    }
}

/// The first `k` of hunks that fit a file fit it too.
pub proof fn lemma_fit_prefix(old: Seq<Seq<u8>>, hunks: Seq<HunkView>, k: int)
    requires
        hunks_fit(old, hunks),
        0 <= k <= hunks.len(),
    ensures
        hunks_fit(old, hunks.subrange(0, k)),
{
    let front = hunks.subrange(0, k);
    assert forall|r: int| 0 <= r < front.len() implies #[trigger] hunk_in_place(
        old,
        front,
        r,
    ) by {
        assert(hunk_in_place(old, hunks, r));
        assert(front[r] == hunks[r]);
        if r + 1 < front.len() {
            assert(front[r + 1] == hunks[r + 1]);
        }
        lemma_delta_prefix(hunks, front, r);
    }
}

impl Hunk {
    /// A copy of the hunk.
    pub fn copy(&self) -> (copy: Hunk)
        ensures
            copy@ == self@,
    {
        let context_before = copy_lines(&self.context_before, 0, self.context_before.len());
        let removed = copy_lines(&self.removed, 0, self.removed.len());
        let added = copy_lines(&self.added, 0, self.added.len());
        let context_after = copy_lines(&self.context_after, 0, self.context_after.len());
        proof {
            let cb = lines_of(self.context_before@);
            let rm = lines_of(self.removed@);
            let ad = lines_of(self.added@);
            let ca = lines_of(self.context_after@);
            assert(cb.subrange(0, cb.len() as int) =~= cb);
            assert(rm.subrange(0, rm.len() as int) =~= rm);
            assert(ad.subrange(0, ad.len() as int) =~= ad);
            assert(ca.subrange(0, ca.len() as int) =~= ca);
        }
        Hunk {
            old_start: self.old_start,
            old_lines: self.old_lines,
            new_start: self.new_start,
            new_lines: self.new_lines,
            context_before,
            removed,
            added,
            context_after,
        }
    }
}

/// The values of the hunks in a vector.
pub open spec fn hunks_of(v: Seq<Hunk>) -> Seq<HunkView> {
    Seq::new(v.len(), |i: int| v[i]@)
}

/// A copy of a vector of hunks.
pub fn copy_hunks(src: &Vec<Hunk>) -> (copy: Vec<Hunk>)
    ensures
        hunks_of(copy@) == hunks_of(src@),
{
    let mut copy: Vec<Hunk> = Vec::new();
    let mut i: usize = 0;
    while i < src.len()
        invariant
            i <= src@.len(),
            copy@.len() == i,
            forall|j: int| 0 <= j < i ==> copy@[j]@ == src@[j]@,
        decreases src@.len() - i,
    {
        copy.push(src[i].copy());
        i += 1;
    }
    assert(hunks_of(copy@) =~= hunks_of(src@));
    copy
}

} // verus!
