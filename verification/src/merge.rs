//! Applying hunks to the lines of a file: each hunk is looked for at the place
//! it declares, then anywhere in the file, then anywhere with context lines
//! that differ only in the blanks at their ends.

use vstd::prelude::*;
use crate::bytes::{bytes_eq, copy_bytes, copy_lines, copy_range, lines_of};
use crate::hunk::{
    changed_upto, delta_before, hunk_in_place, hunks_fit, hunks_of, lemma_delta_prefix,
    lemma_fit_prefix, lemma_patched_extend, lemma_patched_len, patched, patched_upto, Hunk,
    HunkView,
};

verus! {

/// Why a change could not be applied.
#[derive(Clone, Copy, Debug, PartialEq, Eq, Structural)]
pub enum Conflict {
    /// A file to be added is there already.
    AlreadyExists,
    /// A file to be removed does not have the content that the patch expects.
    LocalModification,
    /// A file to be changed, moved or removed is not there.
    Missing,
    /// The lines that a hunk expects are nowhere in the file.
    ContextNotFound,
}

impl Conflict {
    /// The reason in words.
    pub open spec fn spec_reason(self) -> Seq<char> {
        match self {
            Conflict::AlreadyExists => "already exists"@,
            Conflict::LocalModification => "local modification"@,
            Conflict::Missing => "file not found"@,
            Conflict::ContextNotFound => "context not found"@,
        }
    }

    /// The reason in words.
    pub fn reason(self) -> (text: &'static str)
        ensures
            text@ == self.spec_reason(),
    {
        match self {
            Conflict::AlreadyExists => "already exists",
            Conflict::LocalModification => "local modification",
            Conflict::Missing => "file not found",
            Conflict::ContextNotFound => "context not found",
        }
    }
}

/// What became of one hunk, or of the one change to a file that has no hunks.
#[derive(Clone, Copy, Debug, PartialEq, Eq, Structural)]
pub enum ApplyOutcome {
    /// Applied where its lines were found unchanged; `at_line` is the line,
    /// counted from 1, at which the hunk begins in the file.
    Applied { at_line: usize },
    /// Applied where its context was found but for blanks; `offset` is the
    /// distance in lines from the place that the hunk declares.
    AppliedFuzzy { at_line: usize, offset: i128 },
    /// Not applied.
    Conflicted { reason: Conflict },
    /// Left out, because the filter does not admit the file.
    Skipped,
}

impl ApplyOutcome {
    /// The hunk was applied.
    pub open spec fn succeeded(self) -> bool {
        self is Applied || self is AppliedFuzzy
    }

    /// Whether the hunk was applied.
    pub fn is_success(&self) -> (yes: bool)
        ensures
            yes == self.succeeded(),
    {
        match self {
            ApplyOutcome::Applied { .. } => true,
            ApplyOutcome::AppliedFuzzy { .. } => true,
            _ => false,
        }
    }
}

/// Every outcome is a success.
pub open spec fn all_succeeded(outcomes: Seq<ApplyOutcome>) -> bool {
    forall|i: int| 0 <= i < outcomes.len() ==> (#[trigger] outcomes[i]).succeeded()
}

/// A blank: space, tab, line feed or carriage return.
pub open spec fn is_blank(b: u8) -> bool {
    b == 32 || b == 9 || b == 10 || b == 13
}

/// The first position at or after `i` that holds no blank.
pub open spec fn skip_blanks(line: Seq<u8>, i: int) -> int
    decreases line.len() - i,
{
    if i < 0 || i >= line.len() {
        line.len() as int
    } else if is_blank(line[i]) {
        skip_blanks(line, i + 1)
    } else {
        i
    }
}

/// The position behind the last byte before `e` that is no blank.
pub open spec fn drop_blanks(line: Seq<u8>, e: int) -> int
    decreases e,
{
    if e <= 0 || e > line.len() {
        0
    } else if is_blank(line[e - 1]) {
        drop_blanks(line, e - 1)
    } else {
        e
    }
}

/// The line without the blanks at its start and at its end.
pub open spec fn trimmed(line: Seq<u8>) -> Seq<u8> {
    let s = skip_blanks(line, 0);
    let e = drop_blanks(line, line.len() as int);
    if s < e {
        line.subrange(s, e)
    } else {
        Seq::empty()
    }
}

/// The two lines differ at most in the blanks at their ends.
pub open spec fn same_but_blanks(a: Seq<u8>, b: Seq<u8>) -> bool {
    trimmed(a) == trimmed(b)
}

/// Line `at + k` of the file agrees with line `k` of what the hunk expects:
/// it is the same, or, where the hunk is fitted loosely and the line is one
/// of context, the same but for blanks.
pub open spec fn agrees_at(
    h: HunkView,
    file: Seq<Seq<u8>>,
    at: int,
    k: int,
    loosely: bool,
) -> bool {
    if loosely && !(h.context_before.len() <= k < h.context_before.len() + h.removed.len()) {
        same_but_blanks(file[at + k], h.old_text()[k])
    } else {
        file[at + k] == h.old_text()[k]
    }
}

/// The hunk fits the file at position `at` (counted from 0), exactly or
/// loosely, and the line number of that position can be reported.
pub open spec fn fits(h: HunkView, file: Seq<Seq<u8>>, at: int, loosely: bool) -> bool {
    &&& 0 <= at < usize::MAX
    &&& at + h.old_text().len() <= file.len()
    &&& forall|k: int| 0 <= k < h.old_text().len() ==> #[trigger] agrees_at(h, file, at, k, loosely)
}

/// The first position at or after `from` at which the hunk fits, or -1.
pub open spec fn first_fit(h: HunkView, file: Seq<Seq<u8>>, from: int, loosely: bool) -> int
    decreases file.len() - from,
{
    if from < 0 || from + h.old_text().len() > file.len() || from >= usize::MAX {
        -1
    } else if fits(h, file, from, loosely) {
        from
    } else {
        first_fit(h, file, from + 1, loosely)
    }
}

/// Where a hunk goes.
pub enum Placement {
    Exact { at: int },
    Loose { at: int },
    Nowhere,
}

/// Where the hunk goes in the file: at the expected position if it fits
/// there; else at the first position where it fits; else at the first where
/// it fits loosely; else nowhere.
pub open spec fn place(h: HunkView, file: Seq<Seq<u8>>, expected: int) -> Placement {
    if fits(h, file, expected, false) {
        Placement::Exact { at: expected }
    } else if first_fit(h, file, 0, false) >= 0 {
        Placement::Exact { at: first_fit(h, file, 0, false) }
    } else if first_fit(h, file, 0, true) >= 0 {
        Placement::Loose { at: first_fit(h, file, 0, true) }
    } else {
        Placement::Nowhere
    }
}

/// The outcome that reports a placement.
pub open spec fn outcome_of(placement: Placement, expected: int) -> ApplyOutcome {
    match placement {
        Placement::Exact { at } => ApplyOutcome::Applied { at_line: (at + 1) as usize },
        Placement::Loose { at } => ApplyOutcome::AppliedFuzzy {
            at_line: (at + 1) as usize,
            offset: (at - expected) as i128,
        },
        Placement::Nowhere => ApplyOutcome::Conflicted { reason: Conflict::ContextNotFound },
    }
}

/// The file after a placement: with the hunk's change made at its place, or
/// as it was.
pub open spec fn placed(h: HunkView, file: Seq<Seq<u8>>, placement: Placement) -> Seq<Seq<u8>> {
    match placement {
        Placement::Exact { at } => h.splice(file, at),
        Placement::Loose { at } => h.splice(file, at),
        Placement::Nowhere => file,
    }
}

/// The lines of a file and the outcomes of the hunks applied to it so far.
pub struct MergeView {
    pub lines: Seq<Seq<u8>>,
    pub outcomes: Seq<ApplyOutcome>,
}

/// The position at which the `k`-th hunk is expected in a file that the
/// earlier hunks have brought from `original` lines to `current` lines.
pub open spec fn expected_at(h: HunkView, original: int, current: int) -> int {
    h.old_start - 1 + (current - original)
}

/// The file and the outcomes after the first `k` hunks, applied one after the
/// other. A hunk that goes nowhere leaves the lines as they are, and the
/// hunks behind it are still tried.
pub open spec fn merge_upto(file: Seq<Seq<u8>>, hunks: Seq<HunkView>, k: int) -> MergeView
    decreases k,
{
    if k <= 0 {
        MergeView { lines: file, outcomes: Seq::empty() }
    } else {
        let before = merge_upto(file, hunks, k - 1);
        let h = hunks[k - 1];
        let expected = expected_at(h, file.len() as int, before.lines.len() as int);
        let placement = place(h, before.lines, expected);
        MergeView {
            lines: placed(h, before.lines, placement),
            outcomes: before.outcomes.push(outcome_of(placement, expected)),
        }
    }
}

/// The file and the outcomes after all hunks.
pub open spec fn merge_spec(file: Seq<Seq<u8>>, hunks: Seq<HunkView>) -> MergeView {
    merge_upto(file, hunks, hunks.len() as int)
}

/// The line without the blanks at its start and at its end.
pub fn trim(line: &Vec<u8>) -> (short: Vec<u8>)
    ensures
        short@ == trimmed(line@),
{
    let n = line.len();
    let mut s: usize = 0;
    while s < n && (line[s] == 32 || line[s] == 9 || line[s] == 10 || line[s] == 13)
        invariant
            n == line@.len(),
            s <= n,
            skip_blanks(line@, 0) == skip_blanks(line@, s as int),
        decreases n - s,
    {
        s += 1;
    }
    let mut e: usize = n;
    while e > 0 && (line[e - 1] == 32 || line[e - 1] == 9 || line[e - 1] == 10 || line[e - 1]
        == 13)
        invariant
            n == line@.len(),
            e <= n,
            drop_blanks(line@, n as int) == drop_blanks(line@, e as int),
        decreases e,
    {
        e -= 1;
    }
    if s < e {
        copy_range(line, s, e)
    } else {
        Vec::new()
    }
}

/// The lines that the hunk expects, in one vector.
fn wanted(hunk: &Hunk) -> (want: Vec<Vec<u8>>)
    ensures
        lines_of(want@) == hunk@.old_text(),
{
    let mut want = copy_lines(&hunk.context_before, 0, hunk.context_before.len());
    let ghost cb = lines_of(hunk.context_before@);
    let ghost rm = lines_of(hunk.removed@);
    let ghost ca = lines_of(hunk.context_after@);
    assert(cb.subrange(0, cb.len() as int) =~= cb);
    let mut i: usize = 0;
    while i < hunk.removed.len()
        invariant
            i <= hunk.removed@.len(),
            rm == lines_of(hunk.removed@),
            lines_of(want@) == cb + rm.subrange(0, i as int),
        decreases hunk.removed@.len() - i,
    {
        let ghost before = lines_of(want@);
        want.push(copy_bytes(&hunk.removed[i]));
        assert(lines_of(want@) =~= before.push(rm[i as int]));
        assert(lines_of(want@) =~= cb + rm.subrange(0, i + 1));
        i += 1;
    }
    assert(rm.subrange(0, rm.len() as int) =~= rm);
    let mut j: usize = 0;
    while j < hunk.context_after.len()
        invariant
            j <= hunk.context_after@.len(),
            ca == lines_of(hunk.context_after@),
            lines_of(want@) == cb + rm + ca.subrange(0, j as int),
        decreases hunk.context_after@.len() - j,
    {
        let ghost before = lines_of(want@);
        want.push(copy_bytes(&hunk.context_after[j]));
        assert(lines_of(want@) =~= before.push(ca[j as int]));
        assert(lines_of(want@) =~= cb + rm + ca.subrange(0, j + 1));
        j += 1;
    }
    assert(ca.subrange(0, ca.len() as int) =~= ca);
    want
}

fn fits_here(
    file: &Vec<Vec<u8>>,
    hunk: &Hunk,
    want: &Vec<Vec<u8>>,
    at: usize,
    loosely: bool,
) -> (yes: bool)
    requires
        lines_of(want@) == hunk@.old_text(),
        at + want@.len() <= file@.len(),
        at < usize::MAX,
    ensures
        yes == fits(hunk@, lines_of(file@), at as int, loosely),
{
    let before = hunk.context_before.len();
    let changed = hunk.removed.len();
    let n = file.len();
    let ghost h = hunk@;
    let ghost f = lines_of(file@);
    assert(h.context_before.len() == before && h.removed.len() == changed);
    let mut k: usize = 0;
    while k < want.len()
        invariant
            n == file@.len(),
            h == hunk@,
            f == lines_of(file@),
            lines_of(want@) == h.old_text(),
            at + want@.len() <= file@.len(),
            at < usize::MAX,
            h.context_before.len() == before,
            h.removed.len() == changed,
            k <= want@.len(),
            forall|i: int| 0 <= i < k ==> #[trigger] agrees_at(h, f, at as int, i, loosely),
        decreases want@.len() - k,
    {
        assert(lines_of(want@)[k as int] == want@[k as int]@);
        assert(f[at + k] == file@[at + k]@);
        let in_change = before <= k && k - before < changed;
        let same = if loosely && !in_change {
            let have = trim(&file[at + k]);
            let need = trim(&want[k]);
            bytes_eq(&have, &need)
        } else {
            bytes_eq(&file[at + k], &want[k])
        };
        assert(same == agrees_at(h, f, at as int, k as int, loosely));
        if !same {
            return false;
        }
        k += 1;
    }
    true
}

fn search(file: &Vec<Vec<u8>>, hunk: &Hunk, want: &Vec<Vec<u8>>, loosely: bool) -> (found:
    Option<usize>)
    requires
        lines_of(want@) == hunk@.old_text(),
    ensures
        match found {
            Some(at) => at == first_fit(hunk@, lines_of(file@), 0, loosely),
            None => first_fit(hunk@, lines_of(file@), 0, loosely) == -1,
        },
{
    let n = file.len();
    let need = want.len();
    if need > n {
        return None;
    }
    let last = n - need;
    let ghost h = hunk@;
    let ghost f = lines_of(file@);
    let mut at: usize = 0;
    loop
        invariant
            h == hunk@,
            f == lines_of(file@),
            lines_of(want@) == h.old_text(),
            n == file@.len(),
            need == want@.len(),
            need <= n,
            last == n - need,
            at <= last,
            first_fit(h, f, 0, loosely) == first_fit(h, f, at as int, loosely),
        decreases last - at,
    {
        if at == usize::MAX {
            return None;
        }
        if fits_here(file, hunk, want, at, loosely) {
            return Some(at);
        }
        if at == last {
            assert(first_fit(h, f, at + 1, loosely) == -1);
            return None;
        }
        at += 1;
    }
}

/// Where the hunk goes in the file, given the position at which it is
/// expected: the position, and whether the hunk fits there only loosely.
fn find_place(file: &Vec<Vec<u8>>, hunk: &Hunk, want: &Vec<Vec<u8>>, expected: i128) -> (found:
    Option<(usize, bool)>)
    requires
        lines_of(want@) == hunk@.old_text(),
    ensures
        match found {
            Some((at, false)) => place(hunk@, lines_of(file@), expected as int)
                == (Placement::Exact { at: at as int }),
            Some((at, true)) => place(hunk@, lines_of(file@), expected as int)
                == (Placement::Loose { at: at as int }),
            None => place(hunk@, lines_of(file@), expected as int) == Placement::Nowhere,
        },
        found matches Some((at, _)) ==> at < usize::MAX && at + hunk@.old_text().len()
            <= file@.len(),
{
    let n = file.len();
    let need = want.len();
    if 0 <= expected && expected < usize::MAX as i128 && expected + need as i128 <= n as i128 {
        let at = expected as usize;
        if fits_here(file, hunk, want, at, false) {
            return Some((at, false));
        }
    }
    proof {
        lemma_first_fit(hunk@, lines_of(file@), 0, false);
        lemma_first_fit(hunk@, lines_of(file@), 0, true);
    }
    match search(file, hunk, want, false) {
        Some(at) => Some((at, false)),
        None => match search(file, hunk, want, true) {
            Some(at) => Some((at, true)),
            None => None,
        },
    }
}

/// Where the first fit is, the hunk fits.
pub proof fn lemma_first_fit(h: HunkView, file: Seq<Seq<u8>>, from: int, loosely: bool)
    requires
        0 <= from,
    ensures
        first_fit(h, file, from, loosely) == -1 || (from <= first_fit(h, file, from, loosely)
            && fits(h, file, first_fit(h, file, from, loosely), loosely)),
    decreases file.len() - from,
{
    if from + h.old_text().len() > file.len() || from >= usize::MAX {
    } else if !fits(h, file, from, loosely) {
        lemma_first_fit(h, file, from + 1, loosely);
    }
}

/// The lines of a file after some hunks, and what became of each hunk.
#[derive(Debug, PartialEq, Eq)]
pub struct Merged {
    pub lines: Vec<Vec<u8>>,
    pub outcomes: Vec<ApplyOutcome>,
}

impl View for Merged {
    type V = MergeView;

    open spec fn view(&self) -> MergeView {
        MergeView { lines: lines_of(self.lines@), outcomes: self.outcomes@ }
    }
}

/// The file with the hunk's removed lines, taken to stand behind its leading
/// context at `at`, replaced by its added lines.
fn splice(file: &Vec<Vec<u8>>, hunk: &Hunk, at: usize) -> (next: Vec<Vec<u8>>)
    requires
        at + hunk@.old_text().len() <= file@.len(),
    ensures
        lines_of(next@) == hunk@.splice(lines_of(file@), at as int),
{
    let before = hunk.context_before.len();
    let changed = hunk.removed.len();
    let n = file.len();
    let ghost f = lines_of(file@);
    let ghost ad = lines_of(hunk.added@);
    assert(hunk@.old_text().len() == before + changed + hunk.context_after@.len());
    let mut next = copy_lines(file, 0, at + before);
    let mut i: usize = 0;
    while i < hunk.added.len()
        invariant
            i <= hunk.added@.len(),
            ad == lines_of(hunk.added@),
            f == lines_of(file@),
            at + before <= file@.len(),
            lines_of(next@) == f.subrange(0, at + before) + ad.subrange(0, i as int),
        decreases hunk.added@.len() - i,
    {
        let ghost prev = lines_of(next@);
        next.push(copy_bytes(&hunk.added[i]));
        assert(lines_of(next@) =~= prev.push(ad[i as int]));
        assert(lines_of(next@) =~= f.subrange(0, at + before) + ad.subrange(0, i + 1));
        i += 1;
    }
    assert(ad.subrange(0, ad.len() as int) =~= ad);
    let from = at + before + changed;
    let mut j: usize = from;
    while j < file.len()
        invariant
            from <= j <= file@.len(),
            f == lines_of(file@),
            at + before <= file@.len(),
            lines_of(next@) == f.subrange(0, at + before) + ad + f.subrange(
                from as int,
                j as int,
            ),
        decreases file@.len() - j,
    {
        let ghost prev = lines_of(next@);
        next.push(copy_bytes(&file[j]));
        assert(lines_of(next@) =~= prev.push(f[j as int]));
        assert(lines_of(next@) =~= f.subrange(0, at + before) + ad + f.subrange(
            from as int,
            j + 1,
        ));
        j += 1;
    }
    next
}

/// Looks for the place of one hunk in `file` and makes its change there. The
/// hunk is expected at its declared line, moved by `current - original` lines
/// where `original` is the length that the file had before any hunk.
pub fn try_merge_hunk(file: &Vec<Vec<u8>>, hunk: &Hunk, original: usize) -> (merged: (
    Option<Vec<Vec<u8>>>,
    ApplyOutcome,
))
    ensures
        ({
            let expected = expected_at(hunk@, original as int, file@.len() as int);
            let placement = place(hunk@, lines_of(file@), expected);
            &&& merged.1 == outcome_of(placement, expected)
            &&& match merged.0 {
                Some(lines) => !(placement is Nowhere) && lines_of(lines@) == placed(
                    hunk@,
                    lines_of(file@),
                    placement,
                ),
                None => placement is Nowhere,
            }
        }),
{
    let want = wanted(hunk);
    let expected: i128 = hunk.old_start as i128 - 1 + (file.len() as i128 - original as i128);
    match find_place(file, hunk, &want, expected) {
        Some((at, loose)) => {
            let lines = splice(file, hunk, at);
            let outcome = if loose {
                ApplyOutcome::AppliedFuzzy { at_line: at + 1, offset: at as i128 - expected }
            } else {
                ApplyOutcome::Applied { at_line: at + 1 }
            };
            (Some(lines), outcome)
        },
        None => (None, ApplyOutcome::Conflicted { reason: Conflict::ContextNotFound }),
    }
}

/// Applies the hunks to the lines of a file, one after the other. A hunk
/// whose place is not found is reported as a conflict and leaves the lines
/// as they are; the hunks behind it are still tried.
pub fn merge_hunks(file: &Vec<Vec<u8>>, hunks: &Vec<Hunk>) -> (merged: Merged)
    ensures
        merged@ == merge_spec(lines_of(file@), hunks_of(hunks@)),
{
    let original = file.len();
    let ghost f = lines_of(file@);
    let ghost hs = hunks_of(hunks@);
    let mut lines = copy_lines(file, 0, file.len());
    assert(f.subrange(0, f.len() as int) =~= f);
    let mut outcomes: Vec<ApplyOutcome> = Vec::new();
    let mut k: usize = 0;
    while k < hunks.len()
        invariant
            f == lines_of(file@),
            hs == hunks_of(hunks@),
            original == f.len(),
            k <= hunks@.len(),
            (MergeView { lines: lines_of(lines@), outcomes: outcomes@ }) == merge_upto(
                f,
                hs,
                k as int,
            ),
        decreases hunks@.len() - k,
    {
        assert(hs[k as int] == hunks@[k as int]@);
        let (next, outcome) = try_merge_hunk(&lines, &hunks[k], original);
        if let Some(changed) = next {
            lines = changed;
        }
        outcomes.push(outcome);
        k += 1;
    }
    Merged { lines, outcomes }
}

/// Hunks that fit a file are applied, each exactly at the line it declares,
/// and leave the file that they describe.
pub proof fn lemma_merge_fitting(old: Seq<Seq<u8>>, hunks: Seq<HunkView>, k: int)
    requires
        hunks_fit(old, hunks),
        0 <= k <= hunks.len(),
        forall|i: int| 0 <= i < hunks.len() ==> (#[trigger] hunks[i]).new_start <= usize::MAX,
    ensures
        merge_upto(old, hunks, k).lines == patched(old, hunks.subrange(0, k)),
        merge_upto(old, hunks, k).outcomes.len() == k,
        forall|i: int|
            0 <= i < k ==> #[trigger] merge_upto(old, hunks, k).outcomes[i]
                == (ApplyOutcome::Applied { at_line: hunks[i].new_start as usize }),
    decreases k,
{
    if k == 0 {
        assert(old.subrange(0, old.len() as int) =~= old);
    } else {
        lemma_merge_fitting(old, hunks, k - 1);
        let front = hunks.subrange(0, k - 1);
        let upto = hunks.subrange(0, k);
        let h = hunks[k - 1];
        let before = merge_upto(old, hunks, k - 1);
        let n = old.len() as int;
        assert(hunk_in_place(old, hunks, k - 1));
        lemma_fit_prefix(old, hunks, k - 1);
        let m = changed_upto(front);
        if k - 1 > 0 {
            assert(front.last() == hunks[k - 2]);
            assert(hunk_in_place(old, hunks, k - 2));
        }
        assert(h.old_text().len() == h.old_lines);
        assert(m <= h.old_start - 1);
        lemma_patched_len(old, front, n);
        lemma_patched_len(old, front, m);
        lemma_delta_prefix(hunks, front, k - 1);
        let delta = delta_before(hunks, k - 1);
        let expected = expected_at(h, n, before.lines.len() as int);
        assert(expected == h.new_start - 1);
        lemma_patched_extend(old, front, m, n);
        let head = patched_upto(old, front, m);
        assert(before.lines == head + old.subrange(m, n));
        assert(head.len() == m + delta);
        assert forall|x: int| 0 <= x < h.old_text().len() implies #[trigger] agrees_at(
            h,
            before.lines,
            expected,
            x,
            false,
        ) by {
            assert(before.lines[expected + x] == old[h.old_start - 1 + x]);
            assert(old.subrange(h.old_start - 1, h.old_start - 1 + h.old_text().len())[x]
                == old[h.old_start - 1 + x]);
        }
        assert(fits(h, before.lines, expected, false));
        let placement = place(h, before.lines, expected);
        assert(placement == (Placement::Exact { at: expected }));
        let after = merge_upto(old, hunks, k);
        assert(after.lines == h.splice(before.lines, expected));
        // What the hunks up to this one make of the file.
        assert(upto.last() == h);
        assert(upto.drop_last() =~= front);
        lemma_patched_extend(old, front, m, h.change_start());
        assert(before.lines.subrange(0, expected + h.context_before.len()) =~= head
            + old.subrange(m, h.change_start()));
        assert(before.lines.subrange(
            expected + h.context_before.len() + h.removed.len(),
            before.lines.len() as int,
        ) =~= old.subrange(h.change_end(), n));
        assert(after.lines == patched(old, upto));
        assert forall|i: int| 0 <= i < k implies #[trigger] after.outcomes[i]
            == (ApplyOutcome::Applied { at_line: hunks[i].new_start as usize }) by {
            if i < k - 1 {
                assert(after.outcomes[i] == before.outcomes[i]);
            }
        }
    }
}

/// Applying the hunks between two files to the first gives the second, with
/// every hunk applied exactly.
pub proof fn lemma_merge_after_diff(old: Seq<Seq<u8>>, new: Seq<Seq<u8>>)
    requires
        old.len() < usize::MAX,
        new.len() < usize::MAX,
    ensures
        merge_spec(old, crate::linediff::diff_lines(old, new)).lines == new,
        all_succeeded(merge_spec(old, crate::linediff::diff_lines(old, new)).outcomes),
{
    let hunks = crate::linediff::diff_lines(old, new);
    crate::linediff::lemma_diff_lines(old, new);
    crate::linediff::lemma_diff_bounds(old, new);
    lemma_merge_fitting(old, hunks, hunks.len() as int);
    assert(hunks.subrange(0, hunks.len() as int) =~= hunks);
}

} // verus!
