//! The difference between two files, line by line: the changed stretches are
//! found along a longest common subsequence of the lines and made into hunks
//! with up to three lines of context on each side.

use vstd::prelude::*;
use crate::bytes::{bytes_eq, copy_lines, lines_of};
use crate::hunk::{
    changed_upto, delta_before, hunk_in_place, hunks_fit, hunks_of, lemma_patched_extend, patched,
    patched_upto, Hunk, HunkView,
};
use crate::minimal::{added_total, is_common, lemma_diff_is_least, removed_total};

verus! {

/// The number of unchanged lines shown on each side of a change, where the
/// file has that many.
pub const CONTEXT_LINES: usize = 3;

/// The length of a longest common subsequence of the lines of `a` from `i` on
/// and the lines of `b` from `j` on.
pub open spec fn lcs_len(a: Seq<Seq<u8>>, b: Seq<Seq<u8>>, i: int, j: int) -> nat
    decreases (a.len() - i) + (b.len() - j),
{
    if i < 0 || j < 0 || i >= a.len() || j >= b.len() {
        0
    } else if a[i] == b[j] {
        1 + lcs_len(a, b, i + 1, j + 1)
    } else {
        let down = lcs_len(a, b, i + 1, j);
        let right = lcs_len(a, b, i, j + 1);
        if down >= right {
            down
        } else {
            right
        }
    }
}

/// Line `i` of `a` and line `j` of `b` exist and are the same: the walk keeps
/// the line.
pub open spec fn keeps(a: Seq<Seq<u8>>, b: Seq<Seq<u8>>, i: int, j: int) -> bool {
    0 <= i < a.len() && 0 <= j < b.len() && a[i] == b[j]
}

/// Both files have been read to their end.
pub open spec fn at_end(a: Seq<Seq<u8>>, b: Seq<Seq<u8>>, i: int, j: int) -> bool {
    i >= a.len() && j >= b.len()
}

/// The number of lines that the walk keeps in a row from `(i, j)` on.
pub open spec fn keep_run(a: Seq<Seq<u8>>, b: Seq<Seq<u8>>, i: int, j: int) -> int
    decreases a.len() - i,
{
    if keeps(a, b, i, j) {
        1 + keep_run(a, b, i + 1, j + 1)
    } else {
        0
    }
}

/// Inside a change at `(i, j)`, whether the walk drops line `i` of `a` (or
/// else takes in line `j` of `b`): it drops where that loses nothing of the
/// longest common subsequence.
pub open spec fn drops(a: Seq<Seq<u8>>, b: Seq<Seq<u8>>, i: int, j: int) -> bool {
    if i >= a.len() {
        false
    } else if j >= b.len() {
        true
    } else {
        lcs_len(a, b, i + 1, j) >= lcs_len(a, b, i, j + 1)
    }
}

/// Where the change that the walk is in at `(i, j)` ends: at the next line
/// that is kept, or at the end of both files.
pub open spec fn change_stop(a: Seq<Seq<u8>>, b: Seq<Seq<u8>>, i: int, j: int) -> (int, int)
    decreases (a.len() - i) + (b.len() - j),
{
    if i < 0 || j < 0 || i > a.len() || j > b.len() || keeps(a, b, i, j) || at_end(a, b, i, j) {
        (i, j)
    } else if drops(a, b, i, j) {
        change_stop(a, b, i + 1, j)
    } else {
        change_stop(a, b, i, j + 1)
    }
}

/// A changed stretch: the lines `old_pos..old_end` of the old file (counted
/// from 0) are replaced by the lines `new_pos..new_end` of the new file.
pub struct Span {
    pub old_pos: int,
    pub old_end: int,
    pub new_pos: int,
    pub new_end: int,
}

/// The changed stretches that the walk finds from `(i, j)` on.
pub open spec fn spans_from(a: Seq<Seq<u8>>, b: Seq<Seq<u8>>, i: int, j: int) -> Seq<Span>
    decreases (a.len() - i) + (b.len() - j),
{
    if i < 0 || j < 0 {
        Seq::empty()
    } else {
        let k = keep_run(a, b, i, j);
        let i1 = i + k;
        let j1 = j + k;
        if k < 0 || at_end(a, b, i1, j1) {
            Seq::empty()
        } else {
            let (i2, j2) = change_stop(a, b, i1, j1);
            if i2 < i1 || j2 < j1 || i2 + j2 <= i1 + j1 || i2 > a.len() || j2 > b.len() {
                Seq::empty()
            } else {
                seq![Span { old_pos: i1, old_end: i2, new_pos: j1, new_end: j2 }] + spans_from(
                    a,
                    b,
                    i2,
                    j2,
                )
            }
        }
    }
}

/// The end in the old file of the stretch before the `r`-th, or `base` for
/// the first.
pub open spec fn prev_old(spans: Seq<Span>, r: int, base: int) -> int {
    if r <= 0 {
        base
    } else {
        spans[r - 1].old_end
    }
}

/// The end in the new file of the stretch before the `r`-th, or `base` for
/// the first.
pub open spec fn prev_new(spans: Seq<Span>, r: int, base: int) -> int {
    if r <= 0 {
        base
    } else {
        spans[r - 1].new_end
    }
}

/// The `r`-th stretch lies in both files behind the one before it (or behind
/// `(i, j)`), changes something, and what lies between the two is the same in
/// both files.
pub open spec fn span_linked(
    a: Seq<Seq<u8>>,
    b: Seq<Seq<u8>>,
    spans: Seq<Span>,
    r: int,
    i: int,
    j: int,
) -> bool {
    let s = spans[r];
    &&& i <= prev_old(spans, r, i) <= s.old_pos <= s.old_end <= a.len()
    &&& j <= prev_new(spans, r, j) <= s.new_pos <= s.new_end <= b.len()
    &&& s.old_pos - prev_old(spans, r, i) == s.new_pos - prev_new(spans, r, j)
    &&& a.subrange(prev_old(spans, r, i), s.old_pos) == b.subrange(
        prev_new(spans, r, j),
        s.new_pos,
    )
    &&& (s.old_end - s.old_pos) + (s.new_end - s.new_pos) > 0
}

/// The stretches account for every difference between `a` from `i` on and `b`
/// from `j` on: they come in order, each changes something, and what lies
/// between them, before the first and behind the last is the same in both
/// files.
pub open spec fn spans_chain(
    a: Seq<Seq<u8>>,
    b: Seq<Seq<u8>>,
    spans: Seq<Span>,
    i: int,
    j: int,
) -> bool {
    &&& forall|r: int| 0 <= r < spans.len() ==> #[trigger] span_linked(a, b, spans, r, i, j)
    &&& i <= prev_old(spans, spans.len() as int, i) <= a.len()
    &&& j <= prev_new(spans, spans.len() as int, j) <= b.len()
    &&& a.len() - prev_old(spans, spans.len() as int, i) == b.len() - prev_new(
        spans,
        spans.len() as int,
        j,
    )
    &&& a.subrange(prev_old(spans, spans.len() as int, i), a.len() as int) == b.subrange(
        prev_new(spans, spans.len() as int, j),
        b.len() as int,
    )
}

/// `x`, or the number of context lines if `x` is greater.
pub open spec fn at_most_context(x: int) -> int {
    if x < CONTEXT_LINES as int {
        x
    } else {
        CONTEXT_LINES as int
    }
}

/// The start in the old file of the stretch behind the `r`-th, or the end of
/// the file for the last.
pub open spec fn next_old(a_len: int, spans: Seq<Span>, r: int) -> int {
    if r + 1 < spans.len() {
        spans[r + 1].old_pos
    } else {
        a_len
    }
}

/// The number of lines of context behind the `r`-th stretch.
pub open spec fn trail(a_len: int, spans: Seq<Span>, r: int) -> int {
    at_most_context(next_old(a_len, spans, r) - spans[r].old_end)
}

/// The position in the old file up to which the hunks before the `r`-th
/// reach, their trailing context included.
pub open spec fn covered(a_len: int, spans: Seq<Span>, r: int) -> int {
    if r <= 0 {
        0
    } else {
        spans[r - 1].old_end + trail(a_len, spans, r - 1)
    }
}

/// The number of lines of context before the `r`-th stretch: up to three, and
/// none that an earlier hunk has shown.
pub open spec fn lead(a_len: int, spans: Seq<Span>, r: int) -> int {
    at_most_context(spans[r].old_pos - covered(a_len, spans, r))
}

/// The hunk for the `r`-th stretch.
pub open spec fn hunk_at(a: Seq<Seq<u8>>, b: Seq<Seq<u8>>, spans: Seq<Span>, r: int) -> HunkView {
    let s = spans[r];
    let before = lead(a.len() as int, spans, r);
    let after = trail(a.len() as int, spans, r);
    HunkView {
        old_start: s.old_pos - before + 1,
        old_lines: before + (s.old_end - s.old_pos) + after,
        new_start: s.new_pos - before + 1,
        new_lines: before + (s.new_end - s.new_pos) + after,
        context_before: a.subrange(s.old_pos - before, s.old_pos),
        removed: a.subrange(s.old_pos, s.old_end),
        added: b.subrange(s.new_pos, s.new_end),
        context_after: a.subrange(s.old_end, s.old_end + after),
    }
}

/// The hunks for a sequence of stretches.
pub open spec fn hunks_for(a: Seq<Seq<u8>>, b: Seq<Seq<u8>>, spans: Seq<Span>) -> Seq<HunkView> {
    Seq::new(spans.len(), |r: int| hunk_at(a, b, spans, r))
}

/// The hunks that turn the lines `a` into the lines `b`.
pub open spec fn diff_lines(a: Seq<Seq<u8>>, b: Seq<Seq<u8>>) -> Seq<HunkView> {
    hunks_for(a, b, spans_from(a, b, 0, 0))
}

/// A common subsequence is no longer than what is left of either file.
pub proof fn lemma_lcs_bound(a: Seq<Seq<u8>>, b: Seq<Seq<u8>>, i: int, j: int)
    requires
        0 <= i <= a.len(),
        0 <= j <= b.len(),
    ensures
        lcs_len(a, b, i, j) <= a.len() - i,
        lcs_len(a, b, i, j) <= b.len() - j,
    decreases (a.len() - i) + (b.len() - j),
{
    if i < a.len() && j < b.len() {
        if a[i] == b[j] {
            lemma_lcs_bound(a, b, i + 1, j + 1);
        } else {
            lemma_lcs_bound(a, b, i + 1, j);
            lemma_lcs_bound(a, b, i, j + 1);
        }
    }
}

/// A run of kept lines stays within both files, covers the same lines in
/// both, and ends where the next line is not kept.
pub proof fn lemma_keep_run(a: Seq<Seq<u8>>, b: Seq<Seq<u8>>, i: int, j: int)
    requires
        0 <= i <= a.len(),
        0 <= j <= b.len(),
    ensures
        0 <= keep_run(a, b, i, j),
        i + keep_run(a, b, i, j) <= a.len(),
        j + keep_run(a, b, i, j) <= b.len(),
        a.subrange(i, i + keep_run(a, b, i, j)) == b.subrange(j, j + keep_run(a, b, i, j)),
        !keeps(a, b, i + keep_run(a, b, i, j), j + keep_run(a, b, i, j)),
    decreases a.len() - i,
{
    if keeps(a, b, i, j) {
        lemma_keep_run(a, b, i + 1, j + 1);
        let k = keep_run(a, b, i, j);
        assert(a.subrange(i, i + k) =~= seq![a[i]] + a.subrange(i + 1, i + k));
        assert(b.subrange(j, j + k) =~= seq![b[j]] + b.subrange(j + 1, j + k));
    } else {
        assert(a.subrange(i, i) =~= b.subrange(j, j));
    }
}

/// A change ends within both files, and behind where it began if it began
/// at a line that is not kept.
pub proof fn lemma_change_stop(a: Seq<Seq<u8>>, b: Seq<Seq<u8>>, i: int, j: int)
    requires
        0 <= i <= a.len(),
        0 <= j <= b.len(),
    ensures
        i <= change_stop(a, b, i, j).0 <= a.len(),
        j <= change_stop(a, b, i, j).1 <= b.len(),
        !keeps(a, b, i, j) && !at_end(a, b, i, j) ==> change_stop(a, b, i, j).0 + change_stop(
            a,
            b,
            i,
            j,
        ).1 > i + j,
    decreases (a.len() - i) + (b.len() - j),
{
    if keeps(a, b, i, j) || at_end(a, b, i, j) {
    } else if drops(a, b, i, j) {
        lemma_change_stop(a, b, i + 1, j);
    } else {
        lemma_change_stop(a, b, i, j + 1);
    }
}

/// The stretches that the walk finds account for every difference.
pub proof fn lemma_spans_chain(a: Seq<Seq<u8>>, b: Seq<Seq<u8>>, i: int, j: int)
    requires
        0 <= i <= a.len(),
        0 <= j <= b.len(),
    ensures
        spans_chain(a, b, spans_from(a, b, i, j), i, j),
    decreases (a.len() - i) + (b.len() - j),
{
    lemma_keep_run(a, b, i, j);
    let k = keep_run(a, b, i, j);
    let i1 = i + k;
    let j1 = j + k;
    let spans = spans_from(a, b, i, j);
    if at_end(a, b, i1, j1) {
        assert(spans =~= Seq::<Span>::empty());
        assert(a.subrange(i, a.len() as int) =~= a.subrange(i, i + k));
        assert(b.subrange(j, b.len() as int) =~= b.subrange(j, j + k));
    } else {
        lemma_change_stop(a, b, i1, j1);
        let (i2, j2) = change_stop(a, b, i1, j1);
        let first = Span { old_pos: i1, old_end: i2, new_pos: j1, new_end: j2 };
        let rest = spans_from(a, b, i2, j2);
        lemma_spans_chain(a, b, i2, j2);
        assert(spans == seq![first] + rest);
        assert forall|r: int| 0 <= r < spans.len() implies #[trigger] span_linked(
            a,
            b,
            spans,
            r,
            i,
            j,
        ) by {
            if r > 0 {
                assert(span_linked(a, b, rest, r - 1, i2, j2));
                assert(spans[r] == rest[r - 1]);
                if r > 1 {
                    assert(spans[r - 1] == rest[r - 2]);
                }
            }
        }
        let n = spans.len() as int;
        if n > 1 {
            assert(spans[n - 1] == rest[n - 2]);
        }
    }
}

/// A file differs from itself in no stretch.
pub proof fn lemma_spans_same(a: Seq<Seq<u8>>, i: int)
    requires
        0 <= i <= a.len(),
    ensures
        keep_run(a, a, i, i) == a.len() - i,
        spans_from(a, a, i, i) == Seq::<Span>::empty(),
    decreases a.len() - i,
{
    if i < a.len() {
        lemma_spans_same(a, i + 1);
    }
}

proof fn lemma_context_bounds(a: Seq<Seq<u8>>, b: Seq<Seq<u8>>, spans: Seq<Span>, r: int)
    requires
        spans_chain(a, b, spans, 0, 0),
        0 <= r < spans.len(),
    ensures
        span_linked(a, b, spans, r, 0, 0),
        0 <= trail(a.len() as int, spans, r) <= CONTEXT_LINES,
        0 <= lead(a.len() as int, spans, r) <= CONTEXT_LINES,
        spans[r].old_end + trail(a.len() as int, spans, r) <= next_old(a.len() as int, spans, r),
        next_old(a.len() as int, spans, r) <= a.len(),
        spans[r].new_end + trail(a.len() as int, spans, r) <= b.len(),
        0 <= covered(a.len() as int, spans, r) <= spans[r].old_pos - lead(
            a.len() as int,
            spans,
            r,
        ),
        0 <= prev_old(spans, r, 0) <= spans[r].old_pos - lead(a.len() as int, spans, r),
        0 <= prev_new(spans, r, 0) <= spans[r].new_pos - lead(a.len() as int, spans, r),
{
    assert(span_linked(a, b, spans, r, 0, 0));
    if r + 1 < spans.len() {
        assert(span_linked(a, b, spans, r + 1, 0, 0));
    }
    if r > 0 {
        assert(span_linked(a, b, spans, r - 1, 0, 0));
        assert(next_old(a.len() as int, spans, r - 1) == spans[r].old_pos);
        if r > 1 {
            assert(span_linked(a, b, spans, r - 2, 0, 0));
        }
    }
}

proof fn lemma_shift(a: Seq<Seq<u8>>, b: Seq<Seq<u8>>, spans: Seq<Span>, r: int)
    requires
        spans_chain(a, b, spans, 0, 0),
        0 <= r <= spans.len(),
    ensures
        prev_new(spans, r, 0) - prev_old(spans, r, 0) == delta_before(hunks_for(a, b, spans), r),
    decreases r,
{
    if r > 0 {
        lemma_shift(a, b, spans, r - 1);
        assert(span_linked(a, b, spans, r - 1, 0, 0));
        let h = hunks_for(a, b, spans)[r - 1];
        assert(h == hunk_at(a, b, spans, r - 1));
    }
}

proof fn lemma_patched_prefix(a: Seq<Seq<u8>>, b: Seq<Seq<u8>>, spans: Seq<Span>, k: int)
    requires
        spans_chain(a, b, spans, 0, 0),
        0 <= k <= spans.len(),
    ensures
        patched_upto(a, hunks_for(a, b, spans).subrange(0, k), prev_old(spans, k, 0))
            == b.subrange(0, prev_new(spans, k, 0)),
    decreases k,
{
    let hunks = hunks_for(a, b, spans);
    if k == 0 {
        assert(a.subrange(0, 0) =~= b.subrange(0, 0));
    } else {
        lemma_patched_prefix(a, b, spans, k - 1);
        let front = hunks.subrange(0, k);
        let before = hunks.subrange(0, k - 1);
        let s = spans[k - 1];
        let h = front.last();
        assert(h == hunk_at(a, b, spans, k - 1));
        assert(front.drop_last() =~= before);
        lemma_context_bounds(a, b, spans, k - 1);
        assert(h.change_start() == s.old_pos);
        assert(h.change_end() == s.old_end);
        if k - 1 > 0 {
            assert(before.last() == hunk_at(a, b, spans, k - 2));
            lemma_context_bounds(a, b, spans, k - 2);
        }
        assert(changed_upto(before) == prev_old(spans, k - 1, 0));
        lemma_patched_extend(a, before, prev_old(spans, k - 1, 0), s.old_pos);
        assert(a.subrange(s.old_end, s.old_end) =~= Seq::<Seq<u8>>::empty());
        assert(b.subrange(0, prev_new(spans, k - 1, 0)) + b.subrange(
            prev_new(spans, k - 1, 0),
            s.new_pos,
        ) + b.subrange(s.new_pos, s.new_end) =~= b.subrange(0, s.new_end));
    }
}

/// Hunks made from stretches that account for every difference between two
/// files fit the old file and turn it into the new one.
pub proof fn lemma_hunks_for(a: Seq<Seq<u8>>, b: Seq<Seq<u8>>, spans: Seq<Span>)
    requires
        spans_chain(a, b, spans, 0, 0),
    ensures
        hunks_fit(a, hunks_for(a, b, spans)),
        patched(a, hunks_for(a, b, spans)) == b,
{
    let hunks = hunks_for(a, b, spans);
    let n = spans.len() as int;
    assert forall|k: int| 0 <= k < hunks.len() implies #[trigger] hunk_in_place(a, hunks, k) by {
        let h = hunks[k];
        let s = spans[k];
        assert(h == hunk_at(a, b, spans, k));
        lemma_context_bounds(a, b, spans, k);
        lemma_shift(a, b, spans, k);
        assert(h.context_before.len() == lead(a.len() as int, spans, k));
        assert(h.removed.len() == s.old_end - s.old_pos);
        assert(h.context_after.len() == trail(a.len() as int, spans, k));
        assert(h.old_text().len() == h.old_lines);
        assert(a.subrange(h.old_start - 1, h.old_start - 1 + h.old_text().len()) =~= h.old_text());
        if k + 1 < hunks.len() {
            lemma_context_bounds(a, b, spans, k + 1);
        }
    }
    lemma_patched_prefix(a, b, spans, n);
    assert(hunks.subrange(0, n) =~= hunks);
    if n > 0 {
        lemma_context_bounds(a, b, spans, n - 1);
        assert(hunks.last() == hunk_at(a, b, spans, n - 1));
    }
    lemma_patched_extend(a, hunks, prev_old(spans, n, 0), a.len() as int);
    assert(b.subrange(0, prev_new(spans, n, 0)) + b.subrange(
        prev_new(spans, n, 0),
        b.len() as int,
    ) =~= b);
}

/// The hunks between two files fit the old file and turn it into the new
/// one, and a file differs from itself in no hunk.
pub proof fn lemma_diff_lines(a: Seq<Seq<u8>>, b: Seq<Seq<u8>>)
    ensures
        hunks_fit(a, diff_lines(a, b)),
        patched(a, diff_lines(a, b)) == b,
        a == b ==> diff_lines(a, b).len() == 0,
{
    lemma_spans_chain(a, b, 0, 0);
    lemma_hunks_for(a, b, spans_from(a, b, 0, 0));
    if a == b {
        lemma_spans_same(a, 0);
    }
}

/// The line numbers of the hunks between two files are no greater than the
/// files are long, by more than one.
pub proof fn lemma_diff_bounds(a: Seq<Seq<u8>>, b: Seq<Seq<u8>>)
    ensures
        forall|k: int|
            0 <= k < diff_lines(a, b).len() ==> {
                &&& 1 <= (#[trigger] diff_lines(a, b)[k]).old_start <= a.len() + 1
                &&& 1 <= diff_lines(a, b)[k].new_start <= b.len() + 1
            },
{
    lemma_spans_chain(a, b, 0, 0);
    let spans = spans_from(a, b, 0, 0);
    assert forall|k: int| 0 <= k < diff_lines(a, b).len() implies {
        &&& 1 <= (#[trigger] diff_lines(a, b)[k]).old_start <= a.len() + 1
        &&& 1 <= diff_lines(a, b)[k].new_start <= b.len() + 1
    } by {
        lemma_context_bounds(a, b, spans, k);
        assert(diff_lines(a, b)[k] == hunk_at(a, b, spans, k));
    }
}

/// The lines of the hunks between two files are lines of the files, and each
/// hunk lies within the new file.
pub proof fn lemma_diff_parts(a: Seq<Seq<u8>>, b: Seq<Seq<u8>>)
    requires
        crate::text::all_lines(a),
        crate::text::all_lines(b),
    ensures
        forall|k: int|
            0 <= k < diff_lines(a, b).len() ==> {
                let h = #[trigger] diff_lines(a, b)[k];
                &&& crate::text::all_lines(h.context_before)
                &&& crate::text::all_lines(h.removed)
                &&& crate::text::all_lines(h.added)
                &&& crate::text::all_lines(h.context_after)
                &&& h.new_lines >= 0
                &&& h.new_start - 1 + h.new_lines <= b.len()
            },
{
    lemma_spans_chain(a, b, 0, 0);
    let spans = spans_from(a, b, 0, 0);
    assert forall|k: int| 0 <= k < diff_lines(a, b).len() implies {
        let h = #[trigger] diff_lines(a, b)[k];
        &&& crate::text::all_lines(h.context_before)
        &&& crate::text::all_lines(h.removed)
        &&& crate::text::all_lines(h.added)
        &&& crate::text::all_lines(h.context_after)
        &&& h.new_lines >= 0
        &&& h.new_start - 1 + h.new_lines <= b.len()
    } by {
        lemma_context_bounds(a, b, spans, k);
        let h = diff_lines(a, b)[k];
        let s = spans[k];
        let before = lead(a.len() as int, spans, k);
        let after = trail(a.len() as int, spans, k);
        assert(h == hunk_at(a, b, spans, k));
        assert forall|i: int| 0 <= i < h.context_before.len() implies crate::text::is_line(
            #[trigger] h.context_before[i],
        ) by {
            assert(h.context_before[i] == a[s.old_pos - before + i]);
        }
        assert forall|i: int| 0 <= i < h.removed.len() implies crate::text::is_line(
            #[trigger] h.removed[i],
        ) by {
            assert(h.removed[i] == a[s.old_pos + i]);
        }
        assert forall|i: int| 0 <= i < h.added.len() implies crate::text::is_line(
            #[trigger] h.added[i],
        ) by {
            assert(h.added[i] == b[s.new_pos + i]);
        }
        assert forall|i: int| 0 <= i < h.context_after.len() implies crate::text::is_line(
            #[trigger] h.context_after[i],
        ) by {
            assert(h.context_after[i] == a[s.old_end + i]);
        }
    }
}

/// A changed stretch as the walk records it.
struct Stretch {
    old_pos: usize,
    old_end: usize,
    new_pos: usize,
    new_end: usize,
}

impl View for Stretch {
    type V = Span;

    closed spec fn view(&self) -> Span {
        Span {
            old_pos: self.old_pos as int,
            old_end: self.old_end as int,
            new_pos: self.new_pos as int,
            new_end: self.new_end as int,
        }
    }
}

spec fn spans_of(v: Seq<Stretch>) -> Seq<Span> {
    Seq::new(v.len(), |i: int| v[i]@)
}

/// The first `rows` rows of the table are filled in: row `r` holds, from its
/// end to its start, the lengths for line `a.len() - 1 - r` of the old file.
spec fn table_filled(t: Seq<Vec<usize>>, a: Seq<Seq<u8>>, b: Seq<Seq<u8>>, rows: int) -> bool {
    &&& t.len() == rows
    &&& forall|r: int| 0 <= r < rows ==> (#[trigger] t[r])@.len() == b.len()
    &&& forall|r: int, c: int|
        0 <= r < rows && 0 <= c < b.len() ==> (#[trigger] t[r]@[c]) as int == lcs_len(
            a,
            b,
            a.len() - 1 - r,
            b.len() - 1 - c,
        )
}

fn fill_table(a: &Vec<Vec<u8>>, b: &Vec<Vec<u8>>) -> (table: Vec<Vec<usize>>)
    ensures
        table_filled(table@, lines_of(a@), lines_of(b@), a@.len() as int),
{
    let n = a.len();
    let m = b.len();
    let ghost la = lines_of(a@);
    let ghost lb = lines_of(b@);
    let mut table: Vec<Vec<usize>> = Vec::new();
    let mut r: usize = 0;
    while r < n
        invariant
            n == a@.len(),
            m == b@.len(),
            la == lines_of(a@),
            lb == lines_of(b@),
            r <= n,
            table_filled(table@, la, lb, r as int),
        decreases n - r,
    {
        let i = n - 1 - r;
        let mut row: Vec<usize> = Vec::new();
        let mut c: usize = 0;
        while c < m
            invariant
                n == a@.len(),
                m == b@.len(),
                la == lines_of(a@),
                lb == lines_of(b@),
                r < n,
                i == n - 1 - r,
                c <= m,
                row@.len() == c,
                table_filled(table@, la, lb, r as int),
                forall|cc: int|
                    0 <= cc < c ==> (#[trigger] row@[cc]) as int == lcs_len(
                        la,
                        lb,
                        i as int,
                        m - 1 - cc,
                    ),
            decreases m - c,
        {
            let j = m - 1 - c;
            proof {
                lemma_lcs_bound(la, lb, i + 1, j + 1);
                lemma_lcs_bound(la, lb, i + 1, j as int);
                lemma_lcs_bound(la, lb, i as int, j + 1);
            }
            let down: usize = if r == 0 {
                0
            } else {
                table[r - 1][c]
            };
            let right: usize = if c == 0 {
                0
            } else {
                row[c - 1]
            };
            let across: usize = if r == 0 || c == 0 {
                0
            } else {
                table[r - 1][c - 1]
            };
            assert(down == lcs_len(la, lb, i + 1, j as int));
            assert(right == lcs_len(la, lb, i as int, j + 1));
            assert(across == lcs_len(la, lb, i + 1, j + 1));
            assert(la[i as int] == a@[i as int]@ && lb[j as int] == b@[j as int]@);
            let value: usize = if bytes_eq(&a[i], &b[j]) {
                1 + across
            } else if down >= right {
                down
            } else {
                right
            };
            row.push(value);
            c += 1;
        }
        let ghost before = table@;
        table.push(row);
        assert(table_filled(table@, la, lb, r + 1)) by {
            assert forall|rr: int| 0 <= rr < r + 1 implies (#[trigger] table@[rr])@.len()
                == lb.len() by {
                if rr < r {
                    assert(table@[rr] == before[rr]);
                }
            }
            assert forall|rr: int, cc: int| 0 <= rr < r + 1 && 0 <= cc < lb.len() implies (
            #[trigger] table@[rr]@[cc]) as int == lcs_len(
                la,
                lb,
                la.len() - 1 - rr,
                lb.len() - 1 - cc,
            ) by {
                if rr < r {
                    assert(table@[rr] == before[rr]);
                    assert(before[rr]@[cc] as int == lcs_len(
                        la,
                        lb,
                        la.len() - 1 - rr,
                        lb.len() - 1 - cc,
                    ));
                }
            }
        }
        r += 1;
    }
    table
}

fn cell(
    table: &Vec<Vec<usize>>,
    n: usize,
    m: usize,
    i: usize,
    j: usize,
    Ghost(a): Ghost<Seq<Seq<u8>>>,
    Ghost(b): Ghost<Seq<Seq<u8>>>,
) -> (value: usize)
    requires
        table_filled(table@, a, b, n as int),
        n == a.len(),
        m == b.len(),
    ensures
        value == lcs_len(a, b, i as int, j as int),
{
    if i >= n || j >= m {
        0
    } else {
        table[n - 1 - i][m - 1 - j]
    }
}

/// The length of a longest common subsequence of the lines of two files:
/// no choice of lines that stand in the same order in both is longer.
pub fn lcs_length(a: &Vec<Vec<u8>>, b: &Vec<Vec<u8>>) -> (length: usize)
    ensures
        length == lcs_len(lines_of(a@), lines_of(b@), 0, 0),
        forall|xs: Seq<int>, ys: Seq<int>|
            #[trigger] is_common(lines_of(a@), lines_of(b@), xs, ys, 0, 0) ==> xs.len() <= length,
{
    proof {
        lemma_diff_is_least(lines_of(a@), lines_of(b@));
    }
    let table = fill_table(a, b);
    cell(&table, a.len(), b.len(), 0, 0, Ghost(lines_of(a@)), Ghost(lines_of(b@)))
}

fn find_stretches(a: &Vec<Vec<u8>>, b: &Vec<Vec<u8>>) -> (found: Vec<Stretch>)
    ensures
        spans_of(found@) == spans_from(lines_of(a@), lines_of(b@), 0, 0),
{
    let table = fill_table(a, b);
    let n = a.len();
    let m = b.len();
    let ghost la = lines_of(a@);
    let ghost lb = lines_of(b@);
    let mut found: Vec<Stretch> = Vec::new();
    let mut i: usize = 0;
    let mut j: usize = 0;
    assert(spans_of(found@) =~= Seq::<Span>::empty());
    loop
        invariant
            n == a@.len(),
            m == b@.len(),
            la == lines_of(a@),
            lb == lines_of(b@),
            table_filled(table@, la, lb, n as int),
            i <= n,
            j <= m,
            spans_of(found@) + spans_from(la, lb, i as int, j as int) == spans_from(la, lb, 0, 0),
        ensures
            spans_of(found@) == spans_from(la, lb, 0, 0),
        decreases (n - i) + (m - j),
    {
        let ghost i0 = i;
        let ghost j0 = j;
        proof {
            lemma_keep_run(la, lb, i as int, j as int);
        }
        loop
            invariant
                n == a@.len(),
                m == b@.len(),
                la == lines_of(a@),
                lb == lines_of(b@),
                i0 <= i <= n,
                j0 <= j <= m,
                i - i0 == j - j0,
                keep_run(la, lb, i0 as int, j0 as int) == (i - i0) + keep_run(
                    la,
                    lb,
                    i as int,
                    j as int,
                ),
            ensures
                i0 <= i <= n,
                j0 <= j <= m,
                i - i0 == keep_run(la, lb, i0 as int, j0 as int),
                j - j0 == keep_run(la, lb, i0 as int, j0 as int),
                !keeps(la, lb, i as int, j as int),
            decreases n - i,
        {
            if i >= n || j >= m {
                break ;
            }
            assert(la[i as int] == a@[i as int]@ && lb[j as int] == b@[j as int]@);
            if !bytes_eq(&a[i], &b[j]) {
                break ;
            }
            i += 1;
            j += 1;
        }
        if i >= n && j >= m {
            assert(spans_from(la, lb, i0 as int, j0 as int) =~= Seq::<Span>::empty());
            assert(spans_of(found@) + Seq::<Span>::empty() =~= spans_of(found@));
            break ;
        }
        let i1 = i;
        let j1 = j;
        proof {
            lemma_change_stop(la, lb, i1 as int, j1 as int);
        }
        loop
            invariant
                n == a@.len(),
                m == b@.len(),
                la == lines_of(a@),
                lb == lines_of(b@),
                table_filled(table@, la, lb, n as int),
                i1 <= i <= n,
                j1 <= j <= m,
                change_stop(la, lb, i1 as int, j1 as int) == change_stop(
                    la,
                    lb,
                    i as int,
                    j as int,
                ),
            ensures
                i1 <= i <= n,
                j1 <= j <= m,
                change_stop(la, lb, i1 as int, j1 as int) == (i as int, j as int),
            decreases (n - i) + (m - j),
        {
            if i >= n && j >= m {
                break ;
            }
            if i < n && j < m {
                assert(la[i as int] == a@[i as int]@ && lb[j as int] == b@[j as int]@);
                if bytes_eq(&a[i], &b[j]) {
                    break ;
                }
            }
            if i >= n {
                j += 1;
            } else if j >= m {
                i += 1;
            } else {
                let down = cell(&table, n, m, i + 1, j, Ghost(la), Ghost(lb));
                let right = cell(&table, n, m, i, j + 1, Ghost(la), Ghost(lb));
                if down >= right {
                    i += 1;
                } else {
                    j += 1;
                }
            }
        }
        let ghost before = spans_of(found@);
        found.push(Stretch { old_pos: i1, old_end: i, new_pos: j1, new_end: j });
        proof {
            let first = Span {
                old_pos: i1 as int,
                old_end: i as int,
                new_pos: j1 as int,
                new_end: j as int,
            };
            assert(spans_of(found@) =~= before + seq![first]);
            assert(spans_from(la, lb, i0 as int, j0 as int) == seq![first] + spans_from(
                la,
                lb,
                i as int,
                j as int,
            ));
            assert(spans_of(found@) + spans_from(la, lb, i as int, j as int) =~= before
                + spans_from(la, lb, i0 as int, j0 as int));
        }
    }
    found
}

/// The hunks that turn the lines `old` into the lines `new`: the changed
/// stretches along a longest common subsequence, each with up to three lines
/// of context. The hunks fit `old` and make `new` of it, they remove and add
/// as few lines as can be, and two equal files give no hunk.
pub fn compute_hunks(old: &Vec<Vec<u8>>, new: &Vec<Vec<u8>>) -> (hunks: Vec<Hunk>)
    requires
        old@.len() < usize::MAX,
        new@.len() < usize::MAX,
    ensures
        hunks_of(hunks@) == diff_lines(lines_of(old@), lines_of(new@)),
        hunks_fit(lines_of(old@), hunks_of(hunks@)),
        patched(lines_of(old@), hunks_of(hunks@)) == lines_of(new@),
        lines_of(old@) == lines_of(new@) ==> hunks@.len() == 0,
        removed_total(hunks_of(hunks@)) == old@.len() - lcs_len(
            lines_of(old@),
            lines_of(new@),
            0,
            0,
        ),
        added_total(hunks_of(hunks@)) == new@.len() - lcs_len(
            lines_of(old@),
            lines_of(new@),
            0,
            0,
        ),
{
    let stretches = find_stretches(old, new);
    let n = old.len();
    let ghost la = lines_of(old@);
    let ghost lb = lines_of(new@);
    let ghost spans = spans_of(stretches@);
    proof {
        lemma_spans_chain(la, lb, 0, 0);
        lemma_diff_lines(la, lb);
        lemma_diff_is_least(la, lb);
    }
    let mut hunks: Vec<Hunk> = Vec::new();
    let mut covered_upto: usize = 0;
    let mut r: usize = 0;
    while r < stretches.len()
        invariant
            n == old@.len(),
            n < usize::MAX,
            new@.len() < usize::MAX,
            la == lines_of(old@),
            lb == lines_of(new@),
            spans == spans_of(stretches@),
            spans_chain(la, lb, spans, 0, 0),
            r <= stretches@.len(),
            hunks@.len() == r,
            covered_upto == covered(n as int, spans, r as int),
            forall|k: int| 0 <= k < r ==> (#[trigger] hunks@[k])@ == hunk_at(la, lb, spans, k),
        decreases stretches@.len() - r,
    {
        proof {
            lemma_context_bounds(la, lb, spans, r as int);
        }
        let s = &stretches[r];
        assert(s@ == spans[r as int]);
        let next: usize = if r + 1 < stretches.len() {
            stretches[r + 1].old_pos
        } else {
            n
        };
        assert(next == next_old(n as int, spans, r as int)) by {
            if r + 1 < stretches@.len() {
                assert(stretches@[r + 1]@ == spans[r + 1]);
            }
        }
        let after: usize = if next - s.old_end < CONTEXT_LINES {
            next - s.old_end
        } else {
            CONTEXT_LINES
        };
        let before: usize = if s.old_pos - covered_upto < CONTEXT_LINES {
            s.old_pos - covered_upto
        } else {
            CONTEXT_LINES
        };
        assert(after == trail(n as int, spans, r as int));
        assert(before == lead(n as int, spans, r as int));
        let hunk = Hunk {
            old_start: s.old_pos - before + 1,
            old_lines: before + (s.old_end - s.old_pos) + after,
            new_start: s.new_pos - before + 1,
            new_lines: before + (s.new_end - s.new_pos) + after,
            context_before: copy_lines(old, s.old_pos - before, s.old_pos),
            removed: copy_lines(old, s.old_pos, s.old_end),
            added: copy_lines(new, s.new_pos, s.new_end),
            context_after: copy_lines(old, s.old_end, s.old_end + after),
        };
        assert(hunk@ == hunk_at(la, lb, spans, r as int));
        covered_upto = s.old_end + after;
        hunks.push(hunk);
        r += 1;
    }
    assert(hunks_of(hunks@) =~= hunks_for(la, lb, spans));
    hunks
}

} // verus!
