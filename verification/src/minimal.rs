//! The hunks between two files change as few lines as any can: the lines
//! they keep are a longest common subsequence of the two files.

use vstd::prelude::*;
use crate::hunk::HunkView;
use crate::linediff::{
    at_end, change_stop, diff_lines, drops, hunk_at, hunks_for, keep_run, keeps, lcs_len,
    lemma_change_stop, lemma_keep_run, spans_from, Span,
};

verus! {

/// `xs` and `ys` pick a common subsequence of `a` from `i` on and `b` from
/// `j` on: positions that ascend in both files and hold the same lines.
pub open spec fn is_common(
    a: Seq<Seq<u8>>,
    b: Seq<Seq<u8>>,
    xs: Seq<int>,
    ys: Seq<int>,
    i: int,
    j: int,
) -> bool {
    &&& xs.len() == ys.len()
    &&& forall|k: int|
        0 <= k < xs.len() ==> i <= #[trigger] xs[k] < a.len() && j <= ys[k] < b.len() && a[xs[k]]
            == b[ys[k]]
    &&& forall|k: int, l: int|
        #![trigger xs[k], xs[l]]
        0 <= k < l < xs.len() ==> xs[k] < xs[l] && ys[k] < ys[l]
}

proof fn lemma_first_is_least(
    a: Seq<Seq<u8>>,
    b: Seq<Seq<u8>>,
    xs: Seq<int>,
    ys: Seq<int>,
    i: int,
    j: int,
    k: int,
)
    requires
        is_common(a, b, xs, ys, i, j),
        0 < k < xs.len(),
    ensures
        xs[0] < xs[k],
        ys[0] < ys[k],
{
    assert(xs[0] < xs[k] && ys[0] < ys[k]);
}

proof fn lemma_common_from(
    a: Seq<Seq<u8>>,
    b: Seq<Seq<u8>>,
    xs: Seq<int>,
    ys: Seq<int>,
    i: int,
    j: int,
    ni: int,
    nj: int,
)
    requires
        is_common(a, b, xs, ys, i, j),
        xs.len() > 0 ==> ni <= xs[0] && nj <= ys[0],
    ensures
        is_common(a, b, xs, ys, ni, nj),
{
    assert forall|k: int| 0 <= k < xs.len() implies ni <= #[trigger] xs[k] < a.len() && nj <= ys[k]
        < b.len() && a[xs[k]] == b[ys[k]] by {
        if k > 0 {
            lemma_first_is_least(a, b, xs, ys, i, j, k);
        }
    }
}

proof fn lemma_common_rest(
    a: Seq<Seq<u8>>,
    b: Seq<Seq<u8>>,
    xs: Seq<int>,
    ys: Seq<int>,
    i: int,
    j: int,
)
    requires
        is_common(a, b, xs, ys, i, j),
        xs.len() > 0,
    ensures
        is_common(a, b, xs.drop_first(), ys.drop_first(), xs[0] + 1, ys[0] + 1),
{
    let xt = xs.drop_first();
    let yt = ys.drop_first();
    assert forall|k: int| 0 <= k < xt.len() implies xs[0] + 1 <= #[trigger] xt[k] < a.len() && ys[0]
        + 1 <= yt[k] < b.len() && a[xt[k]] == b[yt[k]] by {
        assert(xt[k] == xs[k + 1] && yt[k] == ys[k + 1]);
        lemma_first_is_least(a, b, xs, ys, i, j, k + 1);
    }
    assert forall|k: int, l: int|
        #![trigger xt[k], xt[l]]
        0 <= k < l < xt.len() implies xt[k] < xt[l] && yt[k] < yt[l] by {
        assert(xt[k] == xs[k + 1] && xt[l] == xs[l + 1]);
        assert(yt[k] == ys[k + 1] && yt[l] == ys[l + 1]);
        assert(xs[k + 1] < xs[l + 1] && ys[k + 1] < ys[l + 1]);
    }
}

/// No common subsequence is longer than `lcs_len` says.
pub proof fn lemma_lcs_is_upper_bound(
    a: Seq<Seq<u8>>,
    b: Seq<Seq<u8>>,
    xs: Seq<int>,
    ys: Seq<int>,
    i: int,
    j: int,
)
    requires
        0 <= i <= a.len(),
        0 <= j <= b.len(),
        is_common(a, b, xs, ys, i, j),
    ensures
        xs.len() <= lcs_len(a, b, i, j),
    decreases (a.len() - i) + (b.len() - j),
{
    if xs.len() > 0 {
        let x0 = xs[0];
        let y0 = ys[0];
        assert(i <= x0 < a.len() && j <= y0 < b.len() && a[x0] == b[y0]);
        if a[i] == b[j] {
            lemma_common_rest(a, b, xs, ys, i, j);
            lemma_common_from(a, b, xs.drop_first(), ys.drop_first(), x0 + 1, y0 + 1, i + 1, j + 1);
            lemma_lcs_is_upper_bound(a, b, xs.drop_first(), ys.drop_first(), i + 1, j + 1);
        } else if x0 > i {
            lemma_common_from(a, b, xs, ys, i, j, i + 1, j);
            lemma_lcs_is_upper_bound(a, b, xs, ys, i + 1, j);
        } else {
            lemma_common_from(a, b, xs, ys, i, j, i, j + 1);
            lemma_lcs_is_upper_bound(a, b, xs, ys, i, j + 1);
        }
    }
}

/// The positions in `a` of a longest common subsequence.
pub open spec fn lcs_in_old(a: Seq<Seq<u8>>, b: Seq<Seq<u8>>, i: int, j: int) -> Seq<int>
    decreases (a.len() - i) + (b.len() - j),
{
    if i < 0 || j < 0 || i >= a.len() || j >= b.len() {
        Seq::empty()
    } else if a[i] == b[j] {
        seq![i] + lcs_in_old(a, b, i + 1, j + 1)
    } else if lcs_len(a, b, i + 1, j) >= lcs_len(a, b, i, j + 1) {
        lcs_in_old(a, b, i + 1, j)
    } else {
        lcs_in_old(a, b, i, j + 1)
    }
}

/// The positions in `b` of a longest common subsequence.
pub open spec fn lcs_in_new(a: Seq<Seq<u8>>, b: Seq<Seq<u8>>, i: int, j: int) -> Seq<int>
    decreases (a.len() - i) + (b.len() - j),
{
    if i < 0 || j < 0 || i >= a.len() || j >= b.len() {
        Seq::empty()
    } else if a[i] == b[j] {
        seq![j] + lcs_in_new(a, b, i + 1, j + 1)
    } else if lcs_len(a, b, i + 1, j) >= lcs_len(a, b, i, j + 1) {
        lcs_in_new(a, b, i + 1, j)
    } else {
        lcs_in_new(a, b, i, j + 1)
    }
}

/// There is a common subsequence as long as `lcs_len` says.
pub proof fn lemma_lcs_is_attained(a: Seq<Seq<u8>>, b: Seq<Seq<u8>>, i: int, j: int)
    requires
        0 <= i <= a.len(),
        0 <= j <= b.len(),
    ensures
        is_common(a, b, lcs_in_old(a, b, i, j), lcs_in_new(a, b, i, j), i, j),
        lcs_in_old(a, b, i, j).len() == lcs_len(a, b, i, j),
    decreases (a.len() - i) + (b.len() - j),
{
    let xs = lcs_in_old(a, b, i, j);
    let ys = lcs_in_new(a, b, i, j);
    if i < a.len() && j < b.len() {
        if a[i] == b[j] {
            lemma_lcs_is_attained(a, b, i + 1, j + 1);
            let xt = lcs_in_old(a, b, i + 1, j + 1);
            let yt = lcs_in_new(a, b, i + 1, j + 1);
            assert(xs == seq![i] + xt && ys == seq![j] + yt);
            assert forall|k: int| 0 <= k < xs.len() implies i <= #[trigger] xs[k] < a.len() && j
                <= ys[k] < b.len() && a[xs[k]] == b[ys[k]] by {
                if k > 0 {
                    assert(xs[k] == xt[k - 1] && ys[k] == yt[k - 1]);
                    assert(i + 1 <= xt[k - 1]);
                }
            }
            assert forall|k: int, l: int|
                #![trigger xs[k], xs[l]]
                0 <= k < l < xs.len() implies xs[k] < xs[l] && ys[k] < ys[l] by {
                assert(xs[l] == xt[l - 1] && ys[l] == yt[l - 1]);
                assert(i + 1 <= xt[l - 1]);
                if k > 0 {
                    assert(xs[k] == xt[k - 1] && ys[k] == yt[k - 1]);
                    assert(xt[k - 1] < xt[l - 1] && yt[k - 1] < yt[l - 1]);
                }
            }
        } else if lcs_len(a, b, i + 1, j) >= lcs_len(a, b, i, j + 1) {
            lemma_lcs_is_attained(a, b, i + 1, j);
            assert forall|k: int| 0 <= k < xs.len() implies i <= #[trigger] xs[k] < a.len() && j
                <= ys[k] < b.len() && a[xs[k]] == b[ys[k]] by {
                assert(i + 1 <= xs[k]);
            }
        } else {
            lemma_lcs_is_attained(a, b, i, j + 1);
            assert forall|k: int| 0 <= k < xs.len() implies i <= #[trigger] xs[k] < a.len() && j
                <= ys[k] < b.len() && a[xs[k]] == b[ys[k]] by {
                assert(i <= xs[k]);
            }
        }
    }
}

/// The number of lines of the old file that the stretches replace.
pub open spec fn replaced_in(spans: Seq<Span>) -> int
    decreases spans.len(),
{
    if spans.len() == 0 {
        0
    } else {
        replaced_in(spans.drop_last()) + (spans.last().old_end - spans.last().old_pos)
    }
}

/// The number of lines of the new file that the stretches put in.
pub open spec fn inserted_in(spans: Seq<Span>) -> int
    decreases spans.len(),
{
    if spans.len() == 0 {
        0
    } else {
        inserted_in(spans.drop_last()) + (spans.last().new_end - spans.last().new_pos)
    }
}

/// The number of lines that the hunks remove.
pub open spec fn removed_total(hunks: Seq<HunkView>) -> int
    decreases hunks.len(),
{
    if hunks.len() == 0 {
        0
    } else {
        removed_total(hunks.drop_last()) + hunks.last().removed.len()
    }
}

/// The number of lines that the hunks add.
pub open spec fn added_total(hunks: Seq<HunkView>) -> int
    decreases hunks.len(),
{
    if hunks.len() == 0 {
        0
    } else {
        added_total(hunks.drop_last()) + hunks.last().added.len()
    }
}

proof fn lemma_keep_run_counts(a: Seq<Seq<u8>>, b: Seq<Seq<u8>>, i: int, j: int)
    requires
        0 <= i <= a.len(),
        0 <= j <= b.len(),
    ensures
        lcs_len(a, b, i, j) == keep_run(a, b, i, j) + lcs_len(
            a,
            b,
            i + keep_run(a, b, i, j),
            j + keep_run(a, b, i, j),
        ),
    decreases a.len() - i,
{
    if keeps(a, b, i, j) {
        lemma_keep_run_counts(a, b, i + 1, j + 1);
    }
}

proof fn lemma_change_keeps_count(a: Seq<Seq<u8>>, b: Seq<Seq<u8>>, i: int, j: int)
    requires
        0 <= i <= a.len(),
        0 <= j <= b.len(),
    ensures
        lcs_len(a, b, i, j) == lcs_len(a, b, change_stop(a, b, i, j).0, change_stop(a, b, i, j).1),
    decreases (a.len() - i) + (b.len() - j),
{
    if keeps(a, b, i, j) || at_end(a, b, i, j) {
    } else if drops(a, b, i, j) {
        lemma_change_keeps_count(a, b, i + 1, j);
    } else {
        lemma_change_keeps_count(a, b, i, j + 1);
    }
}

proof fn lemma_sum_front(spans: Seq<Span>, first: Span, rest: Seq<Span>)
    requires
        spans == seq![first] + rest,
    ensures
        replaced_in(spans) == (first.old_end - first.old_pos) + replaced_in(rest),
        inserted_in(spans) == (first.new_end - first.new_pos) + inserted_in(rest),
    decreases rest.len(),
{
    if rest.len() == 0 {
        assert(spans.drop_last() =~= Seq::<Span>::empty());
        assert(replaced_in(spans.drop_last()) == 0);
        assert(inserted_in(spans.drop_last()) == 0);
    } else {
        assert(spans.drop_last() =~= seq![first] + rest.drop_last());
        assert(spans.last() == rest.last());
        lemma_sum_front(spans.drop_last(), first, rest.drop_last());
    }
}

/// The stretches leave as many lines of each file untouched as the longest
/// common subsequence has.
proof fn lemma_spans_keep_lcs(a: Seq<Seq<u8>>, b: Seq<Seq<u8>>, i: int, j: int)
    requires
        0 <= i <= a.len(),
        0 <= j <= b.len(),
    ensures
        replaced_in(spans_from(a, b, i, j)) == (a.len() - i) - lcs_len(a, b, i, j),
        inserted_in(spans_from(a, b, i, j)) == (b.len() - j) - lcs_len(a, b, i, j),
    decreases (a.len() - i) + (b.len() - j),
{
    lemma_keep_run(a, b, i, j);
    lemma_keep_run_counts(a, b, i, j);
    let k = keep_run(a, b, i, j);
    let i1 = i + k;
    let j1 = j + k;
    if at_end(a, b, i1, j1) {
    } else {
        lemma_change_stop(a, b, i1, j1);
        lemma_change_keeps_count(a, b, i1, j1);
        let (i2, j2) = change_stop(a, b, i1, j1);
        lemma_spans_keep_lcs(a, b, i2, j2);
        let first = Span { old_pos: i1, old_end: i2, new_pos: j1, new_end: j2 };
        lemma_sum_front(spans_from(a, b, i, j), first, spans_from(a, b, i2, j2));
    }
}

proof fn lemma_hunk_totals(a: Seq<Seq<u8>>, b: Seq<Seq<u8>>, spans: Seq<Span>, n: int)
    requires
        0 <= n <= spans.len(),
        forall|r: int|
            0 <= r < spans.len() ==> 0 <= (#[trigger] spans[r]).old_pos <= spans[r].old_end
                <= a.len() && 0 <= spans[r].new_pos <= spans[r].new_end <= b.len(),
    ensures
        removed_total(hunks_for(a, b, spans).subrange(0, n)) == replaced_in(spans.subrange(0, n)),
        added_total(hunks_for(a, b, spans).subrange(0, n)) == inserted_in(spans.subrange(0, n)),
    decreases n,
{
    if n > 0 {
        lemma_hunk_totals(a, b, spans, n - 1);
        let hunks = hunks_for(a, b, spans);
        assert(hunks.subrange(0, n).drop_last() =~= hunks.subrange(0, n - 1));
        assert(spans.subrange(0, n).drop_last() =~= spans.subrange(0, n - 1));
        assert(hunks.subrange(0, n).last() == hunk_at(a, b, spans, n - 1));
        assert(spans.subrange(0, n).last() == spans[n - 1]);
    }
}

/// The hunks between two files remove and add as few lines as can be: what
/// they leave of each file is a longest common subsequence of the two.
pub proof fn lemma_diff_is_least(a: Seq<Seq<u8>>, b: Seq<Seq<u8>>)
    ensures
        removed_total(diff_lines(a, b)) == a.len() - lcs_len(a, b, 0, 0),
        added_total(diff_lines(a, b)) == b.len() - lcs_len(a, b, 0, 0),
        is_common(a, b, lcs_in_old(a, b, 0, 0), lcs_in_new(a, b, 0, 0), 0, 0),
        lcs_in_old(a, b, 0, 0).len() == lcs_len(a, b, 0, 0),
        forall|xs: Seq<int>, ys: Seq<int>|
            #[trigger] is_common(a, b, xs, ys, 0, 0) ==> xs.len() <= lcs_len(a, b, 0, 0),
{
    let spans = spans_from(a, b, 0, 0);
    lemma_spans_keep_lcs(a, b, 0, 0);
    crate::linediff::lemma_spans_chain(a, b, 0, 0);
    assert forall|r: int| 0 <= r < spans.len() implies 0 <= (#[trigger] spans[r]).old_pos
        <= spans[r].old_end <= a.len() && 0 <= spans[r].new_pos <= spans[r].new_end <= b.len() by {
        assert(crate::linediff::span_linked(a, b, spans, r, 0, 0));
    }
    lemma_hunk_totals(a, b, spans, spans.len() as int);
    assert(spans.subrange(0, spans.len() as int) =~= spans);
    assert(hunks_for(a, b, spans).subrange(0, spans.len() as int) =~= hunks_for(a, b, spans));
    lemma_lcs_is_attained(a, b, 0, 0);
    assert forall|xs: Seq<int>, ys: Seq<int>| #[trigger] is_common(a, b, xs, ys, 0, 0) implies xs.len()
        <= lcs_len(a, b, 0, 0) by {
        lemma_lcs_is_upper_bound(a, b, xs, ys, 0, 0);
    }
}

} // verus!
