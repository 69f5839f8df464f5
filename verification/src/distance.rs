//! The edit distance is the least cost at which one path can be laid
//! alongside the other.

use vstd::prelude::*;
use crate::rename::{edit_distance, edit_distance_from};

verus! {

/// `xs` and `ys` lay `a` from `i` on alongside `b` from `j` on: they pair
/// positions that ascend in both. A byte of `a` that has no partner is
/// dropped, a byte of `b` that has none is put in, and a pair of different
/// bytes is a replacement.
pub open spec fn is_alignment(
    a: Seq<u8>,
    b: Seq<u8>,
    xs: Seq<int>,
    ys: Seq<int>,
    i: int,
    j: int,
) -> bool {
    &&& xs.len() == ys.len()
    &&& forall|k: int| 0 <= k < xs.len() ==> i <= #[trigger] xs[k] < a.len() && j <= ys[k] < b.len()
    &&& forall|k: int, l: int|
        #![trigger xs[k], xs[l]]
        0 <= k < l < xs.len() ==> xs[k] < xs[l] && ys[k] < ys[l]
}

/// The number of pairs that hold different bytes.
pub open spec fn replacements(a: Seq<u8>, b: Seq<u8>, xs: Seq<int>, ys: Seq<int>) -> int
    decreases xs.len(),
{
    if xs.len() == 0 || ys.len() != xs.len() {
        0
    } else {
        replacements(a, b, xs.drop_last(), ys.drop_last()) + if a[xs.last()] != b[ys.last()] {
            1int
        } else {
            0int
        }
    }
}

/// The number of bytes dropped, put in and replaced.
pub open spec fn alignment_cost(
    a: Seq<u8>,
    b: Seq<u8>,
    xs: Seq<int>,
    ys: Seq<int>,
    i: int,
    j: int,
) -> int {
    (a.len() - i - xs.len()) + (b.len() - j - xs.len()) + replacements(a, b, xs, ys)
}

/// A step in either path changes the distance by one at most.
proof fn lemma_distance_steps(a: Seq<u8>, b: Seq<u8>, i: int, j: int)
    requires
        0 <= i <= a.len(),
        0 <= j <= b.len(),
    ensures
        i < a.len() ==> edit_distance_from(a, b, i, j) <= 1 + edit_distance_from(a, b, i + 1, j),
        i < a.len() ==> edit_distance_from(a, b, i + 1, j) <= 1 + edit_distance_from(a, b, i, j),
        j < b.len() ==> edit_distance_from(a, b, i, j) <= 1 + edit_distance_from(a, b, i, j + 1),
        j < b.len() ==> edit_distance_from(a, b, i, j + 1) <= 1 + edit_distance_from(a, b, i, j),
    decreases (a.len() - i) + (b.len() - j),
{
    if i < a.len() && j < b.len() {
        lemma_distance_steps(a, b, i + 1, j);
        lemma_distance_steps(a, b, i, j + 1);
    }
}

proof fn lemma_replacements_front(a: Seq<u8>, b: Seq<u8>, xs: Seq<int>, ys: Seq<int>)
    requires
        xs.len() == ys.len(),
        xs.len() > 0,
    ensures
        replacements(a, b, xs, ys) == replacements(a, b, xs.drop_first(), ys.drop_first()) + if a[xs[0]]
            != b[ys[0]] {
            1int
        } else {
            0int
        },
    decreases xs.len(),
{
    if xs.len() == 1 {
        assert(xs.drop_last() =~= Seq::<int>::empty());
        assert(xs.drop_first() =~= Seq::<int>::empty());
        assert(replacements(a, b, xs.drop_last(), ys.drop_last()) == 0);
        assert(replacements(a, b, xs.drop_first(), ys.drop_first()) == 0);
    } else {
        lemma_replacements_front(a, b, xs.drop_last(), ys.drop_last());
        assert(xs.drop_last().drop_first() =~= xs.drop_first().drop_last());
        assert(ys.drop_last().drop_first() =~= ys.drop_first().drop_last());
        assert(xs.drop_first().last() == xs.last());
        assert(ys.drop_first().last() == ys.last());
        assert(xs.drop_last()[0] == xs[0]);
        assert(ys.drop_last()[0] == ys[0]);
    }
}

proof fn lemma_alignment_first(
    a: Seq<u8>,
    b: Seq<u8>,
    xs: Seq<int>,
    ys: Seq<int>,
    i: int,
    j: int,
    k: int,
)
    requires
        is_alignment(a, b, xs, ys, i, j),
        0 < k < xs.len(),
    ensures
        xs[0] < xs[k],
        ys[0] < ys[k],
{
    assert(xs[0] < xs[k] && ys[0] < ys[k]);
}

proof fn lemma_alignment_from(
    a: Seq<u8>,
    b: Seq<u8>,
    xs: Seq<int>,
    ys: Seq<int>,
    i: int,
    j: int,
    ni: int,
    nj: int,
)
    requires
        is_alignment(a, b, xs, ys, i, j),
        xs.len() > 0 ==> ni <= xs[0] && nj <= ys[0],
    ensures
        is_alignment(a, b, xs, ys, ni, nj),
{
    assert forall|k: int| 0 <= k < xs.len() implies ni <= #[trigger] xs[k] < a.len() && nj <= ys[k]
        < b.len() by {
        if k > 0 {
            lemma_alignment_first(a, b, xs, ys, i, j, k);
        }
    }
}

proof fn lemma_alignment_rest(
    a: Seq<u8>,
    b: Seq<u8>,
    xs: Seq<int>,
    ys: Seq<int>,
    i: int,
    j: int,
)
    requires
        is_alignment(a, b, xs, ys, i, j),
        xs.len() > 0,
    ensures
        is_alignment(a, b, xs.drop_first(), ys.drop_first(), xs[0] + 1, ys[0] + 1),
{
    let xt = xs.drop_first();
    let yt = ys.drop_first();
    assert forall|k: int| 0 <= k < xt.len() implies xs[0] + 1 <= #[trigger] xt[k] < a.len() && ys[0]
        + 1 <= yt[k] < b.len() by {
        assert(xt[k] == xs[k + 1] && yt[k] == ys[k + 1]);
        lemma_alignment_first(a, b, xs, ys, i, j, k + 1);
    }
    assert forall|k: int, l: int|
        #![trigger xt[k], xt[l]]
        0 <= k < l < xt.len() implies xt[k] < xt[l] && yt[k] < yt[l] by {
        assert(xt[k] == xs[k + 1] && xt[l] == xs[l + 1]);
        assert(yt[k] == ys[k + 1] && yt[l] == ys[l + 1]);
        assert(xs[k + 1] < xs[l + 1] && ys[k + 1] < ys[l + 1]);
    }
}

/// No way of laying the one path alongside the other costs less than the
/// edit distance.
pub proof fn lemma_distance_is_lower_bound(
    a: Seq<u8>,
    b: Seq<u8>,
    xs: Seq<int>,
    ys: Seq<int>,
    i: int,
    j: int,
)
    requires
        0 <= i <= a.len(),
        0 <= j <= b.len(),
        is_alignment(a, b, xs, ys, i, j),
    ensures
        edit_distance_from(a, b, i, j) <= alignment_cost(a, b, xs, ys, i, j),
    decreases (a.len() - i) + (b.len() - j),
{
    if xs.len() == 0 {
        lemma_empty_cost(a, b, i, j);
    } else {
        let x0 = xs[0];
        let y0 = ys[0];
        assert(i <= x0 < a.len() && j <= y0 < b.len());
        lemma_distance_steps(a, b, i, j);
        if x0 > i {
            lemma_alignment_from(a, b, xs, ys, i, j, i + 1, j);
            lemma_distance_is_lower_bound(a, b, xs, ys, i + 1, j);
        } else if y0 > j {
            lemma_alignment_from(a, b, xs, ys, i, j, i, j + 1);
            lemma_distance_is_lower_bound(a, b, xs, ys, i, j + 1);
        } else {
            lemma_alignment_rest(a, b, xs, ys, i, j);
            lemma_replacements_front(a, b, xs, ys);
            lemma_distance_is_lower_bound(a, b, xs.drop_first(), ys.drop_first(), i + 1, j + 1);
        }
    }
}

/// Without pairs the cost is what is left of both paths, and the distance is
/// no greater.
proof fn lemma_empty_cost(a: Seq<u8>, b: Seq<u8>, i: int, j: int)
    requires
        0 <= i <= a.len(),
        0 <= j <= b.len(),
    ensures
        edit_distance_from(a, b, i, j) <= (a.len() - i) + (b.len() - j),
    decreases (a.len() - i) + (b.len() - j),
{
    if i < a.len() && j < b.len() {
        lemma_empty_cost(a, b, i + 1, j + 1);
    }
}

/// The positions in `a` of the pairs of a cheapest alignment.
pub open spec fn aligned_old(a: Seq<u8>, b: Seq<u8>, i: int, j: int) -> Seq<int>
    decreases (a.len() - i) + (b.len() - j),
{
    if i < 0 || j < 0 || i >= a.len() || j >= b.len() {
        Seq::empty()
    } else if a[i] == b[j] {
        seq![i] + aligned_old(a, b, i + 1, j + 1)
    } else {
        let drop = edit_distance_from(a, b, i + 1, j);
        let put = edit_distance_from(a, b, i, j + 1);
        let swap = edit_distance_from(a, b, i + 1, j + 1);
        if drop <= put && drop <= swap {
            aligned_old(a, b, i + 1, j)
        } else if put <= swap {
            aligned_old(a, b, i, j + 1)
        } else {
            seq![i] + aligned_old(a, b, i + 1, j + 1)
        }
    }
}

/// The positions in `b` of the pairs of a cheapest alignment.
pub open spec fn aligned_new(a: Seq<u8>, b: Seq<u8>, i: int, j: int) -> Seq<int>
    decreases (a.len() - i) + (b.len() - j),
{
    if i < 0 || j < 0 || i >= a.len() || j >= b.len() {
        Seq::empty()
    } else if a[i] == b[j] {
        seq![j] + aligned_new(a, b, i + 1, j + 1)
    } else {
        let drop = edit_distance_from(a, b, i + 1, j);
        let put = edit_distance_from(a, b, i, j + 1);
        let swap = edit_distance_from(a, b, i + 1, j + 1);
        if drop <= put && drop <= swap {
            aligned_new(a, b, i + 1, j)
        } else if put <= swap {
            aligned_new(a, b, i, j + 1)
        } else {
            seq![j] + aligned_new(a, b, i + 1, j + 1)
        }
    }
}

proof fn lemma_alignment_cons(
    a: Seq<u8>,
    b: Seq<u8>,
    xt: Seq<int>,
    yt: Seq<int>,
    i: int,
    j: int,
)
    requires
        0 <= i < a.len(),
        0 <= j < b.len(),
        is_alignment(a, b, xt, yt, i + 1, j + 1),
    ensures
        is_alignment(a, b, seq![i] + xt, seq![j] + yt, i, j),
        alignment_cost(a, b, seq![i] + xt, seq![j] + yt, i, j) == alignment_cost(
            a,
            b,
            xt,
            yt,
            i + 1,
            j + 1,
        ) + if a[i] != b[j] {
            1int
        } else {
            0int
        },
{
    let xs = seq![i] + xt;
    let ys = seq![j] + yt;
    assert forall|k: int| 0 <= k < xs.len() implies i <= #[trigger] xs[k] < a.len() && j <= ys[k]
        < b.len() by {
        if k > 0 {
            assert(xs[k] == xt[k - 1] && ys[k] == yt[k - 1]);
            assert(i + 1 <= xt[k - 1]);
        }
    }
    assert forall|k: int, l: int|
        #![trigger xs[k], xs[l]]
        0 <= k < l < xs.len() implies xs[k] < xs[l] && ys[k] < ys[l] by {
        assert(xs[l] == xt[l - 1] && ys[l] == yt[l - 1]);
        assert(i + 1 <= xt[l - 1]);
        if k > 0 {
            assert(xs[k] == xt[k - 1] && ys[k] == yt[k - 1]);
            assert(xt[k - 1] < xt[l - 1] && yt[k - 1] < yt[l - 1]);
        }
    }
    lemma_replacements_front(a, b, xs, ys);
    assert(xs.drop_first() =~= xt);
    assert(ys.drop_first() =~= yt);
}

/// There is a way of laying the one path alongside the other that costs the
/// edit distance.
pub proof fn lemma_distance_is_attained(a: Seq<u8>, b: Seq<u8>, i: int, j: int)
    requires
        0 <= i <= a.len(),
        0 <= j <= b.len(),
    ensures
        is_alignment(a, b, aligned_old(a, b, i, j), aligned_new(a, b, i, j), i, j),
        alignment_cost(a, b, aligned_old(a, b, i, j), aligned_new(a, b, i, j), i, j)
            == edit_distance_from(a, b, i, j),
    decreases (a.len() - i) + (b.len() - j),
{
    let xs = aligned_old(a, b, i, j);
    let ys = aligned_new(a, b, i, j);
    if i < a.len() && j < b.len() {
        let drop = edit_distance_from(a, b, i + 1, j);
        let put = edit_distance_from(a, b, i, j + 1);
        let swap = edit_distance_from(a, b, i + 1, j + 1);
        if a[i] == b[j] || !(drop <= swap && drop <= put) && !(put <= swap) {
            lemma_distance_is_attained(a, b, i + 1, j + 1);
            lemma_alignment_cons(
                a,
                b,
                aligned_old(a, b, i + 1, j + 1),
                aligned_new(a, b, i + 1, j + 1),
                i,
                j,
            );
        } else if drop <= put && drop <= swap {
            lemma_distance_is_attained(a, b, i + 1, j);
            lemma_alignment_from(a, b, xs, ys, i + 1, j, i, j);
        } else {
            lemma_distance_is_attained(a, b, i, j + 1);
            lemma_alignment_from(a, b, xs, ys, i, j + 1, i, j);
        }
    } else {
        assert(replacements(a, b, xs, ys) == 0);
    }
}

/// The edit distance between two paths is the least cost at which they can
/// be laid alongside each other.
pub proof fn lemma_distance_is_least(a: Seq<u8>, b: Seq<u8>)
    ensures
        is_alignment(a, b, aligned_old(a, b, 0, 0), aligned_new(a, b, 0, 0), 0, 0),
        alignment_cost(a, b, aligned_old(a, b, 0, 0), aligned_new(a, b, 0, 0), 0, 0)
            == edit_distance(a, b),
        forall|xs: Seq<int>, ys: Seq<int>|
            #[trigger] is_alignment(a, b, xs, ys, 0, 0) ==> edit_distance(a, b) <= alignment_cost(
                a,
                b,
                xs,
                ys,
                0,
                0,
            ),
{
    lemma_distance_is_attained(a, b, 0, 0);
    assert forall|xs: Seq<int>, ys: Seq<int>| #[trigger] is_alignment(a, b, xs, ys, 0, 0) implies edit_distance(
        a,
        b,
    ) <= alignment_cost(a, b, xs, ys, 0, 0) by {
        lemma_distance_is_lower_bound(a, b, xs, ys, 0, 0);
    }
}

} // verus!
