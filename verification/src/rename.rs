//! Files that moved: a removed file and an added file whose contents are
//! alike are taken for one file under two paths.

use vstd::prelude::*;
use crate::bytes::{bytes_eq, copy_bytes};
use crate::change::{changes_of, FileChange, FileChangeView};
use crate::distance::{alignment_cost, is_alignment, lemma_distance_is_least};
use crate::hunk::{hunks_of, Hunk, HunkView};
use crate::linediff::{compute_hunks, diff_lines, lcs_len, lcs_length};
use crate::snapshot::{classify, is_binary_content};
use crate::text::{split_lines, to_lines};

verus! {

/// The least number of bytes to drop, put in or replace to turn `a` from `i`
/// on into `b` from `j` on.
pub open spec fn edit_distance_from(a: Seq<u8>, b: Seq<u8>, i: int, j: int) -> nat
    decreases (a.len() - i) + (b.len() - j),
{
    if i < 0 || j < 0 || i > a.len() || j > b.len() {
        0
    } else if i >= a.len() {
        (b.len() - j) as nat
    } else if j >= b.len() {
        (a.len() - i) as nat
    } else if a[i] == b[j] {
        edit_distance_from(a, b, i + 1, j + 1)
    } else {
        let drop = edit_distance_from(a, b, i + 1, j);
        let put = edit_distance_from(a, b, i, j + 1);
        let swap = edit_distance_from(a, b, i + 1, j + 1);
        1 + least(drop, put, swap)
    }
}

/// The least of three numbers.
pub open spec fn least(x: nat, y: nat, z: nat) -> nat {
    if x <= y && x <= z {
        x
    } else if y <= z {
        y
    } else {
        z
    }
}

/// The edit distance between two paths.
pub open spec fn edit_distance(a: Seq<u8>, b: Seq<u8>) -> nat {
    edit_distance_from(a, b, 0, 0)
}

proof fn lemma_distance_bound(a: Seq<u8>, b: Seq<u8>, i: int, j: int)
    requires
        0 <= i <= a.len(),
        0 <= j <= b.len(),
    ensures
        edit_distance_from(a, b, i, j) <= a.len() - i || edit_distance_from(a, b, i, j) <= b.len()
            - j,
    decreases (a.len() - i) + (b.len() - j),
{
    if i < a.len() && j < b.len() {
        lemma_distance_bound(a, b, i + 1, j + 1);
    }
}

/// The row holds, from its end to its start, the distances for position `i`
/// of `a` and each of the last `filled` positions of `b`.
spec fn distances_filled(row: Seq<usize>, a: Seq<u8>, b: Seq<u8>, i: int, filled: int) -> bool {
    &&& row.len() == filled
    &&& forall|k: int|
        0 <= k < filled ==> (#[trigger] row[k]) as int == edit_distance_from(
            a,
            b,
            i,
            b.len() - 1 - k,
        )
}

fn distance_at(row: &Vec<usize>, a: &Vec<u8>, b: &Vec<u8>, i: usize, j: usize) -> (value: usize)
    requires
        i <= a@.len(),
        j <= b@.len(),
        i < a@.len() && j < b@.len() ==> distances_filled(
            row@,
            a@,
            b@,
            i as int,
            row@.len() as int,
        ) && b@.len() - row@.len() <= j,
    ensures
        value == edit_distance_from(a@, b@, i as int, j as int),
{
    let n = a.len();
    let m = b.len();
    if i >= n {
        m - j
    } else if j >= m {
        n - i
    } else {
        row[m - 1 - j]
    }
}

fn distance_row(a: &Vec<u8>, b: &Vec<u8>, i: usize, below: &Vec<usize>) -> (row: Vec<usize>)
    requires
        i < a@.len(),
        i + 1 < a@.len() ==> distances_filled(below@, a@, b@, i + 1, b@.len() as int),
    ensures
        distances_filled(row@, a@, b@, i as int, b@.len() as int),
{
    let n = a.len();
    let m = b.len();
    let mut row: Vec<usize> = Vec::new();
    let mut k: usize = 0;
    while k < m
        invariant
            n == a@.len(),
            m == b@.len(),
            i < n,
            i + 1 < n ==> distances_filled(below@, a@, b@, i + 1, m as int),
            k <= m,
            distances_filled(row@, a@, b@, i as int, k as int),
        decreases m - k,
    {
        let j = m - 1 - k;
        let value: usize = if a[i] == b[j] {
            distance_at(below, a, b, i + 1, j + 1)
        } else {
            let drop = distance_at(below, a, b, i + 1, j);
            let put = distance_at(&row, a, b, i, j + 1);
            let swap = distance_at(below, a, b, i + 1, j + 1);
            proof {
                lemma_distance_bound(a@, b@, i + 1, j + 1);
            }
            let low = if drop <= put && drop <= swap {
                drop
            } else if put <= swap {
                put
            } else {
                swap
            };
            1 + low
        };
        assert(value == edit_distance_from(a@, b@, i as int, j as int));
        row.push(value);
        k += 1;
    }
    row
}

/// The edit distance between two paths: the least number of bytes to drop,
/// put in or replace to make the one of the other.
pub fn path_distance(a: &Vec<u8>, b: &Vec<u8>) -> (distance: usize)
    ensures
        distance == edit_distance(a@, b@),
        forall|xs: Seq<int>, ys: Seq<int>|
            #[trigger] is_alignment(a@, b@, xs, ys, 0, 0) ==> distance <= alignment_cost(
                a@,
                b@,
                xs,
                ys,
                0,
                0,
            ),
{
    proof {
        lemma_distance_is_least(a@, b@);
    }
    let n = a.len();
    let m = b.len();
    if n == 0 {
        return m;
    }
    if m == 0 {
        return n;
    }
    let none: Vec<usize> = Vec::new();
    let mut row = distance_row(a, b, n - 1, &none);
    let mut i: usize = n - 1;
    while i > 0
        invariant
            n == a@.len(),
            m == b@.len(),
            m > 0,
            i < n,
            distances_filled(row@, a@, b@, i as int, m as int),
        decreases i,
    {
        i -= 1;
        row = distance_row(a, b, i, &row);
    }
    row[m - 1]
}

/// How much two contents have in common: the lines they share, in order, out
/// of the lines of the longer. Contents that are the same share everything.
/// Contents that are not alike have no such measure: two contents are alike
/// when they are the same, or when both are text and share more than half of
/// the lines of the longer.
pub open spec fn likeness(a: Seq<u8>, b: Seq<u8>) -> Option<(nat, nat)> {
    let shared = lcs_len(split_lines(a), split_lines(b), 0, 0);
    let longer = if split_lines(a).len() >= split_lines(b).len() {
        split_lines(a).len()
    } else {
        split_lines(b).len()
    };
    if a == b {
        Some((1, 1))
    } else if is_binary_content(a) || is_binary_content(b) || 2 * shared <= longer {
        None
    } else {
        Some((shared, longer))
    }
}

/// The second partner is the better one: its content is more like the file
/// that was removed, or as much like it and its path is nearer.
pub open spec fn better(first: (nat, nat), first_far: nat, second: (nat, nat), second_far: nat) -> bool {
    second.0 * first.1 > first.0 * second.1 || (second.0 * first.1 == first.0 * second.1
        && second_far < first_far)
}

/// The content of an added or removed file.
pub open spec fn content_of(c: FileChangeView) -> Seq<u8> {
    match c {
        FileChangeView::Added { content, .. } => content,
        FileChangeView::Removed { content, .. } => content,
        _ => Seq::empty(),
    }
}

/// The `y`-th change adds a file that may be the file that the `x`-th change
/// removes.
pub open spec fn partner(changes: Seq<FileChangeView>, x: int, y: int) -> bool {
    &&& 0 <= x < changes.len()
    &&& 0 <= y < changes.len()
    &&& changes[x] is Removed
    &&& changes[y] is Added
    &&& likeness(content_of(changes[x]), content_of(changes[y])) is Some
}

/// The second of two partners is the better one.
pub open spec fn better_partner(changes: Seq<FileChangeView>, x: int, y1: int, y2: int) -> bool {
    better(
        likeness(content_of(changes[x]), content_of(changes[y1]))->0,
        edit_distance(changes[x].key(), changes[y1].key()),
        likeness(content_of(changes[x]), content_of(changes[y2]))->0,
        edit_distance(changes[x].key(), changes[y2].key()),
    )
}

/// The best partner among the first `n` changes, or -1. Of two partners that
/// are as good the earlier is taken.
pub open spec fn best_upto(changes: Seq<FileChangeView>, x: int, n: int) -> int
    decreases n,
{
    if n <= 0 {
        -1
    } else {
        let before = best_upto(changes, x, n - 1);
        if partner(changes, x, n - 1) && (before < 0 || better_partner(
            changes,
            x,
            before,
            n - 1,
        )) {
            n - 1
        } else {
            before
        }
    }
}

/// The hunks between two contents. Binary content is not compared line by
/// line: a change that has binary content on either side has no hunks, nor
/// has one with more lines than can be numbered.
pub open spec fn content_hunks(old: Seq<u8>, new: Seq<u8>) -> Seq<HunkView> {
    if is_binary_content(old) || is_binary_content(new) || split_lines(old).len() >= usize::MAX
        || split_lines(new).len() >= usize::MAX {
        Seq::empty()
    } else {
        diff_lines(split_lines(old), split_lines(new))
    }
}

/// The move that stands for a removal and an addition.
pub open spec fn moved(gone: FileChangeView, come: FileChangeView) -> FileChangeView {
    FileChangeView::Renamed {
        from: gone.key(),
        to: come.key(),
        hunks: content_hunks(content_of(gone), content_of(come)),
    }
}

/// The changes with each removal from the `x`-th on paired with its best
/// partner, if it has one: the removal becomes a move and the addition goes.
pub open spec fn pair_moves(changes: Seq<FileChangeView>, x: int) -> Seq<FileChangeView>
    decreases changes.len() - x,
{
    if x < 0 || x >= changes.len() {
        changes
    } else {
        let y = best_upto(changes, x, changes.len() as int);
        if 0 <= y < changes.len() && y != x {
            pair_moves(
                changes.update(x, moved(changes[x], changes[y])).remove(y),
                if y < x {
                    x
                } else {
                    x + 1
                },
            )
        } else {
            pair_moves(changes, x + 1)
        }
    }
}

/// Where the best partner is found, it is a partner.
pub proof fn lemma_best_upto(changes: Seq<FileChangeView>, x: int, n: int)
    requires
        n <= changes.len(),
    ensures
        best_upto(changes, x, n) == -1 || (0 <= best_upto(changes, x, n) < n && partner(
            changes,
            x,
            best_upto(changes, x, n),
        )),
    decreases n,
{
    if n > 0 {
        lemma_best_upto(changes, x, n - 1);
    }
}

/// The hunks between two contents, of which it is known whether they are
/// binary.
pub fn hunks_for_contents(old: &Vec<u8>, old_binary: bool, new: &Vec<u8>, new_binary: bool) -> (hunks:
    Vec<Hunk>)
    requires
        old_binary == is_binary_content(old@),
        new_binary == is_binary_content(new@),
    ensures
        hunks_of(hunks@) == content_hunks(old@, new@),
{
    if !old_binary && !new_binary {
        let old_lines = to_lines(old);
        let new_lines = to_lines(new);
        if old_lines.len() < usize::MAX && new_lines.len() < usize::MAX {
            return compute_hunks(&old_lines, &new_lines);
        }
    }
    let hunks: Vec<Hunk> = Vec::new();
    assert(hunks_of(hunks@) =~= Seq::<HunkView>::empty());
    hunks
}

/// How much two contents have in common, if they are alike.
pub fn measure(a: &Vec<u8>, b: &Vec<u8>) -> (found: Option<(usize, usize)>)
    ensures
        match found {
            Some((shared, longer)) => likeness(a@, b@) == Some((shared as nat, longer as nat)),
            None => likeness(a@, b@) is None,
        },
{
    if bytes_eq(a, b) {
        return Some((1, 1));
    }
    if classify(a) || classify(b) {
        return None;
    }
    let a_lines = to_lines(a);
    let b_lines = to_lines(b);
    let shared = lcs_length(&a_lines, &b_lines);
    let longer = if a_lines.len() >= b_lines.len() {
        a_lines.len()
    } else {
        b_lines.len()
    };
    if 2 * (shared as u128) <= longer as u128 {
        None
    } else {
        Some((shared, longer))
    }
}

fn is_better(first: (usize, usize), first_far: usize, second: (usize, usize), second_far: usize) -> (yes:
    bool)
    ensures
        yes == better(
            (first.0 as nat, first.1 as nat),
            first_far as nat,
            (second.0 as nat, second.1 as nat),
            second_far as nat,
        ),
{
    assert(second.0 * first.1 <= usize::MAX * usize::MAX) by (nonlinear_arith)
        requires
            second.0 <= usize::MAX,
            first.1 <= usize::MAX,
    ;
    assert(first.0 * second.1 <= usize::MAX * usize::MAX) by (nonlinear_arith)
        requires
            first.0 <= usize::MAX,
            second.1 <= usize::MAX,
    ;
    assert(usize::MAX * usize::MAX <= u128::MAX) by (nonlinear_arith)
        requires
            usize::MAX <= 0xffff_ffff_ffff_ffff,
    ;
    let left: u128 = (second.0 as u128) * (first.1 as u128);
    let right: u128 = (first.0 as u128) * (second.1 as u128);
    left > right || (left == right && second_far < first_far)
}

/// The best partner of the removal at `x`, if it has one.
fn best_partner(changes: &Vec<FileChange>, x: usize) -> (found: Option<usize>)
    requires
        x < changes@.len(),
    ensures
        match found {
            Some(y) => y == best_upto(changes_of(changes@), x as int, changes@.len() as int) && y
                < changes@.len() && y != x,
            None => best_upto(changes_of(changes@), x as int, changes@.len() as int) == -1,
        },
{
    let ghost all = changes_of(changes@);
    let n = changes.len();
    assert(all[x as int] == changes@[x as int]@);
    let (from, gone) = match &changes[x] {
        FileChange::Removed { path, content } => (path, content),
        _ => {
            proof {
                lemma_no_partner(all, x as int, n as int);
            }
            return None;
        },
    };
    let mut best: Option<usize> = None;
    let mut best_score: (usize, usize) = (0, 1);
    let mut best_far: usize = 0;
    let mut y: usize = 0;
    while y < n
        invariant
            all == changes_of(changes@),
            n == changes@.len(),
            x < n,
            all[x as int] is Removed,
            from@ == all[x as int].key(),
            gone@ == content_of(all[x as int]),
            y <= n,
            match best {
                Some(b) => b == best_upto(all, x as int, y as int) && b < y && b != x && partner(
                    all,
                    x as int,
                    b as int,
                ) && likeness(gone@, content_of(all[b as int])) == Some(
                    (best_score.0 as nat, best_score.1 as nat),
                ) && best_far == edit_distance(from@, all[b as int].key()),
                None => best_upto(all, x as int, y as int) == -1,
            },
        decreases n - y,
    {
        assert(all[y as int] == changes@[y as int]@);
        match &changes[y] {
            FileChange::Added { path, content } => {
                match measure(gone, content) {
                    Some(score) => {
                        let far = path_distance(from, path);
                        let take = match best {
                            Some(b) => is_better(best_score, best_far, score, far),
                            None => true,
                        };
                        if take {
                            best = Some(y);
                            best_score = score;
                            best_far = far;
                        }
                    },
                    None => {},
                }
            },
            _ => {},
        }
        y += 1;
    }
    best
}

proof fn lemma_no_partner(changes: Seq<FileChangeView>, x: int, n: int)
    requires
        0 <= x < changes.len(),
        !(changes[x] is Removed),
    ensures
        best_upto(changes, x, n) == -1,
    decreases n,
{
    if n > 0 {
        lemma_no_partner(changes, x, n - 1);
    }
}

/// Pairs each removal with the addition that is most like it, if one is
/// alike, and makes a move of the two.
pub fn detect_moves(changes: Vec<FileChange>) -> (paired: Vec<FileChange>)
    ensures
        changes_of(paired@) == pair_moves(changes_of(changes@), 0),
{
    let ghost start = changes_of(changes@);
    let mut changes = changes;
    let mut x: usize = 0;
    while x < changes.len()
        invariant
            x <= changes@.len(),
            pair_moves(changes_of(changes@), x as int) == pair_moves(start, 0),
        decreases changes@.len() - x,
    {
        let ghost before = changes_of(changes@);
        match best_partner(&changes, x) {
            None => {
                x += 1;
            },
            Some(y) => {
                assert(before[x as int] == changes@[x as int]@);
                assert(before[y as int] == changes@[y as int]@);
                proof {
                    lemma_best_upto(before, x as int, before.len() as int);
                }
                let renamed = match (&changes[x], &changes[y]) {
                    (
                        FileChange::Removed { path: from, content: gone },
                        FileChange::Added { path: to, content: come },
                    ) => {
                        let gone_binary = classify(gone);
                        let come_binary = classify(come);
                        FileChange::Renamed {
                            from: copy_bytes(from),
                            to: copy_bytes(to),
                            hunks: hunks_for_contents(gone, gone_binary, come, come_binary),
                        }
                    },
                    _ => {
                        assert(false);
                        changes[x].copy()
                    },
                };
                assert(renamed@ == moved(before[x as int], before[y as int]));
                changes.remove(x);
                changes.insert(x, renamed);
                changes.remove(y);
                assert(changes_of(changes@) =~= before.update(
                    x as int,
                    moved(before[x as int], before[y as int]),
                ).remove(y as int));
                if y > x {
                    x += 1;
                }
            },
        }
    }
    changes
}

} // verus!
