//! The changes between two trees, made to the first tree, give the files of
//! the second.

use vstd::prelude::*;
use crate::apply::{
    apply_change, apply_spec, apply_upto, file_at, fully_applied, DEFAULT_MODE,
};
use crate::bytes::{lemma_lex_transitive, lemma_lex_trichotomy, lex_less};
use crate::change::FileChangeView;
use crate::filter::FilterView;
use crate::merge::{all_succeeded, lemma_merge_after_diff, merge_spec};
use crate::text::{concat_lines, lemma_split_concat, split_lines};
use crate::diff::{added, changes_from, diff_spec, modified, removed};
use crate::rename::{
    best_upto, content_hunks, lemma_best_upto, likeness, moved, pair_moves, partner,
};
use crate::wellformed::keys_ascend;
use crate::snapshot::{
    drop_path, file_view, holds, is_binary_content, lemma_drop_lookup, lemma_drop_ok,
    lemma_lookup_at, lemma_lookup_none, lemma_position, lemma_put_lookup, lemma_put_ok, lookup,
    position_of, put, snapshot_ok, FileEntryView,
};

verus! {

/// The content of the file at `path`, if the tree has one.
pub open spec fn content_at(tree: Seq<FileEntryView>, path: Seq<u8>) -> Option<Seq<u8>> {
    match lookup(tree, path) {
        Some(e) => Some(e.content),
        None => None,
    }
}

/// Every file of the tree is short enough for its lines to be numbered.
pub open spec fn short_files(tree: Seq<FileEntryView>) -> bool {
    forall|i: int| 0 <= i < tree.len() ==> (#[trigger] tree[i]).content.len() < usize::MAX
}

/// Every file that has another content in `e` than in `p` is text in both.
/// (A binary file that changes is recorded without its new content.)
pub open spec fn text_where_changed(p: Seq<FileEntryView>, e: Seq<FileEntryView>) -> bool {
    forall|x: Seq<u8>|
        #![trigger content_at(p, x), content_at(e, x)]
        content_at(p, x) is Some && content_at(e, x) is Some && content_at(p, x) != content_at(e, x)
            ==> !is_binary_content(content_at(p, x)->0) && !is_binary_content(
            content_at(e, x)->0,
        )
}

/// The two trees have the same files with the same contents.
pub open spec fn same_files(a: Seq<FileEntryView>, b: Seq<FileEntryView>) -> bool {
    &&& a.len() == b.len()
    &&& forall|i: int|
        0 <= i < a.len() ==> (#[trigger] a[i]).path == b[i].path && a[i].content == b[i].content
}

/// A content that is found in a tree is the content of one of its files.
pub proof fn lemma_content_found(tree: Seq<FileEntryView>, path: Seq<u8>)
    requires
        content_at(tree, path) is Some,
    ensures
        holds(tree, path),
        0 <= position_of(tree, path) < tree.len(),
        tree[position_of(tree, path)].path == path,
        tree[position_of(tree, path)].content == content_at(tree, path)->0,
{
    crate::snapshot::lemma_lower_bound(tree, path, 0);
}

/// What the first file of a tree is, and what the others hold.
proof fn lemma_first_file(tree: Seq<FileEntryView>, path: Seq<u8>)
    requires
        snapshot_ok(tree),
        tree.len() > 0,
    ensures
        snapshot_ok(tree.drop_first()),
        content_at(tree.drop_first(), path) == if path == tree[0].path {
            None
        } else {
            content_at(tree, path)
        },
        content_at(tree, tree[0].path) == Some(tree[0].content),
        content_at(tree, path) is Some ==> path == tree[0].path || lex_less(tree[0].path, path),
{
    let first = tree[0].path;
    lemma_lookup_at(tree, 0);
    lemma_position(tree, first);
    assert(position_of(tree, first) == 0);
    assert(drop_path(tree, first) =~= tree.drop_first());
    lemma_drop_ok(tree, first);
    lemma_drop_lookup(tree, first, path);
    if content_at(tree, path) is Some {
        lemma_content_found(tree, path);
        let m = position_of(tree, path);
        if m > 0 {
            assert(lex_less(tree[0].path, tree[m].path));
        }
    }
}

/// Two trees that hold the same content at every path have the same files.
pub proof fn lemma_same_by_content(a: Seq<FileEntryView>, b: Seq<FileEntryView>)
    requires
        snapshot_ok(a),
        snapshot_ok(b),
        forall|x: Seq<u8>| #[trigger] content_at(a, x) == content_at(b, x),
    ensures
        same_files(a, b),
    decreases a.len(),
{
    if a.len() == 0 {
        if b.len() > 0 {
            lemma_lookup_at(b, 0);
            assert(content_at(a, b[0].path) == content_at(b, b[0].path));
        }
    } else {
        let x = a[0].path;
        lemma_lookup_at(a, 0);
        assert(content_at(a, x) == content_at(b, x));
        lemma_content_found(b, x);
        let y = b[0].path;
        lemma_first_file(a, y);
        lemma_first_file(b, x);
        lemma_first_file(b, y);
        assert(content_at(a, y) == content_at(b, y));
        lemma_lex_trichotomy(x, y);
        assert(x == y);
        let at = a.drop_first();
        let bt = b.drop_first();
        assert forall|z: Seq<u8>| #[trigger] content_at(at, z) == content_at(bt, z) by {
            lemma_first_file(a, z);
            lemma_first_file(b, z);
            assert(content_at(a, z) == content_at(b, z));
        }
        lemma_same_by_content(at, bt);
        assert forall|i: int| 0 <= i < a.len() implies (#[trigger] a[i]).path == b[i].path
            && a[i].content == b[i].content by {
            if i > 0 {
                assert(a[i] == at[i - 1]);
                assert(b[i] == bt[i - 1]);
            }
        }
    }
}

/// The change tells truly how the two trees differ at the paths it names.
pub open spec fn tells(p: Seq<FileEntryView>, e: Seq<FileEntryView>, c: FileChangeView) -> bool {
    match c {
        FileChangeView::Added { path, content } => content_at(p, path) is None && content_at(
            e,
            path,
        ) == Some(content),
        FileChangeView::Removed { path, content } => content_at(p, path) == Some(content)
            && content_at(e, path) is None,
        FileChangeView::Modified { path, hunks } => content_at(p, path) is Some && content_at(
            e,
            path,
        ) is Some && hunks == content_hunks(content_at(p, path)->0, content_at(e, path)->0),
        FileChangeView::Renamed { from, to, hunks } => from != to && content_at(p, from) is Some
            && content_at(e, from) is None && content_at(p, to) is None && content_at(e, to) is Some
            && hunks == content_hunks(content_at(p, from)->0, content_at(e, to)->0) && likeness(
            content_at(p, from)->0,
            content_at(e, to)->0,
        ) is Some,
    }
}

/// The change names the path `x`: as the path of a file, or as one of the
/// two paths of a file that moved.
pub open spec fn touches(c: FileChangeView, x: Seq<u8>) -> bool {
    x == c.key() || x == c.target()
}

/// One of the first `n` changes names the path `x`.
pub open spec fn covered(changes: Seq<FileChangeView>, n: int, x: Seq<u8>) -> bool {
    exists|k: int| 0 <= k < n && k < changes.len() && touches(#[trigger] changes[k], x)
}

/// No path is named by two of the changes.
pub open spec fn apart(changes: Seq<FileChangeView>) -> bool {
    forall|k: int, l: int|
        #![trigger changes[k], changes[l]]
        0 <= k < changes.len() && 0 <= l < changes.len() && k != l ==> changes[k].key()
            != changes[l].key() && changes[k].key() != changes[l].target() && changes[k].target()
            != changes[l].target()
}

/// The changes describe how the tree `e` differs from the tree `p`: each
/// tells truly, no path is named twice, and every path at which the trees
/// differ is named.
pub open spec fn describes(
    p: Seq<FileEntryView>,
    e: Seq<FileEntryView>,
    changes: Seq<FileChangeView>,
) -> bool {
    &&& forall|k: int| 0 <= k < changes.len() ==> tells(p, e, #[trigger] changes[k])
    &&& apart(changes)
    &&& forall|x: Seq<u8>|
        content_at(p, x) != content_at(e, x) ==> #[trigger] covered(
            changes,
            changes.len() as int,
            x,
        )
}

/// The walk through the two trees has come to `(i, j)`: every file that it
/// has passed in one tree comes before every file that is left in the other.
spec fn passed(p: Seq<FileEntryView>, e: Seq<FileEntryView>, i: int, j: int) -> bool {
    &&& forall|k: int, l: int|
        #![trigger p[k], e[l]]
        0 <= k < i && j <= l < e.len() ==> lex_less(p[k].path, e[l].path)
    &&& forall|k: int, l: int|
        #![trigger e[k], p[l]]
        0 <= k < j && i <= l < p.len() ==> lex_less(e[k].path, p[l].path)
}

/// The path `x` belongs to a file of `p` from the `i`-th on or to a file of
/// `e` from the `j`-th on.
spec fn ahead(p: Seq<FileEntryView>, e: Seq<FileEntryView>, i: int, j: int, x: Seq<u8>) -> bool {
    (exists|k: int| i <= k < p.len() && (#[trigger] p[k]).path == x) || (exists|k: int|
        j <= k < e.len() && (#[trigger] e[k]).path == x)
}

/// The file `p[i]` has no namesake in `e`, given that the walk has come to
/// `(i, j)` and the next file of `e`, if there is one, comes later.
proof fn lemma_only_old(p: Seq<FileEntryView>, e: Seq<FileEntryView>, i: int, j: int)
    requires
        snapshot_ok(p),
        snapshot_ok(e),
        0 <= i < p.len(),
        0 <= j <= e.len(),
        passed(p, e, i, j),
        j < e.len() ==> lex_less(p[i].path, e[j].path),
    ensures
        content_at(e, p[i].path) is None,
        content_at(p, p[i].path) == Some(p[i].content),
{
    let x = p[i].path;
    lemma_lookup_at(p, i);
    lemma_lex_trichotomy(x, x);
    assert forall|l: int| 0 <= l < e.len() implies (#[trigger] e[l]).path != x by {
        if l < j {
            assert(lex_less(e[l].path, p[i].path));
        } else if l > j {
            assert(lex_less(e[j].path, e[l].path));
            lemma_lex_transitive(x, e[j].path, e[l].path);
        }
    }
    lemma_lookup_none(e, x);
}

/// The file `e[j]` has no namesake in `p`, given that the walk has come to
/// `(i, j)` and the next file of `p`, if there is one, comes later.
proof fn lemma_only_new(p: Seq<FileEntryView>, e: Seq<FileEntryView>, i: int, j: int)
    requires
        snapshot_ok(p),
        snapshot_ok(e),
        0 <= i <= p.len(),
        0 <= j < e.len(),
        passed(p, e, i, j),
        i < p.len() ==> lex_less(e[j].path, p[i].path),
    ensures
        content_at(p, e[j].path) is None,
        content_at(e, e[j].path) == Some(e[j].content),
{
    let x = e[j].path;
    lemma_lookup_at(e, j);
    lemma_lex_trichotomy(x, x);
    assert forall|l: int| 0 <= l < p.len() implies (#[trigger] p[l]).path != x by {
        if l < i {
            assert(lex_less(p[l].path, e[j].path));
        } else if l > i {
            assert(lex_less(p[i].path, p[l].path));
            lemma_lex_transitive(x, p[i].path, p[l].path);
        }
    }
    lemma_lookup_none(p, x);
}

/// The walk takes the file `p[i]` at `(i, j)`: no file is left in `e`, or the
/// next file of `e` does not come before it.
spec fn takes_old(p: Seq<FileEntryView>, e: Seq<FileEntryView>, i: int, j: int) -> bool {
    i < p.len() && (j >= e.len() || !lex_less(e[j].path, p[i].path))
}

/// The walk takes the file `e[j]` at `(i, j)`.
spec fn takes_new(p: Seq<FileEntryView>, e: Seq<FileEntryView>, i: int, j: int) -> bool {
    j < e.len() && (i >= p.len() || !lex_less(p[i].path, e[j].path))
}

/// Where the walk stands after `(i, j)`.
spec fn walk_on(p: Seq<FileEntryView>, e: Seq<FileEntryView>, i: int, j: int) -> (int, int) {
    (
        if takes_old(p, e, i, j) {
            i + 1
        } else {
            i
        },
        if takes_new(p, e, i, j) {
            j + 1
        } else {
            j
        },
    )
}

proof fn lemma_walk_on(p: Seq<FileEntryView>, e: Seq<FileEntryView>, i: int, j: int)
    requires
        snapshot_ok(p),
        snapshot_ok(e),
        0 <= i <= p.len(),
        0 <= j <= e.len(),
        i < p.len() || j < e.len(),
        passed(p, e, i, j),
    ensures
        takes_old(p, e, i, j) || takes_new(p, e, i, j),
        takes_old(p, e, i, j) && takes_new(p, e, i, j) ==> p[i].path == e[j].path,
        takes_old(p, e, i, j) && !takes_new(p, e, i, j) && j < e.len() ==> lex_less(
            p[i].path,
            e[j].path,
        ),
        takes_new(p, e, i, j) && !takes_old(p, e, i, j) && i < p.len() ==> lex_less(
            e[j].path,
            p[i].path,
        ),
        passed(p, e, walk_on(p, e, i, j).0, walk_on(p, e, i, j).1),
{
    if i < p.len() && j < e.len() {
        lemma_lex_trichotomy(p[i].path, e[j].path);
    }
    let (ni, nj) = walk_on(p, e, i, j);
    assert forall|k: int, l: int|
        #![trigger p[k], e[l]]
        0 <= k < ni && nj <= l < e.len() implies lex_less(p[k].path, e[l].path) by {
        if k < i {
            assert(lex_less(p[k].path, e[l].path));
        } else {
            if l > j {
                assert(lex_less(e[j].path, e[l].path));
                if p[i].path != e[j].path {
                    lemma_lex_transitive(p[i].path, e[j].path, e[l].path);
                }
            }
        }
    }
    assert forall|k: int, l: int|
        #![trigger e[k], p[l]]
        0 <= k < nj && ni <= l < p.len() implies lex_less(e[k].path, p[l].path) by {
        if k < j {
            assert(lex_less(e[k].path, p[l].path));
        } else {
            if l > i {
                assert(lex_less(p[i].path, p[l].path));
                if p[i].path != e[j].path {
                    lemma_lex_transitive(e[j].path, p[i].path, p[l].path);
                }
            }
        }
    }
}

/// What the walk makes of the files at `(i, j)`: the change, if there is
/// one.
spec fn step_change(p: Seq<FileEntryView>, e: Seq<FileEntryView>, i: int, j: int) -> Option<
    FileChangeView,
> {
    if takes_old(p, e, i, j) && takes_new(p, e, i, j) {
        if p[i].content == e[j].content {
            None
        } else {
            Some(modified(p[i], e[j]))
        }
    } else if takes_old(p, e, i, j) {
        Some(removed(p[i]))
    } else {
        Some(added(e[j]))
    }
}

proof fn lemma_walk_unfolds(p: Seq<FileEntryView>, e: Seq<FileEntryView>, i: int, j: int)
    requires
        0 <= i <= p.len(),
        0 <= j <= e.len(),
        i < p.len() || j < e.len(),
        takes_old(p, e, i, j) || takes_new(p, e, i, j),
        takes_old(p, e, i, j) && takes_new(p, e, i, j) ==> p[i].path == e[j].path,
    ensures
        changes_from(p, e, i, j) == match step_change(p, e, i, j) {
            Some(c) => seq![c] + changes_from(p, e, walk_on(p, e, i, j).0, walk_on(p, e, i, j).1),
            None => changes_from(p, e, walk_on(p, e, i, j).0, walk_on(p, e, i, j).1),
        },
{
    if i < p.len() && j < e.len() {
        lemma_lex_trichotomy(p[i].path, e[j].path);
    }
}

/// The step at `(i, j)` tells truly, and names the path of the file taken.
proof fn lemma_step_tells(p: Seq<FileEntryView>, e: Seq<FileEntryView>, i: int, j: int)
    requires
        snapshot_ok(p),
        snapshot_ok(e),
        0 <= i <= p.len(),
        0 <= j <= e.len(),
        i < p.len() || j < e.len(),
        passed(p, e, i, j),
    ensures
        step_change(p, e, i, j) matches Some(c) ==> tells(p, e, c) && c.key() == c.target() && (
        c.key() == if takes_old(p, e, i, j) {
            p[i].path
        } else {
            e[j].path
        }),
        step_change(p, e, i, j) is None ==> content_at(p, p[i].path) == content_at(e, p[i].path)
            && takes_old(p, e, i, j),
{
    lemma_walk_on(p, e, i, j);
    if takes_old(p, e, i, j) && takes_new(p, e, i, j) {
        lemma_lookup_at(p, i);
        lemma_lookup_at(e, j);
    } else if takes_old(p, e, i, j) {
        lemma_only_old(p, e, i, j);
    } else {
        lemma_only_new(p, e, i, j);
    }
}

/// The changes that the walk finds from `(i, j)` on tell truly, and name
/// every path ahead at which the trees differ.
proof fn lemma_raw_describes(p: Seq<FileEntryView>, e: Seq<FileEntryView>, i: int, j: int)
    requires
        snapshot_ok(p),
        snapshot_ok(e),
        0 <= i <= p.len(),
        0 <= j <= e.len(),
        passed(p, e, i, j),
    ensures
        forall|k: int|
            0 <= k < changes_from(p, e, i, j).len() ==> {
                let c = #[trigger] changes_from(p, e, i, j)[k];
                tells(p, e, c) && c.key() == c.target()
            },
        forall|x: Seq<u8>|
            ahead(p, e, i, j, x) && content_at(p, x) != content_at(e, x) ==> #[trigger] covered(
                changes_from(p, e, i, j),
                changes_from(p, e, i, j).len() as int,
                x,
            ),
    decreases (p.len() - i) + (e.len() - j),
{
    let all = changes_from(p, e, i, j);
    if i >= p.len() && j >= e.len() {
        assert forall|x: Seq<u8>| ahead(p, e, i, j, x) implies false by {}
    } else {
        lemma_walk_on(p, e, i, j);
        lemma_walk_unfolds(p, e, i, j);
        lemma_step_tells(p, e, i, j);
        let (ni, nj) = walk_on(p, e, i, j);
        lemma_raw_describes(p, e, ni, nj);
        let rest = changes_from(p, e, ni, nj);
        let step = step_change(p, e, i, j);
        let taken = if takes_old(p, e, i, j) {
            p[i].path
        } else {
            e[j].path
        };
        let shift: int = if step is Some {
            1
        } else {
            0
        };
        assert forall|k: int| 0 <= k < all.len() implies {
            let c = #[trigger] all[k];
            tells(p, e, c) && c.key() == c.target()
        } by {
            if k >= shift {
                assert(all[k] == rest[k - shift]);
            }
        }
        assert forall|x: Seq<u8>|
            ahead(p, e, i, j, x) && content_at(p, x) != content_at(e, x) implies #[trigger] covered(
            all,
            all.len() as int,
            x,
        ) by {
            if x == taken {
                assert(step is Some);
                assert(touches(all[0], x));
            } else {
                if exists|k: int| i <= k < p.len() && (#[trigger] p[k]).path == x {
                    let k = choose|k: int| i <= k < p.len() && (#[trigger] p[k]).path == x;
                    assert(ni <= k < p.len() && p[k].path == x);
                } else {
                    let k = choose|k: int| j <= k < e.len() && (#[trigger] e[k]).path == x;
                    assert(nj <= k < e.len() && e[k].path == x);
                }
                assert(ahead(p, e, ni, nj, x));
                assert(covered(rest, rest.len() as int, x));
                let m = choose|m: int| 0 <= m < rest.len() && touches(#[trigger] rest[m], x);
                assert(all[m + shift] == rest[m]);
                assert(touches(all[m + shift], x));
            }
        }
    }
}

/// Changes whose keys ascend and which name one path each name no path
/// twice.
proof fn lemma_apart_by_keys(changes: Seq<FileChangeView>)
    requires
        keys_ascend(changes),
        forall|k: int| 0 <= k < changes.len() ==> (#[trigger] changes[k]).key() == changes[k].target(),
    ensures
        apart(changes),
{
    assert forall|k: int, l: int|
        #![trigger changes[k], changes[l]]
        0 <= k < changes.len() && 0 <= l < changes.len() && k != l implies changes[k].key()
        != changes[l].key() && changes[k].key() != changes[l].target() && changes[k].target()
        != changes[l].target() by {
        lemma_lex_trichotomy(changes[k].key(), changes[l].key());
        if k < l {
            assert(lex_less(changes[k].key(), changes[l].key()));
        } else {
            assert(lex_less(changes[l].key(), changes[k].key()));
        }
    }
}

/// Pairing a removal with an addition keeps the changes a true description
/// of how the trees differ.
proof fn lemma_pair_describes(
    p: Seq<FileEntryView>,
    e: Seq<FileEntryView>,
    changes: Seq<FileChangeView>,
    x: int,
)
    requires
        describes(p, e, changes),
        0 <= x,
    ensures
        describes(p, e, pair_moves(changes, x)),
    decreases changes.len() - x,
{
    if x < changes.len() {
        let y = best_upto(changes, x, changes.len() as int);
        lemma_best_upto(changes, x, changes.len() as int);
        if 0 <= y < changes.len() && y != x {
            let gone = changes[x];
            let come = changes[y];
            let both = moved(gone, come);
            let updated = changes.update(x, both);
            let merged = updated.remove(y);
            let at: int = if x < y {
                x
            } else {
                x - 1
            };
            assert(partner(changes, x, y));
            assert(tells(p, e, gone) && tells(p, e, come));
            assert(gone.key() != come.key());
            assert(tells(p, e, both));
            assert(merged[at] == both);
            assert forall|k: int| 0 <= k < merged.len() implies tells(p, e, #[trigger] merged[k]) by {
                let o = if k < y {
                    k
                } else {
                    k + 1
                };
                assert(merged[k] == updated[o]);
                if o != x {
                    assert(updated[o] == changes[o]);
                }
            }
            assert forall|k: int, l: int|
                #![trigger merged[k], merged[l]]
                0 <= k < merged.len() && 0 <= l < merged.len() && k != l implies merged[k].key()
                != merged[l].key() && merged[k].key() != merged[l].target() && merged[k].target()
                != merged[l].target() by {
                let ok = if k < y {
                    k
                } else {
                    k + 1
                };
                let ol = if l < y {
                    l
                } else {
                    l + 1
                };
                assert(merged[k] == updated[ok] && merged[l] == updated[ol]);
                let ck = changes[ok];
                let cl = changes[ol];
                let cy = changes[y];
                assert(ck.key() != cl.key() && ck.key() != cl.target() && ck.target() != cl.target());
                assert(cl.key() != ck.target());
                assert(ck.key() != cy.key() && ck.target() != cy.target() && ck.key() != cy.target());
                assert(cl.key() != cy.key() && cl.target() != cy.target() && cl.key() != cy.target());
                assert(cy.key() == cy.target());
            }
            assert forall|z: Seq<u8>| content_at(p, z) != content_at(e, z) implies #[trigger] covered(
                merged,
                merged.len() as int,
                z,
            ) by {
                assert(covered(changes, changes.len() as int, z));
                let m = choose|m: int|
                    0 <= m < changes.len() && touches(#[trigger] changes[m], z);
                if m == x || m == y {
                    assert(touches(merged[at], z));
                } else {
                    let k = if m < y {
                        m
                    } else {
                        m - 1
                    };
                    assert(merged[k] == updated[m]);
                    assert(updated[m] == changes[m]);
                    assert(touches(merged[k], z));
                }
            }
            lemma_pair_describes(
                p,
                e,
                merged,
                if y < x {
                    x
                } else {
                    x + 1
                },
            );
        } else {
            lemma_pair_describes(p, e, changes, x + 1);
        }
    }
}

/// The changes between two trees describe how the trees differ.
pub proof fn lemma_diff_describes(p: Seq<FileEntryView>, e: Seq<FileEntryView>)
    requires
        snapshot_ok(p),
        snapshot_ok(e),
    ensures
        describes(p, e, diff_spec(p, e)),
{
    let raw = changes_from(p, e, 0, 0);
    lemma_raw_describes(p, e, 0, 0);
    crate::wellformed::lemma_raw_in_order(p, e);
    lemma_apart_by_keys(raw);
    assert forall|x: Seq<u8>| content_at(p, x) != content_at(e, x) implies #[trigger] covered(
        raw,
        raw.len() as int,
        x,
    ) by {
        if content_at(p, x) is Some {
            lemma_content_found(p, x);
            let k = position_of(p, x);
            assert(0 <= k < p.len() && p[k].path == x);
        } else {
            lemma_content_found(e, x);
            let k = position_of(e, x);
            assert(0 <= k < e.len() && e[k].path == x);
        }
        assert(ahead(p, e, 0, 0, x));
    }
    lemma_pair_describes(p, e, raw, 0);
}

/// The hunks between two contents turn the one into the other, if the
/// contents are the same or both are text, and their lines can be numbered.
proof fn lemma_hunks_apply(a: Seq<u8>, b: Seq<u8>)
    requires
        a.len() < usize::MAX,
        b.len() < usize::MAX,
        a == b || (!is_binary_content(a) && !is_binary_content(b)),
    ensures
        all_succeeded(merge_spec(split_lines(a), content_hunks(a, b)).outcomes),
        concat_lines(merge_spec(split_lines(a), content_hunks(a, b)).lines) == b,
{
    lemma_split_concat(a);
    lemma_split_concat(b);
    if !is_binary_content(a) && !is_binary_content(b) {
        lemma_merge_after_diff(split_lines(a), split_lines(b));
    } else {
        assert(content_hunks(a, b).len() == 0);
    }
}

/// A change that tells truly, made to a tree that holds at the paths it
/// names what the old tree holds, leaves at those paths what the new tree
/// holds and every other path as it was.
proof fn lemma_change_applies(
    tree: Seq<FileEntryView>,
    p: Seq<FileEntryView>,
    e: Seq<FileEntryView>,
    c: FileChangeView,
    filter: FilterView,
)
    requires
        snapshot_ok(tree),
        short_files(p),
        short_files(e),
        text_where_changed(p, e),
        tells(p, e, c),
        content_at(tree, c.key()) == content_at(p, c.key()),
        content_at(tree, c.target()) == content_at(p, c.target()),
        forall|x: Seq<u8>| filter.admits(x),
    ensures
        snapshot_ok(apply_change(tree, c, filter).tree),
        all_succeeded(apply_change(tree, c, filter).report.outcomes),
        forall|x: Seq<u8>|
            #[trigger] content_at(apply_change(tree, c, filter).tree, x) == if touches(c, x) {
                content_at(e, x)
            } else {
                content_at(tree, x)
            },
{
    let step = apply_change(tree, c, filter);
    match c {
        FileChangeView::Added { path, content } => {
            assert(filter.admits(path));
            let entry = file_view(path, content, DEFAULT_MODE);
            lemma_put_ok(tree, entry);
            assert forall|x: Seq<u8>|
                #[trigger] content_at(step.tree, x) == if touches(c, x) {
                    content_at(e, x)
                } else {
                    content_at(tree, x)
                } by {
                lemma_put_lookup(tree, entry, x);
            }
        },
        FileChangeView::Removed { path, content } => {
            assert(filter.admits(path));
            lemma_content_found(tree, path);
            lemma_drop_ok(tree, path);
            assert forall|x: Seq<u8>|
                #[trigger] content_at(step.tree, x) == if touches(c, x) {
                    content_at(e, x)
                } else {
                    content_at(tree, x)
                } by {
                lemma_drop_lookup(tree, path, x);
            }
        },
        FileChangeView::Modified { path, hunks } => {
            assert(filter.admits(path));
            lemma_content_found(tree, path);
            lemma_content_found(p, path);
            lemma_content_found(e, path);
            lemma_hunks_apply(content_at(p, path)->0, content_at(e, path)->0);
            let file = file_at(tree, path);
            let entry = file_view(path, content_at(e, path)->0, file.mode);
            let rest = drop_path(tree, path);
            lemma_drop_ok(tree, path);
            lemma_put_ok(rest, entry);
            assert(step.tree == put(rest, entry));
            assert forall|x: Seq<u8>|
                #[trigger] content_at(step.tree, x) == if touches(c, x) {
                    content_at(e, x)
                } else {
                    content_at(tree, x)
                } by {
                lemma_drop_lookup(tree, path, x);
                lemma_put_lookup(rest, entry, x);
            }
        },
        FileChangeView::Renamed { from, to, hunks } => {
            assert(filter.admits(from) && filter.admits(to));
            lemma_content_found(tree, from);
            lemma_content_found(p, from);
            lemma_content_found(e, to);
            lemma_hunks_apply(content_at(p, from)->0, content_at(e, to)->0);
            let file = file_at(tree, from);
            let entry = file_view(to, content_at(e, to)->0, file.mode);
            let rest = drop_path(tree, from);
            lemma_drop_ok(tree, from);
            lemma_put_ok(rest, entry);
            assert(!holds(tree, to));
            assert(step.tree == put(rest, entry));
            assert forall|x: Seq<u8>|
                #[trigger] content_at(step.tree, x) == if touches(c, x) {
                    content_at(e, x)
                } else {
                    content_at(tree, x)
                } by {
                lemma_drop_lookup(tree, from, x);
                lemma_put_lookup(rest, entry, x);
            }
        },
    }
}

/// After the first `k` changes of a true description the tree holds, at the
/// paths that they name, what the new tree holds, and at every other path
/// what the old tree holds; and every change was made.
proof fn lemma_apply_described(
    p: Seq<FileEntryView>,
    e: Seq<FileEntryView>,
    changes: Seq<FileChangeView>,
    filter: FilterView,
    k: int,
)
    requires
        snapshot_ok(p),
        short_files(p),
        short_files(e),
        text_where_changed(p, e),
        describes(p, e, changes),
        forall|x: Seq<u8>| filter.admits(x),
        0 <= k <= changes.len(),
    ensures
        snapshot_ok(apply_upto(p, changes, filter, k).tree),
        fully_applied(apply_upto(p, changes, filter, k).files),
        forall|x: Seq<u8>|
            #[trigger] content_at(apply_upto(p, changes, filter, k).tree, x) == if covered(
                changes,
                k,
                x,
            ) {
                content_at(e, x)
            } else {
                content_at(p, x)
            },
    decreases k,
{
    let now = apply_upto(p, changes, filter, k);
    if k == 0 {
        assert forall|i: int| 0 <= i < now.files.len() implies all_succeeded(
            (#[trigger] now.files[i]).outcomes,
        ) by {}
    } else {
        lemma_apply_described(p, e, changes, filter, k - 1);
        let before = apply_upto(p, changes, filter, k - 1);
        let c = changes[k - 1];
        assert(tells(p, e, c));
        // No earlier change names a path that this one names.
        assert forall|x: Seq<u8>| touches(c, x) implies !covered(changes, k - 1, x) by {
            if covered(changes, k - 1, x) {
                let m = choose|m: int|
                    0 <= m < k - 1 && m < changes.len() && touches(#[trigger] changes[m], x);
                let earlier = changes[m];
                assert(earlier.key() != c.key() && earlier.key() != c.target() && earlier.target()
                    != c.target());
                assert(c.key() != earlier.target());
            }
        }
        assert(touches(c, c.key()) && touches(c, c.target()));
        assert(content_at(before.tree, c.key()) == content_at(p, c.key()));
        assert(content_at(before.tree, c.target()) == content_at(p, c.target()));
        lemma_change_applies(before.tree, p, e, c, filter);
        let step = apply_change(before.tree, c, filter);
        assert(now.tree == step.tree);
        assert(now.files == before.files.push(step.report));
        assert forall|i: int| 0 <= i < now.files.len() implies all_succeeded(
            (#[trigger] now.files[i]).outcomes,
        ) by {
            if i < before.files.len() {
                assert(now.files[i] == before.files[i]);
            }
        }
        assert forall|x: Seq<u8>|
            #[trigger] content_at(now.tree, x) == if covered(changes, k, x) {
                content_at(e, x)
            } else {
                content_at(p, x)
            } by {
            assert(content_at(step.tree, x) == if touches(c, x) {
                content_at(e, x)
            } else {
                content_at(before.tree, x)
            });
            if touches(c, x) {
                assert(touches(changes[k - 1], x));
            } else if covered(changes, k - 1, x) {
                let m = choose|m: int|
                    0 <= m < k - 1 && m < changes.len() && touches(#[trigger] changes[m], x);
                assert(0 <= m < k && touches(changes[m], x));
            } else if covered(changes, k, x) {
                let m = choose|m: int|
                    0 <= m < k && m < changes.len() && touches(#[trigger] changes[m], x);
                assert(m < k - 1);
            }
        }
    }
}

/// The changes between two trees, made to the first tree, give the files of
/// the second with their contents, and every one of them is made, if no
/// binary file has changed in its place. (The modes are those of the first
/// tree, and of new files the mode of added files.)
pub proof fn lemma_apply_after_diff(
    p: Seq<FileEntryView>,
    e: Seq<FileEntryView>,
    filter: FilterView,
)
    requires
        snapshot_ok(p),
        snapshot_ok(e),
        short_files(p),
        short_files(e),
        text_where_changed(p, e),
        forall|x: Seq<u8>| filter.admits(x),
    ensures
        same_files(apply_spec(p, diff_spec(p, e), filter).tree, e),
        fully_applied(apply_spec(p, diff_spec(p, e), filter).files),
{
    let changes = diff_spec(p, e);
    lemma_diff_describes(p, e);
    lemma_apply_described(p, e, changes, filter, changes.len() as int);
    let done = apply_spec(p, changes, filter);
    assert forall|x: Seq<u8>| #[trigger] content_at(done.tree, x) == content_at(e, x) by {
        if content_at(p, x) != content_at(e, x) {
            assert(covered(changes, changes.len() as int, x));
        }
    }
    lemma_same_by_content(done.tree, e);
}

} // verus!
