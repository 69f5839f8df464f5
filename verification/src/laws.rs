//! What holds of generating and applying patches, whatever the trees are.

use vstd::prelude::*;
use crate::apply::{apply_change, apply_spec, apply_upto, file_at, fully_applied, rewrite};
use crate::bytes::{lemma_lex_trichotomy, lex_less};
use crate::change::{FileChangeView, PackageIdentityView};
use crate::closure::{lemma_apply_after_diff, same_files, short_files, text_where_changed};
use crate::diff::{changes_from, diff_spec, generate_spec, lemma_changes_same, modified};
use crate::filter::FilterView;
use crate::format::serialize_spec;
use crate::linediff::diff_lines;
use crate::merge::{all_succeeded, lemma_merge_after_diff};
use crate::rename::{best_upto, content_hunks, pair_moves};
use crate::snapshot::{
    admitted, drop_path, file_view, holds, lemma_drop_ok, lemma_position, position_of, put,
    snapshot_ok, FileEntryView, is_binary_content,
};
use crate::text::{lemma_split_concat, split_lines};

verus! {

/// Generating a patch twice from the same snapshots, filter and package gives
/// the same patch, and so the same text.
pub proof fn lemma_generate_repeats(
    pristine: Seq<FileEntryView>,
    edited: Seq<FileEntryView>,
    filter: FilterView,
    package: PackageIdentityView,
    pristine_again: Seq<FileEntryView>,
    edited_again: Seq<FileEntryView>,
)
    requires
        pristine_again == pristine,
        edited_again == edited,
    ensures
        generate_spec(pristine_again, edited_again, filter, package) == generate_spec(
            pristine,
            edited,
            filter,
            package,
        ),
        serialize_spec(generate_spec(pristine_again, edited_again, filter, package))
            == serialize_spec(generate_spec(pristine, edited, filter, package)),
{
}

/// A snapshot compared with itself gives a patch without changes, whatever
/// the filter.
pub proof fn lemma_generate_same(
    tree: Seq<FileEntryView>,
    filter: FilterView,
    package: PackageIdentityView,
)
    ensures
        generate_spec(tree, tree, filter, package).changes == Seq::<FileChangeView>::empty(),
{
    crate::diff::lemma_diff_same(admitted(tree, filter, tree.len() as int));
}

proof fn lemma_admitted_insert(
    entries: Seq<FileEntryView>,
    filter: FilterView,
    k: int,
    e: FileEntryView,
    n: int,
)
    requires
        0 <= k <= entries.len(),
        !filter.admits(e.path),
        0 <= n <= entries.len() + 1,
    ensures
        admitted(entries.insert(k, e), filter, n) == admitted(
            entries,
            filter,
            if n <= k {
                n
            } else {
                n - 1
            },
        ),
    decreases n,
{
    if n > 0 {
        lemma_admitted_insert(entries, filter, k, e, n - 1);
        let with = entries.insert(k, e);
        if n - 1 < k {
            assert(with[n - 1] == entries[n - 1]);
        } else if n - 1 == k {
            assert(with[n - 1] == e);
        } else {
            assert(with[n - 1] == entries[n - 2]);
        }
    }
}

proof fn lemma_admitted_update(
    entries: Seq<FileEntryView>,
    filter: FilterView,
    k: int,
    e: FileEntryView,
    n: int,
)
    requires
        0 <= k < entries.len(),
        !filter.admits(e.path),
        !filter.admits(entries[k].path),
        0 <= n <= entries.len(),
    ensures
        admitted(entries.update(k, e), filter, n) == admitted(entries, filter, n),
    decreases n,
{
    if n > 0 {
        lemma_admitted_update(entries, filter, k, e, n - 1);
        let with = entries.update(k, e);
        if n - 1 != k {
            assert(with[n - 1] == entries[n - 1]);
        }
    }
}

/// A file that the filter does not admit can be added or changed without a
/// trace: the patch between the tree before and after has no changes.
pub proof fn lemma_excluded_edit_unseen(
    tree: Seq<FileEntryView>,
    path: Seq<u8>,
    content: Seq<u8>,
    mode: u32,
    filter: FilterView,
    package: PackageIdentityView,
)
    requires
        snapshot_ok(tree),
        !filter.admits(path),
    ensures
        generate_spec(tree, put(tree, file_view(path, content, mode)), filter, package).changes
            == Seq::<FileChangeView>::empty(),
{
    let e = file_view(path, content, mode);
    let edited = put(tree, e);
    lemma_position(tree, path);
    let k = position_of(tree, path);
    if holds(tree, path) {
        lemma_admitted_update(tree, filter, k, e, tree.len() as int);
    } else {
        lemma_admitted_insert(tree, filter, k, e, tree.len() as int + 1);
    }
    assert(admitted(edited, filter, edited.len() as int) == admitted(
        tree,
        filter,
        tree.len() as int,
    ));
    crate::diff::lemma_diff_same(admitted(tree, filter, tree.len() as int));
}

/// The tree with the content of its `k`-th file replaced.
pub open spec fn with_content(tree: Seq<FileEntryView>, k: int, content: Seq<u8>) -> Seq<
    FileEntryView,
> {
    tree.update(k, file_view(tree[k].path, content, tree[k].mode))
}

proof fn lemma_changes_one_edit(tree: Seq<FileEntryView>, k: int, content: Seq<u8>, i: int)
    requires
        0 <= i <= k < tree.len(),
        content != tree[k].content,
    ensures
        changes_from(tree, with_content(tree, k, content), i, i) == seq![
            modified(tree[k], with_content(tree, k, content)[k]),
        ],
    decreases k - i,
{
    let edited = with_content(tree, k, content);
    lemma_lex_trichotomy(tree[i].path, tree[i].path);
    if i < k {
        assert(edited[i] == tree[i]);
        lemma_changes_one_edit(tree, k, content, i + 1);
    } else {
        lemma_changes_same(tree, edited, k + 1);
        assert(seq![modified(tree[k], edited[k])] + Seq::<FileChangeView>::empty() =~= seq![
            modified(tree[k], edited[k]),
        ]);
    }
}

proof fn lemma_put_back(tree: Seq<FileEntryView>, k: int, e: FileEntryView)
    requires
        snapshot_ok(tree),
        0 <= k < tree.len(),
        e.path == tree[k].path,
    ensures
        holds(tree, e.path),
        position_of(tree, e.path) == k,
        put(drop_path(tree, e.path), e) == tree.update(k, e),
{
    let path = e.path;
    lemma_position(tree, path);
    assert(tree[k].path == path);
    let rest = drop_path(tree, path);
    assert(rest == tree.remove(k));
    lemma_drop_ok(tree, path);
    lemma_position(rest, path);
    let at = position_of(rest, path);
    lemma_lex_trichotomy(path, path);
    assert forall|j: int| 0 <= j < rest.len() implies (#[trigger] rest[j]).path != path by {
        if j < k {
            assert(rest[j] == tree[j]);
            assert(lex_less(tree[j].path, tree[k].path));
        } else {
            assert(rest[j] == tree[j + 1]);
            assert(lex_less(tree[k].path, tree[j + 1].path));
        }
    }
    if at < k {
        assert(rest[at] == tree[at]);
        assert(lex_less(tree[at].path, tree[k].path));
        lemma_lex_trichotomy(tree[at].path, path);
    } else if at > k {
        assert(rest[k] == tree[k + 1]);
        assert(lex_less(tree[k].path, tree[k + 1].path));
        lemma_lex_trichotomy(rest[k].path, path);
    }
    assert(!holds(rest, path));
    assert(tree.remove(k).insert(k, e) =~= tree.update(k, e));
}

/// A patch generated from an edit to one text file, applied to the tree as
/// it was before the edit, gives the edited tree, with every hunk applied.
pub proof fn lemma_apply_restores_edit(
    tree: Seq<FileEntryView>,
    k: int,
    content: Seq<u8>,
    filter: FilterView,
)
    requires
        snapshot_ok(tree),
        0 <= k < tree.len(),
        content != tree[k].content,
        !is_binary_content(tree[k].content),
        !is_binary_content(content),
        tree[k].content.len() < usize::MAX,
        content.len() < usize::MAX,
        filter.admits(tree[k].path),
    ensures
        apply_spec(tree, diff_spec(tree, with_content(tree, k, content)), filter).tree
            == with_content(tree, k, content),
        fully_applied(
            apply_spec(tree, diff_spec(tree, with_content(tree, k, content)), filter).files,
        ),
{
    let edited = with_content(tree, k, content);
    let old = tree[k];
    let change = modified(old, edited[k]);
    let changes = seq![change];
    lemma_changes_one_edit(tree, k, content, 0);
    // No file moved: the one change is no removal.
    assert(best_upto(changes, 0, 1) == -1) by {
        assert(best_upto(changes, 0, 0) == -1);
    }
    assert(pair_moves(changes, 0) == changes) by {
        assert(pair_moves(changes, 1) == changes);
    }
    assert(diff_spec(tree, edited) == changes);
    // The hunks find their places and make the new content.
    let old_lines = split_lines(old.content);
    let new_lines = split_lines(content);
    lemma_split_concat(old.content);
    lemma_split_concat(content);
    let hunks = content_hunks(old.content, content);
    assert(hunks == diff_lines(old_lines, new_lines));
    lemma_merge_after_diff(old_lines, new_lines);
    let e = file_view(old.path, content, old.mode);
    lemma_put_back(tree, k, e);
    assert(file_at(tree, old.path) == old);
    let step = apply_change(tree, change, filter);
    assert(step == rewrite(tree, old.path, old.path, hunks));
    assert(step.tree == edited);
    let done = apply_upto(tree, changes, filter, 1);
    assert(apply_upto(tree, changes, filter, 0).tree == tree);
    assert(done.tree == edited);
    assert(done.files =~= seq![step.report]);
    assert forall|i: int| 0 <= i < done.files.len() implies all_succeeded(
        (#[trigger] done.files[i]).outcomes,
    ) by {}
}

proof fn lemma_admitted_all(entries: Seq<FileEntryView>, filter: FilterView, n: int)
    requires
        forall|x: Seq<u8>| filter.admits(x),
        0 <= n <= entries.len(),
    ensures
        admitted(entries, filter, n) == entries.subrange(0, n),
    decreases n,
{
    if n > 0 {
        lemma_admitted_all(entries, filter, n - 1);
        assert(filter.admits(entries[n - 1].path));
        assert(entries.subrange(0, n - 1).push(entries[n - 1]) =~= entries.subrange(0, n));
    } else {
        assert(entries.subrange(0, 0) =~= Seq::<FileEntryView>::empty());
    }
}

/// A patch generated from two trees under a filter that admits every path,
/// applied to the first tree, gives the files of the second with their
/// contents, and is fully applied, if no binary file has changed in its
/// place.
pub proof fn lemma_apply_after_generate(
    pristine: Seq<FileEntryView>,
    edited: Seq<FileEntryView>,
    filter: FilterView,
    package: PackageIdentityView,
)
    requires
        snapshot_ok(pristine),
        snapshot_ok(edited),
        short_files(pristine),
        short_files(edited),
        text_where_changed(pristine, edited),
        forall|x: Seq<u8>| filter.admits(x),
    ensures
        same_files(
            apply_spec(
                pristine,
                generate_spec(pristine, edited, filter, package).changes,
                filter,
            ).tree,
            edited,
        ),
        fully_applied(
            apply_spec(
                pristine,
                generate_spec(pristine, edited, filter, package).changes,
                filter,
            ).files,
        ),
{
    lemma_admitted_all(pristine, filter, pristine.len() as int);
    lemma_admitted_all(edited, filter, edited.len() as int);
    assert(pristine.subrange(0, pristine.len() as int) =~= pristine);
    assert(edited.subrange(0, edited.len() as int) =~= edited);
    lemma_apply_after_diff(pristine, edited, filter);
}

} // verus!
