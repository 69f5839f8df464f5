//! Every patch that is generated from two trees can be written and read back,
//! and its changes stand in the order of their paths.

use vstd::prelude::*;
use crate::bytes::{lemma_lex_transitive, lemma_lex_trichotomy, lex_less};
use crate::change::{FileChangeView, PackageIdentityView, PatchFileView};
use crate::diff::{added, changes_from, diff_spec, generate_spec, modified, removed};
use crate::filter::FilterView;
use crate::format::serialize_spec;
use crate::hunk::hunk_in_place;
use crate::linediff::{lemma_diff_bounds, lemma_diff_lines, lemma_diff_parts};
use crate::parse::{parse_spec, PatchFormatError};
use crate::rename::{
    best_upto, content_hunks, content_of, lemma_best_upto, moved, pair_moves, partner,
};
use crate::roundtrip::{
    change_wf, hunk_wf, hunks_wf, identity_wf, lemma_round_trip, no_byte, patch_wf,
};
use crate::snapshot::{
    admitted, among, lemma_admitted, lemma_admitted_sound, snapshot_ok, FileEntryView,
};
use crate::text::{lemma_split_concat, split_lines, LF};

verus! {

/// The keys of the changes ascend strictly: the changes stand in the order
/// of their paths, and no path has two changes.
pub open spec fn keys_ascend(changes: Seq<FileChangeView>) -> bool {
    forall|i: int, j: int|
        #![trigger changes[i], changes[j]]
        0 <= i < j < changes.len() ==> lex_less(changes[i].key(), changes[j].key())
}

/// Every change can be written and read back.
pub open spec fn changes_wf(changes: Seq<FileChangeView>) -> bool {
    forall|i: int| 0 <= i < changes.len() ==> change_wf(#[trigger] changes[i])
}

/// The files are such as a directory holds: no path has a line feed in it,
/// and no content is longer than memory.
pub open spec fn plain_files(entries: Seq<FileEntryView>) -> bool {
    forall|i: int|
        0 <= i < entries.len() ==> no_byte((#[trigger] entries[i]).path, LF) && entries[i].content.len()
            <= usize::MAX
}

/// The hunks between two contents can be written and read back.
pub proof fn lemma_content_hunks_wf(old: Seq<u8>, new: Seq<u8>)
    ensures
        hunks_wf(content_hunks(old, new)),
{
    let hunks = content_hunks(old, new);
    if hunks.len() > 0 {
        let a = split_lines(old);
        let b = split_lines(new);
        lemma_split_concat(old);
        lemma_split_concat(new);
        lemma_diff_lines(a, b);
        lemma_diff_bounds(a, b);
        lemma_diff_parts(a, b);
        assert forall|k: int| 0 <= k < hunks.len() implies hunk_wf(#[trigger] hunks[k]) by {
            assert(hunk_in_place(a, hunks, k));
            let h = hunks[k];
            assert(h.old_text().len() == h.old_lines);
        }
    }
}

/// The path `key` belongs to a file of `p` from the `i`-th on or to a file
/// of `e` from the `j`-th on.
spec fn path_from(p: Seq<FileEntryView>, e: Seq<FileEntryView>, i: int, j: int, key: Seq<u8>) -> bool {
    (exists|k: int| i <= k < p.len() && p[k].path == key) || (exists|k: int|
        j <= k < e.len() && e[k].path == key)
}

/// The changes between two snapshots, without regard to files that moved,
/// can be written and read back and stand in the order of their paths.
proof fn lemma_changes_from_wf(p: Seq<FileEntryView>, e: Seq<FileEntryView>, i: int, j: int)
    requires
        snapshot_ok(p),
        snapshot_ok(e),
        0 <= i <= p.len(),
        0 <= j <= e.len(),
    ensures
        plain_files(p) && plain_files(e) ==> changes_wf(changes_from(p, e, i, j)),
        keys_ascend(changes_from(p, e, i, j)),
        forall|k: int|
            0 <= k < changes_from(p, e, i, j).len() ==> path_from(
                p,
                e,
                i,
                j,
                (#[trigger] changes_from(p, e, i, j)[k]).key(),
            ),
    decreases (p.len() - i) + (e.len() - j),
{
    let all = changes_from(p, e, i, j);
    if i >= p.len() && j >= e.len() {
    } else {
        if i < p.len() && j < e.len() {
            lemma_lex_trichotomy(p[i].path, e[j].path);
        }
        // Which files the walk takes, and where it goes on.
        let takes_old = j >= e.len() || (i < p.len() && !lex_less(e[j].path, p[i].path));
        let takes_new = i >= p.len() || (j < e.len() && !lex_less(p[i].path, e[j].path));
        let ni = if takes_old {
            i + 1
        } else {
            i
        };
        let nj = if takes_new {
            j + 1
        } else {
            j
        };
        lemma_changes_from_wf(p, e, ni, nj);
        let rest = changes_from(p, e, ni, nj);
        let first_key = if takes_old {
            p[i].path
        } else {
            e[j].path
        };
        // The path taken comes before every path that is left.
        assert forall|k: int| ni <= k < p.len() implies lex_less(first_key, #[trigger] p[k].path) by {
            if takes_old {
                assert(lex_less(p[i].path, p[k].path));
            } else {
                lemma_lex_trichotomy(p[i].path, e[j].path);
                if k > i {
                    assert(lex_less(p[i].path, p[k].path));
                    lemma_lex_transitive(e[j].path, p[i].path, p[k].path);
                }
            }
        }
        assert forall|k: int| nj <= k < e.len() implies lex_less(first_key, #[trigger] e[k].path) by {
            if takes_new {
                assert(lex_less(e[j].path, e[k].path));
            } else {
                lemma_lex_trichotomy(p[i].path, e[j].path);
                if k > j {
                    assert(lex_less(e[j].path, e[k].path));
                    lemma_lex_transitive(p[i].path, e[j].path, e[k].path);
                }
            }
        }
        assert forall|k: int| 0 <= k < rest.len() implies lex_less(
            first_key,
            (#[trigger] rest[k]).key(),
        ) by {
            assert(path_from(p, e, ni, nj, rest[k].key()));
            if exists|m: int| ni <= m < p.len() && p[m].path == rest[k].key() {
                let m = choose|m: int| ni <= m < p.len() && p[m].path == rest[k].key();
                assert(lex_less(first_key, p[m].path));
            } else {
                let m = choose|m: int| nj <= m < e.len() && e[m].path == rest[k].key();
                assert(lex_less(first_key, e[m].path));
            }
        }
        assert forall|k: int| 0 <= k < rest.len() implies path_from(
            p,
            e,
            i,
            j,
            (#[trigger] rest[k]).key(),
        ) by {
            assert(path_from(p, e, ni, nj, rest[k].key()));
            if exists|m: int| ni <= m < p.len() && p[m].path == rest[k].key() {
                let m = choose|m: int| ni <= m < p.len() && p[m].path == rest[k].key();
                assert(i <= m < p.len() && p[m].path == rest[k].key());
            } else {
                let m = choose|m: int| nj <= m < e.len() && e[m].path == rest[k].key();
                assert(j <= m < e.len() && e[m].path == rest[k].key());
            }
        }
        if takes_old && takes_new && p[i].content == e[j].content {
            assert(all == rest);
        } else {
            let first = if takes_old && takes_new {
                modified(p[i], e[j])
            } else if takes_old {
                removed(p[i])
            } else {
                added(e[j])
            };
            assert(all == seq![first] + rest);
            assert(first.key() == first_key);
            if takes_old && takes_new {
                lemma_content_hunks_wf(p[i].content, e[j].content);
            }
            if plain_files(p) && plain_files(e) {
                assert(change_wf(first));
                assert forall|k: int| 0 <= k < all.len() implies change_wf(#[trigger] all[k]) by {
                    if k > 0 {
                        assert(all[k] == rest[k - 1]);
                    }
                }
            }
            if takes_old {
                assert(i <= i < p.len() && p[i].path == first.key());
            } else {
                assert(j <= j < e.len() && e[j].path == first.key());
            }
            assert forall|k: int| 0 <= k < all.len() implies path_from(
                p,
                e,
                i,
                j,
                (#[trigger] all[k]).key(),
            ) by {
                if k > 0 {
                    assert(all[k] == rest[k - 1]);
                }
            }
            assert forall|x: int, y: int|
                #![trigger all[x], all[y]]
                0 <= x < y < all.len() implies lex_less(all[x].key(), all[y].key()) by {
                assert(all[y] == rest[y - 1]);
                if x > 0 {
                    assert(all[x] == rest[x - 1]);
                    assert(lex_less(rest[x - 1].key(), rest[y - 1].key()));
                }
            }
        }
    }
}

/// Pairing removals with additions keeps the changes such that they can be
/// written and read back, and keeps them in the order of their paths.
proof fn lemma_pair_moves_wf(changes: Seq<FileChangeView>, x: int)
    requires
        keys_ascend(changes),
        0 <= x,
    ensures
        changes_wf(changes) ==> changes_wf(pair_moves(changes, x)),
        keys_ascend(pair_moves(changes, x)),
    decreases changes.len() - x,
{
    if x < changes.len() {
        let y = best_upto(changes, x, changes.len() as int);
        lemma_best_upto(changes, x, changes.len() as int);
        if 0 <= y < changes.len() && y != x {
            let gone = changes[x];
            let come = changes[y];
            let both = moved(gone, come);
            let updated = changes.update(x, both);
            let merged = updated.remove(y);
            assert(partner(changes, x, y));
            lemma_lex_trichotomy(gone.key(), come.key());
            if x < y {
                assert(lex_less(changes[x].key(), changes[y].key()));
            } else {
                assert(lex_less(changes[y].key(), changes[x].key()));
            }
            lemma_content_hunks_wf(content_of(gone), content_of(come));
            if changes_wf(changes) {
                assert(change_wf(changes[x]) && change_wf(changes[y]));
                assert(change_wf(both));
                assert forall|k: int| 0 <= k < merged.len() implies change_wf(
                    #[trigger] merged[k],
                ) by {
                    let o = if k < y {
                        k
                    } else {
                        k + 1
                    };
                    assert(merged[k] == updated[o]);
                    if o != x {
                        assert(updated[o] == changes[o]);
                    }
                }
            }
            assert forall|a: int, b: int|
                #![trigger merged[a], merged[b]]
                0 <= a < b < merged.len() implies lex_less(merged[a].key(), merged[b].key()) by {
                let oa = if a < y {
                    a
                } else {
                    a + 1
                };
                let ob = if b < y {
                    b
                } else {
                    b + 1
                };
                assert(merged[a] == updated[oa] && merged[b] == updated[ob]);
                assert(updated[oa].key() == changes[oa].key());
                assert(updated[ob].key() == changes[ob].key());
                assert(lex_less(changes[oa].key(), changes[ob].key()));
            }
            lemma_pair_moves_wf(
                merged,
                if y < x {
                    x
                } else {
                    x + 1
                },
            );
        } else {
            lemma_pair_moves_wf(changes, x + 1);
        }
    }
}

/// The changes between two snapshots, without regard to files that moved,
/// stand in the order of their paths.
pub proof fn lemma_raw_in_order(p: Seq<FileEntryView>, e: Seq<FileEntryView>)
    requires
        snapshot_ok(p),
        snapshot_ok(e),
    ensures
        keys_ascend(changes_from(p, e, 0, 0)),
{
    lemma_changes_from_wf(p, e, 0, 0);
}

/// The changes between two snapshots stand in the order of their paths, with
/// no path twice, and can be written and read back if the files are such as
/// a directory holds.
pub proof fn lemma_diff_in_order(p: Seq<FileEntryView>, e: Seq<FileEntryView>)
    requires
        snapshot_ok(p),
        snapshot_ok(e),
    ensures
        keys_ascend(diff_spec(p, e)),
        plain_files(p) && plain_files(e) ==> changes_wf(diff_spec(p, e)),
{
    lemma_changes_from_wf(p, e, 0, 0);
    lemma_pair_moves_wf(changes_from(p, e, 0, 0), 0);
}

proof fn lemma_admitted_plain(entries: Seq<FileEntryView>, filter: FilterView)
    requires
        snapshot_ok(entries),
        plain_files(entries),
    ensures
        snapshot_ok(admitted(entries, filter, entries.len() as int)),
        plain_files(admitted(entries, filter, entries.len() as int)),
{
    let n = entries.len() as int;
    let kept = admitted(entries, filter, n);
    lemma_admitted(entries, filter, n);
    lemma_admitted_sound(entries, filter, n);
    assert forall|i: int| 0 <= i < kept.len() implies no_byte((#[trigger] kept[i]).path, LF)
        && kept[i].content.len() <= usize::MAX by {
        assert(among(entries, n, kept[i]));
        let j = choose|j: int| 0 <= j < n && j < entries.len() && entries[j] == kept[i];
        assert(no_byte(entries[j].path, LF));
    }
}

/// A patch generated from two trees, written to text and read again, is the
/// patch that was generated.
pub proof fn lemma_generated_round_trip(
    pristine: Seq<FileEntryView>,
    edited: Seq<FileEntryView>,
    filter: FilterView,
    package: PackageIdentityView,
)
    requires
        snapshot_ok(pristine),
        snapshot_ok(edited),
        plain_files(pristine),
        plain_files(edited),
        identity_wf(package),
    ensures
        patch_wf(generate_spec(pristine, edited, filter, package)),
        keys_ascend(generate_spec(pristine, edited, filter, package).changes),
        parse_spec(serialize_spec(generate_spec(pristine, edited, filter, package))) == Ok::<
            PatchFileView,
            PatchFormatError,
        >(generate_spec(pristine, edited, filter, package)),
{
    lemma_admitted_plain(pristine, filter);
    lemma_admitted_plain(edited, filter);
    lemma_diff_in_order(
        admitted(pristine, filter, pristine.len() as int),
        admitted(edited, filter, edited.len() as int),
    );
    lemma_round_trip(generate_spec(pristine, edited, filter, package));
}

} // verus!
