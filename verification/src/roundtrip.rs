//! A patch that is written to text and read again is the same patch.

use vstd::prelude::*;
use crate::change::{FileChangeView, PackageIdentityView, PatchFileView};
use crate::format::{
    body_records, change_records, changes_records, digits, heading_record, hunk_records,
    hunks_records, identity_text, line_records, magic, marker, new_dir, new_tag, no_file, old_dir,
    old_tag, patch_records, range_close, range_mid, range_open, range_record, serialize_spec,
    side_record, COMMA, MINUS, PLUS, SPACE, TILDE,
};
use crate::hunk::HunkView;
use crate::parse::{
    decimal, digits_end, has_at, identity_of, index_of, is_digit, number_at, parse_change,
    parse_changes, parse_hunk, parse_hunks, parse_identity, parse_range, parse_side, parse_spec,
    parse_whole, take_line, take_lines, PatchFormatError, Ranges,
};
use crate::text::{
    all_lines, concat_lines, is_line, lemma_concat_append, lemma_concat_one, lemma_line_end,
    lemma_split_concat, line_end, split_lines, split_lines_from, LF,
};

verus! {

/// The text has nowhere the byte `b`.
pub open spec fn no_byte(s: Seq<u8>, b: u8) -> bool {
    forall|i: int| 0 <= i < s.len() ==> s[i] != b
}

/// The package can be written in a heading and read back: its parts are not
/// empty, stay on one line, and show where one ends and the next begins.
pub open spec fn identity_wf(id: PackageIdentityView) -> bool {
    &&& id.name.len() > 0
    &&& id.version.len() > 0
    &&& no_byte(id.name, PLUS)
    &&& no_byte(id.name, LF)
    &&& no_byte(id.version, LF)
    &&& match id.scope {
        Some(scope) => scope.len() > 0 && no_byte(scope, TILDE) && no_byte(scope, PLUS)
            && no_byte(scope, LF),
        None => no_byte(id.name, TILDE),
    }
}

/// The hunk can be written and read back: its numbers fit, its counts are
/// those of its lines, it changes something, and its lines are lines.
pub open spec fn hunk_wf(h: HunkView) -> bool {
    &&& 0 <= h.old_start <= usize::MAX
    &&& 0 <= h.new_start <= usize::MAX
    &&& h.old_lines <= usize::MAX
    &&& h.new_lines <= usize::MAX
    &&& h.old_lines == h.context_before.len() + h.removed.len() + h.context_after.len()
    &&& h.new_lines == h.context_before.len() + h.added.len() + h.context_after.len()
    &&& h.removed.len() + h.added.len() > 0
    &&& all_lines(h.context_before)
    &&& all_lines(h.removed)
    &&& all_lines(h.added)
    &&& all_lines(h.context_after)
}

/// Every hunk can be written and read back.
pub open spec fn hunks_wf(hunks: Seq<HunkView>) -> bool {
    forall|i: int| 0 <= i < hunks.len() ==> hunk_wf(#[trigger] hunks[i])
}

/// The change can be written and read back: its paths stay on one line, its
/// content has no more lines than can be counted, its hunks can be written,
/// and a file that moves has another path than before.
pub open spec fn change_wf(c: FileChangeView) -> bool {
    match c {
        FileChangeView::Added { path, content } => no_byte(path, LF) && content.len()
            <= usize::MAX,
        FileChangeView::Removed { path, content } => no_byte(path, LF) && content.len()
            <= usize::MAX,
        FileChangeView::Modified { path, hunks } => no_byte(path, LF) && hunks_wf(hunks),
        FileChangeView::Renamed { from, to, hunks } => from != to && no_byte(from, LF)
            && no_byte(to, LF) && hunks_wf(hunks),
    }
}

/// The patch can be written and read back.
pub open spec fn patch_wf(p: PatchFileView) -> bool {
    &&& identity_wf(p.package)
    &&& forall|i: int| 0 <= i < p.changes.len() ==> change_wf(#[trigger] p.changes[i])
}

/// A whole line: it ends in a line feed and has no other.
pub open spec fn full_line(rec: Seq<u8>) -> bool {
    &&& rec.len() > 0
    &&& rec.last() == LF
    &&& forall|i: int| 0 <= i < rec.len() - 1 ==> rec[i] != LF
}

/// Every record is a whole line.
pub open spec fn full_lines(recs: Seq<Seq<u8>>) -> bool {
    forall|i: int| 0 <= i < recs.len() ==> full_line(#[trigger] recs[i])
}

proof fn lemma_line_end_scan(text: Seq<u8>, i: int, k: int)
    requires
        0 <= i <= k < text.len(),
        forall|j: int| i <= j < k ==> text[j] != LF,
        text[k] == LF,
    ensures
        line_end(text, i) == k + 1,
    decreases k - i,
{
    if i < k {
        lemma_line_end_scan(text, i + 1, k);
    }
}

proof fn lemma_line_end_shift(a: Seq<u8>, b: Seq<u8>, i: int)
    requires
        0 <= i <= b.len(),
    ensures
        line_end(a + b, a.len() + i) == a.len() + line_end(b, i),
    decreases b.len() - i,
{
    if i < b.len() {
        assert((a + b)[a.len() + i] == b[i]);
        if b[i] != LF {
            lemma_line_end_shift(a, b, i + 1);
        }
    }
}

proof fn lemma_split_shift(a: Seq<u8>, b: Seq<u8>, i: int)
    requires
        0 <= i <= b.len(),
    ensures
        split_lines_from(a + b, a.len() + i) == split_lines_from(b, i),
    decreases b.len() - i,
{
    if i < b.len() {
        lemma_line_end_shift(a, b, i);
        lemma_line_end(b, i);
        let e = line_end(b, i);
        lemma_split_shift(a, b, e);
        assert((a + b).subrange(a.len() + i, a.len() + e) =~= b.subrange(i, e));
    }
}

/// Whole lines put together and cut into lines again are the same lines.
pub proof fn lemma_split_of_concat(recs: Seq<Seq<u8>>)
    requires
        full_lines(recs),
    ensures
        split_lines(concat_lines(recs)) == recs,
    decreases recs.len(),
{
    if recs.len() == 0 {
        assert(concat_lines(recs) =~= Seq::<u8>::empty());
    } else {
        let first = recs[0];
        let rest = recs.subrange(1, recs.len() as int);
        assert(recs =~= seq![first] + rest);
        lemma_concat_append(seq![first], rest);
        lemma_concat_one(first);
        let tail = concat_lines(rest);
        let text = first + tail;
        assert(concat_lines(recs) == text);
        assert(full_line(recs[0]));
        assert forall|i: int| 0 <= i < rest.len() implies full_line(#[trigger] rest[i]) by {
            assert(rest[i] == recs[i + 1]);
        }
        lemma_split_of_concat(rest);
        assert forall|j: int| 0 <= j < first.len() - 1 implies text[j] != LF by {
            assert(text[j] == first[j]);
        }
        assert(text[first.len() - 1] == first.last());
        lemma_line_end_scan(text, 0, first.len() - 1);
        lemma_split_shift(first, tail, 0);
        assert(text.subrange(0, first.len() as int) =~= first);
        assert(split_lines(text) =~= seq![first] + rest);
    }
}

proof fn lemma_index_scan(s: Seq<u8>, b: u8, i: int, k: int)
    requires
        0 <= i <= k <= s.len(),
        forall|j: int| i <= j < k ==> s[j] != b,
        k < s.len() ==> s[k] == b,
    ensures
        index_of(s, b, i) == k,
    decreases k - i,
{
    if i < k {
        lemma_index_scan(s, b, i + 1, k);
    }
}

proof fn lemma_digits_end_scan(s: Seq<u8>, i: int, k: int)
    requires
        0 <= i <= k <= s.len(),
        forall|j: int| i <= j < k ==> is_digit(s[j]),
        k < s.len() ==> !is_digit(s[k]),
    ensures
        digits_end(s, i) == k,
    decreases k - i,
{
    if i < k {
        lemma_digits_end_scan(s, i + 1, k);
    }
}

/// The digits of a number are digits, and write the number.
pub proof fn lemma_digits(n: nat)
    ensures
        digits(n).len() >= 1,
        forall|i: int| 0 <= i < digits(n).len() ==> is_digit(#[trigger] digits(n)[i]),
        decimal(digits(n)) == n,
    decreases n,
{
    if n < 10 {
        let s = digits(n);
        assert(s.drop_last() =~= Seq::<u8>::empty());
        assert(decimal(s.drop_last()) == 0);
    } else {
        lemma_digits(n / 10);
        let s = digits(n);
        assert(s.drop_last() =~= digits(n / 10));
        assert forall|i: int| 0 <= i < s.len() implies is_digit(#[trigger] s[i]) by {
            if i < s.len() - 1 {
                assert(s[i] == digits(n / 10)[i]);
            }
        }
    }
}

/// A number written between two texts is read where it stands, if what
/// follows it is no digit.
proof fn lemma_number_in(rec: Seq<u8>, pre: Seq<u8>, n: nat, post: Seq<u8>)
    requires
        rec == pre + (digits(n) + post),
        n <= usize::MAX,
        post.len() > 0 ==> !is_digit(post[0]),
    ensures
        number_at(rec, pre.len() as int) == Some((n, (pre.len() + digits(n).len()) as int)),
{
    lemma_digits(n);
    let from = pre.len() as int;
    let end = from + digits(n).len();
    assert forall|j: int| from <= j < end implies is_digit(rec[j]) by {
        assert(rec[j] == digits(n)[j - from]);
    }
    if end < rec.len() {
        assert(rec[end] == post[0]);
    }
    lemma_digits_end_scan(rec, from, end);
    assert(rec.subrange(from, end) =~= digits(n));
}

proof fn lemma_tag_in(rec: Seq<u8>, pre: Seq<u8>, tag: Seq<u8>, post: Seq<u8>)
    requires
        rec == pre + (tag + post),
    ensures
        has_at(rec, pre.len() as int, tag),
{
    assert(rec.subrange(pre.len() as int, (pre.len() + tag.len()) as int) =~= tag);
}

proof fn lemma_assoc(x: Seq<u8>, y: Seq<u8>, z: Seq<u8>)
    ensures
        (x + y) + z == x + (y + z),
{
    assert((x + y) + z =~= x + (y + z));
}

proof fn lemma_no_byte_concat(x: Seq<u8>, y: Seq<u8>, b: u8)
    requires
        no_byte(x, b),
        no_byte(y, b),
    ensures
        no_byte(x + y, b),
{
    assert forall|i: int| 0 <= i < (x + y).len() implies (x + y)[i] != b by {
        if i < x.len() {
            assert((x + y)[i] == x[i]);
        } else {
            assert((x + y)[i] == y[i - x.len()]);
        }
    }
}

proof fn lemma_full_line(z: Seq<u8>)
    requires
        no_byte(z, LF),
    ensures
        full_line(z + seq![LF]),
{
    let rec = z + seq![LF];
    assert forall|i: int| 0 <= i < rec.len() - 1 implies rec[i] != LF by {
        assert(rec[i] == z[i]);
    }
}

proof fn lemma_digits_no_lf(n: nat)
    ensures
        no_byte(digits(n), LF),
        no_byte(digits(n), COMMA),
{
    lemma_digits(n);
    assert forall|i: int| 0 <= i < digits(n).len() implies digits(n)[i] != LF && digits(n)[i]
        != COMMA by {
        assert(is_digit(digits(n)[i]));
    }
}

/// The parts of a line of ranges before and behind each of its numbers.
spec fn range_parts(a: nat, b: nat, c: nat, d: nat, k: int) -> (Seq<u8>, Seq<u8>) {
    let comma = seq![COMMA];
    let tail = range_close() + seq![LF];
    let e1 = range_open();
    let e2 = e1 + digits(a);
    let e3 = e2 + comma;
    let e4 = e3 + digits(b);
    let e5 = e4 + range_mid();
    let e6 = e5 + digits(c);
    let e7 = e6 + comma;
    let e8 = e7 + digits(d);
    let s8 = tail;
    let s7 = digits(d) + s8;
    let s6 = comma + s7;
    let s5 = digits(c) + s6;
    let s4 = range_mid() + s5;
    let s3 = digits(b) + s4;
    let s2 = comma + s3;
    let s1 = digits(a) + s2;
    if k == 1 {
        (e1, s1)
    } else if k == 2 {
        (e2, s2)
    } else if k == 3 {
        (e3, s3)
    } else if k == 4 {
        (e4, s4)
    } else if k == 5 {
        (e5, s5)
    } else if k == 6 {
        (e6, s6)
    } else if k == 7 {
        (e7, s7)
    } else {
        (e8, s8)
    }
}

proof fn lemma_range_shape(a: nat, b: nat, c: nat, d: nat)
    ensures
        forall|k: int|
            1 <= k <= 8 ==> range_record(a, b, c, d) == (#[trigger] range_parts(a, b, c, d, k)).0
                + range_parts(a, b, c, d, k).1,
        no_byte(range_parts(a, b, c, d, 8).0, LF),
{
    reveal(range_record);
    let rec = range_record(a, b, c, d);
    let comma = seq![COMMA];
    let tail = range_close() + seq![LF];
    let e8 = range_parts(a, b, c, d, 8).0;
    lemma_assoc(e8, range_close(), seq![LF]);
    assert(rec == e8 + tail);
    lemma_assoc(range_parts(a, b, c, d, 7).0, digits(d), tail);
    lemma_assoc(range_parts(a, b, c, d, 6).0, comma, range_parts(a, b, c, d, 7).1);
    lemma_assoc(range_parts(a, b, c, d, 5).0, digits(c), range_parts(a, b, c, d, 6).1);
    lemma_assoc(range_parts(a, b, c, d, 4).0, range_mid(), range_parts(a, b, c, d, 5).1);
    lemma_assoc(range_parts(a, b, c, d, 3).0, digits(b), range_parts(a, b, c, d, 4).1);
    lemma_assoc(range_parts(a, b, c, d, 2).0, comma, range_parts(a, b, c, d, 3).1);
    lemma_assoc(range_parts(a, b, c, d, 1).0, digits(a), range_parts(a, b, c, d, 2).1);
    lemma_digits_no_lf(a);
    lemma_digits_no_lf(b);
    lemma_digits_no_lf(c);
    lemma_digits_no_lf(d);
    lemma_no_byte_concat(range_open(), digits(a), LF);
    lemma_no_byte_concat(range_parts(a, b, c, d, 2).0, comma, LF);
    lemma_no_byte_concat(range_parts(a, b, c, d, 3).0, digits(b), LF);
    lemma_no_byte_concat(range_parts(a, b, c, d, 4).0, range_mid(), LF);
    lemma_no_byte_concat(range_parts(a, b, c, d, 5).0, digits(c), LF);
    lemma_no_byte_concat(range_parts(a, b, c, d, 6).0, comma, LF);
    lemma_no_byte_concat(range_parts(a, b, c, d, 7).0, digits(d), LF);
}

/// The positions behind the four numbers of a line of ranges.
spec fn range_ends(a: nat, b: nat, c: nat, d: nat) -> (int, int, int, int) {
    let e1: int = 4 + digits(a).len() as int;
    let e2: int = e1 + 1 + digits(b).len() as int;
    let e3: int = e2 + 2 + digits(c).len() as int;
    let e4: int = e3 + 1 + digits(d).len() as int;
    (e1, e2, e3, e4)
}

proof fn lemma_range_first_half(a: nat, b: nat, c: nat, d: nat)
    requires
        a <= usize::MAX,
        b <= usize::MAX,
    ensures
        ({
            let rec = range_record(a, b, c, d);
            let (e1, e2, e3, e4) = range_ends(a, b, c, d);
            &&& has_at(rec, 0, range_open())
            &&& number_at(rec, 4) == Some((a, e1))
            &&& has_at(rec, e1, seq![COMMA])
            &&& number_at(rec, e1 + 1) == Some((b, e2))
            &&& has_at(rec, e2, range_mid())
            &&& rec[0] == 64u8
        }),
{
    let rec = range_record(a, b, c, d);
    lemma_range_shape(a, b, c, d);
    let cut1 = range_parts(a, b, c, d, 1);
    let cut2 = range_parts(a, b, c, d, 2);
    let cut3 = range_parts(a, b, c, d, 3);
    let cut4 = range_parts(a, b, c, d, 4);
    let cut5 = range_parts(a, b, c, d, 5);
    assert(rec == cut1.0 + cut1.1 && rec == cut2.0 + cut2.1 && rec == cut3.0 + cut3.1 && rec == cut4.0 + cut4.1);
    lemma_digits(a);
    lemma_digits(b);
    assert(cut2.1[0] == COMMA);
    lemma_number_in(rec, cut1.0, a, cut2.1);
    lemma_tag_in(rec, cut2.0, seq![COMMA], cut3.1);
    assert(cut4.1[0] == SPACE);
    lemma_number_in(rec, cut3.0, b, cut4.1);
    lemma_tag_in(rec, cut4.0, range_mid(), cut5.1);
    assert(cut1.0.len() == 4);
    assert(rec.subrange(0, 4) =~= range_open());
    assert(rec[0] == range_open()[0]);
}

proof fn lemma_range_second_half(a: nat, b: nat, c: nat, d: nat)
    requires
        c <= usize::MAX,
        d <= usize::MAX,
    ensures
        ({
            let rec = range_record(a, b, c, d);
            let (e1, e2, e3, e4) = range_ends(a, b, c, d);
            &&& number_at(rec, e2 + 2) == Some((c, e3))
            &&& has_at(rec, e3, seq![COMMA])
            &&& number_at(rec, e3 + 1) == Some((d, e4))
            &&& has_at(rec, e4, range_close() + seq![LF])
            &&& e4 + 4 == rec.len()
            &&& full_line(rec)
        }),
{
    let rec = range_record(a, b, c, d);
    let tail = range_close() + seq![LF];
    lemma_range_shape(a, b, c, d);
    let cut5 = range_parts(a, b, c, d, 5);
    let cut6 = range_parts(a, b, c, d, 6);
    let cut7 = range_parts(a, b, c, d, 7);
    let cut8 = range_parts(a, b, c, d, 8);
    assert(rec == cut5.0 + cut5.1 && rec == cut6.0 + cut6.1 && rec == cut7.0 + cut7.1 && rec == cut8.0 + cut8.1);
    lemma_digits(c);
    lemma_digits(d);
    assert(cut6.1[0] == COMMA);
    lemma_number_in(rec, cut5.0, c, cut6.1);
    lemma_tag_in(rec, cut6.0, seq![COMMA], cut7.1);
    assert(tail[0] == SPACE);
    lemma_number_in(rec, cut7.0, d, cut8.1);
    assert(tail + Seq::<u8>::empty() =~= tail);
    lemma_tag_in(rec, cut8.0, tail, Seq::<u8>::empty());
    assert(tail.len() == 4);
    lemma_no_byte_concat(cut8.0, range_close(), LF);
    lemma_full_line(cut8.0 + range_close());
    lemma_assoc(cut8.0, range_close(), seq![LF]);
}

/// A line of ranges is read as the numbers it was written from.
pub proof fn lemma_parse_range(a: nat, b: nat, c: nat, d: nat)
    requires
        a <= usize::MAX,
        b <= usize::MAX,
        c <= usize::MAX,
        d <= usize::MAX,
    ensures
        parse_range(range_record(a, b, c, d)) == Some(
            Ranges { old_start: a, old_lines: b, new_start: c, new_lines: d },
        ),
        full_line(range_record(a, b, c, d)),
        has_at(range_record(a, b, c, d), 0, range_open()),
        range_record(a, b, c, d) != marker(),
        range_record(a, b, c, d).len() >= 2,
        range_record(a, b, c, d)[0] == 64u8,
{
    reveal(parse_range);
    lemma_range_first_half(a, b, c, d);
    lemma_range_second_half(a, b, c, d);
    assert(marker()[0] == 92u8);
}

/// A line that names a file is read as the file it was written for.
pub proof fn lemma_parse_side(new: bool, path: Option<Seq<u8>>)
    requires
        path matches Some(p) ==> no_byte(p, LF),
    ensures
        ({
            let tag = if new {
                new_tag()
            } else {
                old_tag()
            };
            let dir = if new {
                new_dir()
            } else {
                old_dir()
            };
            &&& parse_side(side_record(tag, dir, path), tag, dir) == Some(path)
            &&& full_line(side_record(tag, dir, path))
            &&& has_at(side_record(tag, dir, path), 0, tag)
            &&& !has_at(side_record(tag, dir, path), 0, range_open())
            &&& side_record(tag, dir, path) != marker()
        }),
{
    let tag = if new {
        new_tag()
    } else {
        old_tag()
    };
    let dir = if new {
        new_dir()
    } else {
        old_dir()
    };
    reveal(side_record);
    reveal(parse_side);
    let rec = side_record(tag, dir, path);
    let name = match path {
        Some(p) => dir + p,
        None => no_file(),
    };
    assert(rec =~= tag + name + seq![LF]);
    assert(rec.subrange(0, 4) =~= tag);
    let rest = rec.subrange(4, rec.len() - 1);
    assert(rest =~= name);
    match path {
        Some(p) => {
            assert(name[0] == dir[0]);
            assert(no_file()[0] == 47u8);
            assert(rest != no_file());
            assert(rest.subrange(0, 2) =~= dir);
            assert(rest.subrange(2, rest.len() as int) =~= p);
        },
        None => {},
    }
    assert forall|i: int| 0 <= i < rec.len() - 1 implies rec[i] != LF by {
        if i < 4 {
            assert(rec[i] == tag[i]);
        } else {
            assert(rec[i] == name[i - 4]);
            match path {
                Some(p) => {
                    if i - 4 < 2 {
                        assert(name[i - 4] == dir[i - 4]);
                    } else {
                        assert(name[i - 4] == p[i - 4 - 2]);
                    }
                },
                None => {
                    assert(name[i - 4] == no_file()[i - 4]);
                },
            }
        }
    }
    assert(rec[0] == tag[0]);
    assert(rec.subrange(0, 4)[0] == rec[0]);
    assert(range_open()[0] == 64u8);
    assert(marker()[0] == 92u8);
}

/// The text that a package is written as is read as the package, and stays
/// on one line.
pub proof fn lemma_identity_text(id: PackageIdentityView)
    requires
        identity_wf(id),
    ensures
        identity_of(identity_text(id)) == Some(id),
        no_byte(identity_text(id), LF),
{
    let text = identity_text(id);
    let left = match id.scope {
        Some(scope) => scope + seq![TILDE] + id.name,
        None => id.name,
    };
    assert(text =~= left + seq![PLUS] + id.version);
    assert forall|j: int| 0 <= j < left.len() implies left[j] != PLUS && left[j] != LF by {
        match id.scope {
            Some(scope) => {
                if j < scope.len() {
                    assert(left[j] == scope[j]);
                } else if j > scope.len() {
                    assert(left[j] == id.name[j - scope.len() - 1]);
                }
            },
            None => {},
        }
    }
    assert(text[left.len() as int] == PLUS);
    assert forall|j: int| 0 <= j < left.len() implies text[j] != PLUS by {
        assert(text[j] == left[j]);
    }
    lemma_index_scan(text, PLUS, 0, left.len() as int);
    assert(text.subrange(0, left.len() as int) =~= left);
    assert(text.subrange(left.len() as int + 1, text.len() as int) =~= id.version);
    match id.scope {
        Some(scope) => {
            assert forall|j: int| 0 <= j < scope.len() implies left[j] != TILDE by {
                assert(left[j] == scope[j]);
            }
            assert(left[scope.len() as int] == TILDE);
            lemma_index_scan(left, TILDE, 0, scope.len() as int);
            assert(left.subrange(0, scope.len() as int) =~= scope);
            assert(left.subrange(scope.len() as int + 1, left.len() as int) =~= id.name);
            assert(scope != Seq::<u8>::empty());
        },
        None => {
            lemma_index_scan(left, TILDE, 0, left.len() as int);
        },
    }
    assert forall|i: int| 0 <= i < text.len() implies text[i] != LF by {
        if i < left.len() {
            assert(text[i] == left[i]);
        } else if i > left.len() {
            assert(text[i] == id.version[i - left.len() - 1]);
        }
    }
}

/// A heading is read as the package it was written for.
pub proof fn lemma_parse_identity(id: PackageIdentityView)
    requires
        identity_wf(id),
    ensures
        parse_identity(heading_record(id)) == Some(id),
        full_line(heading_record(id)),
        has_at(heading_record(id), 0, magic()),
{
    reveal(parse_identity);
    let rec = heading_record(id);
    let text = identity_text(id);
    lemma_identity_text(id);
    assert(rec =~= magic() + text + seq![LF]);
    assert(rec.subrange(0, 7) =~= magic());
    assert(rec.subrange(7, rec.len() - 1) =~= text);
    assert forall|i: int| 0 <= i < rec.len() - 1 implies rec[i] != LF by {
        if i < 7 {
            assert(rec[i] == magic()[i]);
        } else {
            assert(rec[i] == text[i - 7]);
        }
    }
}

/// The records `part` stand in `recs` from position `pos` on.
pub open spec fn holds_at(recs: Seq<Seq<u8>>, pos: int, part: Seq<Seq<u8>>) -> bool {
    0 <= pos && pos + part.len() <= recs.len() && recs.subrange(pos, pos + part.len()) == part
}

/// No marker line stands at `end`.
pub open spec fn quiet_at(recs: Seq<Seq<u8>>, end: int) -> bool {
    end >= recs.len() || recs[end] != marker()
}

/// No record that bears `mark` stands at `end`.
pub open spec fn unmarked_at(recs: Seq<Seq<u8>>, end: int, mark: u8) -> bool {
    end >= recs.len() || recs[end].len() == 0 || recs[end][0] != mark
}

proof fn lemma_holds_split(recs: Seq<Seq<u8>>, pos: int, x: Seq<Seq<u8>>, y: Seq<Seq<u8>>)
    requires
        holds_at(recs, pos, x + y),
    ensures
        holds_at(recs, pos, x),
        holds_at(recs, pos + x.len(), y),
{
    let whole = recs.subrange(pos, pos + (x + y).len());
    assert(recs.subrange(pos, pos + x.len()) =~= whole.subrange(0, x.len() as int));
    assert(whole.subrange(0, x.len() as int) =~= x);
    assert(recs.subrange(pos + x.len(), pos + x.len() + y.len()) =~= whole.subrange(
        x.len() as int,
        whole.len() as int,
    ));
    assert(whole.subrange(x.len() as int, whole.len() as int) =~= y);
}

proof fn lemma_holds_index(recs: Seq<Seq<u8>>, pos: int, part: Seq<Seq<u8>>, i: int)
    requires
        holds_at(recs, pos, part),
        0 <= i < part.len(),
    ensures
        recs[pos + i] == part[i],
{
    assert(recs.subrange(pos, pos + part.len())[i] == recs[pos + i]);
}

proof fn lemma_full_concat(x: Seq<Seq<u8>>, y: Seq<Seq<u8>>)
    requires
        full_lines(x),
        full_lines(y),
    ensures
        full_lines(x + y),
{
    assert forall|i: int| 0 <= i < (x + y).len() implies full_line(#[trigger] (x + y)[i]) by {
        if i < x.len() {
            assert((x + y)[i] == x[i]);
        } else {
            assert((x + y)[i] == y[i - x.len()]);
        }
    }
}

proof fn lemma_marker_full()
    ensures
        full_line(marker()),
        marker().len() == 28,
        marker()[0] == 92u8,
{
    let m = marker();
    assert forall|i: int| 0 <= i < m.len() - 1 implies m[i] != LF by {
        assert(m[0] != LF && m[1] != LF && m[2] != LF && m[3] != LF && m[4] != LF && m[5] != LF
            && m[6] != LF && m[7] != LF && m[8] != LF && m[9] != LF);
        assert(m[10] != LF && m[11] != LF && m[12] != LF && m[13] != LF && m[14] != LF && m[15]
            != LF && m[16] != LF && m[17] != LF && m[18] != LF && m[19] != LF);
        assert(m[20] != LF && m[21] != LF && m[22] != LF && m[23] != LF && m[24] != LF && m[25]
            != LF && m[26] != LF);
    }
}

/// The records of one line: there is at least one, the first bears the mark,
/// and all are whole lines.
proof fn lemma_line_records(mark: u8, line: Seq<u8>)
    requires
        is_line(line),
        mark != LF,
    ensures
        line_records(mark, line).len() >= 1,
        line_records(mark, line)[0].len() >= 2,
        line_records(mark, line)[0][0] == mark,
        full_lines(line_records(mark, line)),
{
    lemma_marker_full();
    let recs = line_records(mark, line);
    let first = recs[0];
    if line.last() == LF {
        assert(first =~= seq![mark] + line);
        assert forall|i: int| 0 <= i < first.len() - 1 implies first[i] != LF by {
            if i > 0 {
                assert(first[i] == line[i - 1]);
            }
        }
    } else {
        assert(first =~= seq![mark] + line + seq![LF]);
        assert forall|i: int| 0 <= i < first.len() - 1 implies first[i] != LF by {
            if i > 0 {
                assert(first[i] == line[i - 1]);
            }
        }
        assert(recs[1] == marker());
    }
    assert forall|i: int| 0 <= i < recs.len() implies full_line(#[trigger] recs[i]) by {
        if i == 0 {
        } else {
            assert(recs[i] == marker());
        }
    }
}

/// A line that was written is read back, if no marker line follows its
/// records by chance.
proof fn lemma_take_line(recs: Seq<Seq<u8>>, pos: int, mark: u8, line: Seq<u8>)
    requires
        is_line(line),
        mark != LF,
        holds_at(recs, pos, line_records(mark, line)),
        quiet_at(recs, pos + line_records(mark, line).len()),
    ensures
        take_line(recs, pos, mark) == Some((line, pos + line_records(mark, line).len())),
{
    let part = line_records(mark, line);
    lemma_line_records(mark, line);
    lemma_holds_index(recs, pos, part, 0);
    let rec = recs[pos];
    if line.last() == LF {
        assert(rec =~= seq![mark] + line);
        assert(rec.subrange(1, rec.len() as int) =~= line);
    } else {
        lemma_holds_index(recs, pos, part, 1);
        assert(rec =~= seq![mark] + line + seq![LF]);
        assert(rec.subrange(1, rec.len() - 1) =~= line);
    }
}

proof fn lemma_body_one(mark: u8, line: Seq<u8>)
    ensures
        body_records(mark, seq![line]) == line_records(mark, line),
{
    assert(seq![line].drop_last() =~= Seq::<Seq<u8>>::empty());
    assert(body_records(mark, Seq::<Seq<u8>>::empty()) =~= Seq::<Seq<u8>>::empty());
    assert(body_records(mark, seq![line]) =~= line_records(mark, line));
}

proof fn lemma_body_split(mark: u8, x: Seq<Seq<u8>>, y: Seq<Seq<u8>>)
    ensures
        body_records(mark, x + y) == body_records(mark, x) + body_records(mark, y),
    decreases y.len(),
{
    if y.len() == 0 {
        assert(x + y =~= x);
        assert(body_records(mark, x) + body_records(mark, y) =~= body_records(mark, x));
    } else {
        assert((x + y).drop_last() =~= x + y.drop_last());
        assert((x + y).last() == y.last());
        lemma_body_split(mark, x, y.drop_last());
        assert(body_records(mark, x + y) =~= body_records(mark, x) + body_records(mark, y));
    }
}

/// The records of some lines are whole lines, and the first bears the mark.
proof fn lemma_body(mark: u8, lines: Seq<Seq<u8>>)
    requires
        all_lines(lines),
        mark != LF,
    ensures
        full_lines(body_records(mark, lines)),
        body_records(mark, lines).len() >= lines.len(),
        lines.len() > 0 ==> body_records(mark, lines)[0].len() >= 2 && body_records(
            mark,
            lines,
        )[0][0] == mark,
    decreases lines.len(),
{
    if lines.len() > 0 {
        let front = lines.drop_last();
        assert forall|i: int| 0 <= i < front.len() implies is_line(#[trigger] front[i]) by {
            assert(front[i] == lines[i]);
        }
        lemma_body(mark, front);
        assert(is_line(lines[lines.len() - 1]));
        lemma_line_records(mark, lines.last());
        lemma_full_concat(body_records(mark, front), line_records(mark, lines.last()));
        if front.len() > 0 {
            assert(body_records(mark, lines)[0] == body_records(mark, front)[0]);
        } else {
            assert(body_records(mark, front) =~= Seq::<Seq<u8>>::empty());
            assert(body_records(mark, lines)[0] == line_records(mark, lines.last())[0]);
        }
    }
}

/// Lines that were written are read back, if the reading stops behind them:
/// at the limit, or at a record that does not bear the mark.
proof fn lemma_take_lines(recs: Seq<Seq<u8>>, pos: int, mark: u8, lines: Seq<Seq<u8>>, limit: int)
    requires
        all_lines(lines),
        mark != LF,
        mark != 92u8,
        holds_at(recs, pos, body_records(mark, lines)),
        limit >= lines.len(),
        quiet_at(recs, pos + body_records(mark, lines).len()),
        limit == lines.len() || unmarked_at(recs, pos + body_records(mark, lines).len(), mark),
    ensures
        take_lines(recs, pos, mark, limit) == (lines, pos + body_records(mark, lines).len()),
    decreases lines.len(),
{
    if lines.len() == 0 {
        assert(body_records(mark, lines) =~= Seq::<Seq<u8>>::empty());
        assert(take_lines(recs, pos, mark, limit).0 =~= lines);
    } else {
        let first = lines[0];
        let rest = lines.subrange(1, lines.len() as int);
        assert(lines =~= seq![first] + rest);
        lemma_body_split(mark, seq![first], rest);
        lemma_body_one(mark, first);
        let head = line_records(mark, first);
        let tail = body_records(mark, rest);
        lemma_holds_split(recs, pos, head, tail);
        assert(is_line(lines[0]));
        assert forall|i: int| 0 <= i < rest.len() implies is_line(#[trigger] rest[i]) by {
            assert(rest[i] == lines[i + 1]);
        }
        lemma_body(mark, rest);
        lemma_marker_full();
        let next = pos + head.len();
        if rest.len() > 0 {
            lemma_holds_index(recs, next, tail, 0);
            assert(recs[next][0] == mark);
        }
        lemma_take_line(recs, pos, mark, first);
        lemma_take_lines(recs, next, mark, rest, limit - 1);
        assert(take_lines(recs, pos, mark, limit).0 =~= lines);
    }
}

proof fn lemma_hunk_shape(h: HunkView)
    requires
        hunk_wf(h),
    ensures
        full_lines(hunk_records(h)),
        hunk_records(h).len() >= 1,
        hunk_records(h)[0] == range_record(
            h.old_start as nat,
            h.old_lines as nat,
            h.new_start as nat,
            h.new_lines as nat,
        ),
{
    let range = range_record(
        h.old_start as nat,
        h.old_lines as nat,
        h.new_start as nat,
        h.new_lines as nat,
    );
    lemma_parse_range(
        h.old_start as nat,
        h.old_lines as nat,
        h.new_start as nat,
        h.new_lines as nat,
    );
    lemma_body(SPACE, h.context_before);
    lemma_body(MINUS, h.removed);
    lemma_body(PLUS, h.added);
    lemma_body(SPACE, h.context_after);
    let b1 = body_records(SPACE, h.context_before);
    let b2 = body_records(MINUS, h.removed);
    let b3 = body_records(PLUS, h.added);
    let b4 = body_records(SPACE, h.context_after);
    assert(full_lines(seq![range])) by {
        assert forall|i: int| 0 <= i < seq![range].len() implies full_line(
            #[trigger] seq![range][i],
        ) by {}
    }
    lemma_full_concat(seq![range], b1);
    lemma_full_concat(seq![range] + b1, b2);
    lemma_full_concat(seq![range] + b1 + b2, b3);
    lemma_full_concat(seq![range] + b1 + b2 + b3, b4);
}

/// A hunk that was written is read back, if no marker line follows its
/// records by chance.
proof fn lemma_parse_hunk(recs: Seq<Seq<u8>>, pos: int, h: HunkView)
    requires
        hunk_wf(h),
        holds_at(recs, pos, hunk_records(h)),
        quiet_at(recs, pos + hunk_records(h).len()),
    ensures
        parse_hunk(recs, pos) == Ok::<(HunkView, int), PatchFormatError>(
            (h, pos + hunk_records(h).len()),
        ),
{
    let range = range_record(
        h.old_start as nat,
        h.old_lines as nat,
        h.new_start as nat,
        h.new_lines as nat,
    );
    let b1 = body_records(SPACE, h.context_before);
    let b2 = body_records(MINUS, h.removed);
    let b3 = body_records(PLUS, h.added);
    let b4 = body_records(SPACE, h.context_after);
    lemma_hunk_shape(h);
    lemma_parse_range(
        h.old_start as nat,
        h.old_lines as nat,
        h.new_start as nat,
        h.new_lines as nat,
    );
    lemma_holds_split(recs, pos, seq![range] + b1 + b2 + b3, b4);
    lemma_holds_split(recs, pos, seq![range] + b1 + b2, b3);
    lemma_holds_split(recs, pos, seq![range] + b1, b2);
    lemma_holds_split(recs, pos, seq![range], b1);
    lemma_holds_index(recs, pos, seq![range], 0);
    let s1 = pos + 1;
    let cut1 = s1 + b1.len();
    let cut2 = cut1 + b2.len();
    let cut3 = cut2 + b3.len();
    let cut4 = cut3 + b4.len();
    lemma_body(SPACE, h.context_before);
    lemma_body(MINUS, h.removed);
    lemma_body(PLUS, h.added);
    lemma_body(SPACE, h.context_after);
    lemma_marker_full();
    if h.removed.len() > 0 {
        lemma_holds_index(recs, cut1, b2, 0);
    }
    if h.added.len() > 0 {
        lemma_holds_index(recs, cut2, b3, 0);
    }
    if h.context_after.len() > 0 {
        lemma_holds_index(recs, cut3, b4, 0);
    }
    if h.removed.len() == 0 {
        assert(b2 =~= Seq::<Seq<u8>>::empty());
    }
    if h.added.len() == 0 {
        assert(b3 =~= Seq::<Seq<u8>>::empty());
    }
    if h.context_after.len() == 0 {
        assert(b4 =~= Seq::<Seq<u8>>::empty());
    }
    assert(quiet_at(recs, cut1) && unmarked_at(recs, cut1, SPACE));
    lemma_take_lines(recs, s1, SPACE, h.context_before, h.old_lines);
    assert(quiet_at(recs, cut2));
    assert(h.old_lines - h.context_before.len() == h.removed.len() || unmarked_at(
        recs,
        cut2,
        MINUS,
    ));
    lemma_take_lines(recs, cut1, MINUS, h.removed, h.old_lines - h.context_before.len());
    assert(quiet_at(recs, cut3));
    assert(h.new_lines - h.context_before.len() == h.added.len() || unmarked_at(recs, cut3, PLUS));
    lemma_take_lines(recs, cut2, PLUS, h.added, h.new_lines - h.context_before.len());
    lemma_take_lines(recs, cut3, SPACE, h.context_after, h.context_after.len() as int);
}

proof fn lemma_hunks_split(x: Seq<HunkView>, y: Seq<HunkView>)
    ensures
        hunks_records(x + y) == hunks_records(x) + hunks_records(y),
    decreases y.len(),
{
    if y.len() == 0 {
        assert(x + y =~= x);
        assert(hunks_records(x) + hunks_records(y) =~= hunks_records(x));
    } else {
        assert((x + y).drop_last() =~= x + y.drop_last());
        assert((x + y).last() == y.last());
        lemma_hunks_split(x, y.drop_last());
        assert(hunks_records(x + y) =~= hunks_records(x) + hunks_records(y));
    }
}

proof fn lemma_hunks_one(h: HunkView)
    ensures
        hunks_records(seq![h]) == hunk_records(h),
{
    assert(seq![h].drop_last() =~= Seq::<HunkView>::empty());
    assert(hunks_records(Seq::<HunkView>::empty()) =~= Seq::<Seq<u8>>::empty());
    assert(hunks_records(seq![h]) =~= hunk_records(h));
}

proof fn lemma_hunks_full(hunks: Seq<HunkView>)
    requires
        hunks_wf(hunks),
    ensures
        full_lines(hunks_records(hunks)),
    decreases hunks.len(),
{
    if hunks.len() > 0 {
        let front = hunks.drop_last();
        assert forall|i: int| 0 <= i < front.len() implies hunk_wf(#[trigger] front[i]) by {
            assert(front[i] == hunks[i]);
        }
        lemma_hunks_full(front);
        assert(hunk_wf(hunks[hunks.len() - 1]));
        lemma_hunk_shape(hunks.last());
        lemma_full_concat(hunks_records(front), hunk_records(hunks.last()));
    }
}

/// Hunks that were written are read back, if what follows them neither
/// opens a line of ranges nor is a marker line.
proof fn lemma_parse_hunks(recs: Seq<Seq<u8>>, pos: int, hunks: Seq<HunkView>)
    requires
        hunks_wf(hunks),
        holds_at(recs, pos, hunks_records(hunks)),
        quiet_at(recs, pos + hunks_records(hunks).len()),
        pos + hunks_records(hunks).len() >= recs.len() || !has_at(
            recs[pos + hunks_records(hunks).len()],
            0,
            range_open(),
        ),
    ensures
        parse_hunks(recs, pos) == Ok::<(Seq<HunkView>, int), PatchFormatError>(
            (hunks, pos + hunks_records(hunks).len()),
        ),
    decreases hunks.len(),
{
    if hunks.len() == 0 {
        assert(hunks_records(hunks) =~= Seq::<Seq<u8>>::empty());
        assert(hunks =~= Seq::<HunkView>::empty());
    } else {
        let first = hunks[0];
        let rest = hunks.subrange(1, hunks.len() as int);
        assert(hunks =~= seq![first] + rest);
        lemma_hunks_split(seq![first], rest);
        lemma_hunks_one(first);
        let head = hunk_records(first);
        let tail = hunks_records(rest);
        lemma_holds_split(recs, pos, head, tail);
        assert(hunk_wf(hunks[0]));
        assert forall|i: int| 0 <= i < rest.len() implies hunk_wf(#[trigger] rest[i]) by {
            assert(rest[i] == hunks[i + 1]);
        }
        lemma_hunk_shape(first);
        lemma_holds_index(recs, pos, head, 0);
        lemma_parse_range(
            first.old_start as nat,
            first.old_lines as nat,
            first.new_start as nat,
            first.new_lines as nat,
        );
        let next = pos + head.len();
        if rest.len() > 0 {
            let second = rest[0];
            let more = rest.subrange(1, rest.len() as int);
            assert(rest =~= seq![second] + more);
            lemma_hunks_split(seq![second], more);
            lemma_hunks_one(second);
            lemma_hunk_shape(second);
            lemma_holds_split(recs, next, hunk_records(second), hunks_records(more));
            lemma_holds_index(recs, next, hunk_records(second), 0);
            lemma_parse_range(
                second.old_start as nat,
                second.old_lines as nat,
                second.new_start as nat,
                second.new_lines as nat,
            );
        } else {
            assert(tail =~= Seq::<Seq<u8>>::empty());
        }
        lemma_parse_hunk(recs, pos, first);
        lemma_parse_hunks(recs, next, rest);
        assert(seq![first] + rest =~= hunks);
    }
}

/// The records of a file that is written whole.
spec fn whole_records(content: Seq<u8>, added: bool) -> Seq<Seq<u8>> {
    if added {
        seq![range_record(0, 0, 1, split_lines(content).len())] + body_records(
            PLUS,
            split_lines(content),
        )
    } else {
        seq![range_record(1, split_lines(content).len(), 0, 0)] + body_records(
            MINUS,
            split_lines(content),
        )
    }
}

proof fn lemma_parse_whole(recs: Seq<Seq<u8>>, pos: int, content: Seq<u8>, added: bool)
    requires
        content.len() <= usize::MAX,
        holds_at(recs, pos, whole_records(content, added)),
        quiet_at(recs, pos + whole_records(content, added).len()),
    ensures
        parse_whole(recs, pos, added) == Ok::<(Seq<u8>, int), PatchFormatError>(
            (content, pos + whole_records(content, added).len()),
        ),
        full_lines(whole_records(content, added)),
        whole_records(content, added).len() >= 1,
{
    let lines = split_lines(content);
    lemma_split_concat(content);
    let mark = if added {
        PLUS
    } else {
        MINUS
    };
    let range = whole_records(content, added)[0];
    let body = body_records(mark, lines);
    if added {
        lemma_parse_range(0, 0, 1, lines.len());
    } else {
        lemma_parse_range(1, lines.len(), 0, 0);
    }
    lemma_body(mark, lines);
    assert(full_lines(seq![range])) by {
        assert forall|i: int| 0 <= i < seq![range].len() implies full_line(
            #[trigger] seq![range][i],
        ) by {}
    }
    lemma_full_concat(seq![range], body);
    lemma_holds_split(recs, pos, seq![range], body);
    lemma_holds_index(recs, pos, seq![range], 0);
    lemma_take_lines(recs, pos + 1, mark, lines, lines.len() as int);
}

proof fn lemma_changes_split(x: Seq<FileChangeView>, y: Seq<FileChangeView>)
    ensures
        changes_records(x + y) == changes_records(x) + changes_records(y),
    decreases y.len(),
{
    if y.len() == 0 {
        assert(x + y =~= x);
        assert(changes_records(x) + changes_records(y) =~= changes_records(x));
    } else {
        assert((x + y).drop_last() =~= x + y.drop_last());
        assert((x + y).last() == y.last());
        lemma_changes_split(x, y.drop_last());
        assert(changes_records(x + y) =~= changes_records(x) + changes_records(y));
    }
}

proof fn lemma_changes_one(c: FileChangeView)
    ensures
        changes_records(seq![c]) == change_records(c),
{
    assert(seq![c].drop_last() =~= Seq::<FileChangeView>::empty());
    assert(changes_records(Seq::<FileChangeView>::empty()) =~= Seq::<Seq<u8>>::empty());
    assert(changes_records(seq![c]) =~= change_records(c));
}

/// The two records that name the files of a change.
spec fn sides_of(c: FileChangeView) -> (Option<Seq<u8>>, Option<Seq<u8>>) {
    match c {
        FileChangeView::Added { path, .. } => (None, Some(path)),
        FileChangeView::Removed { path, .. } => (Some(path), None),
        FileChangeView::Modified { path, .. } => (Some(path), Some(path)),
        FileChangeView::Renamed { from, to, .. } => (Some(from), Some(to)),
    }
}

/// The records of a change behind the two that name its files.
spec fn rest_of(c: FileChangeView) -> Seq<Seq<u8>> {
    match c {
        FileChangeView::Added { content, .. } => whole_records(content, true),
        FileChangeView::Removed { content, .. } => whole_records(content, false),
        FileChangeView::Modified { hunks, .. } => hunks_records(hunks),
        FileChangeView::Renamed { hunks, .. } => hunks_records(hunks),
    }
}

proof fn lemma_change_shape(c: FileChangeView)
    requires
        change_wf(c),
    ensures
        change_records(c) == seq![
            side_record(old_tag(), old_dir(), sides_of(c).0),
            side_record(new_tag(), new_dir(), sides_of(c).1),
        ] + rest_of(c),
        full_lines(change_records(c)),
        change_records(c).len() >= 2,
        change_records(c)[0] != marker(),
        !has_at(change_records(c)[0], 0, range_open()),
{
    let old = side_record(old_tag(), old_dir(), sides_of(c).0);
    let new = side_record(new_tag(), new_dir(), sides_of(c).1);
    lemma_parse_side(false, sides_of(c).0);
    lemma_parse_side(true, sides_of(c).1);
    let sides = seq![old, new];
    assert(change_records(c) =~= sides + rest_of(c));
    assert(full_lines(sides)) by {
        assert forall|i: int| 0 <= i < sides.len() implies full_line(#[trigger] sides[i]) by {}
    }
    match c {
        FileChangeView::Added { path, content } => {
            lemma_split_concat(content);
            lemma_parse_range(0, 0, 1, split_lines(content).len());
            lemma_body(PLUS, split_lines(content));
            let range = range_record(0, 0, 1, split_lines(content).len());
            assert(full_lines(seq![range])) by {
                assert forall|i: int| 0 <= i < seq![range].len() implies full_line(
                    #[trigger] seq![range][i],
                ) by {}
            }
            lemma_full_concat(seq![range], body_records(PLUS, split_lines(content)));
        },
        FileChangeView::Removed { path, content } => {
            lemma_split_concat(content);
            lemma_parse_range(1, split_lines(content).len(), 0, 0);
            lemma_body(MINUS, split_lines(content));
            let range = range_record(1, split_lines(content).len(), 0, 0);
            assert(full_lines(seq![range])) by {
                assert forall|i: int| 0 <= i < seq![range].len() implies full_line(
                    #[trigger] seq![range][i],
                ) by {}
            }
            lemma_full_concat(seq![range], body_records(MINUS, split_lines(content)));
        },
        FileChangeView::Modified { path, hunks } => {
            lemma_hunks_full(hunks);
        },
        FileChangeView::Renamed { from, to, hunks } => {
            lemma_hunks_full(hunks);
        },
    }
    lemma_full_concat(sides, rest_of(c));
}

/// A change that was written is read back, if what follows it is the first
/// record of another change or nothing.
proof fn lemma_parse_change(recs: Seq<Seq<u8>>, pos: int, c: FileChangeView)
    requires
        change_wf(c),
        holds_at(recs, pos, change_records(c)),
        quiet_at(recs, pos + change_records(c).len()),
        pos + change_records(c).len() >= recs.len() || !has_at(
            recs[pos + change_records(c).len()],
            0,
            range_open(),
        ),
    ensures
        parse_change(recs, pos) == Ok::<(FileChangeView, int), PatchFormatError>(
            (c, pos + change_records(c).len()),
        ),
{
    lemma_change_shape(c);
    let old = side_record(old_tag(), old_dir(), sides_of(c).0);
    let new = side_record(new_tag(), new_dir(), sides_of(c).1);
    let sides = seq![old, new];
    lemma_holds_split(recs, pos, sides, rest_of(c));
    lemma_holds_index(recs, pos, sides, 0);
    lemma_holds_index(recs, pos, sides, 1);
    lemma_parse_side(false, sides_of(c).0);
    lemma_parse_side(true, sides_of(c).1);
    match c {
        FileChangeView::Added { path, content } => {
            lemma_parse_whole(recs, pos + 2, content, true);
        },
        FileChangeView::Removed { path, content } => {
            lemma_parse_whole(recs, pos + 2, content, false);
        },
        FileChangeView::Modified { path, hunks } => {
            lemma_parse_hunks(recs, pos + 2, hunks);
        },
        FileChangeView::Renamed { from, to, hunks } => {
            lemma_parse_hunks(recs, pos + 2, hunks);
        },
    }
}

proof fn lemma_changes_full(changes: Seq<FileChangeView>)
    requires
        forall|i: int| 0 <= i < changes.len() ==> change_wf(#[trigger] changes[i]),
    ensures
        full_lines(changes_records(changes)),
    decreases changes.len(),
{
    if changes.len() > 0 {
        let front = changes.drop_last();
        assert forall|i: int| 0 <= i < front.len() implies change_wf(#[trigger] front[i]) by {
            assert(front[i] == changes[i]);
        }
        lemma_changes_full(front);
        assert(change_wf(changes[changes.len() - 1]));
        lemma_change_shape(changes.last());
        lemma_full_concat(changes_records(front), change_records(changes.last()));
    }
}

/// Changes that were written up to the end of the records are read back.
proof fn lemma_parse_changes(recs: Seq<Seq<u8>>, pos: int, changes: Seq<FileChangeView>)
    requires
        forall|i: int| 0 <= i < changes.len() ==> change_wf(#[trigger] changes[i]),
        holds_at(recs, pos, changes_records(changes)),
        pos + changes_records(changes).len() == recs.len(),
    ensures
        parse_changes(recs, pos) == Ok::<Seq<FileChangeView>, PatchFormatError>(changes),
    decreases changes.len(),
{
    if changes.len() == 0 {
        assert(changes_records(changes) =~= Seq::<Seq<u8>>::empty());
        assert(changes =~= Seq::<FileChangeView>::empty());
    } else {
        let first = changes[0];
        let rest = changes.subrange(1, changes.len() as int);
        assert(changes =~= seq![first] + rest);
        lemma_changes_split(seq![first], rest);
        lemma_changes_one(first);
        let head = change_records(first);
        let tail = changes_records(rest);
        lemma_holds_split(recs, pos, head, tail);
        assert(change_wf(changes[0]));
        assert forall|i: int| 0 <= i < rest.len() implies change_wf(#[trigger] rest[i]) by {
            assert(rest[i] == changes[i + 1]);
        }
        lemma_change_shape(first);
        let next = pos + head.len();
        if rest.len() > 0 {
            let second = rest[0];
            let more = rest.subrange(1, rest.len() as int);
            assert(rest =~= seq![second] + more);
            lemma_changes_split(seq![second], more);
            lemma_changes_one(second);
            lemma_change_shape(second);
            lemma_holds_split(recs, next, change_records(second), changes_records(more));
            lemma_holds_index(recs, next, change_records(second), 0);
        } else {
            assert(tail =~= Seq::<Seq<u8>>::empty());
        }
        lemma_parse_change(recs, pos, first);
        lemma_parse_changes(recs, next, rest);
        assert(seq![first] + rest =~= changes);
    }
}

/// A patch that can be written and read back is read back as it was written.
pub proof fn lemma_round_trip(p: PatchFileView)
    requires
        patch_wf(p),
    ensures
        parse_spec(serialize_spec(p)) == Ok::<PatchFileView, PatchFormatError>(p),
{
    let heading = heading_record(p.package);
    let body = changes_records(p.changes);
    let recs = patch_records(p);
    lemma_parse_identity(p.package);
    lemma_changes_full(p.changes);
    assert(full_lines(seq![heading])) by {
        assert forall|i: int| 0 <= i < seq![heading].len() implies full_line(
            #[trigger] seq![heading][i],
        ) by {}
    }
    lemma_full_concat(seq![heading], body);
    lemma_split_of_concat(recs);
    assert(recs[0] == heading);
    assert(full_line(recs[recs.len() - 1]));
    assert(recs.subrange(1, 1 + body.len() as int) =~= body);
    lemma_parse_changes(recs, 1, p.changes);
}

/// The hunk declares as many lines as it holds.
pub open spec fn counts_agree(h: HunkView) -> bool {
    &&& h.old_lines == h.context_before.len() + h.removed.len() + h.context_after.len()
    &&& h.new_lines == h.context_before.len() + h.added.len() + h.context_after.len()
}

/// Every hunk of the change declares as many lines as it holds.
pub open spec fn change_counts_agree(c: FileChangeView) -> bool {
    match c {
        FileChangeView::Modified { hunks, .. } => forall|i: int|
            0 <= i < hunks.len() ==> counts_agree(#[trigger] hunks[i]),
        FileChangeView::Renamed { hunks, .. } => forall|i: int|
            0 <= i < hunks.len() ==> counts_agree(#[trigger] hunks[i]),
        _ => true,
    }
}

proof fn lemma_parsed_hunks_count(recs: Seq<Seq<u8>>, pos: int)
    ensures
        parse_hunks(recs, pos) matches Ok((hunks, end)) ==> forall|i: int|
            0 <= i < hunks.len() ==> counts_agree(#[trigger] hunks[i]),
    decreases recs.len() - pos,
{
    if pos < 0 || pos >= recs.len() || !has_at(recs[pos], 0, range_open()) {
    } else {
        match parse_hunk(recs, pos) {
            Err(e) => {},
            Ok((h, next)) => {
                if next <= pos || next > recs.len() {
                } else {
                    lemma_parsed_hunks_count(recs, next);
                    match parse_hunks(recs, next) {
                        Err(e) => {},
                        Ok((rest, end)) => {
                            let hunks = seq![h] + rest;
                            assert(counts_agree(h));
                            assert forall|i: int| 0 <= i < hunks.len() implies counts_agree(
                                #[trigger] hunks[i],
                            ) by {
                                if i > 0 {
                                    assert(hunks[i] == rest[i - 1]);
                                }
                            }
                        },
                    }
                }
            },
        }
    }
}

proof fn lemma_parsed_changes_count(recs: Seq<Seq<u8>>, pos: int)
    ensures
        parse_changes(recs, pos) matches Ok(changes) ==> forall|i: int|
            0 <= i < changes.len() ==> change_counts_agree(#[trigger] changes[i]),
    decreases recs.len() - pos,
{
    if pos < 0 || pos >= recs.len() {
    } else {
        match parse_change(recs, pos) {
            Err(e) => {},
            Ok((c, next)) => {
                if next <= pos || next > recs.len() {
                } else {
                    lemma_parsed_hunks_count(recs, pos + 2);
                    lemma_parsed_changes_count(recs, next);
                    match parse_changes(recs, next) {
                        Err(e) => {},
                        Ok(rest) => {
                            let changes = seq![c] + rest;
                            assert(change_counts_agree(c));
                            assert forall|i: int| 0 <= i < changes.len() implies change_counts_agree(
                                #[trigger] changes[i],
                            ) by {
                                if i > 0 {
                                    assert(changes[i] == rest[i - 1]);
                                }
                            }
                        },
                    }
                }
            },
        }
    }
}

/// In a patch that was read from text every hunk declares as many lines as
/// it holds: a text in which a hunk does not is refused.
pub proof fn lemma_parsed_counts_agree(text: Seq<u8>)
    ensures
        parse_spec(text) matches Ok(patch) ==> forall|i: int|
            0 <= i < patch.changes.len() ==> change_counts_agree(#[trigger] patch.changes[i]),
{
    lemma_parsed_changes_count(split_lines(text), 1);
}

} // verus!
