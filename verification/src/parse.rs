//! Reading the text form of a patch.

use vstd::prelude::*;
use crate::bytes::{bytes_eq, copy_range, lines_of};
use crate::change::{changes_of, FileChange, FileChangeView, PackageIdentity, PackageIdentityView,
    PatchFile, PatchFileView};
use crate::format::{
    magic, marker, marker_record, new_dir, new_tag, no_file, old_dir, old_tag, range_close,
    range_mid, range_open, COMMA, MINUS, PLUS, SPACE, TILDE, ZERO,
};
use crate::hunk::{hunks_of, Hunk, HunkView};
use crate::text::{concat_lines, from_lines, split_lines, to_lines, LF};

verus! {

/// Why a text is not the text form of a patch.
#[derive(Clone, Copy, Debug, PartialEq, Eq, Structural)]
pub enum PatchFormatError {
    /// The heading does not name a package, or a line that names a file or
    /// gives ranges is missing or not well formed.
    MalformedHeader,
    /// The lines under a line of ranges are not as many as it declares.
    HunkRangeMismatch,
    /// The text does not begin with the heading of a patch.
    UnknownFormat,
}

/// `tag` stands in `rec` at position `at`.
pub open spec fn has_at(rec: Seq<u8>, at: int, tag: Seq<u8>) -> bool {
    0 <= at && at + tag.len() <= rec.len() && rec.subrange(at, at + tag.len()) == tag
}

/// The record ends in a line feed.
pub open spec fn ends_lf(rec: Seq<u8>) -> bool {
    rec.len() > 0 && rec.last() == LF
}

/// The first position at or after `from` at which `s` has the byte `b`, or
/// the length of `s`.
pub open spec fn index_of(s: Seq<u8>, b: u8, from: int) -> int
    decreases s.len() - from,
{
    if from < 0 || from >= s.len() {
        s.len() as int
    } else if s[from] == b {
        from
    } else {
        index_of(s, b, from + 1)
    }
}

/// The byte is a decimal digit.
pub open spec fn is_digit(b: u8) -> bool {
    ZERO <= b && b <= ZERO + 9
}

/// The first position at or after `from` at which `s` has no digit.
pub open spec fn digits_end(s: Seq<u8>, from: int) -> int
    decreases s.len() - from,
{
    if from < 0 || from >= s.len() {
        s.len() as int
    } else if is_digit(s[from]) {
        digits_end(s, from + 1)
    } else {
        from
    }
}

/// The number that the digits write.
pub open spec fn decimal(s: Seq<u8>) -> nat
    decreases s.len(),
{
    if s.len() == 0 {
        0
    } else {
        (decimal(s.drop_last()) * 10 + (s.last() - ZERO)) as nat
    }
}

/// The number written at `from`, and the position behind it. There is none
/// where no digit stands at `from` or the number is too great.
pub open spec fn number_at(s: Seq<u8>, from: int) -> Option<(nat, int)> {
    let end = digits_end(s, from);
    if from < 0 || end <= from || end > s.len() || decimal(s.subrange(from, end)) > usize::MAX {
        None
    } else {
        Some((decimal(s.subrange(from, end)), end))
    }
}

/// The package that is written as `text`: the scope up to the first `~` if
/// there is one, the name up to the first `+`, and the version behind it.
/// None of the parts may be empty.
pub open spec fn identity_of(text: Seq<u8>) -> Option<PackageIdentityView> {
    let plus = index_of(text, PLUS, 0);
    if plus >= text.len() {
        None
    } else {
        let left = text.subrange(0, plus);
        let version = text.subrange(plus + 1, text.len() as int);
        let tilde = index_of(left, TILDE, 0);
        let scope = if tilde < left.len() {
            Some(left.subrange(0, tilde))
        } else {
            None
        };
        let name = if tilde < left.len() {
            left.subrange(tilde + 1, left.len() as int)
        } else {
            left
        };
        if name.len() == 0 || version.len() == 0 || scope == Some(Seq::<u8>::empty()) {
            None
        } else {
            Some(PackageIdentityView { scope, name, version })
        }
    }
}

/// The package that the heading names.
#[verifier::opaque]
pub open spec fn parse_identity(rec: Seq<u8>) -> Option<PackageIdentityView> {
    if !has_at(rec, 0, magic()) || !ends_lf(rec) || rec.len() < magic().len() + 1 {
        None
    } else {
        identity_of(rec.subrange(magic().len() as int, rec.len() - 1))
    }
}

/// The file that a line naming a file names: `Some(None)` for no file.
#[verifier::opaque]
pub open spec fn parse_side(rec: Seq<u8>, tag: Seq<u8>, dir: Seq<u8>) -> Option<Option<Seq<u8>>> {
    if !has_at(rec, 0, tag) || !ends_lf(rec) || rec.len() < tag.len() + 1 {
        None
    } else {
        let rest = rec.subrange(tag.len() as int, rec.len() - 1);
        if rest == no_file() {
            Some(None)
        } else if has_at(rest, 0, dir) {
            Some(Some(rest.subrange(dir.len() as int, rest.len() as int)))
        } else {
            None
        }
    }
}

/// The four numbers of a line of ranges.
pub struct Ranges {
    pub old_start: nat,
    pub old_lines: nat,
    pub new_start: nat,
    pub new_lines: nat,
}

/// The numbers that a line of ranges gives.
#[verifier::opaque]
pub open spec fn parse_range(rec: Seq<u8>) -> Option<Ranges> {
    if !has_at(rec, 0, range_open()) {
        None
    } else {
        match number_at(rec, range_open().len() as int) {
            None => None,
            Some((old_start, e1)) => if !has_at(rec, e1, seq![COMMA]) {
                None
            } else {
                match number_at(rec, e1 + 1) {
                    None => None,
                    Some((old_lines, e2)) => if !has_at(rec, e2, range_mid()) {
                        None
                    } else {
                        match number_at(rec, e2 + 2) {
                            None => None,
                            Some((new_start, e3)) => if !has_at(rec, e3, seq![COMMA]) {
                                None
                            } else {
                                match number_at(rec, e3 + 1) {
                                    None => None,
                                    Some((new_lines, e4)) => if has_at(
                                        rec,
                                        e4,
                                        range_close() + seq![LF],
                                    ) && e4 + 4 == rec.len() {
                                        Some(Ranges { old_start, old_lines, new_start, new_lines })
                                    } else {
                                        None
                                    },
                                }
                            },
                        }
                    },
                }
            },
        }
    }
}

/// The line of a file that the record at `pos` holds if it bears `mark`, and
/// the position behind it and behind the marker line if one follows.
pub open spec fn take_line(recs: Seq<Seq<u8>>, pos: int, mark: u8) -> Option<(Seq<u8>, int)> {
    if pos < 0 || pos >= recs.len() {
        None
    } else {
        let rec = recs[pos];
        if rec.len() < 2 || rec[0] != mark || rec.last() != LF {
            None
        } else if pos + 1 < recs.len() && recs[pos + 1] == marker() {
            if rec.len() < 3 {
                None
            } else {
                Some((rec.subrange(1, rec.len() - 1), pos + 2))
            }
        } else {
            Some((rec.subrange(1, rec.len() as int), pos + 1))
        }
    }
}

/// The lines that bear `mark` from `pos` on, up to `limit` of them, and the
/// position behind them.
pub open spec fn take_lines(recs: Seq<Seq<u8>>, pos: int, mark: u8, limit: int) -> (
    Seq<Seq<u8>>,
    int,
)
    decreases limit,
{
    if limit <= 0 {
        (Seq::empty(), pos)
    } else {
        match take_line(recs, pos, mark) {
            None => (Seq::empty(), pos),
            Some((line, next)) => {
                let (rest, end) = take_lines(recs, next, mark, limit - 1);
                (seq![line] + rest, end)
            },
        }
    }
}

/// The hunk whose line of ranges stands at `pos`, and the position behind
/// the hunk.
pub open spec fn parse_hunk(recs: Seq<Seq<u8>>, pos: int) -> Result<
    (HunkView, int),
    PatchFormatError,
> {
    if pos < 0 || pos >= recs.len() {
        Err(PatchFormatError::MalformedHeader)
    } else {
        match parse_range(recs[pos]) {
            None => Err(PatchFormatError::MalformedHeader),
            Some(r) => {
                let (before, cut1) = take_lines(recs, pos + 1, SPACE, r.old_lines as int);
                let (removed, cut2) = take_lines(recs, cut1, MINUS, r.old_lines - before.len());
                let (added, cut3) = take_lines(recs, cut2, PLUS, r.new_lines - before.len());
                let after_count = r.old_lines - before.len() - removed.len();
                if r.new_lines - before.len() - added.len() != after_count {
                    Err(PatchFormatError::HunkRangeMismatch)
                } else {
                    let (after, cut4) = take_lines(recs, cut3, SPACE, after_count);
                    if after.len() != after_count {
                        Err(PatchFormatError::HunkRangeMismatch)
                    } else {
                        Ok(
                            (
                                HunkView {
                                    old_start: r.old_start as int,
                                    old_lines: r.old_lines as int,
                                    new_start: r.new_start as int,
                                    new_lines: r.new_lines as int,
                                    context_before: before,
                                    removed,
                                    added,
                                    context_after: after,
                                },
                                cut4,
                            ),
                        )
                    }
                }
            },
        }
    }
}

/// The hunks from `pos` on, up to the first record that opens no line of
/// ranges, and the position of that record.
pub open spec fn parse_hunks(recs: Seq<Seq<u8>>, pos: int) -> Result<
    (Seq<HunkView>, int),
    PatchFormatError,
>
    decreases recs.len() - pos,
{
    if pos < 0 || pos >= recs.len() || !has_at(recs[pos], 0, range_open()) {
        Ok((Seq::empty(), pos))
    } else {
        match parse_hunk(recs, pos) {
            Err(e) => Err(e),
            Ok((h, next)) => if next <= pos || next > recs.len() {
                Err(PatchFormatError::MalformedHeader)
            } else {
                match parse_hunks(recs, next) {
                    Err(e) => Err(e),
                    Ok((rest, end)) => Ok((seq![h] + rest, end)),
                }
            },
        }
    }
}

/// The content of a file written whole from `pos` on: a line of ranges that
/// declares nothing on one side and `count` lines on the other, then `count`
/// lines that bear `mark`.
pub open spec fn parse_whole(recs: Seq<Seq<u8>>, pos: int, added: bool) -> Result<
    (Seq<u8>, int),
    PatchFormatError,
> {
    if pos < 0 || pos >= recs.len() {
        Err(PatchFormatError::MalformedHeader)
    } else {
        match parse_range(recs[pos]) {
            None => Err(PatchFormatError::MalformedHeader),
            Some(r) => {
                let count = if added {
                    r.new_lines
                } else {
                    r.old_lines
                };
                let as_declared = if added {
                    r.old_start == 0 && r.old_lines == 0 && r.new_start == 1
                } else {
                    r.old_start == 1 && r.new_start == 0 && r.new_lines == 0
                };
                let (lines, end) = take_lines(
                    recs,
                    pos + 1,
                    if added {
                        PLUS
                    } else {
                        MINUS
                    },
                    count as int,
                );
                if !as_declared || lines.len() != count {
                    Err(PatchFormatError::HunkRangeMismatch)
                } else {
                    Ok((concat_lines(lines), end))
                }
            },
        }
    }
}

/// The change whose first line stands at `pos`, and the position behind it.
pub open spec fn parse_change(recs: Seq<Seq<u8>>, pos: int) -> Result<
    (FileChangeView, int),
    PatchFormatError,
> {
    if pos < 0 || pos + 1 >= recs.len() {
        Err(PatchFormatError::MalformedHeader)
    } else {
        match (
            parse_side(recs[pos], old_tag(), old_dir()),
            parse_side(recs[pos + 1], new_tag(), new_dir()),
        ) {
            (Some(None), Some(Some(path))) => match parse_whole(recs, pos + 2, true) {
                Err(e) => Err(e),
                Ok((content, end)) => Ok((FileChangeView::Added { path, content }, end)),
            },
            (Some(Some(path)), Some(None)) => match parse_whole(recs, pos + 2, false) {
                Err(e) => Err(e),
                Ok((content, end)) => Ok((FileChangeView::Removed { path, content }, end)),
            },
            (Some(Some(from)), Some(Some(to))) => match parse_hunks(recs, pos + 2) {
                Err(e) => Err(e),
                Ok((hunks, end)) => if from == to {
                    Ok((FileChangeView::Modified { path: from, hunks }, end))
                } else {
                    Ok((FileChangeView::Renamed { from, to, hunks }, end))
                },
            },
            _ => Err(PatchFormatError::MalformedHeader),
        }
    }
}

/// The changes from `pos` on to the end of the records.
pub open spec fn parse_changes(recs: Seq<Seq<u8>>, pos: int) -> Result<
    Seq<FileChangeView>,
    PatchFormatError,
>
    decreases recs.len() - pos,
{
    if pos < 0 || pos >= recs.len() {
        Ok(Seq::empty())
    } else {
        match parse_change(recs, pos) {
            Err(e) => Err(e),
            Ok((c, next)) => if next <= pos || next > recs.len() {
                Err(PatchFormatError::MalformedHeader)
            } else {
                match parse_changes(recs, next) {
                    Err(e) => Err(e),
                    Ok(rest) => Ok(seq![c] + rest),
                }
            },
        }
    }
}

/// The patch that the records hold.
pub open spec fn parse_records(recs: Seq<Seq<u8>>) -> Result<PatchFileView, PatchFormatError> {
    if recs.len() == 0 || !has_at(recs[0], 0, magic()) {
        Err(PatchFormatError::UnknownFormat)
    } else if !ends_lf(recs.last()) {
        Err(PatchFormatError::MalformedHeader)
    } else {
        match parse_identity(recs[0]) {
            None => Err(PatchFormatError::MalformedHeader),
            Some(package) => match parse_changes(recs, 1) {
                Err(e) => Err(e),
                Ok(changes) => Ok(PatchFileView { package, changes }),
            },
        }
    }
}

/// The patch that the text holds, or why it holds none.
pub open spec fn parse_spec(text: Seq<u8>) -> Result<PatchFileView, PatchFormatError> {
    parse_records(split_lines(text))
}

fn magic_bytes() -> (tag: Vec<u8>)
    ensures
        tag@ == magic(),
{
    let mut tag: Vec<u8> = Vec::new();
    tag.push(112);
    tag.push(97);
    tag.push(116);
    tag.push(99);
    tag.push(104);
    tag.push(114);
    tag.push(32);
    assert(tag@ =~= magic());
    tag
}

fn no_file_bytes() -> (tag: Vec<u8>)
    ensures
        tag@ == no_file(),
{
    let mut tag: Vec<u8> = Vec::new();
    tag.push(47);
    tag.push(100);
    tag.push(101);
    tag.push(118);
    tag.push(47);
    tag.push(110);
    tag.push(117);
    tag.push(108);
    tag.push(108);
    assert(tag@ =~= no_file());
    tag
}

fn bytes2(a: u8, b: u8) -> (tag: Vec<u8>)
    ensures
        tag@ == seq![a, b],
{
    let mut tag: Vec<u8> = Vec::new();
    tag.push(a);
    tag.push(b);
    assert(tag@ =~= seq![a, b]);
    tag
}

fn bytes4(a: u8, b: u8, c: u8, d: u8) -> (tag: Vec<u8>)
    ensures
        tag@ == seq![a, b, c, d],
{
    let mut tag: Vec<u8> = Vec::new();
    tag.push(a);
    tag.push(b);
    tag.push(c);
    tag.push(d);
    assert(tag@ =~= seq![a, b, c, d]);
    tag
}

fn stands_at(rec: &Vec<u8>, at: usize, tag: &Vec<u8>) -> (yes: bool)
    ensures
        yes == has_at(rec@, at as int, tag@),
{
    let n = rec.len();
    let m = tag.len();
    if at > n || m > n - at {
        return false;
    }
    let mut i: usize = 0;
    while i < m
        invariant
            n == rec@.len(),
            m == tag@.len(),
            at + m <= n,
            i <= m,
            forall|j: int| 0 <= j < i ==> rec@[at + j] == tag@[j],
        decreases m - i,
    {
        if rec[at + i] != tag[i] {
            assert(rec@.subrange(at as int, at + m)[i as int] != tag@[i as int]);
            return false;
        }
        i += 1;
    }
    assert(rec@.subrange(at as int, at + m) =~= tag@);
    true
}

fn find_byte(s: &Vec<u8>, b: u8) -> (at: usize)
    ensures
        at == index_of(s@, b, 0),
        at <= s@.len(),
{
    let mut i: usize = 0;
    while i < s.len()
        invariant
            i <= s@.len(),
            index_of(s@, b, 0) == index_of(s@, b, i as int),
        decreases s@.len() - i,
    {
        if s[i] == b {
            return i;
        }
        i += 1;
    }
    i
}

proof fn lemma_decimal_push(s: Seq<u8>, from: int, i: int)
    requires
        0 <= from <= i < s.len(),
        s[i] >= ZERO,
    ensures
        decimal(s.subrange(from, i + 1)) == decimal(s.subrange(from, i)) * 10 + (s[i] - ZERO),
        decimal(s.subrange(from, i + 1)) >= decimal(s.subrange(from, i)),
{
    assert(s.subrange(from, i + 1).drop_last() =~= s.subrange(from, i));
}

fn read_number(s: &Vec<u8>, from: usize) -> (number: Option<(usize, usize)>)
    ensures
        match number {
            Some((value, end)) => number_at(s@, from as int) == Some((value as nat, end as int))
                && from < end <= s@.len(),
            None => number_at(s@, from as int) is None,
        },
{
    let n = s.len();
    let mut i: usize = from;
    let mut value: usize = 0;
    let mut too_great = false;
    if from > n {
        return None;
    }
    assert(s@.subrange(from as int, from as int) =~= Seq::<u8>::empty());
    while i < n && ZERO <= s[i] && s[i] <= ZERO + 9
        invariant
            n == s@.len(),
            from <= i <= n,
            digits_end(s@, from as int) == digits_end(s@, i as int),
            !too_great ==> value == decimal(s@.subrange(from as int, i as int)),
            too_great ==> decimal(s@.subrange(from as int, i as int)) > usize::MAX,
        decreases n - i,
    {
        let digit: usize = (s[i] - ZERO) as usize;
        proof {
            lemma_decimal_push(s@, from as int, i as int);
        }
        if !too_great {
            if value > (usize::MAX - digit) / 10 {
                too_great = true;
            } else {
                value = value * 10 + digit;
            }
        }
        i += 1;
    }
    if i == from || too_great {
        None
    } else {
        Some((value, i))
    }
}

/// The package that is written as `text`, if one is.
pub fn identity_from_text(text: &Vec<u8>) -> (found: Option<PackageIdentity>)
    ensures
        match found {
            Some(id) => identity_of(text@) == Some(id@),
            None => identity_of(text@) is None,
        },
{
    let plus = find_byte(text, PLUS);
    if plus >= text.len() {
        return None;
    }
    let left = copy_range(text, 0, plus);
    let version = copy_range(text, plus + 1, text.len());
    let tilde = find_byte(&left, TILDE);
    if tilde < left.len() {
        let scope = copy_range(&left, 0, tilde);
        let name = copy_range(&left, tilde + 1, left.len());
        if name.len() == 0 || version.len() == 0 || scope.len() == 0 {
            assert(scope@ =~= Seq::<u8>::empty() || scope@.len() > 0);
            None
        } else {
            assert(scope@ != Seq::<u8>::empty());
            Some(PackageIdentity { scope: Some(scope), name, version })
        }
    } else {
        if left.len() == 0 || version.len() == 0 {
            None
        } else {
            Some(PackageIdentity { scope: None, name: left, version })
        }
    }
}

fn read_identity(rec: &Vec<u8>) -> (found: Option<PackageIdentity>)
    ensures
        match found {
            Some(id) => parse_identity(rec@) == Some(id@),
            None => parse_identity(rec@) is None,
        },
{
    reveal(parse_identity);
    let n = rec.len();
    let tag = magic_bytes();
    if !stands_at(rec, 0, &tag) || n < 8 || rec[n - 1] != LF {
        return None;
    }
    let text = copy_range(rec, 7, n - 1);
    identity_from_text(&text)
}

fn read_side(rec: &Vec<u8>, new: bool) -> (found: Option<Option<Vec<u8>>>)
    ensures
        ({
            let tag = if new {
                new_tag()
            } else {
                old_tag()
            };
            let dir = if new {
                new_dir()
            } else {
                old_dir()
            };
            match found {
                Some(Some(path)) => parse_side(rec@, tag, dir) == Some(Some(path@)),
                Some(None) => parse_side(rec@, tag, dir) == Some(None::<Seq<u8>>),
                None => parse_side(rec@, tag, dir) is None,
            }
        }),
{
    reveal(parse_side);
    let n = rec.len();
    let tag = if new {
        bytes4(43, 43, 43, 32)
    } else {
        bytes4(45, 45, 45, 32)
    };
    let dir = if new {
        bytes2(98, 47)
    } else {
        bytes2(97, 47)
    };
    if !stands_at(rec, 0, &tag) || n < 5 || rec[n - 1] != LF {
        return None;
    }
    let rest = copy_range(rec, 4, n - 1);
    let nothing = no_file_bytes();
    if bytes_eq(&rest, &nothing) {
        Some(None)
    } else if stands_at(&rest, 0, &dir) {
        Some(Some(copy_range(&rest, 2, rest.len())))
    } else {
        None
    }
}

/// The four numbers of a line of ranges.
struct RangeNumbers {
    old_start: usize,
    old_lines: usize,
    new_start: usize,
    new_lines: usize,
}

impl View for RangeNumbers {
    type V = Ranges;

    closed spec fn view(&self) -> Ranges {
        Ranges {
            old_start: self.old_start as nat,
            old_lines: self.old_lines as nat,
            new_start: self.new_start as nat,
            new_lines: self.new_lines as nat,
        }
    }
}

fn read_range(rec: &Vec<u8>) -> (found: Option<RangeNumbers>)
    ensures
        match found {
            Some(r) => parse_range(rec@) == Some(r@),
            None => parse_range(rec@) is None,
        },
{
    reveal(parse_range);
    let n = rec.len();
    let open = bytes4(64, 64, 32, 45);
    let comma = {
        let mut tag: Vec<u8> = Vec::new();
        tag.push(COMMA);
        assert(tag@ =~= seq![COMMA]);
        tag
    };
    let mid = bytes2(32, 43);
    let tail = bytes4(32, 64, 64, LF);
    assert(tail@ =~= range_close() + seq![LF]);
    assert(open@ =~= range_open());
    assert(mid@ =~= range_mid());
    if !stands_at(rec, 0, &open) {
        return None;
    }
    let (old_start, e1) = match read_number(rec, 4) {
        Some(pair) => pair,
        None => {
            return None;
        },
    };
    if !stands_at(rec, e1, &comma) {
        return None;
    }
    let (old_lines, e2) = match read_number(rec, e1 + 1) {
        Some(pair) => pair,
        None => {
            return None;
        },
    };
    if !stands_at(rec, e2, &mid) {
        return None;
    }
    let (new_start, e3) = match read_number(rec, e2 + 2) {
        Some(pair) => pair,
        None => {
            return None;
        },
    };
    if !stands_at(rec, e3, &comma) {
        return None;
    }
    let (new_lines, e4) = match read_number(rec, e3 + 1) {
        Some(pair) => pair,
        None => {
            return None;
        },
    };
    if stands_at(rec, e4, &tail) && n - e4 == 4 {
        Some(RangeNumbers { old_start, old_lines, new_start, new_lines })
    } else {
        None
    }
}

fn read_line(recs: &Vec<Vec<u8>>, pos: usize, mark: u8) -> (found: Option<(Vec<u8>, usize)>)
    ensures
        match found {
            Some((line, next)) => take_line(lines_of(recs@), pos as int, mark) == Some(
                (line@, next as int),
            ) && pos < next <= recs@.len(),
            None => take_line(lines_of(recs@), pos as int, mark) is None,
        },
{
    let n = recs.len();
    if pos >= n {
        return None;
    }
    let rec = &recs[pos];
    assert(lines_of(recs@)[pos as int] == rec@);
    let len = rec.len();
    if len < 2 || rec[0] != mark || rec[len - 1] != LF {
        return None;
    }
    let marked = if pos + 1 < n {
        assert(lines_of(recs@)[pos + 1] == recs@[pos + 1]@);
        let wanted = marker_record();
        bytes_eq(&recs[pos + 1], &wanted)
    } else {
        false
    };
    if marked {
        if len < 3 {
            None
        } else {
            Some((copy_range(rec, 1, len - 1), pos + 2))
        }
    } else {
        Some((copy_range(rec, 1, len), pos + 1))
    }
}

fn read_lines(recs: &Vec<Vec<u8>>, pos: usize, mark: u8, limit: usize) -> (found: (
    Vec<Vec<u8>>,
    usize,
))
    requires
        pos <= recs@.len(),
    ensures
        (lines_of(found.0@), found.1 as int) == take_lines(
            lines_of(recs@),
            pos as int,
            mark,
            limit as int,
        ),
        found.0@.len() <= limit,
        pos <= found.1 <= recs@.len(),
        limit > 0 ==> (found.1 > pos <==> found.0@.len() > 0),
{
    let ghost all = lines_of(recs@);
    let mut lines: Vec<Vec<u8>> = Vec::new();
    let mut at: usize = pos;
    let mut taken: usize = 0;
    assert(lines_of(lines@) =~= Seq::<Seq<u8>>::empty());
    assert(Seq::<Seq<u8>>::empty() + take_lines(all, pos as int, mark, limit as int).0
        =~= take_lines(all, pos as int, mark, limit as int).0);
    while taken < limit
        invariant
            all == lines_of(recs@),
            pos <= at <= recs@.len(),
            taken <= limit,
            lines@.len() == taken,
            at > pos <==> taken > 0,
            take_lines(all, pos as int, mark, limit as int) == (
                lines_of(lines@) + take_lines(all, at as int, mark, limit - taken).0,
                take_lines(all, at as int, mark, limit - taken).1,
            ),
        ensures
            pos <= at <= recs@.len(),
            lines@.len() <= limit,
            lines@.len() == taken,
            at > pos <==> taken > 0,
            take_lines(all, pos as int, mark, limit as int) == (lines_of(lines@), at as int),
        decreases limit - taken,
    {
        match read_line(recs, at, mark) {
            None => {
                assert(lines_of(lines@) + Seq::<Seq<u8>>::empty() =~= lines_of(lines@));
                break ;
            },
            Some((line, next)) => {
                let ghost before = lines_of(lines@);
                let ghost rest = take_lines(all, next as int, mark, limit - taken - 1);
                assert(take_lines(all, at as int, mark, limit - taken) == (
                    seq![line@] + rest.0,
                    rest.1,
                ));
                lines.push(line);
                assert(lines_of(lines@) =~= before.push(line@));
                assert(lines_of(lines@) + rest.0 =~= before + (seq![line@] + rest.0));
                at = next;
                taken += 1;
            },
        }
    }
    proof {
        if taken == limit {
            assert(lines_of(lines@) + Seq::<Seq<u8>>::empty() =~= lines_of(lines@));
        }
    }
    (lines, at)
}

fn read_hunk(recs: &Vec<Vec<u8>>, pos: usize) -> (found: Result<(Hunk, usize), PatchFormatError>)
    requires
        pos < recs@.len(),
    ensures
        match found {
            Ok((hunk, next)) => parse_hunk(lines_of(recs@), pos as int) == Ok::<
                (HunkView, int),
                PatchFormatError,
            >((hunk@, next as int)) && pos < next <= recs@.len(),
            Err(e) => parse_hunk(lines_of(recs@), pos as int) == Err::<
                (HunkView, int),
                PatchFormatError,
            >(e),
        },
{
    let n = recs.len();
    assert(lines_of(recs@)[pos as int] == recs@[pos as int]@);
    let r = match read_range(&recs[pos]) {
        Some(r) => r,
        None => {
            return Err(PatchFormatError::MalformedHeader);
        },
    };
    let (before, cut1) = read_lines(recs, pos + 1, SPACE, r.old_lines);
    let (removed, cut2) = read_lines(recs, cut1, MINUS, r.old_lines - before.len());
    let room: usize = if r.new_lines >= before.len() {
        r.new_lines - before.len()
    } else {
        0
    };
    let (added, cut3) = read_lines(recs, cut2, PLUS, room);
    proof {
        if r.new_lines < before@.len() {
            assert(take_lines(lines_of(recs@), cut2 as int, PLUS, r.new_lines - before@.len()) == (
                Seq::<Seq<u8>>::empty(),
                cut2 as int,
            ));
            assert(lines_of(added@) =~= Seq::<Seq<u8>>::empty());
        }
    }
    let after_count = r.old_lines - before.len() - removed.len();
    if r.new_lines < before.len() || r.new_lines - before.len() - added.len() != after_count {
        return Err(PatchFormatError::HunkRangeMismatch);
    }
    let (after, cut4) = read_lines(recs, cut3, SPACE, after_count);
    if after.len() != after_count {
        return Err(PatchFormatError::HunkRangeMismatch);
    }
    Ok(
        (
            Hunk {
                old_start: r.old_start,
                old_lines: r.old_lines,
                new_start: r.new_start,
                new_lines: r.new_lines,
                context_before: before,
                removed,
                added,
                context_after: after,
            },
            cut4,
        ),
    )
}

/// The result of reading on behind the hunks `front`.
spec fn behind_hunks(
    front: Seq<HunkView>,
    rest: Result<(Seq<HunkView>, int), PatchFormatError>,
) -> Result<(Seq<HunkView>, int), PatchFormatError> {
    match rest {
        Ok((hunks, end)) => Ok((front + hunks, end)),
        Err(e) => Err(e),
    }
}

fn read_hunks(recs: &Vec<Vec<u8>>, pos: usize) -> (found: Result<
    (Vec<Hunk>, usize),
    PatchFormatError,
>)
    requires
        pos <= recs@.len(),
    ensures
        match found {
            Ok((hunks, next)) => parse_hunks(lines_of(recs@), pos as int) == Ok::<
                (Seq<HunkView>, int),
                PatchFormatError,
            >((hunks_of(hunks@), next as int)) && pos <= next <= recs@.len(),
            Err(e) => parse_hunks(lines_of(recs@), pos as int) == Err::<
                (Seq<HunkView>, int),
                PatchFormatError,
            >(e),
        },
{
    let ghost all = lines_of(recs@);
    let n = recs.len();
    let open = bytes4(64, 64, 32, 45);
    assert(open@ =~= range_open());
    let mut hunks: Vec<Hunk> = Vec::new();
    let mut at: usize = pos;
    assert(hunks_of(hunks@) =~= Seq::<HunkView>::empty());
    proof {
        let start = parse_hunks(all, pos as int);
        match start {
            Ok((h, e)) => {
                assert(Seq::<HunkView>::empty() + h =~= h);
            },
            Err(e) => {},
        }
    }
    loop
        invariant
            all == lines_of(recs@),
            n == recs@.len(),
            open@ == range_open(),
            pos <= at <= n,
            parse_hunks(all, pos as int) == behind_hunks(
                hunks_of(hunks@),
                parse_hunks(all, at as int),
            ),
        decreases n - at,
    {
        if at >= n {
            assert(hunks_of(hunks@) + Seq::<HunkView>::empty() =~= hunks_of(hunks@));
            return Ok((hunks, at));
        }
        assert(all[at as int] == recs@[at as int]@);
        if !stands_at(&recs[at], 0, &open) {
            assert(hunks_of(hunks@) + Seq::<HunkView>::empty() =~= hunks_of(hunks@));
            return Ok((hunks, at));
        }
        match read_hunk(recs, at) {
            Err(e) => {
                return Err(e);
            },
            Ok((hunk, next)) => {
                let ghost before = hunks_of(hunks@);
                let ghost rest = parse_hunks(all, next as int);
                proof {
                    match rest {
                        Ok((h, e)) => {
                            assert(parse_hunks(all, at as int) == Ok::<
                                (Seq<HunkView>, int),
                                PatchFormatError,
                            >((seq![hunk@] + h, e)));
                            assert(before + (seq![hunk@] + h) =~= before.push(hunk@) + h);
                        },
                        Err(e) => {},
                    }
                }
                hunks.push(hunk);
                assert(hunks_of(hunks@) =~= before.push(hunk@));
                at = next;
            },
        }
    }
}

fn read_whole(recs: &Vec<Vec<u8>>, pos: usize, added: bool) -> (found: Result<
    (Vec<u8>, usize),
    PatchFormatError,
>)
    requires
        pos <= recs@.len(),
    ensures
        match found {
            Ok((content, next)) => parse_whole(lines_of(recs@), pos as int, added) == Ok::<
                (Seq<u8>, int),
                PatchFormatError,
            >((content@, next as int)) && pos < next <= recs@.len(),
            Err(e) => parse_whole(lines_of(recs@), pos as int, added) == Err::<
                (Seq<u8>, int),
                PatchFormatError,
            >(e),
        },
{
    let n = recs.len();
    if pos >= n {
        return Err(PatchFormatError::MalformedHeader);
    }
    assert(lines_of(recs@)[pos as int] == recs@[pos as int]@);
    let r = match read_range(&recs[pos]) {
        Some(r) => r,
        None => {
            return Err(PatchFormatError::MalformedHeader);
        },
    };
    let count = if added {
        r.new_lines
    } else {
        r.old_lines
    };
    let as_declared = if added {
        r.old_start == 0 && r.old_lines == 0 && r.new_start == 1
    } else {
        r.old_start == 1 && r.new_start == 0 && r.new_lines == 0
    };
    let mark = if added {
        PLUS
    } else {
        MINUS
    };
    let (lines, end) = read_lines(recs, pos + 1, mark, count);
    if !as_declared || lines.len() != count {
        return Err(PatchFormatError::HunkRangeMismatch);
    }
    Ok((from_lines(&lines), end))
}

fn read_change(recs: &Vec<Vec<u8>>, pos: usize) -> (found: Result<
    (FileChange, usize),
    PatchFormatError,
>)
    requires
        pos < recs@.len(),
    ensures
        match found {
            Ok((change, next)) => parse_change(lines_of(recs@), pos as int) == Ok::<
                (FileChangeView, int),
                PatchFormatError,
            >((change@, next as int)) && pos < next <= recs@.len(),
            Err(e) => parse_change(lines_of(recs@), pos as int) == Err::<
                (FileChangeView, int),
                PatchFormatError,
            >(e),
        },
{
    let n = recs.len();
    if pos + 1 >= n {
        return Err(PatchFormatError::MalformedHeader);
    }
    assert(lines_of(recs@)[pos as int] == recs@[pos as int]@);
    assert(lines_of(recs@)[pos + 1] == recs@[pos + 1]@);
    let old = read_side(&recs[pos], false);
    let new = read_side(&recs[pos + 1], true);
    match (old, new) {
        (Some(None), Some(Some(path))) => match read_whole(recs, pos + 2, true) {
            Err(e) => Err(e),
            Ok((content, end)) => Ok((FileChange::Added { path, content }, end)),
        },
        (Some(Some(path)), Some(None)) => match read_whole(recs, pos + 2, false) {
            Err(e) => Err(e),
            Ok((content, end)) => Ok((FileChange::Removed { path, content }, end)),
        },
        (Some(Some(from)), Some(Some(to))) => match read_hunks(recs, pos + 2) {
            Err(e) => Err(e),
            Ok((hunks, end)) => if bytes_eq(&from, &to) {
                Ok((FileChange::Modified { path: from, hunks }, end))
            } else {
                Ok((FileChange::Renamed { from, to, hunks }, end))
            },
        },
        _ => Err(PatchFormatError::MalformedHeader),
    }
}

/// The result of reading on behind the changes `front`.
spec fn behind_changes(
    front: Seq<FileChangeView>,
    rest: Result<Seq<FileChangeView>, PatchFormatError>,
) -> Result<Seq<FileChangeView>, PatchFormatError> {
    match rest {
        Ok(changes) => Ok(front + changes),
        Err(e) => Err(e),
    }
}

fn read_changes(recs: &Vec<Vec<u8>>, pos: usize) -> (found: Result<
    Vec<FileChange>,
    PatchFormatError,
>)
    requires
        pos <= recs@.len(),
    ensures
        match found {
            Ok(changes) => parse_changes(lines_of(recs@), pos as int) == Ok::<
                Seq<FileChangeView>,
                PatchFormatError,
            >(changes_of(changes@)),
            Err(e) => parse_changes(lines_of(recs@), pos as int) == Err::<
                Seq<FileChangeView>,
                PatchFormatError,
            >(e),
        },
{
    let ghost all = lines_of(recs@);
    let n = recs.len();
    let mut changes: Vec<FileChange> = Vec::new();
    let mut at: usize = pos;
    assert(changes_of(changes@) =~= Seq::<FileChangeView>::empty());
    proof {
        match parse_changes(all, pos as int) {
            Ok(c) => {
                assert(Seq::<FileChangeView>::empty() + c =~= c);
            },
            Err(e) => {},
        }
    }
    while at < n
        invariant
            all == lines_of(recs@),
            n == recs@.len(),
            pos <= at <= n,
            parse_changes(all, pos as int) == behind_changes(
                changes_of(changes@),
                parse_changes(all, at as int),
            ),
        decreases n - at,
    {
        match read_change(recs, at) {
            Err(e) => {
                return Err(e);
            },
            Ok((change, next)) => {
                let ghost before = changes_of(changes@);
                proof {
                    match parse_changes(all, next as int) {
                        Ok(c) => {
                            assert(parse_changes(all, at as int) == Ok::<
                                Seq<FileChangeView>,
                                PatchFormatError,
                            >(seq![change@] + c));
                            assert(before + (seq![change@] + c) =~= before.push(change@) + c);
                        },
                        Err(e) => {},
                    }
                }
                changes.push(change);
                assert(changes_of(changes@) =~= before.push(change@));
                at = next;
            },
        }
    }
    assert(changes_of(changes@) + Seq::<FileChangeView>::empty() =~= changes_of(changes@));
    Ok(changes)
}

/// Reads a patch from its text form.
///
/// A text that does not begin with the heading of a patch is refused as
/// `UnknownFormat`; one whose heading names no package, or in which a line
/// that names a file or gives ranges is missing or broken, as
/// `MalformedHeader`; one in which the lines under a line of ranges are not
/// those it declares, as `HunkRangeMismatch`.
pub fn parse(text: &Vec<u8>) -> (parsed: Result<PatchFile, PatchFormatError>)
    ensures
        match parsed {
            Ok(patch) => parse_spec(text@) == Ok::<PatchFileView, PatchFormatError>(patch@),
            Err(e) => parse_spec(text@) == Err::<PatchFileView, PatchFormatError>(e),
        },
{
    let recs = to_lines(text);
    let n = recs.len();
    let tag = magic_bytes();
    if n == 0 {
        return Err(PatchFormatError::UnknownFormat);
    }
    assert(lines_of(recs@)[0] == recs@[0]@);
    assert(lines_of(recs@).last() == recs@[n - 1]@);
    if !stands_at(&recs[0], 0, &tag) {
        return Err(PatchFormatError::UnknownFormat);
    }
    let last = &recs[n - 1];
    if last.len() == 0 || last[last.len() - 1] != LF {
        return Err(PatchFormatError::MalformedHeader);
    }
    let package = match read_identity(&recs[0]) {
        Some(id) => id,
        None => {
            return Err(PatchFormatError::MalformedHeader);
        },
    };
    match read_changes(&recs, 1) {
        Err(e) => Err(e),
        Ok(changes) => Ok(PatchFile { package, changes }),
    }
}

} // verus!
