//! A file's content as a sequence of lines. A line keeps its line feed, so the
//! lines of a text, put together again, are the text byte for byte; only the
//! last line of a text may lack the line feed.

use vstd::prelude::*;
use crate::bytes::{append_bytes, copy_range, lines_of};

verus! {

/// The line feed.
pub const LF: u8 = 10;

/// The position just behind the line that starts at `i`: behind the first
/// line feed at or after `i`, or the end of the text where there is none.
pub open spec fn line_end(text: Seq<u8>, i: int) -> int
    decreases text.len() - i,
{
    if i < 0 || i >= text.len() {
        text.len() as int
    } else if text[i] == LF {
        i + 1
    } else {
        line_end(text, i + 1)
    }
}

/// The lines of the part of `text` that starts at `i`.
pub open spec fn split_lines_from(text: Seq<u8>, i: int) -> Seq<Seq<u8>>
    decreases text.len() - i,
{
    if i < 0 || i >= text.len() {
        Seq::empty()
    } else {
        let e = line_end(text, i);
        if e <= i || e > text.len() {
            Seq::empty()
        } else {
            seq![text.subrange(i, e)] + split_lines_from(text, e)
        }
    }
}

/// The lines of `text`, each with its line feed.
pub open spec fn split_lines(text: Seq<u8>) -> Seq<Seq<u8>> {
    split_lines_from(text, 0)
}

/// The text made of `lines`, one after the other.
pub open spec fn concat_lines(lines: Seq<Seq<u8>>) -> Seq<u8>
    decreases lines.len(),
{
    if lines.len() == 0 {
        Seq::empty()
    } else {
        concat_lines(lines.drop_last()) + lines.last()
    }
}

/// A line as it stands in a text: not empty, and with no line feed but at its
/// end.
pub open spec fn is_line(line: Seq<u8>) -> bool {
    &&& line.len() > 0
    &&& forall|i: int| 0 <= i < line.len() - 1 ==> line[i] != LF
}

/// Every member of `lines` is a line.
pub open spec fn all_lines(lines: Seq<Seq<u8>>) -> bool {
    forall|i: int| 0 <= i < lines.len() ==> is_line(#[trigger] lines[i])
}

/// A line ends behind its start and within the text, has no line feed
/// before its last byte, and ends in a line feed unless it ends the text.
pub proof fn lemma_line_end(text: Seq<u8>, i: int)
    requires
        0 <= i < text.len(),
    ensures
        i < line_end(text, i) <= text.len(),
        forall|j: int| i <= j < line_end(text, i) - 1 ==> text[j] != LF,
        line_end(text, i) < text.len() ==> text[line_end(text, i) - 1] == LF,
    decreases text.len() - i,
{
    if text[i] != LF {
        if i + 1 < text.len() {
            lemma_line_end(text, i + 1);
        } else {
            assert(line_end(text, i + 1) == text.len());
        }
    }
}

/// Concatenation distributes over the joining of two line sequences.
pub proof fn lemma_concat_append(s: Seq<Seq<u8>>, t: Seq<Seq<u8>>)
    ensures
        concat_lines(s + t) == concat_lines(s) + concat_lines(t),
    decreases t.len(),
{
    if t.len() == 0 {
        assert(s + t =~= s);
        assert(concat_lines(s) + concat_lines(t) =~= concat_lines(s));
    } else {
        assert((s + t).drop_last() =~= s + t.drop_last());
        assert((s + t).last() == t.last());
        lemma_concat_append(s, t.drop_last());
        assert(concat_lines(s + t) =~= concat_lines(s) + concat_lines(t));
    }
}

/// One line put together is that line.
pub proof fn lemma_concat_one(line: Seq<u8>)
    ensures
        concat_lines(seq![line]) == line,
{
    assert(seq![line].drop_last() =~= Seq::<Seq<u8>>::empty());
    assert(concat_lines(Seq::<Seq<u8>>::empty()) =~= Seq::<u8>::empty());
    assert(concat_lines(seq![line]) =~= line);
}

proof fn lemma_split_from(text: Seq<u8>, i: int)
    requires
        0 <= i <= text.len(),
    ensures
        concat_lines(split_lines_from(text, i)) == text.subrange(i, text.len() as int),
        all_lines(split_lines_from(text, i)),
        split_lines_from(text, i).len() <= text.len() - i,
    decreases text.len() - i,
{
    if i >= text.len() {
        assert(text.subrange(i, text.len() as int) =~= Seq::<u8>::empty());
    } else {
        lemma_line_end(text, i);
        let e = line_end(text, i);
        let first = text.subrange(i, e);
        let rest = split_lines_from(text, e);
        lemma_split_from(text, e);
        lemma_concat_append(seq![first], rest);
        lemma_concat_one(first);
        assert(first + text.subrange(e, text.len() as int) =~= text.subrange(
            i,
            text.len() as int,
        ));
        assert(is_line(first));
        assert forall|k: int| 0 <= k < split_lines_from(text, i).len() implies is_line(
            #[trigger] split_lines_from(text, i)[k],
        ) by {
            if k > 0 {
                assert(split_lines_from(text, i)[k] == rest[k - 1]);
            }
        }
    }
}

/// The lines of a text make up the text again, each of them is a line, and
/// there are no more of them than the text has bytes.
pub proof fn lemma_split_concat(text: Seq<u8>)
    ensures
        concat_lines(split_lines(text)) == text,
        all_lines(split_lines(text)),
        split_lines(text).len() <= text.len(),
{
    lemma_split_from(text, 0);
    assert(text.subrange(0, text.len() as int) =~= text);
}

/// Cuts `text` into its lines.
pub fn to_lines(text: &Vec<u8>) -> (lines: Vec<Vec<u8>>)
    ensures
        lines_of(lines@) == split_lines(text@),
{
    let mut lines: Vec<Vec<u8>> = Vec::new();
    let mut start: usize = 0;
    assert(lines_of(lines@) =~= Seq::<Seq<u8>>::empty());
    while start < text.len()
        invariant
            start <= text@.len(),
            lines_of(lines@) + split_lines_from(text@, start as int) == split_lines(text@),
        decreases text@.len() - start,
    {
        let mut end: usize = start;
        while end < text.len() && text[end] != LF
            invariant
                start <= end <= text@.len(),
                line_end(text@, start as int) == line_end(text@, end as int),
            decreases text@.len() - end,
        {
            end += 1;
        }
        if end < text.len() {
            end += 1;
        }
        proof {
            lemma_line_end(text@, start as int);
        }
        assert(end == line_end(text@, start as int));
        let line = copy_range(text, start, end);
        let ghost before = lines_of(lines@);
        lines.push(line);
        assert(lines_of(lines@) =~= before + seq![text@.subrange(start as int, end as int)]);
        assert(lines_of(lines@) + split_lines_from(text@, end as int) =~= before
            + split_lines_from(text@, start as int));
        start = end;
    }
    assert(lines_of(lines@) + split_lines_from(text@, start as int) =~= lines_of(lines@));
    lines
}

/// Puts `lines` together into one text.
pub fn from_lines(lines: &Vec<Vec<u8>>) -> (text: Vec<u8>)
    ensures
        text@ == concat_lines(lines_of(lines@)),
{
    let mut text: Vec<u8> = Vec::new();
    let mut i: usize = 0;
    assert(lines_of(lines@).subrange(0, 0) =~= Seq::<Seq<u8>>::empty());
    while i < lines.len()
        invariant
            i <= lines@.len(),
            text@ == concat_lines(lines_of(lines@).subrange(0, i as int)),
        decreases lines@.len() - i,
    {
        append_bytes(&mut text, &lines[i]);
        proof {
            let next = lines_of(lines@).subrange(0, i + 1);
            assert(next.drop_last() =~= lines_of(lines@).subrange(0, i as int));
            assert(next.last() == lines@[i as int]@);
        }
        i += 1;
    }
    assert(lines_of(lines@).subrange(0, i as int) =~= lines_of(lines@));
    text
}

} // verus!
