//! Byte strings: copying, comparing, and the lexicographic order by which
//! paths are sorted.

use vstd::prelude::*;

verus! {

/// The byte strings held by a vector of byte vectors.
pub open spec fn lines_of(v: Seq<Vec<u8>>) -> Seq<Seq<u8>> {
    Seq::new(v.len(), |i: int| v[i]@)
}

/// `a` comes before `b` in the lexicographic order of bytes, looking only at
/// the positions from `i` on.
pub open spec fn lex_less_from(a: Seq<u8>, b: Seq<u8>, i: int) -> bool
    decreases a.len() - i,
{
    if i < 0 || i >= b.len() {
        false
    } else if i >= a.len() {
        true
    } else if a[i] != b[i] {
        a[i] < b[i]
    } else {
        lex_less_from(a, b, i + 1)
    }
}

/// `a` comes strictly before `b` in the lexicographic order of bytes: at the
/// first position where they differ `a` has the smaller byte, or `a` is a
/// proper prefix of `b`.
pub open spec fn lex_less(a: Seq<u8>, b: Seq<u8>) -> bool {
    lex_less_from(a, b, 0)
}

/// The two strings agree on their first `i` bytes.
pub open spec fn agree_before(a: Seq<u8>, b: Seq<u8>, i: int) -> bool {
    &&& 0 <= i <= a.len()
    &&& i <= b.len()
    &&& forall|j: int| 0 <= j < i ==> a[j] == b[j]
}

proof fn lemma_lex_total_from(a: Seq<u8>, b: Seq<u8>, i: int)
    requires
        agree_before(a, b, i),
    ensures
        lex_less_from(a, b, i) || lex_less_from(b, a, i) || a == b,
        !(lex_less_from(a, b, i) && lex_less_from(b, a, i)),
        a == b ==> !lex_less_from(a, b, i),
    decreases a.len() - i,
{
    if i >= a.len() || i >= b.len() {
        if i >= a.len() && i >= b.len() {
            assert(a =~= b);
        }
    } else if a[i] == b[i] {
        lemma_lex_total_from(a, b, i + 1);
    }
}

proof fn lemma_lex_transitive_from(a: Seq<u8>, b: Seq<u8>, c: Seq<u8>, i: int)
    requires
        0 <= i,
        lex_less_from(a, b, i),
        lex_less_from(b, c, i),
    ensures
        lex_less_from(a, c, i),
    decreases a.len() - i,
{
    if i < a.len() && a[i] == b[i] && b[i] == c[i] {
        lemma_lex_transitive_from(a, b, c, i + 1);
    }
}

/// Of two byte strings exactly one holds: the first is less, the second is
/// less, or they are equal.
pub proof fn lemma_lex_trichotomy(a: Seq<u8>, b: Seq<u8>)
    ensures
        lex_less(a, b) || lex_less(b, a) || a == b,
        !(lex_less(a, b) && lex_less(b, a)),
        a == b ==> !lex_less(a, b) && !lex_less(b, a),
{
    lemma_lex_total_from(a, b, 0);
    lemma_lex_total_from(b, a, 0);
}

/// The lexicographic order is transitive.
pub proof fn lemma_lex_transitive(a: Seq<u8>, b: Seq<u8>, c: Seq<u8>)
    requires
        lex_less(a, b),
        lex_less(b, c),
    ensures
        lex_less(a, c),
{
    lemma_lex_transitive_from(a, b, c, 0);
}

/// Whether the two vectors hold the same bytes.
pub fn bytes_eq(a: &Vec<u8>, b: &Vec<u8>) -> (same: bool)
    ensures
        same == (a@ == b@),
{
    if a.len() != b.len() {
        return false;
    }
    let mut i: usize = 0;
    while i < a.len()
        invariant
            a@.len() == b@.len(),
            i <= a@.len(),
            forall|j: int| 0 <= j < i ==> a@[j] == b@[j],
        decreases a@.len() - i,
    {
        if a[i] != b[i] {
            return false;
        }
        i += 1;
    }
    assert(a@ =~= b@);
    true
}

/// Whether `a` comes strictly before `b` in the lexicographic order.
pub fn bytes_less(a: &Vec<u8>, b: &Vec<u8>) -> (less: bool)
    ensures
        less == lex_less(a@, b@),
{
    let mut i: usize = 0;
    while i < a.len() && i < b.len()
        invariant
            i <= a@.len(),
            i <= b@.len(),
            lex_less(a@, b@) == lex_less_from(a@, b@, i as int),
        decreases a@.len() - i,
    {
        if a[i] != b[i] {
            return a[i] < b[i];
        }
        i += 1;
    }
    i < b.len()
}

/// A copy of the bytes of `src` from position `from` up to `to`.
pub fn copy_range(src: &Vec<u8>, from: usize, to: usize) -> (copy: Vec<u8>)
    requires
        from <= to <= src@.len(),
    ensures
        copy@ == src@.subrange(from as int, to as int),
{
    let mut copy: Vec<u8> = Vec::new();
    let mut i: usize = from;
    while i < to
        invariant
            from <= i <= to <= src@.len(),
            copy@ == src@.subrange(from as int, i as int),
        decreases to - i,
    {
        copy.push(src[i]);
        assert(copy@ =~= src@.subrange(from as int, i + 1));
        i += 1;
    }
    copy
}

/// A copy of `src`.
pub fn copy_bytes(src: &Vec<u8>) -> (copy: Vec<u8>)
    ensures
        copy@ == src@,
{
    let copy = copy_range(src, 0, src.len());
    assert(src@.subrange(0, src@.len() as int) =~= src@);
    copy
}

/// Appends the bytes of `src` to `dst`.
pub fn append_bytes(dst: &mut Vec<u8>, src: &Vec<u8>)
    ensures
        final(dst)@ == old(dst)@ + src@,
{
    let mut i: usize = 0;
    while i < src.len()
        invariant
            i <= src@.len(),
            dst@ == old(dst)@ + src@.subrange(0, i as int),
        decreases src@.len() - i,
    {
        dst.push(src[i]);
        assert(dst@ =~= old(dst)@ + src@.subrange(0, i + 1));
        i += 1;
    }
    assert(src@.subrange(0, src@.len() as int) =~= src@);
}

/// A copy of the byte strings of `src` from position `from` up to `to`.
pub fn copy_lines(src: &Vec<Vec<u8>>, from: usize, to: usize) -> (copy: Vec<Vec<u8>>)
    requires
        from <= to <= src@.len(),
    ensures
        lines_of(copy@) == lines_of(src@).subrange(from as int, to as int),
{
    let mut copy: Vec<Vec<u8>> = Vec::new();
    let mut i: usize = from;
    while i < to
        invariant
            from <= i <= to <= src@.len(),
            lines_of(copy@) == lines_of(src@).subrange(from as int, i as int),
        decreases to - i,
    {
        let line = copy_bytes(&src[i]);
        let ghost prev = copy@;
        copy.push(line);
        assert(lines_of(copy@) =~= lines_of(src@).subrange(from as int, i + 1)) by {
            assert(lines_of(prev).len() == i - from);
            assert forall|j: int| 0 <= j < copy@.len() implies lines_of(copy@)[j] == lines_of(
                src@,
            ).subrange(from as int, i + 1)[j] by {
                if j < copy@.len() - 1 {
                    assert(lines_of(copy@)[j] == lines_of(prev)[j]);
                    assert(lines_of(prev)[j] == lines_of(src@).subrange(from as int, i as int)[j]);
                }
            }
        }
        i += 1;
    }
    copy
}

} // verus!
