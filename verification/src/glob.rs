//! Patterns for paths in the style of ignore files: `?` stands for one byte
//! of a name, `*` for any part of a name, `**` for any part of a path, and
//! `[..]` for one byte out of a class.

use vstd::prelude::*;

verus! {

/// `/`, which parts the names of a path.
pub const SLASH: u8 = 47;

/// `*`, which stands for any part of a name, and doubled for any part of a path.
pub const STAR: u8 = 42;

/// `?`, which stands for one byte of a name.
pub const QUESTION: u8 = 63;

/// `[`, which opens a class.
pub const OPEN: u8 = 91;

/// `]`, which closes a class.
pub const CLOSE: u8 = 93;

/// `!`, which at the start of a class turns it into its complement.
pub const BANG: u8 = 33;

/// `^`, which at the start of a class turns it into its complement.
pub const CARET: u8 = 94;

/// `-`, which between two bytes of a class makes a range of them.
pub const DASH: u8 = 45;

/// The first position at or after `k` at which `p` has a `]`, or -1.
pub open spec fn find_close(p: Seq<u8>, k: int) -> int
    decreases p.len() - k,
{
    if k < 0 || k >= p.len() {
        -1
    } else if p[k] == CLOSE {
        k
    } else {
        find_close(p, k + 1)
    }
}

/// Whether the class that opens at `pi` is written with `!` or `^` in front,
/// and so stands for the bytes that it does not list.
pub open spec fn class_negated(p: Seq<u8>, pi: int) -> bool {
    pi + 1 < p.len() && (p[pi + 1] == BANG || p[pi + 1] == CARET)
}

/// The position of the first member of the class that opens at `pi`.
pub open spec fn class_start(p: Seq<u8>, pi: int) -> int {
    if class_negated(p, pi) {
        pi + 2
    } else {
        pi + 1
    }
}

/// The position of the `]` that closes the class opening at `pi`, or -1 where
/// it is never closed. A `]` that comes first in the class is a member.
pub open spec fn class_close(p: Seq<u8>, pi: int) -> int {
    find_close(p, class_start(p, pi) + 1)
}

/// Whether the members written in `p` from `k` up to `close` include `c`. A
/// member is one byte, or a range written as two bytes with `-` between.
pub open spec fn class_lists(p: Seq<u8>, k: int, close: int, c: u8) -> bool
    decreases close - k,
{
    if k < 0 || k >= close || close > p.len() {
        false
    } else if k + 2 < close && p[k + 1] == DASH {
        (p[k] <= c && c <= p[k + 2]) || class_lists(p, k + 3, close, c)
    } else {
        p[k] == c || class_lists(p, k + 1, close, c)
    }
}

/// Whether the class that opens at `pi` and closes at `close` stands for `c`.
pub open spec fn class_has(p: Seq<u8>, pi: int, close: int, c: u8) -> bool {
    class_negated(p, pi) != class_lists(p, class_start(p, pi), close, c)
}

/// Whether the pattern `p` from `pi` on matches the text `t` from `ti` on.
pub open spec fn glob_from(p: Seq<u8>, t: Seq<u8>, pi: int, ti: int) -> bool
    decreases t.len() - ti, p.len() - pi,
{
    if pi < 0 || ti < 0 || ti > t.len() {
        false
    } else if pi >= p.len() {
        ti == t.len()
    } else if p[pi] == STAR {
        if pi + 1 < p.len() && p[pi + 1] == STAR {
            ||| glob_from(p, t, pi + 2, ti)
            ||| (pi + 2 < p.len() && p[pi + 2] == SLASH && glob_from(p, t, pi + 3, ti))
            ||| (ti < t.len() && glob_from(p, t, pi, ti + 1))
        } else {
            ||| glob_from(p, t, pi + 1, ti)
            ||| (ti < t.len() && t[ti] != SLASH && glob_from(p, t, pi, ti + 1))
        }
    } else if ti >= t.len() {
        false
    } else if p[pi] == QUESTION {
        t[ti] != SLASH && glob_from(p, t, pi + 1, ti + 1)
    } else if p[pi] == OPEN && class_close(p, pi) >= 0 {
        &&& t[ti] != SLASH
        &&& class_has(p, pi, class_close(p, pi), t[ti])
        &&& glob_from(p, t, class_close(p, pi) + 1, ti + 1)
    } else {
        p[pi] == t[ti] && glob_from(p, t, pi + 1, ti + 1)
    }
}

/// Whether the pattern `p` matches the whole of the text `t`.
pub open spec fn glob_match(p: Seq<u8>, t: Seq<u8>) -> bool {
    glob_from(p, t, 0, 0)
}

/// The pattern has none of the bytes that stand for something else.
pub open spec fn is_literal(p: Seq<u8>) -> bool {
    forall|i: int| 0 <= i < p.len() ==> p[i] != STAR && p[i] != QUESTION && p[i] != OPEN
}

proof fn lemma_literal_from(p: Seq<u8>, t: Seq<u8>, pi: int, ti: int)
    requires
        is_literal(p),
        0 <= pi <= p.len(),
        0 <= ti <= t.len(),
    ensures
        glob_from(p, t, pi, ti) <==> p.subrange(pi, p.len() as int) == t.subrange(
            ti,
            t.len() as int,
        ),
    decreases p.len() - pi,
{
    let rest_p = p.subrange(pi, p.len() as int);
    let rest_t = t.subrange(ti, t.len() as int);
    if pi >= p.len() {
        if ti == t.len() {
            assert(rest_p =~= rest_t);
        } else {
            assert(rest_p.len() != rest_t.len());
        }
    } else if ti >= t.len() {
        assert(rest_p.len() != rest_t.len());
    } else {
        lemma_literal_from(p, t, pi + 1, ti + 1);
        let next_p = p.subrange(pi + 1, p.len() as int);
        let next_t = t.subrange(ti + 1, t.len() as int);
        assert(rest_p =~= seq![p[pi]] + next_p);
        assert(rest_t =~= seq![t[ti]] + next_t);
        if rest_p == rest_t {
            assert(rest_p[0] == rest_t[0]);
            assert(next_p =~= rest_p.subrange(1, rest_p.len() as int));
            assert(next_t =~= rest_t.subrange(1, rest_t.len() as int));
        }
    }
}

/// A pattern without `*`, `?` and `[` matches itself and nothing else.
pub proof fn lemma_literal_pattern(p: Seq<u8>, t: Seq<u8>)
    requires
        is_literal(p),
    ensures
        glob_match(p, t) <==> p == t,
{
    lemma_literal_from(p, t, 0, 0);
    assert(p.subrange(0, p.len() as int) =~= p);
    assert(t.subrange(0, t.len() as int) =~= t);
}

proof fn lemma_star_from(t: Seq<u8>, ti: int)
    requires
        0 <= ti <= t.len(),
    ensures
        glob_from(seq![STAR], t, 0, ti) <==> forall|k: int| ti <= k < t.len() ==> t[k] != SLASH,
        glob_from(seq![STAR, STAR], t, 0, ti),
    decreases t.len() - ti,
{
    let one = seq![STAR];
    let two = seq![STAR, STAR];
    assert(glob_from(one, t, 1, ti) == (ti == t.len()));
    assert(glob_from(two, t, 2, ti) == (ti == t.len()));
    if ti < t.len() {
        lemma_star_from(t, ti + 1);
    }
}

/// `*` matches every name and nothing that has a `/` in it; `**` matches
/// every path.
pub proof fn lemma_star_patterns(t: Seq<u8>)
    ensures
        glob_match(seq![STAR], t) <==> !t.contains(SLASH),
        glob_match(seq![STAR, STAR], t),
{
    lemma_star_from(t, 0);
    if t.contains(SLASH) {
        let k = choose|k: int| 0 <= k < t.len() && t[k] == SLASH;
        assert(t[k] == SLASH);
    }
}

proof fn lemma_find_close(p: Seq<u8>, k: int)
    requires
        0 <= k,
    ensures
        find_close(p, k) == -1 || k <= find_close(p, k) < p.len(),
    decreases p.len() - k,
{
    if k < p.len() && p[k] != CLOSE {
        lemma_find_close(p, k + 1);
    }
}

fn find_class_close(p: &Vec<u8>, pi: usize) -> (close: Option<usize>)
    requires
        pi < p@.len(),
    ensures
        match close {
            Some(k) => k == class_close(p@, pi as int) && pi < k < p@.len(),
            None => class_close(p@, pi as int) == -1,
        },
{
    let n = p.len();
    let negated = pi + 1 < n && (p[pi + 1] == BANG || p[pi + 1] == CARET);
    assert(negated == class_negated(p@, pi as int));
    if pi + 1 >= n || (negated && pi + 2 >= n) {
        assert(find_close(p@, class_start(p@, pi as int) + 1) == -1);
        return None;
    }
    let start: usize = if negated {
        pi + 2
    } else {
        pi + 1
    };
    assert(start == class_start(p@, pi as int));
    let mut k: usize = start + 1;
    while k < n
        invariant
            n == p@.len(),
            pi < start,
            start == class_start(p@, pi as int),
            start + 1 <= k <= n,
            find_close(p@, start + 1) == find_close(p@, k as int),
        decreases n - k,
    {
        if p[k] == CLOSE {
            return Some(k);
        }
        k += 1;
    }
    None
}

fn class_contains(p: &Vec<u8>, pi: usize, close: usize, c: u8) -> (has: bool)
    requires
        pi < close < p@.len(),
    ensures
        has == class_has(p@, pi as int, close as int, c),
{
    let n = p.len();
    let negated = pi + 1 < n && (p[pi + 1] == BANG || p[pi + 1] == CARET);
    let start: usize = if negated {
        pi + 2
    } else {
        pi + 1
    };
    let mut k: usize = start;
    let mut listed = false;
    while k < close
        invariant
            n == p@.len(),
            close < n,
            start <= k,
            class_lists(p@, start as int, close as int, c) == (listed || class_lists(
                p@,
                k as int,
                close as int,
                c,
            )),
        decreases close - k,
    {
        if k + 2 < close && p[k + 1] == DASH {
            if p[k] <= c && c <= p[k + 2] {
                listed = true;
            }
            k += 3;
        } else {
            if p[k] == c {
                listed = true;
            }
            k += 1;
        }
    }
    negated != listed
}

/// The row holds, from its end to its start, whether the pattern from each
/// of its last `filled` positions on matches the text from `ti` on.
spec fn row_filled(row: Seq<bool>, p: Seq<u8>, t: Seq<u8>, ti: int, filled: int) -> bool {
    &&& row.len() == filled
    &&& forall|k: int| 0 <= k < filled ==> #[trigger] row[k] == glob_from(p, t, p.len() - 1 - k, ti)
}

fn entry(
    row: &Vec<bool>,
    pattern: &Vec<u8>,
    pi: usize,
    ti: usize,
    nt: usize,
    Ghost(t): Ghost<Seq<u8>>,
) -> (value: bool)
    requires
        row_filled(row@, pattern@, t, ti as int, row@.len() as int),
        nt == t.len(),
        ti <= nt,
        pattern@.len() - row@.len() <= pi <= pattern@.len(),
        row@.len() <= pattern@.len(),
    ensures
        value == glob_from(pattern@, t, pi as int, ti as int),
{
    let np = pattern.len();
    if pi >= np {
        ti == nt
    } else {
        row[np - 1 - pi]
    }
}

fn glob_row(pattern: &Vec<u8>, text: &Vec<u8>, at: usize, below: &Vec<bool>) -> (row: Vec<bool>)
    requires
        at <= text@.len(),
        at < text@.len() ==> row_filled(below@, pattern@, text@, at + 1, pattern@.len() as int),
    ensures
        row_filled(row@, pattern@, text@, at as int, pattern@.len() as int),
{
    let np = pattern.len();
    let nt = text.len();
    let ghost p = pattern@;
    let ghost t = text@;
    let mut row: Vec<bool> = Vec::new();
    let mut k: usize = 0;
    while k < np
        invariant
            np == pattern@.len(),
            nt == text@.len(),
            p == pattern@,
            t == text@,
            at <= nt,
            at < nt ==> row_filled(below@, p, t, at + 1, np as int),
            k <= np,
            row_filled(row@, p, t, at as int, k as int),
        decreases np - k,
    {
        let pi = np - 1 - k;
        let c = pattern[pi];
        let value: bool = if c == STAR {
            if pi + 1 < np && pattern[pi + 1] == STAR {
                let skip = entry(&row, pattern, pi + 2, at, nt, Ghost(t));
                let skip_slash = pi + 2 < np && pattern[pi + 2] == SLASH && entry(
                    &row,
                    pattern,
                    pi + 3,
                    at,
                    nt,
                    Ghost(t),
                );
                let eat = at < nt && entry(below, pattern, pi, at + 1, nt, Ghost(t));
                skip || skip_slash || eat
            } else {
                let skip = entry(&row, pattern, pi + 1, at, nt, Ghost(t));
                skip || (at < nt && text[at] != SLASH && entry(
                    below,
                    pattern,
                    pi,
                    at + 1,
                    nt,
                    Ghost(t),
                ))
            }
        } else if at >= nt {
            false
        } else if c == QUESTION {
            text[at] != SLASH && entry(below, pattern, pi + 1, at + 1, nt, Ghost(t))
        } else if c == OPEN {
            match find_class_close(pattern, pi) {
                Some(close) => {
                    text[at] != SLASH && class_contains(pattern, pi, close, text[at]) && entry(
                        below,
                        pattern,
                        close + 1,
                        at + 1,
                        nt,
                        Ghost(t),
                    )
                },
                None => c == text[at] && entry(below, pattern, pi + 1, at + 1, nt, Ghost(t)),
            }
        } else {
            c == text[at] && entry(below, pattern, pi + 1, at + 1, nt, Ghost(t))
        };
        assert(value == glob_from(p, t, pi as int, at as int));
        row.push(value);
        k += 1;
    }
    row
}

/// Whether `pattern` matches the whole of `text`.
pub fn glob_matches(pattern: &Vec<u8>, text: &Vec<u8>) -> (matched: bool)
    ensures
        matched == glob_match(pattern@, text@),
{
    let np = pattern.len();
    let nt = text.len();
    let none: Vec<bool> = Vec::new();
    let mut row = glob_row(pattern, text, nt, &none);
    let mut ti: usize = nt;
    while ti > 0
        invariant
            np == pattern@.len(),
            nt == text@.len(),
            ti <= nt,
            row_filled(row@, pattern@, text@, ti as int, np as int),
        decreases ti,
    {
        ti -= 1;
        row = glob_row(pattern, text, ti, &row);
    }
    if np == 0 {
        nt == 0
    } else {
        row[np - 1]
    }
}

} // verus!
