//! The filter that decides which paths of a package take part: a path is
//! admitted when no excludes pattern matches it and, where patterns to take
//! in are given, one of them does.

use vstd::prelude::*;
use crate::bytes::{copy_range, lines_of};
use crate::glob::{glob_match, glob_matches, SLASH};

verus! {

/// The pattern ends in `/`: it names directories only.
pub open spec fn dir_only(pattern: Seq<u8>) -> bool {
    pattern.len() > 0 && pattern.last() == SLASH
}

/// The pattern begins with `/`.
pub open spec fn rooted(pattern: Seq<u8>) -> bool {
    pattern.len() > 0 && pattern[0] == SLASH
}

/// The pattern without a `/` at its start and without a `/` at its end.
pub open spec fn core_of(pattern: Seq<u8>) -> Seq<u8> {
    let from: int = if rooted(pattern) {
        1
    } else {
        0
    };
    let to: int = if dir_only(pattern) && pattern.len() - 1 >= from {
        pattern.len() - 1
    } else {
        pattern.len() as int
    };
    pattern.subrange(from, to)
}

/// The pattern is tied to the root: it begins with `/` or has a `/` inside.
/// Any other pattern may match at every level of the tree.
pub open spec fn anchored(pattern: Seq<u8>) -> bool {
    rooted(pattern) || core_of(pattern).contains(SLASH)
}

/// A name of the path begins at `s`.
pub open spec fn name_starts(path: Seq<u8>, s: int) -> bool {
    s == 0 || (0 < s <= path.len() && path[s - 1] == SLASH)
}

/// A name of the path ends at `e`.
pub open spec fn name_ends(path: Seq<u8>, e: int) -> bool {
    e == path.len() || (0 <= e < path.len() && path[e] == SLASH)
}

/// The pattern matches the names of the path from `s` up to `e`, and may do
/// so there: from the root if it is anchored, and on a directory (so not on
/// the last name) if it names directories only.
pub open spec fn matches_names(pattern: Seq<u8>, path: Seq<u8>, s: int, e: int) -> bool {
    &&& 0 <= s <= e <= path.len()
    &&& name_starts(path, s)
    &&& name_ends(path, e)
    &&& anchored(pattern) ==> s == 0
    &&& dir_only(pattern) ==> e < path.len()
    &&& glob_match(core_of(pattern), path.subrange(s, e))
}

/// The pattern matches the path: the path itself or one of the directories
/// above it, by some run of whole names.
pub open spec fn pattern_matches(pattern: Seq<u8>, path: Seq<u8>) -> bool {
    exists|s: int, e: int| matches_names(pattern, path, s, e)
}

/// One of the patterns matches the path.
pub open spec fn any_matches(patterns: Seq<Seq<u8>>, path: Seq<u8>) -> bool {
    exists|i: int| 0 <= i < patterns.len() && pattern_matches(#[trigger] patterns[i], path)
}

fn contains_slash(text: &Vec<u8>) -> (found: bool)
    ensures
        found == text@.contains(SLASH),
{
    let mut i: usize = 0;
    while i < text.len()
        invariant
            i <= text@.len(),
            forall|j: int| 0 <= j < i ==> text@[j] != SLASH,
        decreases text@.len() - i,
    {
        if text[i] == SLASH {
            return true;
        }
        i += 1;
    }
    false
}

/// Whether `pattern` matches `path`.
pub fn matches_pattern(pattern: &Vec<u8>, path: &Vec<u8>) -> (matched: bool)
    ensures
        matched == pattern_matches(pattern@, path@),
{
    let np = pattern.len();
    let n = path.len();
    let is_rooted = np > 0 && pattern[0] == SLASH;
    let is_dir_only = np > 0 && pattern[np - 1] == SLASH;
    let from: usize = if is_rooted {
        1
    } else {
        0
    };
    let to: usize = if is_dir_only && np - 1 >= from {
        np - 1
    } else {
        np
    };
    let core = copy_range(pattern, from, to);
    let is_anchored = is_rooted || contains_slash(&core);
    assert(core@ == core_of(pattern@));
    assert(is_anchored == anchored(pattern@));
    let mut s: usize = 0;
    loop
        invariant
            n == path@.len(),
            core@ == core_of(pattern@),
            is_anchored == anchored(pattern@),
            is_dir_only == dir_only(pattern@),
            s <= n,
            forall|s1: int, e1: int| s1 < s ==> !matches_names(pattern@, path@, s1, e1),
        ensures
            forall|s1: int, e1: int| !matches_names(pattern@, path@, s1, e1),
        decreases n - s,
    {
        if (s == 0 || path[s - 1] == SLASH) && (!is_anchored || s == 0) {
            let mut e: usize = s;
            loop
                invariant
                    n == path@.len(),
                    core@ == core_of(pattern@),
                    is_anchored == anchored(pattern@),
                    is_dir_only == dir_only(pattern@),
                    s <= e <= n,
                    name_starts(path@, s as int),
                    is_anchored ==> s == 0,
                    forall|e1: int| e1 < e ==> !matches_names(pattern@, path@, s as int, e1),
                ensures
                    forall|e1: int| !matches_names(pattern@, path@, s as int, e1),
                decreases n - e,
            {
                if (e == n || path[e] == SLASH) && (!is_dir_only || e < n) {
                    let names = copy_range(path, s, e);
                    if glob_matches(&core, &names) {
                        assert(matches_names(pattern@, path@, s as int, e as int));
                        return true;
                    }
                }
                if e == n {
                    break ;
                }
                e += 1;
            }
        }
        if s == n {
            break ;
        }
        s += 1;
    }
    false
}

/// Whether one of `patterns` matches `path`.
pub fn matches_any(patterns: &Vec<Vec<u8>>, path: &Vec<u8>) -> (matched: bool)
    ensures
        matched == any_matches(lines_of(patterns@), path@),
{
    let mut i: usize = 0;
    while i < patterns.len()
        invariant
            i <= patterns@.len(),
            forall|j: int| 0 <= j < i ==> !pattern_matches(#[trigger] lines_of(patterns@)[j], path@),
        decreases patterns@.len() - i,
    {
        if matches_pattern(&patterns[i], path) {
            assert(pattern_matches(lines_of(patterns@)[i as int], path@));
            return true;
        }
        i += 1;
    }
    false
}

/// The patterns that admit paths (all paths, where there are none) and the
/// patterns that shut paths out. A pattern that shuts a path out wins over one
/// that admits it.
#[derive(Debug, PartialEq, Eq)]
pub struct Filter {
    pub includes: Vec<Vec<u8>>,
    pub excludes: Vec<Vec<u8>>,
}

/// The mathematical value of a [`Filter`].
pub struct FilterView {
    pub includes: Seq<Seq<u8>>,
    pub excludes: Seq<Seq<u8>>,
}

impl FilterView {
    /// The path takes part.
    pub open spec fn admits(self, path: Seq<u8>) -> bool {
        &&& !any_matches(self.excludes, path)
        &&& self.includes.len() == 0 || any_matches(self.includes, path)
    }
}

impl View for Filter {
    type V = FilterView;

    open spec fn view(&self) -> FilterView {
        FilterView { includes: lines_of(self.includes@), excludes: lines_of(self.excludes@) }
    }
}

impl Filter {
    /// The filter with the given patterns.
    pub fn new(includes: Vec<Vec<u8>>, excludes: Vec<Vec<u8>>) -> (filter: Filter)
        ensures
            filter@.includes == lines_of(includes@),
            filter@.excludes == lines_of(excludes@),
    {
        Filter { includes, excludes }
    }

    /// The filter that admits every path.
    pub fn everything() -> (filter: Filter)
        ensures
            filter@.includes.len() == 0,
            filter@.excludes.len() == 0,
            forall|path: Seq<u8>| filter@.admits(path),
    {
        Filter { includes: Vec::new(), excludes: Vec::new() }
    }

    /// Whether `path`, given from the root of the package, takes part.
    pub fn matches(&self, path: &Vec<u8>) -> (admitted: bool)
        ensures
            admitted == self@.admits(path@),
    {
        if matches_any(&self.excludes, path) {
            return false;
        }
        self.includes.len() == 0 || matches_any(&self.includes, path)
    }
}

} // verus!
