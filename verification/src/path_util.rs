//! Locating a project: a directory path as a list of names, the parent of a
//! directory, and the search for a file through the ancestors of a directory.

use vstd::prelude::*;

verus! {

/// A directory or file path: whether it starts at the root, and the names that
/// lead from there (or from the working directory) to the place.
#[derive(Debug, PartialEq, Eq)]
pub struct DirPath {
    pub rooted: bool,
    pub parts: Vec<String>,
}

/// The mathematical value of a [`DirPath`].
pub struct DirPathView {
    pub rooted: bool,
    pub parts: Seq<Seq<char>>,
}

impl View for DirPath {
    type V = DirPathView;

    open spec fn view(&self) -> DirPathView {
        DirPathView {
            rooted: self.rooted,
            parts: Seq::new(self.parts@.len(), |i: int| self.parts@[i]@),
        }
    }
}

/// The path that `dir` becomes when its last name is dropped; a path without
/// names has no parent and stays as it is.
pub open spec fn parent_of(dir: DirPathView) -> DirPathView {
    if dir.parts.len() > 0 {
        DirPathView { rooted: dir.rooted, parts: dir.parts.drop_last() }
    } else {
        dir
    }
}

/// The `k`-th ancestor of `dir` (the directory itself for `k == 0`), for
/// `k` up to the number of names in `dir`.
pub open spec fn ancestor(dir: DirPathView, k: int) -> DirPathView {
    DirPathView { rooted: dir.rooted, parts: dir.parts.subrange(0, dir.parts.len() - k) }
}

/// The place of a file called `file_name` directly inside the `k`-th ancestor
/// of `dir`.
pub open spec fn candidate(dir: DirPathView, file_name: Seq<char>, k: int) -> DirPathView {
    DirPathView { rooted: dir.rooted, parts: ancestor(dir, k).parts.push(file_name) }
}

/// The probe has answered "no file" for the candidates in each of the first
/// `k` ancestors of `dir`.
pub open spec fn none_before<F: Fn(&DirPath) -> bool>(
    is_file: F,
    dir: DirPathView,
    file_name: Seq<char>,
    k: int,
) -> bool {
    forall|j: int|
        0 <= j < k ==> exists|q: DirPath|
            q@ == #[trigger] candidate(dir, file_name, j) && #[trigger] is_file.ensures(
                (&q,),
                false,
            )
}

fn copy_names(names: &Vec<String>, count: usize) -> (copy: Vec<String>)
    requires
        count <= names@.len(),
    ensures
        copy@.len() == count,
        forall|i: int| 0 <= i < count ==> copy@[i]@ == names@[i]@,
{
    let mut copy: Vec<String> = Vec::new();
    let mut i: usize = 0;
    while i < count
        invariant
            i <= count <= names@.len(),
            copy@.len() == i,
            forall|j: int| 0 <= j < i ==> copy@[j]@ == names@[j]@,
        decreases count - i,
    {
        copy.push(names[i].clone());
        i += 1;
    }
    copy
}

/// The parent of `dir`: the same path without its last name. A path that has
/// no name left (the root, or the empty relative path) is returned unchanged.
pub fn parent_dir(dir: &DirPath) -> (parent: DirPath)
    ensures
        parent@ == parent_of(dir@),
{
    let keep: usize = if dir.parts.len() > 0 {
        dir.parts.len() - 1
    } else {
        0
    };
    let parent = DirPath { rooted: dir.rooted, parts: copy_names(&dir.parts, keep) };
    assert(parent@.parts =~= parent_of(dir@).parts);
    parent
}

/// Looks for a file called `file_name` in `starting_directory` and then in each
/// of its ancestors, nearest first, asking `is_file` about one place at a time.
///
/// The result is the first place for which the probe said yes; every nearer
/// place was probed and answered no. `None` means that the probe said no for
/// the directory and all its ancestors.
pub fn find_file_in_parent_dirs<F: Fn(&DirPath) -> bool>(
    starting_directory: &DirPath,
    file_name: &str,
    is_file: F,
) -> (found: Option<DirPath>)
    requires
        forall|p: DirPath| is_file.requires((&p,)),
    ensures
        match found {
            Some(place) => exists|k: int|
                0 <= k <= starting_directory@.parts.len() && place@ == #[trigger] candidate(
                    starting_directory@,
                    file_name@,
                    k,
                ) && is_file.ensures((&place,), true) && none_before(
                    is_file,
                    starting_directory@,
                    file_name@,
                    k,
                ),
            None => none_before(
                is_file,
                starting_directory@,
                file_name@,
                starting_directory@.parts.len() as int + 1,
            ),
        },
{
    let total: usize = starting_directory.parts.len();
    let mut k: usize = 0;
    loop
        invariant
            total == starting_directory@.parts.len(),
            k <= total,
            forall|p: DirPath| is_file.requires((&p,)),
            none_before(is_file, starting_directory@, file_name@, k as int),
        decreases total - k,
    {
        let mut parts = copy_names(&starting_directory.parts, total - k);
        parts.push(file_name.to_owned());
        let place = DirPath { rooted: starting_directory.rooted, parts };
        assert(place@.parts =~= candidate(starting_directory@, file_name@, k as int).parts);
        if is_file(&place) {
            return Some(place);
        }
        proof {
            assert forall|j: int| 0 <= j < k + 1 implies exists|q: DirPath|
                q@ == #[trigger] candidate(starting_directory@, file_name@, j)
                    && #[trigger] is_file.ensures((&q,), false) by {
                if j == k {
                    assert(place@ == candidate(starting_directory@, file_name@, j)
                        && is_file.ensures((&place,), false));
                }
            }
        }
        if k == total {
            return None;
        }
        k += 1;
    }
}

/// What an attempt to create a directory came to.
#[derive(Clone, Copy, Debug, PartialEq, Eq, Structural)]
pub enum CreateDir {
    /// The directory was created.
    Created,
    /// It was not created because it is there already.
    AlreadyExists,
    /// It was not created for another reason.
    Failed,
}

/// Whether the directory is there after the attempt: it is when it was
/// created and when it had been there before.
pub fn dir_is_there(outcome: CreateDir) -> (there: bool)
    ensures
        there == (outcome is Created || outcome is AlreadyExists),
{
    match outcome {
        CreateDir::Created => true,
        CreateDir::AlreadyExists => true,
        CreateDir::Failed => false,
    }
}

} // verus!
