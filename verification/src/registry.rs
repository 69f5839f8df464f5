//! The patch files of a directory: each file name is read as the package it
//! is for, and the files are put in the order of their packages.

use vstd::prelude::*;
use crate::bytes::{bytes_eq, bytes_less, copy_bytes, copy_range, lemma_lex_transitive,
    lemma_lex_trichotomy, lex_less, lines_of};
use crate::change::{PackageIdentity, PackageIdentityView, PatchFile, PatchFileView};
use crate::format::{identity_bytes, identity_text};
use crate::parse::{identity_from_text, identity_of, parse, parse_spec, PatchFormatError};
use crate::roundtrip::{identity_wf, lemma_identity_text};

verus! {

/// `.patch`, in which the name of a patch file ends.
pub open spec fn patch_suffix() -> Seq<u8> {
    seq![46u8, 112u8, 97u8, 116u8, 99u8, 104u8]
}

/// The name of the patch file for a package.
pub open spec fn file_name_of(id: PackageIdentityView) -> Seq<u8> {
    identity_text(id) + patch_suffix()
}

/// The package that a file name is for, if it is the name of a patch file.
pub open spec fn identity_of_file_name(name: Seq<u8>) -> Option<PackageIdentityView> {
    if name.len() < patch_suffix().len() || name.subrange(
        name.len() - patch_suffix().len(),
        name.len() as int,
    ) != patch_suffix() {
        None
    } else {
        identity_of(name.subrange(0, name.len() - patch_suffix().len()))
    }
}

/// The name of the patch file for a package is read as the package.
pub proof fn lemma_file_name(id: PackageIdentityView)
    requires
        identity_wf(id),
    ensures
        identity_of_file_name(file_name_of(id)) == Some(id),
{
    let name = file_name_of(id);
    let text = identity_text(id);
    lemma_identity_text(id);
    assert(name.subrange(name.len() - 6, name.len() as int) =~= patch_suffix());
    assert(name.subrange(0, name.len() - 6) =~= text);
}

fn suffix_bytes() -> (suffix: Vec<u8>)
    ensures
        suffix@ == patch_suffix(),
{
    let mut suffix: Vec<u8> = Vec::new();
    suffix.push(46);
    suffix.push(112);
    suffix.push(97);
    suffix.push(116);
    suffix.push(99);
    suffix.push(104);
    assert(suffix@ =~= patch_suffix());
    suffix
}

/// The name of the patch file for a package.
pub fn patch_file_name(id: &PackageIdentity) -> (name: Vec<u8>)
    ensures
        name@ == file_name_of(id@),
{
    let mut name = identity_bytes(id);
    let suffix = suffix_bytes();
    crate::bytes::append_bytes(&mut name, &suffix);
    name
}

/// The package that a file name is for, if it is the name of a patch file.
pub fn parse_file_name(name: &Vec<u8>) -> (found: Option<PackageIdentity>)
    ensures
        match found {
            Some(id) => identity_of_file_name(name@) == Some(id@),
            None => identity_of_file_name(name@) is None,
        },
{
    let n = name.len();
    if n < 6 {
        return None;
    }
    let end = copy_range(name, n - 6, n);
    let suffix = suffix_bytes();
    if !bytes_eq(&end, &suffix) {
        return None;
    }
    let stem = copy_range(name, 0, n - 6);
    identity_from_text(&stem)
}

/// A patch file of the directory: its name and the package it is for.
#[derive(Debug, PartialEq, Eq)]
pub struct PatchRef {
    pub file_name: Vec<u8>,
    pub package: PackageIdentity,
}

/// The mathematical value of a [`PatchRef`].
pub struct PatchRefView {
    pub file_name: Seq<u8>,
    pub package: PackageIdentityView,
}

impl View for PatchRef {
    type V = PatchRefView;

    open spec fn view(&self) -> PatchRefView {
        PatchRefView { file_name: self.file_name@, package: self.package@ }
    }
}

/// The values of the references in a vector.
pub open spec fn refs_of(v: Seq<PatchRef>) -> Seq<PatchRefView> {
    Seq::new(v.len(), |i: int| v[i]@)
}

/// The scope by which a package is ordered; a package without a scope comes
/// before every scope.
pub open spec fn scope_key(id: PackageIdentityView) -> Seq<u8> {
    match id.scope {
        Some(scope) => scope,
        None => Seq::empty(),
    }
}

/// The first package comes before the second: by its scope, and within one
/// scope by its name.
pub open spec fn comes_before(a: PackageIdentityView, b: PackageIdentityView) -> bool {
    lex_less(scope_key(a), scope_key(b)) || (scope_key(a) == scope_key(b) && lex_less(
        a.name,
        b.name,
    ))
}

/// No reference stands before one that comes before it.
pub open spec fn in_order(refs: Seq<PatchRefView>) -> bool {
    forall|i: int, j: int|
        #![trigger refs[i], refs[j]]
        0 <= i < j < refs.len() ==> !comes_before(refs[j].package, refs[i].package)
}

/// The first position at or after `i` whose package comes after `id`.
pub open spec fn slot_from(refs: Seq<PatchRefView>, id: PackageIdentityView, i: int) -> int
    decreases refs.len() - i,
{
    if i < 0 || i >= refs.len() {
        refs.len() as int
    } else if comes_before(id, refs[i].package) {
        i
    } else {
        slot_from(refs, id, i + 1)
    }
}

/// The references with one more, put behind those that do not come after it.
pub open spec fn with_ref(refs: Seq<PatchRefView>, r: PatchRefView) -> Seq<PatchRefView> {
    refs.insert(slot_from(refs, r.package, 0), r)
}

/// The references to those of the first `n` names that are names of patch
/// files, in order. Other names are left out.
pub open spec fn listing(names: Seq<Seq<u8>>, n: int) -> Seq<PatchRefView>
    decreases n,
{
    if n <= 0 {
        Seq::empty()
    } else {
        match identity_of_file_name(names[n - 1]) {
            Some(package) => with_ref(
                listing(names, n - 1),
                PatchRefView { file_name: names[n - 1], package },
            ),
            None => listing(names, n - 1),
        }
    }
}

proof fn lemma_comes_before_transitive(
    a: PackageIdentityView,
    b: PackageIdentityView,
    c: PackageIdentityView,
)
    requires
        comes_before(a, b),
        comes_before(b, c),
    ensures
        comes_before(a, c),
{
    if lex_less(scope_key(a), scope_key(b)) && lex_less(scope_key(b), scope_key(c)) {
        lemma_lex_transitive(scope_key(a), scope_key(b), scope_key(c));
    } else if scope_key(a) == scope_key(b) && scope_key(b) == scope_key(c) {
        lemma_lex_transitive(a.name, b.name, c.name);
    }
}

proof fn lemma_slot(refs: Seq<PatchRefView>, id: PackageIdentityView, i: int)
    requires
        0 <= i <= refs.len(),
    ensures
        i <= slot_from(refs, id, i) <= refs.len(),
        forall|j: int|
            i <= j < slot_from(refs, id, i) ==> !comes_before(id, (#[trigger] refs[j]).package),
        slot_from(refs, id, i) < refs.len() ==> comes_before(
            id,
            refs[slot_from(refs, id, i)].package,
        ),
    decreases refs.len() - i,
{
    if i < refs.len() && !comes_before(id, refs[i].package) {
        lemma_slot(refs, id, i + 1);
    }
}

/// A reference put into references that are in order leaves them in order.
pub proof fn lemma_with_ref(refs: Seq<PatchRefView>, r: PatchRefView)
    requires
        in_order(refs),
    ensures
        in_order(with_ref(refs, r)),
{
    lemma_slot(refs, r.package, 0);
    let k = slot_from(refs, r.package, 0);
    let next = with_ref(refs, r);
    assert forall|i: int, j: int|
        #![trigger next[i], next[j]]
        0 <= i < j < next.len() implies !comes_before(next[j].package, next[i].package) by {
        let oi = if i < k {
            i
        } else {
            i - 1
        };
        let oj = if j < k {
            j
        } else {
            j - 1
        };
        if i == k {
            assert(next[j] == refs[oj]);
            if oj > k {
                assert(!comes_before(refs[oj].package, refs[k].package));
            } else {
                lemma_lex_trichotomy(scope_key(refs[k].package), scope_key(refs[k].package));
                lemma_lex_trichotomy(refs[k].package.name, refs[k].package.name);
            }
            if comes_before(next[j].package, r.package) {
                lemma_comes_before_transitive(refs[oj].package, r.package, refs[k].package);
            }
        } else if j == k {
            assert(next[i] == refs[oi]);
        } else {
            assert(next[i] == refs[oi]);
            assert(next[j] == refs[oj]);
            assert(!comes_before(refs[oj].package, refs[oi].package));
        }
    }
}

/// The listing is in order.
pub proof fn lemma_listing_in_order(names: Seq<Seq<u8>>, n: int)
    requires
        n <= names.len(),
    ensures
        in_order(listing(names, n)),
    decreases n,
{
    if n > 0 {
        lemma_listing_in_order(names, n - 1);
        match identity_of_file_name(names[n - 1]) {
            Some(package) => {
                lemma_with_ref(
                    listing(names, n - 1),
                    PatchRefView { file_name: names[n - 1], package },
                );
            },
            None => {},
        }
    }
}

/// The reference `r` is one of `refs`.
pub open spec fn listed(refs: Seq<PatchRefView>, r: PatchRefView) -> bool {
    exists|k: int| 0 <= k < refs.len() && refs[k] == r
}

proof fn lemma_with_ref_lists(refs: Seq<PatchRefView>, r: PatchRefView, other: PatchRefView)
    ensures
        listed(with_ref(refs, r), other) <==> (other == r || listed(refs, other)),
{
    lemma_slot(refs, r.package, 0);
    let k = slot_from(refs, r.package, 0);
    let next = with_ref(refs, r);
    assert(next[k] == r);
    if listed(refs, other) {
        let m = choose|m: int| 0 <= m < refs.len() && refs[m] == other;
        let nm = if m < k {
            m
        } else {
            m + 1
        };
        assert(next[nm] == other);
    }
    if listed(next, other) && other != r {
        let m = choose|m: int| 0 <= m < next.len() && next[m] == other;
        let om = if m < k {
            m
        } else {
            m - 1
        };
        assert(refs[om] == other);
    }
}

/// The listing holds a reference for each of the names that is the name of
/// a patch file, and nothing else.
pub proof fn lemma_listing_complete(names: Seq<Seq<u8>>, n: int, r: PatchRefView)
    requires
        0 <= n <= names.len(),
    ensures
        listed(listing(names, n), r) <==> exists|i: int|
            0 <= i < n && #[trigger] names[i] == r.file_name && identity_of_file_name(names[i])
                == Some(r.package),
    decreases n,
{
    if n > 0 {
        lemma_listing_complete(names, n - 1, r);
        let before = listing(names, n - 1);
        match identity_of_file_name(names[n - 1]) {
            Some(package) => {
                let last = PatchRefView { file_name: names[n - 1], package };
                lemma_with_ref_lists(before, last, r);
                if r == last {
                    assert(names[n - 1] == r.file_name);
                }
            },
            None => {},
        }
        if exists|i: int|
            0 <= i < n && #[trigger] names[i] == r.file_name && identity_of_file_name(names[i])
                == Some(r.package) {
            let i = choose|i: int|
                0 <= i < n && #[trigger] names[i] == r.file_name && identity_of_file_name(names[i])
                    == Some(r.package);
            if i < n - 1 {
                assert(0 <= i < n - 1 && names[i] == r.file_name);
            }
        }
        if listed(before, r) {
            let i = choose|i: int|
                0 <= i < n - 1 && #[trigger] names[i] == r.file_name && identity_of_file_name(
                    names[i],
                ) == Some(r.package);
            assert(0 <= i < n && names[i] == r.file_name);
        }
    }
}

fn scope_bytes(id: &PackageIdentity) -> (key: Vec<u8>)
    ensures
        key@ == scope_key(id@),
{
    match &id.scope {
        Some(scope) => copy_bytes(scope),
        None => Vec::new(),
    }
}

/// Whether the first package comes before the second.
pub fn package_before(a: &PackageIdentity, b: &PackageIdentity) -> (yes: bool)
    ensures
        yes == comes_before(a@, b@),
{
    let a_scope = scope_bytes(a);
    let b_scope = scope_bytes(b);
    if bytes_less(&a_scope, &b_scope) {
        true
    } else if bytes_eq(&a_scope, &b_scope) {
        bytes_less(&a.name, &b.name)
    } else {
        false
    }
}

/// The references to those of the names that are names of patch files, in
/// the order of their packages: by scope, then by name. A name that is not
/// the name of a patch file is left out.
pub fn list_patches(names: &Vec<Vec<u8>>) -> (refs: Vec<PatchRef>)
    ensures
        refs_of(refs@) == listing(lines_of(names@), names@.len() as int),
        in_order(refs_of(refs@)),
{
    let ghost all = lines_of(names@);
    let mut refs: Vec<PatchRef> = Vec::new();
    let mut n: usize = 0;
    assert(refs_of(refs@) =~= Seq::<PatchRefView>::empty());
    while n < names.len()
        invariant
            all == lines_of(names@),
            n <= names@.len(),
            refs_of(refs@) == listing(all, n as int),
        decreases names@.len() - n,
    {
        assert(all[n as int] == names@[n as int]@);
        match parse_file_name(&names[n]) {
            None => {},
            Some(package) => {
                let ghost before = refs_of(refs@);
                let mut at: usize = 0;
                while at < refs.len() && !package_before(&package, &refs[at].package)
                    invariant
                        before == refs_of(refs@),
                        at <= refs@.len(),
                        slot_from(before, package@, 0) == slot_from(before, package@, at as int),
                    decreases refs@.len() - at,
                {
                    assert(before[at as int] == refs@[at as int]@);
                    at += 1;
                }
                proof {
                    if at < refs@.len() {
                        assert(before[at as int] == refs@[at as int]@);
                    }
                }
                let entry = PatchRef { file_name: copy_bytes(&names[n]), package };
                let ghost value = entry@;
                refs.insert(at, entry);
                assert(refs_of(refs@) =~= before.insert(at as int, value));
            },
        }
        n += 1;
    }
    proof {
        lemma_listing_in_order(all, names@.len() as int);
    }
    refs
}

/// Whether two packages are the same.
pub fn same_package(a: &PackageIdentity, b: &PackageIdentity) -> (same: bool)
    ensures
        same == (a@ == b@),
{
    let scopes = match (&a.scope, &b.scope) {
        (Some(x), Some(y)) => bytes_eq(x, y),
        (None, None) => true,
        _ => false,
    };
    scopes && bytes_eq(&a.name, &b.name) && bytes_eq(&a.version, &b.version)
}

/// What reading the text of a listed patch file gives: the patch that the
/// text holds, if its heading names the package that the file name names. A
/// heading that names another package is a malformed heading.
pub open spec fn load_spec(listed: PatchRefView, text: Seq<u8>) -> Result<
    PatchFileView,
    PatchFormatError,
> {
    match parse_spec(text) {
        Ok(patch) => if patch.package == listed.package {
            Ok(patch)
        } else {
            Err(PatchFormatError::MalformedHeader)
        },
        Err(e) => Err(e),
    }
}

/// Reads the text of a listed patch file and checks its heading against the
/// name of the file.
pub fn load_patch(listed: &PatchRef, text: &Vec<u8>) -> (loaded: Result<
    PatchFile,
    PatchFormatError,
>)
    ensures
        match loaded {
            Ok(patch) => load_spec(listed@, text@) == Ok::<PatchFileView, PatchFormatError>(patch@),
            Err(e) => load_spec(listed@, text@) == Err::<PatchFileView, PatchFormatError>(e),
        },
{
    match parse(text) {
        Err(e) => Err(e),
        Ok(patch) => {
            if same_package(&patch.package, &listed.package) {
                Ok(patch)
            } else {
                Err(PatchFormatError::MalformedHeader)
            }
        },
    }
}

} // verus!
