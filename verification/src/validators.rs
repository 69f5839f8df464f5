//! The check of a package name against the naming grammar.

use vstd::prelude::*;
use vstd::string::{StrSliceExecFns, StringExecFns, StringSliceAdditionalSpecFns};
use crate::bytes::{copy_bytes, copy_range};
use crate::change::{PackageIdentity, PackageIdentityView};
use crate::glob::SLASH;
use crate::parse::index_of;

verus! {

/// The grammar of a package name, with or without an organisation in front.
pub const PACKAGE_NAME_PATTERN: &'static str =
    "^(@[a-z0-9-~][a-z0-9-._~]*/)?[a-z0-9-~][a-z0-9-._~]*$";

/// What a search for the regular expression `pattern` in `haystack` gives:
/// whether some part of the haystack matches, or `None` where the pattern is
/// not a regular expression that can be built.
pub uninterp spec fn regex_search(pattern: Seq<char>, haystack: Seq<char>) -> Option<bool>;

/// Builds the expression with `regex::Regex::new` and searches the haystack
/// with `regex::Regex::is_match`. Both depend on the two texts alone; the
/// contract names the outcome and claims nothing else about it.
#[verifier::external_body]
fn search(pattern: &str, haystack: &str) -> (found: Option<bool>)
    ensures
        found == regex_search(pattern@, haystack@),
{
    match regex::Regex::new(pattern) {
        Ok(expression) => Some(expression.is_match(haystack)),
        Err(_) => None,
    }
}

/// The text of the refusal of `value` as a package name.
pub open spec fn invalid_name_message(value: Seq<char>) -> Seq<char> {
    "`"@ + value + "` is not a valid name for a package."@
}

/// Turns the outcome of the search into the verdict on `value`: the name is
/// accepted exactly when the search found a match.
pub fn name_verdict(value: &str, found: Option<bool>) -> (verdict: Result<(), String>)
    ensures
        verdict is Ok <==> found == Some(true),
        verdict matches Err(message) ==> message@ == invalid_name_message(value@),
{
    match found {
        Some(true) => Ok(()),
        _ => {
            let message = String::from_str("`").concat(value).concat(
                "` is not a valid name for a package.",
            );
            Err(message)
        },
    }
}

/// Accepts `value` when it is a package name: lower-case letters, digits and
/// `- . _ ~`, not starting with `.` or `_`, optionally after an organisation
/// written as `@org/`.
pub fn is_valid_package_name(value: &str) -> (verdict: Result<(), String>)
    ensures
        verdict is Ok <==> regex_search(PACKAGE_NAME_PATTERN@, value@) == Some(true),
        verdict matches Err(message) ==> message@ == invalid_name_message(value@),
{
    name_verdict(value, search(PACKAGE_NAME_PATTERN, value))
}

/// The package with the given name and version: what stands before the
/// first `/` of the name is its scope, what stands behind it its name.
pub open spec fn identity_for(name: Seq<u8>, version: Seq<u8>) -> PackageIdentityView {
    let slash = index_of(name, SLASH, 0);
    if slash < name.len() {
        PackageIdentityView {
            scope: Some(name.subrange(0, slash)),
            name: name.subrange(slash + 1, name.len() as int),
            version,
        }
    } else {
        PackageIdentityView { scope: None, name, version }
    }
}

/// Cuts a package name that has been accepted into scope and name.
pub fn identity_from_name(name: &Vec<u8>, version: &Vec<u8>) -> (id: PackageIdentity)
    ensures
        id@ == identity_for(name@, version@),
{
    let n = name.len();
    let mut slash: usize = 0;
    while slash < n && name[slash] != SLASH
        invariant
            n == name@.len(),
            slash <= n,
            index_of(name@, SLASH, 0) == index_of(name@, SLASH, slash as int),
        decreases n - slash,
    {
        slash += 1;
    }
    let version = copy_bytes(version);
    if slash < n {
        PackageIdentity {
            scope: Some(copy_range(name, 0, slash)),
            name: copy_range(name, slash + 1, n),
            version,
        }
    } else {
        PackageIdentity { scope: None, name: copy_bytes(name), version }
    }
}

/// The package with the given name and version, if the name is a package
/// name; the refusal of the name if it is not.
pub fn package_identity(name: &str, version: &str) -> (made: Result<PackageIdentity, String>)
    ensures
        made is Ok <==> regex_search(PACKAGE_NAME_PATTERN@, name@) == Some(true),
        made matches Ok(id) ==> id@ == identity_for(name.spec_bytes(), version.spec_bytes()),
        made matches Err(message) ==> message@ == invalid_name_message(name@),
{
    match is_valid_package_name(name) {
        Err(message) => Err(message),
        Ok(()) => {
            let name_bytes = name.as_bytes_vec();
            let version_bytes = version.as_bytes_vec();
            Ok(identity_from_name(&name_bytes, &version_bytes))
        },
    }
}

} // verus!
