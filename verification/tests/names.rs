use patchr::change::PackageIdentity;
use patchr::filter::{matches_pattern, Filter};
use patchr::glob::glob_matches;
use patchr::package_manager::PackageManager;
use patchr::path_util::{dir_is_there, find_file_in_parent_dirs, parent_dir, CreateDir, DirPath};
use patchr::registry::{list_patches, package_before, parse_file_name, patch_file_name};
use patchr::validators::{is_valid_package_name, name_verdict, package_identity};

fn glob(pattern: &str, text: &str) -> bool {
    glob_matches(&pattern.as_bytes().to_vec(), &text.as_bytes().to_vec())
}

fn pattern(pattern: &str, path: &str) -> bool {
    matches_pattern(&pattern.as_bytes().to_vec(), &path.as_bytes().to_vec())
}

fn dir(rooted: bool, parts: &[&str]) -> DirPath {
    DirPath { rooted, parts: parts.iter().map(|p| p.to_string()).collect() }
}

#[test]
fn star_stays_within_one_name() {
    assert!(glob("*.lock", "foo.lock"));
    assert!(glob("*", ""));
    assert!(!glob("*.lock", "dir/foo.lock"));
    assert!(!glob("*.lock", "foo.lock.bak"));
    assert!(glob("a*b*c", "aXXbYYc"));
    assert!(!glob("a*b*c", "aXXbYY"));
}

#[test]
fn double_star_crosses_directories() {
    assert!(glob("**/*.js", "a/b/c.js"));
    assert!(glob("**/*.js", "c.js"));
    assert!(glob("src/**", "src/a/b"));
    assert!(glob("a/**/z", "a/z"));
    assert!(glob("a/**/z", "a/b/c/z"));
    assert!(!glob("a/**/z", "a/b/c/y"));
}

#[test]
fn question_mark_is_one_byte_of_a_name() {
    assert!(glob("?", "a"));
    assert!(!glob("?", ""));
    assert!(!glob("?", "/"));
    assert!(glob("a?c", "abc"));
}

#[test]
fn classes_list_bytes_and_ranges() {
    assert!(glob("[a-c]x", "bx"));
    assert!(!glob("[a-c]x", "dx"));
    assert!(!glob("[!a-c]x", "bx"));
    assert!(glob("[!a-c]x", "dx"));
    assert!(glob("[^a-c]x", "dx"));
    assert!(glob("[]]", "]"));
    assert!(glob("[abc", "[abc"));
    assert!(glob("file[0-9].txt", "file7.txt"));
    assert!(!glob("[a-z]", "/"));
}

#[test]
fn pattern_without_slash_matches_at_every_level() {
    assert!(pattern("*.lock", "foo.lock"));
    assert!(pattern("*.lock", "dir/sub/foo.lock"));
    assert!(pattern("node_modules", "a/node_modules/x.js"));
    assert!(!pattern("*.lock", "foo.locked"));
}

#[test]
fn pattern_with_slash_is_tied_to_the_root() {
    assert!(pattern("/lib", "lib/x"));
    assert!(!pattern("/lib", "a/lib/x"));
    assert!(pattern("docs/api", "docs/api/index.html"));
    assert!(!pattern("docs/api", "x/docs/api/index.html"));
    assert!(pattern("lib", "a/lib/x"));
}

#[test]
fn pattern_that_ends_in_slash_names_directories() {
    assert!(pattern("build/", "build/out.js"));
    assert!(pattern("build/", "a/build/out.js"));
    assert!(!pattern("build/", "build"));
}

#[test]
fn shutting_out_wins_over_taking_in() {
    let filter = Filter::new(vec![b"*.js".to_vec()], vec![b"vendor".to_vec()]);
    assert!(filter.matches(&b"src/a.js".to_vec()));
    assert!(!filter.matches(&b"src/a.css".to_vec()));
    assert!(!filter.matches(&b"vendor/a.js".to_vec()));
    assert!(Filter::everything().matches(&b"anything/at/all".to_vec()));
}

#[test]
fn package_names_are_checked_against_the_grammar() {
    assert_eq!(is_valid_package_name("left-pad"), Ok(()));
    assert_eq!(is_valid_package_name("@types/node"), Ok(()));
    assert_eq!(is_valid_package_name("a.b_c~d"), Ok(()));
    assert_eq!(
        is_valid_package_name("Left"),
        Err("`Left` is not a valid name for a package.".to_string())
    );
    assert!(is_valid_package_name("").is_err());
    assert!(is_valid_package_name(".hidden").is_err());
    assert!(is_valid_package_name("@scope/").is_err());
    assert!(is_valid_package_name("a/b/c").is_err());
    assert!(is_valid_package_name("with space").is_err());
}

#[test]
fn verdict_follows_the_search() {
    assert_eq!(name_verdict("x", Some(true)), Ok(()));
    assert_eq!(
        name_verdict("x", Some(false)),
        Err("`x` is not a valid name for a package.".to_string())
    );
    assert_eq!(name_verdict("x", None), Err("`x` is not a valid name for a package.".to_string()));
}

#[test]
fn identity_is_made_from_an_accepted_name() {
    assert_eq!(
        package_identity("@types/node", "18.0.0"),
        Ok(PackageIdentity {
            scope: Some(b"@types".to_vec()),
            name: b"node".to_vec(),
            version: b"18.0.0".to_vec(),
        })
    );
    assert_eq!(
        package_identity("left-pad", "1.3.0"),
        Ok(PackageIdentity { scope: None, name: b"left-pad".to_vec(), version: b"1.3.0".to_vec() })
    );
    assert_eq!(
        package_identity("Bad Name", "1"),
        Err("`Bad Name` is not a valid name for a package.".to_string())
    );
}

#[test]
fn package_manager_is_read_from_its_name() {
    assert_eq!(PackageManager::from_str("npm"), Ok(PackageManager::Npm));
    assert_eq!(PackageManager::from_str("yarn"), Ok(PackageManager::Yarn));
    assert_eq!(PackageManager::from_str("pnpm"), Ok(PackageManager::Pnpm));
    assert_eq!(PackageManager::from_str("auto"), Ok(PackageManager::Auto));
    assert_eq!(PackageManager::from_str("NPM"), Err("Invalid variant: NPM".to_string()));
    assert_eq!(PackageManager::from_str(""), Err("Invalid variant: ".to_string()));
}

#[test]
fn possible_values_name_every_variant() {
    assert_eq!(PackageManager::possible_values(), vec!["npm", "yarn", "pnpm", "auto"]);
    assert_eq!(
        PackageManager::value_variants(),
        vec![PackageManager::Npm, PackageManager::Yarn, PackageManager::Pnpm, PackageManager::Auto]
    );
    assert_eq!(PackageManager::Pnpm.name(), "pnpm");
}

#[test]
fn parent_drops_the_last_name() {
    assert_eq!(parent_dir(&dir(true, &["home", "me", "proj"])), dir(true, &["home", "me"]));
    assert_eq!(parent_dir(&dir(false, &["a"])), dir(false, &[]));
    assert_eq!(parent_dir(&dir(true, &[])), dir(true, &[]));
}

#[test]
fn file_is_found_in_the_nearest_ancestor() {
    let start = dir(true, &["home", "me", "proj", "src", "deep"]);
    let near = dir(true, &["home", "me", "proj", "package.json"]);
    let far = dir(true, &["home", "package.json"]);
    let found = find_file_in_parent_dirs(&start, "package.json", |p: &DirPath| *p == near || *p == far);
    assert_eq!(found, Some(dir(true, &["home", "me", "proj", "package.json"])));
    let in_root = find_file_in_parent_dirs(&start, "package.json", |p: &DirPath| {
        *p == dir(true, &["package.json"])
    });
    assert_eq!(in_root, Some(dir(true, &["package.json"])));
    let here = find_file_in_parent_dirs(&start, "x", |_p: &DirPath| true);
    assert_eq!(here, Some(dir(true, &["home", "me", "proj", "src", "deep", "x"])));
}

#[test]
fn file_that_is_nowhere_is_not_found() {
    let start = dir(false, &["a", "b"]);
    let asked = std::cell::Cell::new(0);
    let found = find_file_in_parent_dirs(&start, "package.json", |_p: &DirPath| {
        asked.set(asked.get() + 1);
        false
    });
    assert_eq!(found, None);
    assert_eq!(asked.get(), 3);
}

#[test]
fn directory_is_there_when_created_or_found() {
    assert!(dir_is_there(CreateDir::Created));
    assert!(dir_is_there(CreateDir::AlreadyExists));
    assert!(!dir_is_there(CreateDir::Failed));
}

#[test]
fn file_names_are_read_as_packages() {
    assert_eq!(
        parse_file_name(&b"left-pad+1.2.3.patch".to_vec()),
        Some(PackageIdentity { scope: None, name: b"left-pad".to_vec(), version: b"1.2.3".to_vec() })
    );
    assert_eq!(
        parse_file_name(&b"@types~node+18.0.0+build.patch".to_vec()),
        Some(PackageIdentity {
            scope: Some(b"@types".to_vec()),
            name: b"node".to_vec(),
            version: b"18.0.0+build".to_vec(),
        })
    );
    assert_eq!(parse_file_name(&b"noversion.patch".to_vec()), None);
    assert_eq!(parse_file_name(&b"left-pad+1.2.3.diff".to_vec()), None);
    assert_eq!(parse_file_name(&b"+1.0.0.patch".to_vec()), None);
    assert_eq!(parse_file_name(&b"a+.patch".to_vec()), None);
    assert_eq!(parse_file_name(&b"~a+1.patch".to_vec()), None);
    assert_eq!(parse_file_name(&b".patch".to_vec()), None);
}

#[test]
fn file_name_of_a_package_is_read_back() {
    let id = PackageIdentity {
        scope: Some(b"@babel".to_vec()),
        name: b"core".to_vec(),
        version: b"7.0.0".to_vec(),
    };
    let name = patch_file_name(&id);
    assert_eq!(name, b"@babel~core+7.0.0.patch".to_vec());
    assert_eq!(parse_file_name(&name), Some(id));
}

#[test]
fn patches_are_listed_by_scope_then_name() {
    let names: Vec<Vec<u8>> = vec![
        b"zeta+1.0.0.patch".to_vec(),
        b"README.md".to_vec(),
        b"@b~x+2.patch".to_vec(),
        b"alpha+0.1.0.patch".to_vec(),
        b"@a~y+1.patch".to_vec(),
        b"@a~b+3.patch".to_vec(),
    ];
    let listed: Vec<Vec<u8>> = list_patches(&names).into_iter().map(|r| r.file_name).collect();
    let expected: Vec<Vec<u8>> = vec![
        b"alpha+0.1.0.patch".to_vec(),
        b"zeta+1.0.0.patch".to_vec(),
        b"@a~b+3.patch".to_vec(),
        b"@a~y+1.patch".to_vec(),
        b"@b~x+2.patch".to_vec(),
    ];
    assert_eq!(listed, expected);
}

#[test]
fn packages_of_one_name_keep_the_order_of_the_listing() {
    let names: Vec<Vec<u8>> = vec![b"a+2.patch".to_vec(), b"a+1.patch".to_vec()];
    let listed = list_patches(&names);
    assert_eq!(listed[0].package.version, b"2".to_vec());
    assert_eq!(listed[1].package.version, b"1".to_vec());
    assert!(!package_before(&listed[0].package, &listed[1].package));
}

#[test]
fn pattern_without_wildcards_matches_only_itself() {
    assert!(glob("lib/index.js", "lib/index.js"));
    assert!(!glob("lib/index.js", "lib/index.jsx"));
    assert!(!glob("lib/index.js", "lib/index.j"));
    assert!(glob("", ""));
    assert!(glob("**", "any/path/at.all"));
    assert!(glob("*", "name"));
    assert!(!glob("*", "a/b"));
}
