//! Finding packages among the files under a search root.

use vstd::prelude::*;

use crate::path::{extension, join, spec_extension, spec_join};
use crate::text::{same_text, spec_texts};

verus! {

/// The extension that marks a file as a package.
pub const PACKAGE_EXTENSION: &'static str = "unitypackage";

/// Where, under a user's home directory, the Unity Asset Store keeps the
/// packages it has downloaded.
pub const ASSET_STORE_FOLDER: &'static str = "Library/Unity/Asset Store-5.x";

/// Whether the extension of `path` marks it as a package.
pub open spec fn spec_is_package(path: Seq<char>) -> bool {
    spec_extension(path) == Some(PACKAGE_EXTENSION@)
}

/// The packages among `files`, in the order of `files`.
pub open spec fn spec_packages(files: Seq<Seq<char>>) -> Seq<Seq<char>> {
    files.filter(|path: Seq<char>| spec_is_package(path))
}

/// The root to search: the folder that was given, or the Asset Store's
/// folder under the home directory, where there is one.
pub open spec fn spec_search_root(given: Option<Seq<char>>, home: Option<Seq<char>>) -> Option<
    Seq<char>,
> {
    match given {
        Some(folder) => Some(folder),
        None => match home {
            Some(h) => Some(spec_join(h, ASSET_STORE_FOLDER@)),
            None => None,
        },
    }
}

/// Whether the extension of `as_path` marks it as a package.
pub fn is_package(as_path: &str) -> (yes: bool)
    ensures
        yes == spec_is_package(as_path@),
{
    match extension(as_path) {
        Some(ext) => same_text(ext.as_str(), PACKAGE_EXTENSION),
        None => false,
    }
}

/// The packages among `files`, in the order of `files`.
///
/// `files` holds the paths of the files found beneath a search root,
/// directories left out, in the order in which they were found.
pub fn list_unitypackages(files: &Vec<String>) -> (packages: Vec<String>)
    ensures
        spec_texts(packages@) == spec_packages(spec_texts(files@)),
{
    let ghost paths = spec_texts(files@);
    let mut packages: Vec<String> = Vec::new();
    let mut i: usize = 0;
    assert(paths.take(0).filter(|path: Seq<char>| spec_is_package(path)) =~= Seq::empty());
    assert(spec_texts(packages@) =~= Seq::empty());
    while i < files.len()
        invariant
            i <= files.len(),
            paths == spec_texts(files@),
            spec_texts(packages@) == spec_packages(paths.take(i as int)),
        decreases files.len() - i,
    {
        let ghost seen = paths.take(i as int);
        let ghost found = spec_texts(packages@);
        proof {
            reveal_with_fuel(Seq::filter, 2);
            assert(paths.take(i + 1) == seen.push(files[i as int]@));
            assert(seen.push(files[i as int]@).drop_last() == seen);
        }
        if is_package(files[i].as_str()) {
            packages.push(files[i].clone());
            assert(spec_texts(packages@) == found.push(files[i as int]@));
        }
        i += 1;
    }
    assert(paths.take(i as int) == paths);
    packages
}

/// `dirs::home_dir` gives the home directory of the user who runs the
/// program, as the operating system and the environment have it, or nothing
/// where they have none. Nothing is claimed of the answer. A path that is not
/// valid Unicode comes back with replacement characters in it.
#[verifier::external_body]
fn home_dir() -> (home: Option<String>) {
    dirs::home_dir().map(|home| home.to_string_lossy().into_owned())
}

/// The root to search where `given` is the folder that was asked for, if
/// one was, and `home` the user's home directory, if there is one.
pub fn search_root_under(given: Option<String>, home: Option<String>) -> (root: Option<String>)
    ensures
        match root {
            Some(r) => spec_search_root(spec_optional(given), spec_optional(home)) == Some(r@),
            None => spec_search_root(spec_optional(given), spec_optional(home)) is None,
        },
{
    match given {
        Some(folder) => Some(folder),
        None => match home {
            Some(h) => Some(join(h.as_str(), ASSET_STORE_FOLDER)),
            None => None,
        },
    }
}

/// The root to search: `given` where a folder was asked for; else the Asset
/// Store's folder under the home directory of the user who runs the
/// program, or nothing where that user has no home directory.
pub fn search_root(given: Option<String>) -> (root: Option<String>)
    ensures
        exists|home: Option<Seq<char>>|
            match root {
                Some(r) => #[trigger] spec_search_root(spec_optional(given), home) == Some(r@),
                None => spec_search_root(spec_optional(given), home) is None,
            },
{
    match given {
        Some(folder) => {
            assert(spec_search_root(Some(folder@), None) == Some(folder@));
            Some(folder)
        },
        None => {
            let home = home_dir();
            let root = search_root_under(None, home);
            assert(match root {
                Some(r) => spec_search_root(None, spec_optional(home)) == Some(r@),
                None => spec_search_root(None, spec_optional(home)) is None,
            });
            root
        },
    }
}

/// The text of a string that may be there.
pub open spec fn spec_optional(s: Option<String>) -> Option<Seq<char>> {
    match s {
        Some(text) => Some(text@),
        None => None,
    }
}

} // verus!
