//! Where the state of the environments is kept: a directory beside the
//! configuration file, one file per environment.

use vstd::prelude::*;
use vstd::string::StringExecFns;
use crate::text::text_view;

verus! {

/// The directory part of a path, as `std::path::Path::parent` gives it:
/// none for an empty path and for one that ends in a root.
pub uninterp spec fn path_parent(path: Seq<char>) -> Option<Seq<char>>;

/// The directory of the states, for a configuration file whose directory
/// part is `parent`: `.cepler` in that directory, and `.cepler` in the
/// working directory where the path names none.
pub open spec fn state_dir_of(parent: Option<Seq<char>>) -> Seq<char> {
    match parent {
        None => ".cepler"@,
        Some(dir) => if dir.len() == 0 {
            ".cepler"@
        } else {
            dir + "/"@ + ".cepler"@
        },
    }
}

/// The file that holds the state of the environment `name`.
pub open spec fn state_file_of(state_dir: Seq<char>, name: Seq<char>) -> Seq<char> {
    state_dir + "/"@ + name + ".state"@
}

/// Calls `std::path::Path::parent` on `path` and hands back the directory
/// part as text. The contract gives the result its name, `path_parent`,
/// and claims nothing else of it.
#[verifier::external_body]
fn parent_of(path: &str) -> (parent: Option<String>)
    ensures
        text_view(parent) == path_parent(path@),
{
    match std::path::Path::new(path).parent() {
        Some(dir) => Some(dir.to_string_lossy().into_owned()),
        None => None,
    }
}

/// The directory of the states for a configuration file whose directory
/// part is `parent`.
pub fn state_dir_in(parent: Option<&str>) -> (dir: String)
    ensures
        dir@ == state_dir_of(
            match parent {
                Some(p) => Some(p@),
                None => None,
            },
        ),
{
    match parent {
        None => String::from_str(".cepler"),
        Some(p) => {
            if p.is_empty() {
                String::from_str(".cepler")
            } else {
                let mut dir = String::from_str(p);
                dir.append("/");
                dir.append(".cepler");
                dir
            }
        },
    }
}

/// The directory of the states for the configuration file at
/// `path_to_config`.
pub fn state_dir_for(path_to_config: &str) -> (dir: String)
    ensures
        dir@ == state_dir_of(path_parent(path_to_config@)),
{
    match parent_of(path_to_config) {
        Some(p) => state_dir_in(Some(p.as_str())),
        None => state_dir_in(None),
    }
}

/// The path of the file that holds the state of the environment `name`.
pub fn state_file(state_dir: &str, name: &str) -> (path: String)
    ensures
        path@ == state_file_of(state_dir@, name@),
{
    let mut path = String::from_str(state_dir);
    path.append("/");
    path.append(name);
    path.append(".state");
    path
}

} // verus!
