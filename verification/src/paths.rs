//! Ancestor directories and final segments of paths.
//!
//! Paths are taken apart by `std::path::Path`, as paths are read on the
//! platform built for; what it returns is named here by `path_parent` and
//! `path_file_name`, and the rest is stated over those.

use std::path::Path;
use vstd::prelude::*;
use crate::text::{same_text, text_views};

verus! {

/// What `Path::parent` returns for a path: the path without its final
/// component, or nothing where the path ends in a root or is empty.
pub uninterp spec fn path_parent(path: Seq<char>) -> Option<Seq<char>>;

/// What `Path::file_name` returns for a path: its final component, or nothing
/// where the path ends in `..` or has no component.
pub uninterp spec fn path_file_name(path: Seq<char>) -> Option<Seq<char>>;

/// The path followed by its parent, the parent of that, and so on up to the
/// last one that has no parent.
pub open spec fn ancestors(path: Seq<char>) -> Seq<Seq<char>>
    decreases path.len(),
{
    if let Some(parent) = path_parent(path) {
        if parent.len() < path.len() {
            seq![path] + ancestors(parent)
        } else {
            seq![path]
        }
    } else {
        seq![path]
    }
}

/// The final segment of `path` is exactly `name`.
pub open spec fn is_named(path: Seq<char>, name: Seq<char>) -> bool {
    path_file_name(path) == Some(name)
}

/// `Path::parent`, on a path given as text. The result is the one named by
/// `path_parent`; a parent lacks the final component of its path, so it is
/// strictly shorter.
#[verifier::external_body]
fn parent_of(path: &str) -> (r: Option<String>)
    ensures
        match r {
            Some(p) => path_parent(path@) == Some(p@) && p@.len() < path@.len(),
            None => path_parent(path@) is None,
        },
{
    Path::new(path).parent().and_then(|p| p.to_str()).map(|s| s.to_string())
}

/// `Path::file_name`, on a path given as text. The result is the one named
/// by `path_file_name`.
#[verifier::external_body]
fn file_name_of(path: &str) -> (r: Option<String>)
    ensures
        match r {
            Some(n) => path_file_name(path@) == Some(n@),
            None => path_file_name(path@) is None,
        },
{
    Path::new(path).file_name().and_then(|n| n.to_str()).map(|s| s.to_string())
}

/// Whether the final segment of `path` is exactly `name`.
pub fn has_name(path: &str, name: &str) -> (r: bool)
    ensures
        r == is_named(path@, name@),
{
    match file_name_of(path) {
        Some(n) => same_text(n.as_str(), name),
        None => false,
    }
}

/// The path and all its ancestor directories, nearest first.
pub fn ancestors_of(path: &str) -> (chain: Vec<String>)
    ensures
        text_views(chain@) == ancestors(path@),
{
    let mut chain: Vec<String> = Vec::new();
    let mut cur: String = path.to_owned();
    loop
        invariant_except_break
            text_views(chain@) + ancestors(cur@) =~= ancestors(path@),
        ensures
            text_views(chain@) =~= ancestors(path@),
        decreases cur@.len(),
    {
        let ghost before = text_views(chain@);
        let parent = parent_of(cur.as_str());
        chain.push(cur.clone());
        assert(text_views(chain@) =~= before.push(cur@));
        match parent {
            Some(p) => {
                assert(before.push(cur@) + ancestors(p@) =~= before + (seq![cur@] + ancestors(p@)));
                cur = p;
            },
            None => {
                assert(before.push(cur@) =~= before + seq![cur@]);
                break;
            },
        }
    }
    chain
}

/// The nearest ancestor of `dir` (or `dir` itself) whose final segment is the
/// one keyword given. With no keyword, or more than one, there is none.
pub fn find_ancestor(dir: &str, keywords: &[String]) -> (r: Option<String>)
    ensures
        match r {
            Some(found) => keywords@.len() == 1 && exists|k: int|
                0 <= k < ancestors(dir@).len() && #[trigger] ancestors(dir@)[k] == found@
                    && is_named(ancestors(dir@)[k], keywords@[0]@) && forall|j: int|
                    0 <= j < k ==> !is_named(#[trigger] ancestors(dir@)[j], keywords@[0]@),
            None => keywords@.len() != 1 || forall|j: int|
                0 <= j < ancestors(dir@).len() ==> !is_named(
                    #[trigger] ancestors(dir@)[j],
                    keywords@[0]@,
                ),
        },
{
    if keywords.len() != 1 {
        return None;
    }
    let name = &keywords[0];
    let chain = ancestors_of(dir);
    let mut k: usize = 0;
    while k < chain.len()
        invariant
            k <= chain.len(),
            keywords@.len() == 1,
            name@ == keywords@[0]@,
            text_views(chain@) == ancestors(dir@),
            forall|j: int| 0 <= j < k ==> !is_named(#[trigger] ancestors(dir@)[j], name@),
        decreases chain.len() - k,
    {
        assert(text_views(chain@)[k as int] == chain@[k as int]@);
        if has_name(chain[k].as_str(), name.as_str()) {
            return Some(chain[k].clone());
        }
        k += 1;
    }
    assert(text_views(chain@).len() == chain@.len());
    None
}

} // verus!
