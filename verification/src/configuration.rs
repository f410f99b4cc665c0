//! The typed configuration the crawler and the search engines read:
//! which directory-path substrings exclude a subtree, and which root
//! directories to search instead of every volume.
//!
//! Loading and parsing the configuration file is the surrounding
//! application's business; the engines consume this already-typed value.

use vstd::prelude::*;
use crate::text::{contains_seq, contains_str};

verus! {

/// A path is excluded when it contains any of the configured substrings.
pub open spec fn excluded_by(path: Seq<char>, excludes: Seq<Seq<char>>) -> bool {
    exists|i: int| 0 <= i < excludes.len() && contains_seq(path, excludes[i])
}

/// The filter root selection applies: keep a root unless it is excluded.
pub open spec fn root_pred(ex: Seq<Seq<char>>) -> spec_fn(Seq<char>) -> bool {
    |p: Seq<char>| !excluded_by(p, ex)
}

/// The configuration the search engines read. An empty `exclude_dirs`
/// excludes nothing; an absent `include_dirs` means "search every volume".
pub struct SearchConfig {
    pub exclude_dirs: Vec<String>,
    pub include_dirs: Option<Vec<String>>,
}

/// Clone a list of strings, value for value.
pub fn clone_strings(v: &Vec<String>) -> (r: Vec<String>)
    ensures
        r@ == v@,
{
    let mut r: Vec<String> = Vec::new();
    let mut i: usize = 0;
    while i < v.len()
        invariant
            i <= v@.len(),
            r@ == v@.subrange(0, i as int),
        decreases v@.len() - i,
    {
        r.push(v[i].clone());
        proof {
            assert(r@ =~= v@.subrange(0, i + 1));
        }
        i = i + 1;
    }
    proof {
        assert(v@.subrange(0, v@.len() as int) =~= v@);
    }
    r
}

impl SearchConfig {
    pub fn new(exclude_dirs: Vec<String>, include_dirs: Option<Vec<String>>) -> (c: SearchConfig)
        ensures
            c.exclude_dirs == exclude_dirs,
            c.include_dirs == include_dirs,
    {
        SearchConfig { exclude_dirs, include_dirs }
    }

    /// The configured exclusion substrings, as character sequences.
    pub open spec fn excludes(&self) -> Seq<Seq<char>> {
        self.exclude_dirs.deep_view()
    }

    /// The configured include roots, if any.
    pub open spec fn includes_view(&self) -> Option<Seq<String>> {
        match self.include_dirs {
            Some(v) => Some(v@),
            None => None,
        }
    }

    /// The configured include roots as character sequences; meaningful
    /// only when `include_dirs` is configured.
    pub open spec fn include_roots(&self) -> Seq<Seq<char>> {
        self.include_dirs->0.deep_view()
    }

    /// Does any configured exclusion substring occur in this path?
    pub fn is_excluded(&self, path: &str) -> (r: bool)
        ensures
            r == excluded_by(path@, self.excludes()),
    {
        let mut i: usize = 0;
        while i < self.exclude_dirs.len()
            invariant
                i <= self.exclude_dirs@.len(),
                forall|k: int| 0 <= k < i ==> !contains_seq(path@, self.excludes()[k]),
            decreases self.exclude_dirs@.len() - i,
        {
            if contains_str(path, self.exclude_dirs[i].as_str()) {
                assert(contains_seq(path@, self.excludes()[i as int]));
                return true;
            }
            i = i + 1;
        }
        false
    }
}

impl Clone for SearchConfig {
    fn clone(&self) -> (c: SearchConfig)
        ensures
            c.exclude_dirs@ == self.exclude_dirs@,
            c.includes_view() == self.includes_view(),
    {
        let exclude_dirs = clone_strings(&self.exclude_dirs);
        let include_dirs = match &self.include_dirs {
            Some(dirs) => Some(clone_strings(dirs)),
            None => None,
        };
        SearchConfig { exclude_dirs, include_dirs }
    }
}

} // verus!
