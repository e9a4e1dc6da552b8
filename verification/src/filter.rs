//! Selective installation: category predicates and the skip list.
//!
//! A path is excluded when it matches a skip entry (exactly, as a directory
//! prefix, or by bare file name); otherwise, when a non-empty `only` set of
//! categories is given, it is included exactly when some category matches.

use vstd::prelude::*;
use vstd::string::StringExecFns;

use crate::strings::final_component;
use crate::strings::has_prefix;
use crate::strings::last_component;
use crate::strings::str_equal;
use crate::strings::str_has_prefix;
use crate::strings::strings_view;

verus! {

/// A classification bucket of template paths.
#[derive(Clone, Copy)]
pub enum Category {
    Instructions,
    Skills,
    Hooks,
    Config,
    Docs,
    Designs,
}

/// The directory prefix owned by a category.
pub open spec fn category_prefix(c: Category) -> Seq<char> {
    match c {
        Category::Instructions => "instructions/"@,
        Category::Skills => "skills/"@,
        Category::Hooks => "hooks/"@,
        Category::Config => "config/"@,
        Category::Docs => "docs/"@,
        Category::Designs => "designs/"@,
    }
}

/// A category matches the paths under its directory.
pub open spec fn category_matches(c: Category, path: Seq<char>) -> bool {
    has_prefix(path, category_prefix(c))
}

/// Whether the category owning `path` is `c`.
pub fn category_test(c: Category, path: &str) -> (r: bool)
    ensures
        r == category_matches(c, path@),
{
    match c {
        Category::Instructions => str_has_prefix(path, "instructions/"),
        Category::Skills => str_has_prefix(path, "skills/"),
        Category::Hooks => str_has_prefix(path, "hooks/"),
        Category::Config => str_has_prefix(path, "config/"),
        Category::Docs => str_has_prefix(path, "docs/"),
        Category::Designs => str_has_prefix(path, "designs/"),
    }
}

/// The per-invocation filter: an optional category restriction (empty
/// means all) and a list of skip entries, checked first.
pub struct InstallFilter {
    pub only: Vec<Category>,
    pub skip: Vec<String>,
}

/// A skip entry excludes a path exactly, as a directory prefix, or by its
/// bare file name.
pub open spec fn skip_matches(path: Seq<char>, entry: Seq<char>) -> bool {
    ||| path == entry
    ||| has_prefix(path, entry + "/"@)
    ||| last_component(path) == entry
}

/// Some entry of the skip list excludes `path`.
pub open spec fn skipped(path: Seq<char>, skips: Seq<Seq<char>>) -> bool {
    exists|i: int| 0 <= i < skips.len() && skip_matches(path, skips[i])
}

/// Some category of `only` matches `path`.
pub open spec fn category_included(path: Seq<char>, only: Seq<Category>) -> bool {
    exists|i: int| 0 <= i < only.len() && category_matches(only[i], path)
}

/// Whether `path` is installed under `only` and `skips`: the skip list
/// excludes unconditionally; an empty `only` admits everything else.
pub open spec fn should_include_spec(
    path: Seq<char>,
    only: Seq<Category>,
    skips: Seq<Seq<char>>,
) -> bool {
    if skipped(path, skips) {
        false
    } else if only.len() == 0 {
        true
    } else {
        category_included(path, only)
    }
}

/// Whether one skip entry excludes `path`.
fn skip_test(path: &str, entry: &String) -> (r: bool)
    ensures
        r == skip_matches(path@, entry@),
{
    if str_equal(path, entry.as_str()) {
        return true;
    }
    let mut dir = entry.clone();
    dir.append("/");
    if str_has_prefix(path, dir.as_str()) {
        return true;
    }
    let name = final_component(path);
    str_equal(name.as_str(), entry.as_str())
}

impl InstallFilter {
    /// A filter with no category restriction and no skip entries.
    pub fn all() -> (r: InstallFilter)
        ensures
            r.only@.len() == 0,
            r.skip@.len() == 0,
    {
        InstallFilter { only: Vec::new(), skip: Vec::new() }
    }

    /// Whether the skip list excludes `path`.
    pub fn is_skipped(&self, path: &str) -> (r: bool)
        ensures
            r == skipped(path@, strings_view(self.skip@)),
    {
        let ghost skips = strings_view(self.skip@);
        let mut i: usize = 0;
        while i < self.skip.len()
            invariant
                i <= self.skip@.len(),
                skips == strings_view(self.skip@),
                forall|j: int| 0 <= j < i ==> !skip_matches(path@, skips[j]),
            decreases self.skip@.len() - i,
        {
            if skip_test(path, &self.skip[i]) {
                assert(skip_matches(path@, skips[i as int]));
                return true;
            }
            i += 1;
        }
        assert(!skipped(path@, skips));
        false
    }

    /// Whether `path` is installed under this filter.
    pub fn should_include(&self, path: &str) -> (r: bool)
        ensures
            r == should_include_spec(path@, self.only@, strings_view(self.skip@)),
    {
        if self.is_skipped(path) {
            return false;
        }
        if self.only.len() == 0 {
            return true;
        }
        let mut c: usize = 0;
        while c < self.only.len()
            invariant
                c <= self.only@.len(),
                self.only@.len() > 0,
                !skipped(path@, strings_view(self.skip@)),
                forall|j: int| 0 <= j < c ==> !category_matches(self.only@[j], path@),
            decreases self.only@.len() - c,
        {
            if category_test(self.only[c], path) {
                assert(category_matches(self.only@[c as int], path@));
                return true;
            }
            c += 1;
        }
        assert(!category_included(path@, self.only@));
        false
    }
}

/// Filter conservativeness: under a non-empty category restriction, an
/// included path matches some requested category and no skip entry.
pub proof fn lemma_filter_conservative(path: Seq<char>, only: Seq<Category>, skips: Seq<Seq<char>>)
    requires
        only.len() > 0,
        should_include_spec(path, only, skips),
    ensures
        category_included(path, only),
        !skipped(path, skips),
{
}

} // verus!
