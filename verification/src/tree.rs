//! The in-memory template tree: an ordered forest of directories and
//! files, built once and then only read.  Files are addressed by relative
//! path; the flattened depth-first file list is the tree's mathematical
//! model.

use vstd::prelude::*;

use crate::filter::Category;
use crate::filter::InstallFilter;
use crate::filter::should_include_spec;
use crate::strings::str_equal;
use crate::strings::strings_view;

verus! {

broadcast use vstd::std_specs::vec::group_vec_axioms, vstd::seq::group_seq_axioms;

/// One node of the template forest.
pub enum TemplateNode {
    Dir { path: String, children: Vec<TemplateNode> },
    File { path: String, content: String },
}

/// A read-only snapshot of a directory of named template files.
pub struct TemplateTree {
    pub roots: Vec<TemplateNode>,
}

/// The (path, content) pairs of the files under one node, depth first.
pub open spec fn node_files(n: TemplateNode) -> Seq<(Seq<char>, Seq<char>)>
    decreases n,
{
    match n {
        TemplateNode::File { path, content } => seq![(path@, content@)],
        TemplateNode::Dir { path, children } => files_of_list(children@),
    }
}

/// The files of a forest, in declaration order.
pub open spec fn files_of_list(ns: Seq<TemplateNode>) -> Seq<(Seq<char>, Seq<char>)>
    decreases ns,
{
    if ns.len() == 0 {
        Seq::empty()
    } else {
        node_files(ns[0]) + files_of_list(ns.drop_first())
    }
}

/// The files of a whole tree.
pub open spec fn tree_files(t: TemplateTree) -> Seq<(Seq<char>, Seq<char>)> {
    files_of_list(t.roots@)
}

/// The content of the first file named `p`, if any.
pub open spec fn lookup_file(files: Seq<(Seq<char>, Seq<char>)>, p: Seq<char>) -> Option<Seq<char>>
    decreases files.len(),
{
    if files.len() == 0 {
        Option::None
    } else if files[0].0 == p {
        Option::Some(files[0].1)
    } else {
        lookup_file(files.drop_first(), p)
    }
}

/// Lookup distributes over concatenation, preferring the left side.
pub proof fn lemma_lookup_concat(a: Seq<(Seq<char>, Seq<char>)>, b: Seq<(Seq<char>, Seq<char>)>, p: Seq<char>)
    ensures
        lookup_file(a + b, p) == (if lookup_file(a, p) is Some {
            lookup_file(a, p)
        } else {
            lookup_file(b, p)
        }),
    decreases a.len(),
{
    if a.len() == 0 {
        assert(a + b =~= b);
    } else {
        assert((a + b)[0] == a[0]);
        assert((a + b).drop_first() =~= a.drop_first() + b);
        lemma_lookup_concat(a.drop_first(), b, p);
    }
}

/// Splitting a forest after its first node.
pub proof fn lemma_files_of_list_split(ns: Seq<TemplateNode>, i: int)
    requires
        0 <= i < ns.len(),
    ensures
        files_of_list(ns.subrange(i, ns.len() as int)) == node_files(ns[i]) + files_of_list(
            ns.subrange(i + 1, ns.len() as int),
        ),
{
    let tail = ns.subrange(i, ns.len() as int);
    assert(tail[0] == ns[i]);
    assert(tail.drop_first() =~= ns.subrange(i + 1, ns.len() as int));
}

/// Whether some file of the list would be installed under the filter.
pub open spec fn any_included(
    files: Seq<(Seq<char>, Seq<char>)>,
    only: Seq<Category>,
    skips: Seq<Seq<char>>,
) -> bool {
    exists|i: int|
        0 <= i < files.len() && should_include_spec(#[trigger] files[i].0, only, skips)
}

/// Inclusion somewhere in a concatenation is inclusion in one part.
pub proof fn lemma_any_included_concat(
    a: Seq<(Seq<char>, Seq<char>)>,
    b: Seq<(Seq<char>, Seq<char>)>,
    only: Seq<Category>,
    skips: Seq<Seq<char>>,
)
    ensures
        any_included(a + b, only, skips) == (any_included(a, only, skips) || any_included(
            b,
            only,
            skips,
        )),
{
    if any_included(a + b, only, skips) {
        let i = choose|i: int|
            0 <= i < (a + b).len() && should_include_spec(#[trigger] (a + b)[i].0, only, skips);
        if i < a.len() {
            assert((a + b)[i] == a[i]);
            assert(any_included(a, only, skips));
        } else {
            assert((a + b)[i] == b[i - a.len()]);
            assert(any_included(b, only, skips));
        }
    }
    if any_included(a, only, skips) {
        let i = choose|i: int|
            0 <= i < a.len() && should_include_spec(#[trigger] a[i].0, only, skips);
        assert((a + b)[i] == a[i]);
        assert(any_included(a + b, only, skips));
    }
    if any_included(b, only, skips) {
        let i = choose|i: int|
            0 <= i < b.len() && should_include_spec(#[trigger] b[i].0, only, skips);
        assert((a + b)[a.len() + i] == b[i]);
        assert(any_included(a + b, only, skips));
    }
}

/// Finds the first file named `path` under one node.
fn get_in_node(n: &TemplateNode, path: &str) -> (r: Option<String>)
    ensures
        match r {
            Some(c) => lookup_file(node_files(*n), path@) == Option::Some(c@),
            None => lookup_file(node_files(*n), path@) is None,
        },
    decreases n,
{
    match n {
        TemplateNode::File { path: p, content } => {
            proof {
                assert(node_files(*n)[0] == (p@, content@));
                assert(node_files(*n).drop_first() =~= Seq::<(Seq<char>, Seq<char>)>::empty());
                assert(lookup_file(Seq::<(Seq<char>, Seq<char>)>::empty(), path@) is None);
            }
            if str_equal(p.as_str(), path) {
                Some(content.clone())
            } else {
                None
            }
        },
        TemplateNode::Dir { path: _, children } => get_in_list(children, path),
    }
}

/// Finds the first file named `path` in a forest.
#[verifier::loop_isolation(false)]
fn get_in_list(ns: &Vec<TemplateNode>, path: &str) -> (r: Option<String>)
    ensures
        match r {
            Some(c) => lookup_file(files_of_list(ns@), path@) == Option::Some(c@),
            None => lookup_file(files_of_list(ns@), path@) is None,
        },
    decreases ns,
{
    proof {
        assert(ns@.subrange(0, ns@.len() as int) =~= ns@);
    }
    let mut i: usize = 0;
    while i < ns.len()
        invariant
            i <= ns@.len(),
            lookup_file(files_of_list(ns@), path@) == lookup_file(
                files_of_list(ns@.subrange(i as int, ns@.len() as int)),
                path@,
            ),
        decreases ns@.len() - i,
    {
        let found = get_in_node(&ns[i], path);
        proof {
            lemma_files_of_list_split(ns@, i as int);
            lemma_lookup_concat(
                node_files(ns@[i as int]),
                files_of_list(ns@.subrange(i + 1, ns@.len() as int)),
                path@,
            );
        }
        if found.is_some() {
            return found;
        }
        i += 1;
    }
    proof {
        assert(ns@.subrange(ns@.len() as int, ns@.len() as int) =~= Seq::<TemplateNode>::empty());
    }
    None
}

/// Whether some file under one node passes the filter.
fn included_in_node(n: &TemplateNode, filter: &InstallFilter) -> (r: bool)
    ensures
        r == any_included(node_files(*n), filter.only@, strings_view(filter.skip@)),
    decreases n,
{
    match n {
        TemplateNode::File { path: p, content: _ } => {
            let inc = filter.should_include(p.as_str());
            proof {
                if inc {
                    assert(node_files(*n)[0].0 == p@);
                }
            }
            inc
        },
        TemplateNode::Dir { path: _, children } => included_in_list(children, filter),
    }
}

/// Whether some file of a forest passes the filter.
#[verifier::loop_isolation(false)]
fn included_in_list(ns: &Vec<TemplateNode>, filter: &InstallFilter) -> (r: bool)
    ensures
        r == any_included(files_of_list(ns@), filter.only@, strings_view(filter.skip@)),
    decreases ns,
{
    let ghost only = filter.only@;
    let ghost skips = strings_view(filter.skip@);
    proof {
        assert(ns@.subrange(0, ns@.len() as int) =~= ns@);
    }
    let mut i: usize = 0;
    while i < ns.len()
        invariant
            i <= ns@.len(),
            any_included(files_of_list(ns@), only, skips) == any_included(
                files_of_list(ns@.subrange(i as int, ns@.len() as int)),
                only,
                skips,
            ),
        decreases ns@.len() - i,
    {
        let found = included_in_node(&ns[i], filter);
        proof {
            lemma_files_of_list_split(ns@, i as int);
            lemma_any_included_concat(
                node_files(ns@[i as int]),
                files_of_list(ns@.subrange(i + 1, ns@.len() as int)),
                only,
                skips,
            );
        }
        if found {
            return true;
        }
        i += 1;
    }
    proof {
        assert(ns@.subrange(ns@.len() as int, ns@.len() as int) =~= Seq::<TemplateNode>::empty());
    }
    false
}

impl TemplateNode {
    /// Whether any file beneath this node passes the filter; this is what
    /// lets the installer prune a whole directory subtree.
    pub fn has_matching_descendant(&self, filter: &InstallFilter) -> (r: bool)
        ensures
            r == any_included(node_files(*self), filter.only@, strings_view(filter.skip@)),
    {
        included_in_node(self, filter)
    }
}

impl TemplateTree {
    /// The content of the template file at `path`; `None` when the tree
    /// holds no file under that exact relative path.
    pub fn get_file(&self, path: &str) -> (r: Option<String>)
        ensures
            match r {
                Some(c) => lookup_file(tree_files(*self), path@) == Option::Some(c@),
                None => lookup_file(tree_files(*self), path@) is None,
            },
    {
        get_in_list(&self.roots, path)
    }
}

} // verus!
