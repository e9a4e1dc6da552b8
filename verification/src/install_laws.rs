//! Laws of the installation walk.
//!
//! The plan writes exactly the template files the filter includes: every
//! copy or merge step carries a file of the tree that passes the filter,
//! and — beneath directories the skip list does not drop — every file that
//! passes the filter is written.  Pruning a subtree with no installable
//! descendant therefore never loses a file.

use vstd::prelude::*;

use crate::filter::Category;
use crate::filter::should_include_spec;
use crate::filter::skipped;
use crate::install::SpecStep;
use crate::install::plan_list;
use crate::install::plan_node;
use crate::tree::TemplateNode;
use crate::tree::TemplateTree;
use crate::tree::any_included;
use crate::tree::files_of_list;
use crate::tree::node_files;
use crate::tree::tree_files;

verus! {

broadcast use vstd::seq::group_seq_axioms;

/// The plan holds a step writing content `c` to path `p`.
pub open spec fn writes_file(plan: Seq<SpecStep>, p: Seq<char>, c: Seq<char>) -> bool {
    exists|j: int|
        0 <= j < plan.len() && ((#[trigger] plan[j]) == SpecStep::CopyFile(p, c) || plan[j]
            == SpecStep::MergeJson(p, c))
}

/// The file list holds the pair `(p, c)`.
pub open spec fn in_files(files: Seq<(Seq<char>, Seq<char>)>, p: Seq<char>, c: Seq<char>) -> bool {
    exists|i: int| 0 <= i < files.len() && (#[trigger] files[i]) == (p, c)
}

/// No directory of the subtree is excluded by the skip list.
pub open spec fn no_dir_skipped(n: TemplateNode, skips: Seq<Seq<char>>) -> bool
    decreases n,
{
    match n {
        TemplateNode::File { .. } => true,
        TemplateNode::Dir { path, children } => !skipped(path@, skips) && no_dir_skipped_list(
            children@,
            skips,
        ),
    }
}

/// No directory of the forest is excluded by the skip list.
pub open spec fn no_dir_skipped_list(ns: Seq<TemplateNode>, skips: Seq<Seq<char>>) -> bool
    decreases ns,
{
    if ns.len() == 0 {
        true
    } else {
        no_dir_skipped(ns[0], skips) && no_dir_skipped_list(ns.drop_first(), skips)
    }
}

proof fn lemma_writes_concat(a: Seq<SpecStep>, b: Seq<SpecStep>, p: Seq<char>, c: Seq<char>)
    ensures
        writes_file(a + b, p, c) == (writes_file(a, p, c) || writes_file(b, p, c)),
{
    if writes_file(a + b, p, c) {
        let j = choose|j: int|
            0 <= j < (a + b).len() && ((#[trigger] (a + b)[j]) == SpecStep::CopyFile(p, c) || (a
                + b)[j] == SpecStep::MergeJson(p, c));
        if j < a.len() {
            assert((a + b)[j] == a[j]);
        } else {
            assert((a + b)[j] == b[j - a.len()]);
        }
    }
    if writes_file(a, p, c) {
        let j = choose|j: int|
            0 <= j < a.len() && ((#[trigger] a[j]) == SpecStep::CopyFile(p, c) || a[j]
                == SpecStep::MergeJson(p, c));
        assert((a + b)[j] == a[j]);
    }
    if writes_file(b, p, c) {
        let j = choose|j: int|
            0 <= j < b.len() && ((#[trigger] b[j]) == SpecStep::CopyFile(p, c) || b[j]
                == SpecStep::MergeJson(p, c));
        assert((a + b)[a.len() + j] == b[j]);
    }
}

proof fn lemma_in_files_concat(
    a: Seq<(Seq<char>, Seq<char>)>,
    b: Seq<(Seq<char>, Seq<char>)>,
    p: Seq<char>,
    c: Seq<char>,
)
    ensures
        in_files(a + b, p, c) == (in_files(a, p, c) || in_files(b, p, c)),
{
    if in_files(a + b, p, c) {
        let i = choose|i: int| 0 <= i < (a + b).len() && (#[trigger] (a + b)[i]) == (p, c);
        if i < a.len() {
            assert((a + b)[i] == a[i]);
        } else {
            assert((a + b)[i] == b[i - a.len()]);
        }
    }
    if in_files(a, p, c) {
        let i = choose|i: int| 0 <= i < a.len() && (#[trigger] a[i]) == (p, c);
        assert((a + b)[i] == a[i]);
    }
    if in_files(b, p, c) {
        let i = choose|i: int| 0 <= i < b.len() && (#[trigger] b[i]) == (p, c);
        assert((a + b)[a.len() + i] == b[i]);
    }
}

proof fn lemma_plan_node_agrees(n: TemplateNode, only: Seq<Category>, skips: Seq<Seq<char>>)
    ensures
        forall|p: Seq<char>, c: Seq<char>|
            #[trigger] writes_file(plan_node(n, only, skips), p, c) ==> should_include_spec(
                p,
                only,
                skips,
            ) && in_files(node_files(n), p, c),
        no_dir_skipped(n, skips) ==> forall|i: int|
            0 <= i < node_files(n).len() && should_include_spec(
                (#[trigger] node_files(n)[i]).0,
                only,
                skips,
            ) ==> writes_file(plan_node(n, only, skips), node_files(n)[i].0, node_files(n)[i].1),
    decreases n,
{
    let plan = plan_node(n, only, skips);
    match n {
        TemplateNode::File { path, content } => {
            assert forall|p: Seq<char>, c: Seq<char>| #[trigger] writes_file(plan, p, c) implies
                should_include_spec(p, only, skips) && in_files(node_files(n), p, c) by {
                let j = choose|j: int|
                    0 <= j < plan.len() && ((#[trigger] plan[j]) == SpecStep::CopyFile(p, c)
                        || plan[j] == SpecStep::MergeJson(p, c));
                assert(j == 0);
                assert(p == path@ && c == content@);
                assert(node_files(n)[0] == (p, c));
            }
            if no_dir_skipped(n, skips) {
                assert forall|i: int|
                    0 <= i < node_files(n).len() && should_include_spec(
                        (#[trigger] node_files(n)[i]).0,
                        only,
                        skips,
                    ) implies writes_file(plan, node_files(n)[i].0, node_files(n)[i].1) by {
                    assert(i == 0);
                    assert(node_files(n)[0] == (path@, content@));
                    assert(plan[0] == SpecStep::CopyFile(path@, content@) || plan[0]
                        == SpecStep::MergeJson(path@, content@));
                }
            }
        },
        TemplateNode::Dir { path, children } => {
            if skipped(path@, skips) {
                assert forall|p: Seq<char>, c: Seq<char>| #[trigger] writes_file(plan, p, c)
                    implies should_include_spec(p, only, skips) && in_files(node_files(n), p, c) by {
                    let j = choose|j: int|
                        0 <= j < plan.len() && ((#[trigger] plan[j]) == SpecStep::CopyFile(p, c)
                            || plan[j] == SpecStep::MergeJson(p, c));
                    assert(plan[j] == SpecStep::Skipped(path@));
                }
            } else if only.len() > 0 && !any_included(files_of_list(children@), only, skips) {
                assert(plan.len() == 0);
                if no_dir_skipped(n, skips) {
                    assert forall|i: int|
                        0 <= i < node_files(n).len() && should_include_spec(
                            (#[trigger] node_files(n)[i]).0,
                            only,
                            skips,
                        ) implies writes_file(plan, node_files(n)[i].0, node_files(n)[i].1) by {
                        assert(any_included(files_of_list(children@), only, skips));
                    }
                }
            } else {
                lemma_plan_list_agrees(children@, only, skips);
                let head = seq![SpecStep::EnsureDir(path@)];
                let rest = plan_list(children@, only, skips);
                assert(plan == head + rest);
                assert forall|p: Seq<char>, c: Seq<char>| #[trigger] writes_file(plan, p, c)
                    implies should_include_spec(p, only, skips) && in_files(node_files(n), p, c) by {
                    lemma_writes_concat(head, rest, p, c);
                    if writes_file(head, p, c) {
                        let j = choose|j: int|
                            0 <= j < head.len() && ((#[trigger] head[j]) == SpecStep::CopyFile(
                                p,
                                c,
                            ) || head[j] == SpecStep::MergeJson(p, c));
                        assert(head[j] == SpecStep::EnsureDir(path@));
                    }
                    assert(writes_file(rest, p, c));
                }
                if no_dir_skipped(n, skips) {
                    assert forall|i: int|
                        0 <= i < node_files(n).len() && should_include_spec(
                            (#[trigger] node_files(n)[i]).0,
                            only,
                            skips,
                        ) implies writes_file(plan, node_files(n)[i].0, node_files(n)[i].1) by {
                        assert(writes_file(rest, node_files(n)[i].0, node_files(n)[i].1));
                        lemma_writes_concat(head, rest, node_files(n)[i].0, node_files(n)[i].1);
                    }
                }
            }
        },
    }
}

proof fn lemma_plan_list_agrees(ns: Seq<TemplateNode>, only: Seq<Category>, skips: Seq<Seq<char>>)
    ensures
        forall|p: Seq<char>, c: Seq<char>|
            #[trigger] writes_file(plan_list(ns, only, skips), p, c) ==> should_include_spec(
                p,
                only,
                skips,
            ) && in_files(files_of_list(ns), p, c),
        no_dir_skipped_list(ns, skips) ==> forall|i: int|
            0 <= i < files_of_list(ns).len() && should_include_spec(
                (#[trigger] files_of_list(ns)[i]).0,
                only,
                skips,
            ) ==> writes_file(
                plan_list(ns, only, skips),
                files_of_list(ns)[i].0,
                files_of_list(ns)[i].1,
            ),
    decreases ns,
{
    if ns.len() > 0 {
        lemma_plan_node_agrees(ns[0], only, skips);
        lemma_plan_list_agrees(ns.drop_first(), only, skips);
        let plan_a = plan_node(ns[0], only, skips);
        let plan_b = plan_list(ns.drop_first(), only, skips);
        let files_a = node_files(ns[0]);
        let files_b = files_of_list(ns.drop_first());
        assert(plan_list(ns, only, skips) == plan_a + plan_b);
        assert(files_of_list(ns) == files_a + files_b);
        assert forall|p: Seq<char>, c: Seq<char>|
            #[trigger] writes_file(plan_list(ns, only, skips), p, c) implies should_include_spec(
            p,
            only,
            skips,
        ) && in_files(files_of_list(ns), p, c) by {
            lemma_writes_concat(plan_a, plan_b, p, c);
            lemma_in_files_concat(files_a, files_b, p, c);
        }
        if no_dir_skipped_list(ns, skips) {
            assert forall|i: int|
                0 <= i < files_of_list(ns).len() && should_include_spec(
                    (#[trigger] files_of_list(ns)[i]).0,
                    only,
                    skips,
                ) implies writes_file(
                plan_list(ns, only, skips),
                files_of_list(ns)[i].0,
                files_of_list(ns)[i].1,
            ) by {
                let p = files_of_list(ns)[i].0;
                let c = files_of_list(ns)[i].1;
                if i < files_a.len() {
                    assert(files_of_list(ns)[i] == files_a[i]);
                    assert(writes_file(plan_a, p, c));
                } else {
                    assert(files_of_list(ns)[i] == files_b[i - files_a.len()]);
                    assert(writes_file(plan_b, p, c));
                }
                lemma_writes_concat(plan_a, plan_b, p, c);
            }
        }
    }
}

/// The plan of a whole tree writes a file if and only if the filter
/// includes it — "only if" unconditionally, "if" beneath directories the
/// skip list does not drop.
pub proof fn lemma_plan_agrees_with_filter(
    t: TemplateTree,
    only: Seq<Category>,
    skips: Seq<Seq<char>>,
)
    ensures
        forall|p: Seq<char>, c: Seq<char>|
            #[trigger] writes_file(plan_list(t.roots@, only, skips), p, c) ==> should_include_spec(
                p,
                only,
                skips,
            ) && in_files(tree_files(t), p, c),
        no_dir_skipped_list(t.roots@, skips) ==> forall|i: int|
            0 <= i < tree_files(t).len() && should_include_spec(
                (#[trigger] tree_files(t)[i]).0,
                only,
                skips,
            ) ==> writes_file(
                plan_list(t.roots@, only, skips),
                tree_files(t)[i].0,
                tree_files(t)[i].1,
            ),
{
    lemma_plan_list_agrees(t.roots@, only, skips);
}

} // verus!
