//! The installer: walking the template tree under a filter and turning it
//! into an ordered plan of steps.
//!
//! The walk is depth first in declaration order.  A directory whose path
//! the skip list excludes drops its whole subtree with a reported skip; a
//! directory with no installable descendant under an active category
//! restriction is pruned silently; every other directory is ensured to
//! exist and recursed into.  An included file becomes a merge step when
//! its path designates a JSON target and a copy step otherwise.  The shell
//! that performs the steps backs a target up before overwriting it.

use vstd::prelude::*;

use crate::filter::Category;
use crate::filter::InstallFilter;
use crate::filter::should_include_spec;
use crate::filter::skipped;
use crate::strings::has_suffix;
use crate::strings::str_has_suffix;
use crate::strings::strings_view;
use crate::tree::TemplateNode;
use crate::tree::TemplateTree;
use crate::tree::any_included;
use crate::tree::files_of_list;
use crate::tree::node_files;

verus! {

broadcast use vstd::std_specs::vec::group_vec_axioms, vstd::seq::group_seq_axioms;

/// A JSON-designated target: merged into what is on disk, never
/// overwritten wholesale.
pub open spec fn is_json_path(p: Seq<char>) -> bool {
    has_suffix(p, ".json"@)
}

/// One step of an installation plan.
pub enum PlanStep {
    EnsureDir { path: String },
    CopyFile { path: String, content: String },
    MergeJson { path: String, content: String },
    Skipped { path: String },
}

/// The mathematical shape of a plan step.
pub enum SpecStep {
    EnsureDir(Seq<char>),
    CopyFile(Seq<char>, Seq<char>),
    MergeJson(Seq<char>, Seq<char>),
    Skipped(Seq<char>),
}

impl View for PlanStep {
    type V = SpecStep;

    open spec fn view(&self) -> SpecStep {
        match self {
            PlanStep::EnsureDir { path } => SpecStep::EnsureDir(path@),
            PlanStep::CopyFile { path, content } => SpecStep::CopyFile(path@, content@),
            PlanStep::MergeJson { path, content } => SpecStep::MergeJson(path@, content@),
            PlanStep::Skipped { path } => SpecStep::Skipped(path@),
        }
    }
}

/// The views of a sequence of plan steps, elementwise.
pub open spec fn steps_view(v: Seq<PlanStep>) -> Seq<SpecStep> {
    Seq::new(
        v.len(),
        |i: int|
            if 0 <= i < v.len() {
                v[i]@
            } else {
                SpecStep::Skipped(Seq::empty())
            },
    )
}

/// The plan for one node of the tree.
pub open spec fn plan_node(
    n: TemplateNode,
    only: Seq<Category>,
    skips: Seq<Seq<char>>,
) -> Seq<SpecStep>
    decreases n,
{
    match n {
        TemplateNode::File { path, content } => if should_include_spec(path@, only, skips) {
            if is_json_path(path@) {
                seq![SpecStep::MergeJson(path@, content@)]
            } else {
                seq![SpecStep::CopyFile(path@, content@)]
            }
        } else {
            seq![SpecStep::Skipped(path@)]
        },
        TemplateNode::Dir { path, children } => if skipped(path@, skips) {
            seq![SpecStep::Skipped(path@)]
        } else if only.len() > 0 && !any_included(files_of_list(children@), only, skips) {
            Seq::empty()
        } else {
            seq![SpecStep::EnsureDir(path@)] + plan_list(children@, only, skips)
        },
    }
}

/// The plan for a forest, in declaration order.
pub open spec fn plan_list(
    ns: Seq<TemplateNode>,
    only: Seq<Category>,
    skips: Seq<Seq<char>>,
) -> Seq<SpecStep>
    decreases ns,
{
    if ns.len() == 0 {
        Seq::empty()
    } else {
        plan_node(ns[0], only, skips) + plan_list(ns.drop_first(), only, skips)
    }
}

/// Planning one more node extends the plan on the right.
pub proof fn lemma_plan_list_push(
    ns: Seq<TemplateNode>,
    n: TemplateNode,
    only: Seq<Category>,
    skips: Seq<Seq<char>>,
)
    ensures
        plan_list(ns.push(n), only, skips) == plan_list(ns, only, skips) + plan_node(
            n,
            only,
            skips,
        ),
    decreases ns.len(),
{
    if ns.len() == 0 {
        assert(plan_list(ns, only, skips) == Seq::<SpecStep>::empty());
        assert(plan_list(ns.push(n), only, skips) == plan_node(ns.push(n)[0], only, skips)
            + plan_list(ns.push(n).drop_first(), only, skips));
        assert(ns.push(n)[0] == n);
        assert(ns.push(n).drop_first() =~= ns);
        assert(plan_node(n, only, skips) + Seq::<SpecStep>::empty() =~= plan_node(n, only, skips));
        assert(plan_list(ns, only, skips) + plan_node(n, only, skips) =~= plan_node(
            n,
            only,
            skips,
        ));
    } else {
        assert(ns.push(n)[0] == ns[0]);
        assert(ns.push(n).drop_first() =~= ns.drop_first().push(n));
        lemma_plan_list_push(ns.drop_first(), n, only, skips);
        assert(plan_list(ns, only, skips) + plan_node(n, only, skips) =~= plan_node(
            ns[0],
            only,
            skips,
        ) + (plan_list(ns.drop_first(), only, skips) + plan_node(n, only, skips)));
    }
}

/// Appends the plan for one node.
#[verifier::loop_isolation(false)]
fn plan_into(n: &TemplateNode, filter: &InstallFilter, out: &mut Vec<PlanStep>)
    ensures
        steps_view(final(out)@) == steps_view(old(out)@) + plan_node(
            *n,
            filter.only@,
            strings_view(filter.skip@),
        ),
    decreases n,
{
    let ghost only = filter.only@;
    let ghost skips = strings_view(filter.skip@);
    match n {
        TemplateNode::File { path, content } => {
            if filter.should_include(path.as_str()) {
                if str_has_suffix(path.as_str(), ".json") {
                    out.push(PlanStep::MergeJson { path: path.clone(), content: content.clone() });
                } else {
                    out.push(PlanStep::CopyFile { path: path.clone(), content: content.clone() });
                }
            } else {
                out.push(PlanStep::Skipped { path: path.clone() });
            }
            proof {
                assert(steps_view(out@) =~= steps_view(old(out)@) + plan_node(*n, only, skips));
            }
        },
        TemplateNode::Dir { path, children } => {
            if filter.is_skipped(path.as_str()) {
                out.push(PlanStep::Skipped { path: path.clone() });
                proof {
                    assert(steps_view(out@) =~= steps_view(old(out)@) + plan_node(
                        *n,
                        only,
                        skips,
                    ));
                }
            } else if filter.only.len() > 0 && !n.has_matching_descendant(filter) {
                proof {
                    assert(steps_view(out@) =~= steps_view(old(out)@) + plan_node(
                        *n,
                        only,
                        skips,
                    ));
                }
            } else {
                out.push(PlanStep::EnsureDir { path: path.clone() });
                let ghost mark = out@;
                proof {
                    assert(steps_view(mark) =~= steps_view(old(out)@) + seq![
                        SpecStep::EnsureDir(path@),
                    ]);
                }
                let mut i: usize = 0;
                while i < children.len()
                    invariant
                        i <= children@.len(),
                        steps_view(out@) == steps_view(mark) + plan_list(
                            children@.take(i as int),
                            only,
                            skips,
                        ),
                    decreases children@.len() - i,
                {
                    plan_into(&children[i], filter, out);
                    proof {
                        assert(children@.take(i + 1) =~= children@.take(i as int).push(
                            children@[i as int],
                        ));
                        lemma_plan_list_push(
                            children@.take(i as int),
                            children@[i as int],
                            only,
                            skips,
                        );
                        assert(steps_view(out@) =~= steps_view(mark) + plan_list(
                            children@.take(i + 1),
                            only,
                            skips,
                        ));
                    }
                    i += 1;
                }
                proof {
                    assert(children@.take(children@.len() as int) =~= children@);
                    assert(steps_view(out@) =~= steps_view(old(out)@) + plan_node(
                        *n,
                        only,
                        skips,
                    ));
                }
            }
        },
    }
}

impl TemplateTree {
    /// The ordered plan for installing this tree under `filter`.
    pub fn install_plan(&self, filter: &InstallFilter) -> (r: Vec<PlanStep>)
        ensures
            steps_view(r@) == plan_list(self.roots@, filter.only@, strings_view(filter.skip@)),
    {
        let ghost only = filter.only@;
        let ghost skips = strings_view(filter.skip@);
        let mut out: Vec<PlanStep> = Vec::new();
        proof {
            assert(steps_view(out@) =~= Seq::<SpecStep>::empty());
            assert(self.roots@.take(0) =~= Seq::<TemplateNode>::empty());
        }
        let mut i: usize = 0;
        while i < self.roots.len()
            invariant
                i <= self.roots@.len(),
                steps_view(out@) == plan_list(self.roots@.take(i as int), only, skips),
                only == filter.only@,
                skips == strings_view(filter.skip@),
            decreases self.roots@.len() - i,
        {
            let ghost before = steps_view(out@);
            plan_into(&self.roots[i], filter, &mut out);
            proof {
                assert(self.roots@.take(i + 1) =~= self.roots@.take(i as int).push(
                    self.roots@[i as int],
                ));
                lemma_plan_list_push(self.roots@.take(i as int), self.roots@[i as int], only, skips);
            }
            i += 1;
        }
        proof {
            assert(self.roots@.take(self.roots@.len() as int) =~= self.roots@);
        }
        out
    }
}

/// What the shell does at one file target: in a dry run it only reports;
/// otherwise an existing target is backed up before it is written.
#[derive(Debug, PartialEq, Eq, Structural)]
pub enum WriteDecision {
    WouldCreate,
    WouldOverwrite,
    CreateNew,
    BackupThenWrite,
}

/// The per-target decision: dry runs never touch the filesystem, and a
/// write over an existing target is always preceded by a backup.
pub fn write_decision(target_exists: bool, dry_run: bool) -> (r: WriteDecision)
    ensures
        r == (if dry_run {
            if target_exists {
                WriteDecision::WouldOverwrite
            } else {
                WriteDecision::WouldCreate
            }
        } else {
            if target_exists {
                WriteDecision::BackupThenWrite
            } else {
                WriteDecision::CreateNew
            }
        }),
{
    if dry_run {
        if target_exists {
            WriteDecision::WouldOverwrite
        } else {
            WriteDecision::WouldCreate
        }
    } else {
        if target_exists {
            WriteDecision::BackupThenWrite
        } else {
            WriteDecision::CreateNew
        }
    }
}

} // verus!
