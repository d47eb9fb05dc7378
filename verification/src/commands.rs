//! The stack engine: one function per command, each a pure state
//! transformation. Callers resolve names against the VCS, perform
//! the VCS side effects, and persist the forest afterwards.

use vstd::prelude::*;

use crate::model::Error;
use crate::model::State;
use crate::model::branch_of;
use crate::model::insert_child_spec;
use crate::model::is_tracked;
use crate::model::lemma_insert_child_preserves_wf;
use crate::model::lemma_insert_root_preserves_wf;
use crate::model::lemma_prune_preserves_wf;
use crate::model::lemma_remove_preserves_wf;
use crate::model::lemma_reparent_preserves_wf;
use crate::model::wf;
use crate::model::prune_rebuild;
use crate::model::prune_spec;
use crate::model::remove_spec;
use crate::model::removed_names;
use crate::model::reparent_spec;
use crate::model::root_branch;

verus! {

/// Track `branch_name`, as a root or under `parent_branch_name`.
/// Tracking an already-tracked name is a reported no-op: the forest
/// is left untouched and `Ok(false)` says so. A parent that is not
/// itself tracked is refused with `UnknownParent`.
pub fn track_branch(
    state: &mut State,
    branch_name: &str,
    parent_branch_name: Option<&str>,
) -> (r: Result<bool, Error>)
    ensures
        match r {
            Ok(true) => {
                &&& !is_tracked(old(state)@, branch_name@)
                &&& match parent_branch_name {
                    Some(p) => is_tracked(old(state)@, p@) && final(state)@ == insert_child_spec(
                        old(state)@,
                        branch_name@,
                        p@,
                    ),
                    None => final(state)@ == old(state)@.push(root_branch(branch_name@)),
                }
            },
            Ok(false) => is_tracked(old(state)@, branch_name@) && final(state)@ == old(state)@,
            Err(Error::UnknownParent) => {
                &&& !is_tracked(old(state)@, branch_name@)
                &&& parent_branch_name matches Some(p) && !is_tracked(old(state)@, p@)
                &&& final(state)@ == old(state)@
            },
            Err(_) => false,
        },
        is_tracked(old(state)@, branch_name@) ==> r == Ok::<bool, Error>(false) && final(state)@
            == old(state)@,
        wf(old(state)@) ==> wf(final(state)@),
{
    let r = state.insert(branch_name, parent_branch_name);
    proof {
        if wf(old(state)@) && r is Ok {
            match parent_branch_name {
                Some(p) => lemma_insert_child_preserves_wf(old(state)@, branch_name@, p@),
                None => lemma_insert_root_preserves_wf(old(state)@, branch_name@),
            }
        }
    }
    match r {
        Ok(_) => Ok(true),
        Err(Error::AlreadyTracked) => Ok(false),
        Err(e) => Err(e),
    }
}

/// Untrack `branch_name`. A branch that still has children is
/// refused with `HasChildren` and the forest is left unchanged.
pub fn untrack_branch(state: &mut State, branch_name: &str) -> (r: Result<(), Error>)
    ensures
        match r {
            Ok(_) => {
                &&& is_tracked(old(state)@, branch_name@)
                &&& branch_of(old(state)@, branch_name@).children.len() == 0
                &&& final(state)@ == remove_spec(old(state)@, branch_name@)
            },
            Err(Error::NotTracked) => !is_tracked(old(state)@, branch_name@) && final(state)@
                == old(state)@,
            Err(Error::HasChildren) => {
                &&& is_tracked(old(state)@, branch_name@)
                &&& branch_of(old(state)@, branch_name@).children.len() > 0
                &&& final(state)@ == old(state)@
            },
            Err(_) => false,
        },
        is_tracked(old(state)@, branch_name@) && branch_of(old(state)@, branch_name@).children.len()
            > 0 ==> r == Err::<(), Error>(Error::HasChildren) && final(state)@ == old(state)@,
        wf(old(state)@) ==> wf(final(state)@),
{
    let r = state.remove(branch_name);
    proof {
        if wf(old(state)@) && r is Ok {
            lemma_remove_preserves_wf(old(state)@, branch_name@);
        }
    }
    r
}

/// Register `child_branch_name` as a freshly created child of the
/// current branch. The caller has already had the VCS create and
/// switch to the child; this records both sides of the new edge in
/// one transaction.
pub fn create_child_branch(
    state: &mut State,
    child_branch_name: &str,
    parent_branch_name: &str,
) -> (r: Result<(), Error>)
    ensures
        match r {
            Ok(_) => {
                &&& !is_tracked(old(state)@, child_branch_name@)
                &&& is_tracked(old(state)@, parent_branch_name@)
                &&& final(state)@ == insert_child_spec(
                    old(state)@,
                    child_branch_name@,
                    parent_branch_name@,
                )
            },
            Err(Error::AlreadyTracked) => is_tracked(old(state)@, child_branch_name@)
                && final(state)@ == old(state)@,
            Err(Error::UnknownParent) => {
                &&& !is_tracked(old(state)@, child_branch_name@)
                &&& !is_tracked(old(state)@, parent_branch_name@)
                &&& final(state)@ == old(state)@
            },
            Err(_) => false,
        },
        wf(old(state)@) ==> wf(final(state)@),
{
    let r = state.insert(child_branch_name, Some(parent_branch_name));
    proof {
        if wf(old(state)@) && r is Ok {
            lemma_insert_child_preserves_wf(old(state)@, child_branch_name@, parent_branch_name@);
        }
    }
    r
}

/// Relink the current branch onto `onto` after a successful VCS
/// rebase: its recorded parent moves to `onto`, both sides of the
/// edge updated. Descendants keep their own recorded parents.
pub fn rebase(state: &mut State, current_branch_name: &str, onto: &str) -> (r: Result<(), Error>)
    ensures
        match r {
            Ok(_) => {
                &&& is_tracked(old(state)@, current_branch_name@)
                &&& branch_of(old(state)@, current_branch_name@).parent is Some
                &&& is_tracked(old(state)@, onto@)
                &&& final(state)@ == reparent_spec(old(state)@, current_branch_name@, onto@)
            },
            Err(Error::UnknownBranch) => !is_tracked(old(state)@, current_branch_name@)
                && final(state)@ == old(state)@,
            Err(Error::NoParent) => {
                &&& is_tracked(old(state)@, current_branch_name@)
                &&& branch_of(old(state)@, current_branch_name@).parent is None
                &&& final(state)@ == old(state)@
            },
            Err(Error::UnknownParent) => {
                &&& is_tracked(old(state)@, current_branch_name@)
                &&& !is_tracked(old(state)@, onto@)
                &&& final(state)@ == old(state)@
            },
            Err(_) => false,
        },
        wf(old(state)@) ==> wf(final(state)@),
{
    let i = match state.find_index(current_branch_name) {
        None => {
            return Err(Error::UnknownBranch);
        },
        Some(i) => i,
    };
    proof {
        assert(branch_of(state@, current_branch_name@) == state@[i as int]);
    }
    if state.branches[i].parent.is_none() {
        return Err(Error::NoParent);
    }
    let r = state.reparent(current_branch_name, onto);
    proof {
        if wf(old(state)@) && r is Ok {
            lemma_reparent_preserves_wf(old(state)@, current_branch_name@, onto@);
        }
    }
    r
}

/// Prune every tracked branch whose name is absent from `existing`,
/// the VCS's authoritative branch list. References to pruned names
/// are cleared from the survivors in the same pass; the removed
/// names are returned in forest order.
pub fn prune(state: &mut State, existing: &Vec<String>) -> (removed: Vec<String>)
    ensures
        removed.deep_view() == removed_names(old(state)@, existing.deep_view()),
        final(state)@ == prune_spec(old(state)@, removed_names(old(state)@, existing.deep_view())),
        wf(old(state)@) ==> wf(final(state)@),
{
    proof {
        if wf(old(state)@) {
            lemma_prune_preserves_wf(old(state)@, existing.deep_view());
        }
    }
    let mut removed: Vec<String> = Vec::new();
    let n = state.branches.len();
    for i in 0..n
        invariant
            n == state.branches@.len(),
            removed.deep_view() == removed_names(state@.take(i as int), existing.deep_view()),
    {
        let ghost pre = state@.take(i as int);
        let ghost cur = state@.take(i + 1);
        proof {
            assert(cur.drop_last() =~= pre);
            assert(cur.last() == state@[i as int]);
        }
        if !crate::util::name_in_list(existing, state.branches[i].name.as_str()) {
            removed.push(state.branches[i].name.clone());
            proof {
                assert(removed.deep_view() =~= removed_names(pre, existing.deep_view()).push(
                    state@[i as int].name,
                ));
            }
        }
    }
    proof {
        assert(state@.take(n as int) =~= state@);
    }
    let out = prune_rebuild(&state.branches, &removed);
    state.branches = out;
    removed
}

/// Render the tracked forest for the tree command, the current VCS
/// branch annotated. The caller prints the lines.
pub fn command_print_branch_tree(state: &State, current_branch: &str) -> (lines: Vec<String>)
    ensures
        lines.deep_view() == crate::util::render_tree_spec(state@, current_branch@),
{
    crate::util::print_branch_tree(&state.branches, current_branch)
}

/// Resolve the checkout filters against the VCS branch list,
/// headless: exactly one match is returned, none is `NoMatch`, and
/// several are `AmbiguousMatch`. An interactive front end may call
/// `match_branches` itself and prompt instead.
pub fn checkout(branch_matchers: &Vec<String>, git_branches: &Vec<
    crate::git_util::GitBranch,
>) -> (r: Result<String, Error>)
    ensures
        ({
            let m = crate::util::matched_spec(
                git_branches.deep_view(),
                branch_matchers.deep_view(),
            );
            match r {
                Ok(name) => m.len() == 1 && name@ == m[0],
                Err(Error::NoMatch) => m.len() == 0,
                Err(Error::AmbiguousMatch) => m.len() > 1,
                Err(_) => false,
            }
        }),
{
    let mut m = crate::util::match_branches(git_branches, branch_matchers);
    if m.len() == 0 {
        Err(Error::NoMatch)
    } else if m.len() == 1 {
        let name = m.remove(0);
        Ok(name)
    } else {
        Err(Error::AmbiguousMatch)
    }
}

} // verus!
