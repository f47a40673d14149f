//! The way from what was observed of a replica and its remote namespace to one plan.

use vstd::prelude::*;

use crate::convergence::{
    alike, all_differ, changes_of_each_side_come_out, conflicts_are_what_is_in_dispute, is_covered,
    is_lost, reconciliations_stay_in_the_volume, what_is_published_is_new,
};
use crate::error::{invalid, Error, Fault};
use crate::model::NamespaceRevision;
use crate::namespace::{records_fault, value_at, Namespace, NamespaceView};
use crate::paths::{has_text, texts_view, PathSet};
use crate::reconcile::{reconcile, reconciliation, ReconcilePlan};

verus! {

/// What a scan found in the directory of a replica.
#[derive(Debug)]
pub enum ScannedTree {
    Unchanged,
    Changed(Namespace),
}

impl ScannedTree {
    /// The namespace that a changed directory holds.
    pub open spec fn found(&self) -> Option<NamespaceView> {
        match self {
            ScannedTree::Unchanged => None,
            ScannedTree::Changed(namespace) => Some(namespace@),
        }
    }
}

/// A namespace to make the remote and the local one.
#[derive(Debug)]
pub struct ConvergencePlan {
    pub target: Namespace,
    pub committed: Option<NamespaceRevision>,
    pub install_from: Option<Namespace>,
}

impl ConvergencePlan {
    pub open spec fn says(
        &self,
        target: NamespaceView,
        committed: Option<NamespaceRevision>,
        install_from: Option<NamespaceView>,
    ) -> bool {
        &&& self.target@ == target
        &&& self.committed == committed
        &&& namespace_view(self.install_from) == install_from
    }
}

pub open spec fn namespace_view(namespace: Option<Namespace>) -> Option<NamespaceView> {
    match namespace {
        Some(namespace) => Some(namespace@),
        None => None,
    }
}

#[derive(Debug)]
pub enum SyncPlan {
    Unchanged,
    Conflicted(Vec<String>),
    Converge(ConvergencePlan),
}

/// The fault of resolutions where nothing conflicts.
pub open spec fn needless_resolution() -> Fault {
    invalid("synchronize replica", "--resolve requires a current local and remote conflict")
}

/// The plan is to converge, or resolutions were given that nothing needs.
pub open spec fn converges(
    result: Result<SyncPlan, Error>,
    resolved: &PathSet,
    target: NamespaceView,
    committed: Option<NamespaceRevision>,
    install_from: Option<NamespaceView>,
) -> bool {
    match result {
        Ok(plan) => {
            &&& resolved@.len() == 0
            &&& plan matches SyncPlan::Converge(plan)
            &&& plan.says(target, committed, install_from)
        },
        Err(error) => resolved@.len() > 0 && error.fault() == needless_resolution(),
    }
}

/// The plan carries out what a reconciliation came to.
pub open spec fn carries_out(
    result: Result<SyncPlan, Error>,
    outcome: Result<ReconcilePlan, Error>,
    local: NamespaceView,
    remote: NamespaceView,
    revision: NamespaceRevision,
) -> bool {
    match outcome {
        Ok(ReconcilePlan::Conflicted(conflicts)) => {
            &&& result matches Ok(SyncPlan::Conflicted(reported))
            &&& texts_view(reported@) == texts_view(conflicts@)
        },
        Ok(ReconcilePlan::Publish(target)) => {
            &&& result matches Ok(SyncPlan::Converge(plan))
            &&& plan.says(target@, None, Some(local))
        },
        Ok(ReconcilePlan::Remote) => {
            &&& result matches Ok(SyncPlan::Converge(plan))
            &&& plan.says(remote, Some(revision), Some(local))
        },
        Err(error) => result matches Err(other) && other.fault() == error.fault(),
    }
}

/// The plan for a replica that came from `base` and in which a scan found `local`, if it
/// changed at all, where the remote namespace is now `remote`.
pub open spec fn is_plan(
    base: NamespaceView,
    local: Option<NamespaceView>,
    remote: NamespaceView,
    revision: NamespaceRevision,
    resolved: &PathSet,
    result: Result<SyncPlan, Error>,
) -> bool {
    match local {
        None => if revision.change_cursor == base.cursor {
            result matches Ok(SyncPlan::Unchanged)
        } else {
            converges(result, resolved, remote, Some(revision), Some(base))
        },
        Some(scanned) => if revision.change_cursor == base.cursor {
            converges(result, resolved, scanned, None, None)
        } else {
            reconciles_into(base, scanned, remote, revision, resolved, result)
        },
    }
}

/// The plan is what a reconciliation of the replica with the remote namespace comes to.
pub open spec fn reconciles_into(
    base: NamespaceView,
    local: NamespaceView,
    remote: NamespaceView,
    revision: NamespaceRevision,
    resolved: &PathSet,
    result: Result<SyncPlan, Error>,
) -> bool {
    exists|outcome: Result<ReconcilePlan, Error>| #[trigger]
        reconciliation(base, local, remote, resolved, outcome) && carries_out(
            result,
            outcome,
            local,
            remote,
            revision,
        )
}

impl SyncPlan {
    /// The plan for a replica that came from `base`, where the remote namespace is now
    /// `remote`.
    pub fn build(
        base: &Namespace,
        local: ScannedTree,
        remote: &Namespace,
        remote_revision: NamespaceRevision,
        resolved: &PathSet,
    ) -> (result: Result<Self, Error>)
        ensures
            is_plan(base@, local.found(), remote@, remote_revision, resolved, result),
    {
        let ghost found = local.found();
        let remote_changed = remote_revision.cursor() != base.cursor();
        match local {
            ScannedTree::Unchanged => {
                if !remote_changed {
                    return Ok(SyncPlan::Unchanged);
                }
                match require_no_resolutions(resolved) {
                    Ok(()) => {},
                    Err(error) => {
                        return Err(error);
                    },
                }
                Ok(
                    SyncPlan::Converge(
                        ConvergencePlan {
                            target: remote.clone(),
                            committed: Some(remote_revision),
                            install_from: Some(base.clone()),
                        },
                    ),
                )
            },
            ScannedTree::Changed(local) => {
                if !remote_changed {
                    match require_no_resolutions(resolved) {
                        Ok(()) => {},
                        Err(error) => {
                            return Err(error);
                        },
                    }
                    return Ok(
                        SyncPlan::Converge(
                            ConvergencePlan { target: local, committed: None, install_from: None },
                        ),
                    );
                }
                let ghost scanned = local@;
                let outcome = reconcile(base, &local, remote, resolved);
                let ghost came_to = outcome;
                assert(reconciliation(base@, scanned, remote@, resolved, came_to));
                let result = match outcome {
                    Err(error) => Err(error),
                    Ok(ReconcilePlan::Conflicted(conflicts)) => Ok(SyncPlan::Conflicted(conflicts)),
                    Ok(ReconcilePlan::Publish(target)) => Ok(
                        SyncPlan::Converge(
                            ConvergencePlan { target, committed: None, install_from: Some(local) },
                        ),
                    ),
                    Ok(ReconcilePlan::Remote) => Ok(
                        SyncPlan::Converge(
                            ConvergencePlan {
                                target: remote.clone(),
                                committed: Some(remote_revision),
                                install_from: Some(local),
                            },
                        ),
                    ),
                };
                assert(carries_out(result, came_to, scanned, remote@, remote_revision));
                assert(found == Some(scanned));
                assert(reconciles_into(
                    base@,
                    scanned,
                    remote@,
                    remote_revision,
                    resolved,
                    result,
                ));
                result
            },
        }
    }
}

fn require_no_resolutions(resolved: &PathSet) -> (result: Result<(), Error>)
    ensures
        match result {
            Ok(()) => resolved@.len() == 0,
            Err(error) => resolved@.len() > 0 && error.fault() == needless_resolution(),
        },
{
    if !resolved.is_empty() {
        return Err(
            Error::invalid(
                "synchronize replica",
                "--resolve requires a current local and remote conflict",
            ),
        );
    }
    Ok(())
}

// Laws.

/// A plan to converge after both sides changed takes over what only one of them changed: where
/// the replica has what its base has the target has what the remote namespace has, where the
/// remote namespace has what the base has the target has what the replica has.
pub proof fn convergence_takes_both_sides_changes(
    base: NamespaceView,
    local: NamespaceView,
    remote: NamespaceView,
    revision: NamespaceRevision,
    resolved: &PathSet,
    plan: ConvergencePlan,
    path: Seq<char>,
)
    requires
        is_plan(base, Some(local), remote, revision, resolved, Ok(SyncPlan::Converge(plan))),
        revision.change_cursor != base.cursor,
        records_fault(base.records) is None,
        records_fault(local.records) is None,
        records_fault(remote.records) is None,
        !is_covered(resolved, path),
    ensures
        ({
            let before = value_at(base.records, path);
            let ours = value_at(local.records, path);
            let theirs = value_at(remote.records, path);
            let target = value_at(plan.target@.records, path);
            &&& alike(before, ours) ==> target == theirs
            &&& alike(before, theirs) ==> alike(target, ours)
            &&& alike(ours, theirs) ==> alike(target, ours)
            &&& !all_differ(before, ours, theirs)
        }),
{
    let outcome = choose|outcome: Result<ReconcilePlan, Error>| #[trigger]
        reconciliation(base, local, remote, resolved, outcome) && carries_out(
            Ok(SyncPlan::Converge(plan)),
            outcome,
            local,
            remote,
            revision,
        );
    changes_of_each_side_come_out(base, local, remote, resolved, outcome->Ok_0, path);
}

/// A plan names a remote revision as committed exactly where its target is the remote
/// namespace: where the target has at every path what the remote namespace has, after both
/// sides changed, that is the remote revision, and where a revision is named the target is what
/// the remote namespace holds.
pub proof fn committed_is_what_the_remote_holds(
    base: NamespaceView,
    local: NamespaceView,
    remote: NamespaceView,
    revision: NamespaceRevision,
    resolved: &PathSet,
    plan: ConvergencePlan,
)
    requires
        is_plan(base, Some(local), remote, revision, resolved, Ok(SyncPlan::Converge(plan))),
        revision.change_cursor != base.cursor,
        records_fault(base.records) is None,
        records_fault(local.records) is None,
        records_fault(remote.records) is None,
    ensures
        (forall|path: Seq<char>|
            alike(
                #[trigger] value_at(plan.target@.records, path),
                value_at(remote.records, path),
            )) ==> plan.committed == Some(revision),
        plan.committed is Some ==> plan.committed == Some(revision) && plan.target@ == remote,
        plan.committed is None ==> plan.target@.cursor.sequence == remote.cursor.sequence + 1,
        plan.target@.volume_id == remote.volume_id,
        plan.target@.root == remote.root,
        plan.install_from matches Some(from) && from@ == local,
{
    let outcome = choose|outcome: Result<ReconcilePlan, Error>| #[trigger]
        reconciliation(base, local, remote, resolved, outcome) && carries_out(
            Ok(SyncPlan::Converge(plan)),
            outcome,
            local,
            remote,
            revision,
        );
    what_is_published_is_new(base, local, remote, resolved, outcome);
    reconciliations_stay_in_the_volume(base, local, remote, resolved, outcome);
}

/// Where one side stands still, the other one's namespace is the target: the remote namespace,
/// already committed, that is installed over the base, or the replica's own, that is still to
/// be committed and is in place already. Where both stand still there is nothing to do.
pub proof fn a_side_that_stands_still_follows(
    base: NamespaceView,
    local: Option<NamespaceView>,
    remote: NamespaceView,
    revision: NamespaceRevision,
    resolved: &PathSet,
    result: Result<SyncPlan, Error>,
)
    requires
        is_plan(base, local, remote, revision, resolved, result),
        local is None || revision.change_cursor == base.cursor,
    ensures
        local is None && revision.change_cursor == base.cursor ==> result == Ok::<SyncPlan, Error>(
            SyncPlan::Unchanged,
        ),
        local is Some || revision.change_cursor != base.cursor ==> {
            &&& result is Ok <==> resolved@.len() == 0
            &&& result matches Ok(plan) ==> plan is Converge && {
                let plan = plan->Converge_0;
                if local is None {
                    &&& plan.target@ == remote
                    &&& plan.committed == Some(revision)
                    &&& plan.install_from matches Some(from) && from@ == base
                } else {
                    &&& plan.target@ == local->0
                    &&& plan.committed is None
                    &&& plan.install_from is None
                }
            }
        },
{
}

/// After both sides changed, conflicts are reported rather than a side's change lost: what is
/// reported is in dispute and not resolved.
pub proof fn reported_conflicts_are_in_dispute(
    base: NamespaceView,
    local: NamespaceView,
    remote: NamespaceView,
    revision: NamespaceRevision,
    resolved: &PathSet,
    paths: Vec<String>,
    path: Seq<char>,
)
    requires
        is_plan(base, Some(local), remote, revision, resolved, Ok(SyncPlan::Conflicted(paths))),
    ensures
        revision.change_cursor != base.cursor,
        paths@.len() > 0,
        has_text(texts_view(paths@), path) ==> !resolved.has(path) && (is_lost(
            base.records,
            local.records,
            remote.records,
            path,
        ) || all_differ(
            value_at(base.records, path),
            value_at(local.records, path),
            value_at(remote.records, path),
        )),
        is_lost(base.records, local.records, remote.records, path) && !resolved.has(path)
            ==> has_text(texts_view(paths@), path),
{
    let outcome = choose|outcome: Result<ReconcilePlan, Error>| #[trigger]
        reconciliation(base, local, remote, resolved, outcome) && carries_out(
            Ok(SyncPlan::Conflicted(paths)),
            outcome,
            local,
            remote,
            revision,
        );
    conflicts_are_what_is_in_dispute(base, local, remote, resolved, outcome->Ok_0, path);
    assert(texts_view(paths@).len() == paths@.len());
}

} // verus!
