//! Attaching a replica, taking up what was interrupted, and rebasing.

use vstd::prelude::*;

use crate::convergence::{alike, alike_is_same};
use crate::error::{invalid, unsupported, Error, Fault};
use crate::identity::{AuthorityId, GcEpoch, OperationId, VolumeId};
use crate::model::{ChangeCursor, NamespaceRevision};
use crate::namespace::{value_at, Namespace};
use crate::paths::{texts_view, PathSet};
use crate::plan::{ConvergencePlan, ScannedTree};
use crate::reconcile::{changed_paths, other_volume, require_fault, same_entry};
use crate::replica::{
    binding_fault, same_binding, validate_authority, ReplicaState, StateView, StoredPath, SyncPhase,
};

verus! {

pub ghost struct OutcomeView {
    pub conflict_paths: Seq<Seq<char>>,
    pub published: bool,
    pub sequence: u64,
}

/// What a synchronization came to.
#[derive(Debug)]
pub struct SyncOutcome {
    pub conflict_paths: Vec<String>,
    pub published: bool,
    pub sequence: u64,
}

impl SyncOutcome {
    pub open spec fn view(&self) -> OutcomeView {
        OutcomeView {
            conflict_paths: texts_view(self.conflict_paths@),
            published: self.published,
            sequence: self.sequence,
        }
    }

    /// The outcome of an installation.
    pub fn restored(revision: NamespaceRevision, published: bool) -> (outcome: Self)
        ensures
            outcome@ == (OutcomeView {
                conflict_paths: Seq::empty(),
                published,
                sequence: revision.sequence(),
            }),
    {
        let outcome = SyncOutcome {
            conflict_paths: Vec::new(),
            published,
            sequence: revision.cursor().sequence(),
        };
        assert(outcome@.conflict_paths =~= Seq::empty());
        outcome
    }
}

/// Where the namespace to install comes from.
#[derive(Clone, Copy, Debug, PartialEq, Eq, Structural)]
pub enum NamespaceSource {
    /// The namespace that was observed.
    Observed,
    /// The namespace of the revision that was asked for along with it.
    Loaded,
    /// The namespace of the target, which is still to be read.
    Target,
}

/// An installation that has begun.
#[derive(Debug)]
pub struct Attachment {
    pub state: ReplicaState,
    pub source: NamespaceSource,
    pub revision: NamespaceRevision,
    pub published: bool,
}

/// Check that no resolutions were given: there is nothing to resolve when a namespace is
/// materialized.
pub fn require_plain(resolve_paths: &Vec<String>) -> (result: Result<(), Error>)
    ensures
        match result {
            Ok(()) => resolve_paths@.len() == 0,
            Err(error) => resolve_paths@.len() > 0 && error.fault() == unsupported(
                "restore replica",
                "conflict resolution requires replica convergence",
            ),
        },
{
    if resolve_paths.len() > 0 {
        return Err(
            Error::unsupported(
                "restore replica",
                "conflict resolution requires replica convergence",
            ),
        );
    }
    Ok(())
}

/// The state of a replica whose installation has begun.
pub open spec fn installing(
    state: StateView,
    revision: NamespaceRevision,
    published: bool,
) -> StateView {
    StateView {
        observed: revision,
        phase: SyncPhase::Installing { published },
        conflicts: 0,
        base_expired: false,
        ..state
    }
}

/// Why a directory cannot be attached, or an attached one cannot go on installing.
pub open spec fn attach_fault(
    stored: Option<StateView>,
    is_empty: bool,
    authority_id: AuthorityId,
    authority_name: Seq<char>,
) -> Option<Fault> {
    match stored {
        Some(state) => if state.authority_id != authority_id || state.authority_name
            != authority_name {
            Some(binding_fault("replica state belongs to a different namespace authority"))
        } else if !(state.phase is Installing) {
            Some(unsupported("synchronize replica", "an attached replica requires convergence"))
        } else {
            None
        },
        None => if !is_empty {
            Some(unsupported("restore replica", "initial publication requires local observation"))
        } else {
            None
        },
    }
}

/// The namespace that an interrupted installation goes on with.
pub open spec fn resumed_source(
    target: NamespaceRevision,
    observed: NamespaceRevision,
    loaded: bool,
) -> NamespaceSource {
    if observed != target && loaded {
        NamespaceSource::Loaded
    } else {
        NamespaceSource::Observed
    }
}

pub open spec fn stored_view(stored: Option<ReplicaState>) -> Option<StateView> {
    match stored {
        Some(state) => Some(state@),
        None => None,
    }
}

/// Attach an empty local directory to a volume, or take up an interrupted installation.
///
/// `loaded` tells whether the revision that the stored state goes on with could still be read.
pub fn attach(
    stored: Option<ReplicaState>,
    root: StoredPath,
    is_empty: bool,
    volume_id: VolumeId,
    authority_id: AuthorityId,
    authority_name: &str,
    observed: NamespaceRevision,
    loaded: bool,
) -> (result: Result<Attachment, Error>)
    ensures
        match result {
            Ok(attachment) => {
                &&& attach_fault(stored_view(stored), is_empty, authority_id, authority_name@)
                    is None
                &&& attachment.revision == observed
                &&& match stored {
                    Some(state) => {
                        &&& state@.phase == (SyncPhase::Installing {
                            published: attachment.published,
                        })
                        &&& attachment.source == resumed_source(state@.observed, observed, loaded)
                        &&& attachment.state@ == installing(
                            state@,
                            observed,
                            attachment.published,
                        )
                    },
                    None => {
                        &&& !attachment.published
                        &&& attachment.source == NamespaceSource::Observed
                        &&& attachment.state@ == (StateView {
                            root: root@,
                            volume_id,
                            authority_id,
                            authority_name: authority_name@,
                            common: observed,
                            observed,
                            phase: SyncPhase::Installing { published: false },
                            conflicts: 0,
                            base_expired: false,
                        })
                    },
                }
            },
            Err(error) => attach_fault(
                stored_view(stored),
                is_empty,
                authority_id,
                authority_name@,
            ) == Some(error.fault()),
        },
{
    match stored {
        Some(state) => {
            let mut state = state;
            match validate_authority(&state, authority_id, authority_name) {
                Ok(()) => {},
                Err(error) => {
                    return Err(error);
                },
            }
            let (target, published) = match state.installation() {
                Some(installation) => installation,
                None => {
                    return Err(
                        Error::unsupported(
                            "synchronize replica",
                            "an attached replica requires convergence",
                        ),
                    );
                },
            };
            let source = if observed != target && loaded {
                NamespaceSource::Loaded
            } else {
                NamespaceSource::Observed
            };
            state.begin_install(observed, published);
            Ok(Attachment { state, source, revision: observed, published })
        },
        None => {
            if !is_empty {
                return Err(
                    Error::unsupported(
                        "restore replica",
                        "initial publication requires local observation",
                    ),
                );
            }
            let mut state = ReplicaState::new(
                root,
                volume_id,
                authority_id,
                authority_name.to_owned(),
                observed,
            );
            state.begin_install(observed, false);
            Ok(
                Attachment {
                    state,
                    source: NamespaceSource::Observed,
                    revision: observed,
                    published: false,
                },
            )
        },
    }
}

/// The installation of a revision is done.
pub fn finish_install(state: &mut ReplicaState, revision: NamespaceRevision, published: bool) -> (outcome:
    SyncOutcome)
    ensures
        final(state)@ == (StateView {
            common: revision,
            observed: revision,
            phase: SyncPhase::Clean,
            conflicts: 0,
            base_expired: false,
            ..old(state)@
        }),
        outcome@ == (OutcomeView {
            conflict_paths: Seq::empty(),
            published,
            sequence: revision.sequence(),
        }),
{
    state.advance(revision);
    SyncOutcome::restored(revision, published)
}

/// An installation that is interrupted is taken up again: the state that was stored when it
/// began is accepted, remembers whether it was published here, and, while nothing new is
/// observed, leads to the namespace and the state of the first attempt.
pub proof fn interrupted_installations_resume(
    state: StateView,
    observed: NamespaceRevision,
    published: bool,
    loaded: bool,
)
    ensures
        ({
            let begun = installing(state, observed, published);
            &&& attach_fault(Some(begun), true, state.authority_id, state.authority_name) is None
            &&& begun.phase == (SyncPhase::Installing { published })
            &&& resumed_source(begun.observed, observed, loaded) == NamespaceSource::Observed
            &&& installing(begun, observed, published) == begun
        }),
{
}

/// A namespace to install, and what the directory is taken to hold before.
#[derive(Clone, Copy, Debug)]
pub struct Installation {
    pub source: NamespaceSource,
    pub revision: NamespaceRevision,
    pub current: Option<NamespaceSource>,
}

/// Take up an installation with the revision that it was begun with, if it can be had.
pub fn recover_install(target: NamespaceRevision, observed: NamespaceRevision, loaded: bool) -> (plan:
    Installation)
    ensures
        plan.current is None,
        observed == target ==> plan.source == NamespaceSource::Observed && plan.revision == target,
        observed != target && loaded ==> plan.source == NamespaceSource::Loaded && plan.revision
            == target,
        observed != target && !loaded ==> plan.source == NamespaceSource::Observed && plan.revision
            == observed,
{
    if observed == target {
        Installation { source: NamespaceSource::Observed, revision: target, current: None }
    } else if loaded {
        Installation { source: NamespaceSource::Loaded, revision: target, current: None }
    } else {
        Installation { source: NamespaceSource::Observed, revision: observed, current: None }
    }
}

/// What comes after a publication was interrupted.
#[derive(Debug)]
pub enum PendingStep {
    /// It went through: install it.
    Install(Installation),
    /// It did not: publish the operation, then install it.
    Publish { operation: OperationId, target: NamespaceRevision, then: Installation },
    /// It no longer can: store the state and report.
    GiveUp(Error),
}

/// The installation of a publication that went through.
pub open spec fn committed_install(
    expected: NamespaceRevision,
    target: NamespaceRevision,
    observed: NamespaceRevision,
    loaded: bool,
    plan: Installation,
) -> bool {
    &&& plan.current == (if observed == expected {
        Some(NamespaceSource::Observed)
    } else if loaded {
        Some(NamespaceSource::Loaded)
    } else {
        None
    })
    &&& if observed.sequence() >= target.sequence() {
        plan.source == NamespaceSource::Observed && plan.revision == observed
    } else {
        plan.source == NamespaceSource::Target && plan.revision == target
    }
}

/// Install a publication that went through: what was observed, if it is not older.
pub fn install_committed_publication(
    expected: NamespaceRevision,
    target: NamespaceRevision,
    observed: NamespaceRevision,
    loaded: bool,
) -> (plan: Installation)
    ensures
        committed_install(expected, target, observed, loaded, plan),
{
    let current = if observed == expected {
        Some(NamespaceSource::Observed)
    } else if loaded {
        Some(NamespaceSource::Loaded)
    } else {
        None
    };
    if observed.cursor().sequence() >= target.cursor().sequence() {
        Installation { source: NamespaceSource::Observed, revision: observed, current }
    } else {
        Installation { source: NamespaceSource::Target, revision: target, current }
    }
}

/// The operation to look for among the receipts, unless the publication is the observed one.
pub fn pending_question(state: &ReplicaState, observed: NamespaceRevision) -> (question: Option<
    (OperationId, ChangeCursor),
>)
    ensures
        question == (match state@.phase {
            SyncPhase::Publishing { target, operation_id, gc_epoch } => if observed == target {
                None
            } else {
                Some((operation_id, target.change_cursor))
            },
            _ => None,
        }),
{
    match state.pending_publication() {
        Some((_, target, operation, _)) => if observed == target {
            None
        } else {
            Some((operation, target.cursor()))
        },
        None => None,
    }
}

/// The state after a publication was given up.
pub open spec fn cancelled(state: StateView, remote: NamespaceRevision) -> StateView {
    StateView {
        common: if remote.sequence() == state.common.sequence() {
            remote
        } else {
            state.common
        },
        observed: remote,
        phase: SyncPhase::Clean,
        base_expired: false,
        ..state
    }
}

pub open spec fn collected_meanwhile() -> Fault {
    invalid(
        "synchronize replica",
        "pending publication was invalidated by data collection; repeat sync to prepare it again",
    )
}

pub open spec fn overtaken() -> Fault {
    invalid(
        "synchronize replica",
        "pending publication conflicted with a newer remote change; repeat sync to reconcile",
    )
}

/// Decide what becomes of an interrupted publication. `committed` tells whether its receipt
/// was found.
pub fn recover_pending(
    state: &mut ReplicaState,
    observed: NamespaceRevision,
    gc_epoch: GcEpoch,
    loaded: bool,
    committed: bool,
) -> (step: PendingStep)
    requires
        old(state)@.phase is Publishing,
    ensures
        ({
            let expected = old(state)@.observed;
            let target = old(state)@.phase->target;
            let went_through = observed == target || committed;
            &&& went_through ==> {
                &&& step matches PendingStep::Install(plan)
                &&& committed_install(expected, target, observed, loaded, plan)
                &&& final(state)@ == old(state)@
            }
            &&& !went_through && gc_epoch != old(state)@.phase->gc_epoch ==> {
                &&& step matches PendingStep::GiveUp(error)
                &&& error.fault() == collected_meanwhile()
                &&& final(state)@ == cancelled(old(state)@, observed)
            }
            &&& !went_through && gc_epoch == old(state)@.phase->gc_epoch && observed != expected
                ==> {
                &&& step matches PendingStep::GiveUp(error)
                &&& error.fault() == overtaken()
                &&& final(state)@ == cancelled(old(state)@, observed)
            }
            &&& !went_through && gc_epoch == old(state)@.phase->gc_epoch && observed == expected
                ==> {
                &&& step matches PendingStep::Publish { operation, target: published, then }
                &&& operation == old(state)@.phase->operation_id
                &&& published == target
                &&& committed_install(expected, target, observed, loaded, then)
                &&& final(state)@ == old(state)@
            }
        }),
{
    let (expected, target, operation, pending_epoch) = state.pending_publication().unwrap();
    if observed == target || committed {
        return PendingStep::Install(
            install_committed_publication(expected, target, observed, loaded),
        );
    }
    if gc_epoch != pending_epoch {
        state.cancel_pending(observed);
        return PendingStep::GiveUp(
            Error::invalid(
                "synchronize replica",
                "pending publication was invalidated by data collection; repeat sync to prepare it again",
            ),
        );
    }
    if observed != expected {
        state.cancel_pending(observed);
        return PendingStep::GiveUp(
            Error::invalid(
                "synchronize replica",
                "pending publication conflicted with a newer remote change; repeat sync to reconcile",
            ),
        );
    }
    PendingStep::Publish {
        operation,
        target,
        then: install_committed_publication(expected, target, observed, loaded),
    }
}

/// What comes of a replica whose common namespace can no longer be read.
#[derive(Debug)]
pub enum RebaseStep {
    /// The directory holds what was observed.
    Advanced,
    /// The differing paths conflict, as none can be told to be older.
    Conflicted(PathSet),
    /// Each differing path was resolved: the directory is published.
    Converge(ConvergencePlan),
}

/// The set holds the paths at which two namespaces differ.
pub open spec fn holds_changes(
    paths: &PathSet,
    base: crate::namespace::NamespaceView,
    side: crate::namespace::NamespaceView,
) -> bool {
    forall|path: Seq<char>|
        #[trigger] paths.has(path) <==> !same_entry(
            value_at(base.records, path),
            value_at(side.records, path),
        )
}

/// Rebase a replica on what was observed, without a common namespace.
pub fn conservative_rebase(
    state: &mut ReplicaState,
    scanned: ScannedTree,
    observed: &Namespace,
    revision: NamespaceRevision,
    resolved: &PathSet,
) -> (result: Result<RebaseStep, Error>)
    ensures
        match scanned {
            ScannedTree::Unchanged => {
                &&& result matches Ok(RebaseStep::Advanced)
                &&& final(state)@ == (StateView {
                    common: revision,
                    observed: revision,
                    phase: SyncPhase::Clean,
                    conflicts: 0,
                    base_expired: false,
                    ..old(state)@
                })
            },
            ScannedTree::Changed(local) => if require_fault(observed@, local@) {
                &&& result matches Err(error)
                &&& error.fault() == other_volume()
                &&& final(state)@ == old(state)@
            } else if holds_changes(resolved, observed@, local@) {
                &&& result matches Ok(RebaseStep::Converge(plan))
                &&& plan.says(local@, None, None)
                &&& final(state)@ == old(state)@
            } else {
                &&& result matches Ok(RebaseStep::Conflicted(paths))
                &&& holds_changes(&paths, observed@, local@)
                &&& final(state)@ == (StateView {
                    observed: revision,
                    phase: SyncPhase::Clean,
                    conflicts: paths@.len() as u64,
                    base_expired: true,
                    ..old(state)@
                })
            },
        },
{
    let local = match scanned {
        ScannedTree::Unchanged => {
            state.advance(revision);
            return Ok(RebaseStep::Advanced);
        },
        ScannedTree::Changed(local) => local,
    };
    let ambiguous = match changed_paths(observed, &local) {
        Ok(paths) => paths,
        Err(error) => {
            return Err(error);
        },
    };
    if !resolved.same(&ambiguous) {
        let count: usize = ambiguous.len();
        state.retain_conflicts(count, revision, true);
        return Ok(RebaseStep::Conflicted(ambiguous));
    }
    Ok(RebaseStep::Converge(ConvergencePlan { target: local, committed: None, install_from: None }))
}

// What attaching, recovering and rebasing keep.

/// Only an empty directory that no state is stored of is attached afresh. What is stored of it
/// from then on is bound to it, to the volume and to the authority, and is about to install
/// what was observed.
pub proof fn a_fresh_attachment_installs_what_was_observed(
    root: StoredPath,
    is_empty: bool,
    volume_id: VolumeId,
    authority_id: AuthorityId,
    authority_name: &str,
    observed: NamespaceRevision,
    loaded: bool,
    result: Result<Attachment, Error>,
)
    requires
        call_ensures(
            attach,
            (
                None,
                root,
                is_empty,
                volume_id,
                authority_id,
                authority_name,
                observed,
                loaded,
            ),
            result,
        ),
    ensures
        result is Ok <==> is_empty,
        result matches Ok(attachment) ==> {
            let state = attachment.state@;
            &&& state.root == root.bytes@
            &&& state.volume_id == volume_id
            &&& state.authority_id == authority_id
            &&& state.authority_name == authority_name@
            &&& state.common == observed
            &&& state.observed == observed
            &&& state.phase is Installing && !state.phase->published
            &&& state.conflicts == 0
            &&& !state.base_expired
            &&& attachment.source is Observed
            &&& attachment.revision == observed
            &&& !attachment.published
        },
{
}

/// An attached directory goes on only with an installation of its own authority. It stays bound
/// as it was and keeps its common revision, remembers whether the installation was published
/// here, and takes what was observed; the namespace that it began with is installed only where
/// another one was observed and it can still be read.
pub proof fn a_resumed_attachment_stays_bound(
    stored: ReplicaState,
    root: StoredPath,
    is_empty: bool,
    volume_id: VolumeId,
    authority_id: AuthorityId,
    authority_name: &str,
    observed: NamespaceRevision,
    loaded: bool,
    result: Result<Attachment, Error>,
)
    requires
        call_ensures(
            attach,
            (
                Some(stored),
                root,
                is_empty,
                volume_id,
                authority_id,
                authority_name,
                observed,
                loaded,
            ),
            result,
        ),
    ensures
        result is Ok <==> {
            &&& stored@.authority_id == authority_id
            &&& stored@.authority_name == authority_name@
            &&& stored@.phase is Installing
        },
        result matches Ok(attachment) ==> {
            let state = attachment.state@;
            &&& same_binding(state, stored@)
            &&& state.common == stored@.common
            &&& state.observed == observed
            &&& state.phase is Installing
            &&& state.phase->published == stored@.phase->published
            &&& attachment.published == stored@.phase->published
            &&& attachment.revision == observed
            &&& attachment.source is Loaded <==> loaded && stored@.observed != observed
            &&& attachment.source is Observed <==> !(attachment.source is Loaded)
        },
{
}

/// An installation that is done leaves the replica with the revision, bound as it was, and
/// nothing under way; it tells of that revision and of no conflict.
pub proof fn a_finished_installation_is_clean(
    state: &mut ReplicaState,
    revision: NamespaceRevision,
    published: bool,
    outcome: SyncOutcome,
)
    requires
        call_ensures(finish_install, (state, revision, published), outcome),
    ensures
        same_binding(final(state)@, old(state)@),
        final(state)@.common == revision,
        final(state)@.observed == revision,
        final(state)@.phase is Clean,
        final(state)@.conflicts == 0,
        !final(state)@.base_expired,
        outcome.conflict_paths@.len() == 0,
        outcome.published == published,
        outcome.sequence == revision.sequence(),
{
    assert(texts_view(outcome.conflict_paths@).len() == outcome.conflict_paths@.len());
}

/// An interrupted installation is taken up with the revision that it was begun with, unless
/// that can no longer be had: then with what was observed. The namespace to install is the one
/// of that revision, and nothing is taken to be in place.
pub proof fn a_recovered_installation_keeps_its_revision(
    target: NamespaceRevision,
    observed: NamespaceRevision,
    loaded: bool,
    plan: Installation,
)
    requires
        call_ensures(recover_install, (target, observed, loaded), plan),
    ensures
        plan.revision == target || plan.revision == observed,
        loaded ==> plan.revision == target,
        plan.source is Observed ==> plan.revision == observed,
        plan.source is Loaded ==> plan.revision == target && loaded,
        !(plan.source is Target),
        plan.current is None,
{
}

/// What is installed of a publication that went through is never older than it, and is the
/// publication or what was observed; what is taken to be in place is what it was made from.
pub proof fn a_committed_publication_is_not_lost(
    expected: NamespaceRevision,
    target: NamespaceRevision,
    observed: NamespaceRevision,
    loaded: bool,
    plan: Installation,
)
    requires
        call_ensures(install_committed_publication, (expected, target, observed, loaded), plan),
    ensures
        plan.revision.sequence() >= target.sequence(),
        plan.revision.sequence() >= observed.sequence(),
        plan.source is Observed ==> plan.revision == observed,
        plan.source is Target ==> plan.revision == target,
        !(plan.source is Loaded),
        plan.current matches Some(source) ==> !(source is Target),
        plan.current == Some(NamespaceSource::Observed) ==> observed == expected,
        observed == expected ==> plan.current == Some(NamespaceSource::Observed),
        observed != expected ==> (plan.current is Some <==> loaded),
{
}

/// A publication whose receipt was found, or that was observed, is installed and never given up.
/// It is published again only on top of the very revision that it was made from and in the same
/// collection epoch, under its own operation. Only giving it up changes the state, and then
/// nothing is under way and the common cursor stays.
pub proof fn an_interrupted_publication_is_settled(
    state: &mut ReplicaState,
    observed: NamespaceRevision,
    gc_epoch: GcEpoch,
    loaded: bool,
    committed: bool,
    step: PendingStep,
)
    requires
        old(state)@.phase is Publishing,
        call_ensures(recover_pending, (state, observed, gc_epoch, loaded, committed), step),
    ensures
        step is Install <==> committed || observed == old(state)@.phase->target,
        step is Publish <==> !(step is Install) && observed == old(state)@.observed && gc_epoch
            == old(state)@.phase->gc_epoch,
        step matches PendingStep::Publish { operation, target, then } ==> {
            &&& operation == old(state)@.phase->operation_id
            &&& target == old(state)@.phase->target
            &&& then.revision.sequence() >= target.sequence()
            &&& then.current == Some(NamespaceSource::Observed)
        },
        step matches PendingStep::Install(plan) ==> plan.revision.sequence()
            >= old(state)@.phase->target.sequence(),
        step is GiveUp || final(state)@ == old(state)@,
        step is GiveUp ==> {
            &&& same_binding(final(state)@, old(state)@)
            &&& final(state)@.phase is Clean
            &&& final(state)@.observed == observed
            &&& final(state)@.common.sequence() == old(state)@.common.sequence()
        },
{
}

/// The receipt of an interrupted publication is asked for by its operation and its cursor,
/// unless the publication is what was observed.
pub proof fn receipts_are_asked_for_by_operation(
    state: &ReplicaState,
    observed: NamespaceRevision,
    question: Option<(OperationId, ChangeCursor)>,
)
    requires
        call_ensures(pending_question, (state, observed), question),
    ensures
        question is Some <==> state@.phase is Publishing && observed != state@.phase->target,
        question matches Some((operation, cursor)) ==> operation == state@.phase->operation_id
            && cursor == state@.phase->target.change_cursor,
{
}

/// Without a common namespace no difference is decided: the directory is published only where
/// exactly the differing paths were resolved, and otherwise they all conflict, with the common
/// revision as it was. A directory that holds what was observed advances to it.
pub proof fn a_rebase_decides_no_difference(
    state: &mut ReplicaState,
    scanned: ScannedTree,
    observed: &Namespace,
    revision: NamespaceRevision,
    resolved: &PathSet,
    result: Result<RebaseStep, Error>,
    path: Seq<char>,
)
    requires
        call_ensures(
            conservative_rebase,
            (state, scanned, observed, revision, resolved),
            result,
        ),
    ensures
        same_binding(final(state)@, old(state)@),
        result is Ok && result->Ok_0 is Advanced <==> scanned is Unchanged,
        scanned is Unchanged ==> final(state)@.common == revision && final(state)@.observed
            == revision && final(state)@.phase is Clean,
        scanned is Changed ==> final(state)@.common == old(state)@.common,
        scanned matches ScannedTree::Changed(local) ==> {
            let differs = !alike(
                value_at(observed@.records, path),
                value_at(local@.records, path),
            );
            &&& result is Err <==> observed@.volume_id != local@.volume_id || observed@.root
                != local@.root
            &&& result matches Ok(RebaseStep::Converge(plan)) ==> {
                &&& plan.target@ == local@
                &&& plan.committed is None
                &&& plan.install_from is None
                &&& differs <==> resolved.has(path)
                &&& final(state)@ == old(state)@
            }
            &&& result matches Ok(RebaseStep::Conflicted(paths)) ==> {
                &&& differs <==> paths.has(path)
                &&& paths@.len() <= u64::MAX ==> final(state)@.conflicts as int == paths@.len()
                &&& final(state)@.base_expired
                &&& final(state)@.phase is Clean
                &&& final(state)@.observed == revision
            }
            &&& result is Err ==> final(state)@ == old(state)@
        },
{
    if let ScannedTree::Changed(local) = scanned {
        alike_is_same(value_at(observed@.records, path), value_at(local@.records, path));
        if let Ok(RebaseStep::Converge(plan)) = result {
            assert(resolved.has(path) == resolved.has(path));
        }
    }
}

} // verus!
