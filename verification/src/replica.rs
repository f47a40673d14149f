//! The state of a local replica: what it has in common with the remote namespace, and what is
//! under way.

use vstd::prelude::*;

use crate::error::{corrupt, invalid, Error, Fault};
use crate::identity::{AuthorityId, GcEpoch, OperationId, VolumeId};
use crate::model::{ChangeCursor, NamespaceRevision};
use crate::order::Ranked;
use crate::text::{bytes_precede, bytes_rank, same_bytes};

verus! {

/// A native path, as its platform writes it.
#[derive(Debug)]
pub struct StoredPath {
    pub bytes: Vec<u8>,
}

impl StoredPath {
    pub open spec fn view(&self) -> Seq<u8> {
        self.bytes@
    }

    pub fn from_bytes(bytes: Vec<u8>) -> (path: Self)
        ensures
            path@ == bytes@,
    {
        StoredPath { bytes }
    }

    /// The bytes that the path takes up.
    pub fn memory_bytes(&self) -> (bytes: usize)
        ensures
            bytes == self@.len(),
    {
        self.bytes.len()
    }

    pub fn same(&self, other: &Self) -> (result: bool)
        ensures
            result == (self@ == other@),
    {
        same_bytes(self.bytes.as_slice(), other.bytes.as_slice())
    }
}

impl Clone for StoredPath {
    fn clone(&self) -> (result: Self)
        ensures
            result@ == self@,
    {
        let mut bytes: Vec<u8> = Vec::new();
        let mut index: usize = 0;
        while index < self.bytes.len()
            invariant
                index <= self.bytes@.len(),
                bytes@ == self.bytes@.take(index as int),
            decreases self.bytes@.len() - index,
        {
            bytes.push(self.bytes[index]);
            index += 1;
        }
        assert(bytes@ =~= self.bytes@);
        StoredPath { bytes }
    }
}

impl Ranked for StoredPath {
    open spec fn rank(&self) -> Seq<int> {
        bytes_rank(self@)
    }

    fn precedes(&self, other: &Self) -> (result: bool) {
        bytes_precede(self.bytes.as_slice(), other.bytes.as_slice())
    }
}

/// Origin of the namespace being installed.
#[derive(Clone, Copy, Debug, PartialEq, Eq, Structural)]
pub enum PublicationOrigin {
    Local,
    Remote,
}

/// Persistent replica execution boundary.
#[derive(Clone, Copy, Debug)]
pub enum SyncPhase {
    Clean,
    Publishing { target: NamespaceRevision, operation_id: OperationId, gc_epoch: GcEpoch },
    Installing { published: bool },
}

/// Persistent replica execution boundary, as callers of a replica name it.
pub type ReplicaPhase = SyncPhase;

pub ghost struct StateView {
    pub root: Seq<u8>,
    pub volume_id: VolumeId,
    pub authority_id: AuthorityId,
    pub authority_name: Seq<char>,
    pub common: NamespaceRevision,
    pub observed: NamespaceRevision,
    pub phase: SyncPhase,
    pub conflicts: u64,
    pub base_expired: bool,
}

/// Why the references of a state do not fit together.
pub open spec fn state_fault(state: StateView) -> Option<Fault> {
    if state.observed.sequence() < state.common.sequence() {
        Some(
            invalid(
                "synchronize replica",
                "replica remote cursor is behind its common namespace",
            ),
        )
    } else if state.phase matches SyncPhase::Publishing { target, .. } && target.sequence()
        != state.observed.sequence() + 1 {
        Some(corrupt("read replica state", "replica recovery references are invalid"))
    } else {
        None
    }
}

/// A recoverable binding between one local replica and its remote namespace.
///
/// It holds no namespace image and no identities of paths.
#[derive(Debug)]
pub struct ReplicaState {
    root: StoredPath,
    volume_id: VolumeId,
    authority_id: AuthorityId,
    authority_name: String,
    common: NamespaceRevision,
    observed: NamespaceRevision,
    phase: SyncPhase,
    conflicts: u64,
    base_expired: bool,
}

impl ReplicaState {
    pub closed spec fn view(&self) -> StateView {
        StateView {
            root: self.root@,
            volume_id: self.volume_id,
            authority_id: self.authority_id,
            authority_name: self.authority_name@,
            common: self.common,
            observed: self.observed,
            phase: self.phase,
            conflicts: self.conflicts,
            base_expired: self.base_expired,
        }
    }

    /// The state of a replica that has just been bound.
    pub fn new(
        root: StoredPath,
        volume_id: VolumeId,
        authority_id: AuthorityId,
        authority_name: String,
        common: NamespaceRevision,
    ) -> (state: Self)
        ensures
            state@ == (StateView {
                root: root@,
                volume_id,
                authority_id,
                authority_name: authority_name@,
                common,
                observed: common,
                phase: SyncPhase::Clean,
                conflicts: 0,
                base_expired: false,
            }),
            state_fault(state@) is None,
    {
        ReplicaState {
            root,
            volume_id,
            authority_id,
            authority_name,
            common,
            observed: common,
            phase: SyncPhase::Clean,
            conflicts: 0,
            base_expired: false,
        }
    }

    /// The state that was stored, if its references fit together.
    pub fn restore(
        root: StoredPath,
        volume_id: VolumeId,
        authority_id: AuthorityId,
        authority_name: String,
        common: NamespaceRevision,
        observed: NamespaceRevision,
        phase: SyncPhase,
        conflicts: u64,
        base_expired: bool,
    ) -> (result: Result<Self, Error>)
        ensures
            ({
                let view = StateView {
                    root: root@,
                    volume_id,
                    authority_id,
                    authority_name: authority_name@,
                    common,
                    observed,
                    phase,
                    conflicts,
                    base_expired,
                };
                match result {
                    Ok(state) => state_fault(view) is None && state@ == view,
                    Err(error) => state_fault(view) == Some(error.fault()),
                }
            }),
    {
        let state = ReplicaState {
            root,
            volume_id,
            authority_id,
            authority_name,
            common,
            observed,
            phase,
            conflicts,
            base_expired,
        };
        match state.validate() {
            Ok(()) => Ok(state),
            Err(error) => Err(error),
        }
    }

    /// Check that the references of the state fit together.
    pub fn validate(&self) -> (result: Result<(), Error>)
        ensures
            match result {
                Ok(()) => state_fault(self@) is None,
                Err(error) => state_fault(self@) == Some(error.fault()),
            },
    {
        let observed: u64 = self.observed.cursor().sequence();
        if observed < self.common.cursor().sequence() {
            return Err(
                Error::invalid(
                    "synchronize replica",
                    "replica remote cursor is behind its common namespace",
                ),
            );
        }
        if let SyncPhase::Publishing { target, .. } = self.phase {
            let follows = match observed.checked_add(1) {
                Some(next) => target.cursor().sequence() == next,
                None => false,
            };
            if !follows {
                return Err(
                    Error::corrupt(
                        "read replica state",
                        "replica recovery references are invalid",
                    ),
                );
            }
        }
        Ok(())
    }

    pub fn root(&self) -> (root: &StoredPath)
        ensures
            root@ == self@.root,
    {
        &self.root
    }

    pub fn volume_id(&self) -> (volume_id: VolumeId)
        ensures
            volume_id == self@.volume_id,
    {
        self.volume_id
    }

    pub fn authority_id(&self) -> (authority_id: AuthorityId)
        ensures
            authority_id == self@.authority_id,
    {
        self.authority_id
    }

    pub fn authority_name(&self) -> (name: &str)
        ensures
            name@ == self@.authority_name,
    {
        self.authority_name.as_str()
    }

    pub fn common_revision(&self) -> (revision: NamespaceRevision)
        ensures
            revision == self@.common,
    {
        self.common
    }

    pub fn remote_cursor(&self) -> (cursor: ChangeCursor)
        ensures
            cursor == self@.observed.change_cursor,
    {
        self.observed.cursor()
    }

    pub fn observed_revision(&self) -> (revision: NamespaceRevision)
        ensures
            revision == self@.observed,
    {
        self.observed
    }

    pub fn phase(&self) -> (phase: SyncPhase)
        ensures
            phase == self@.phase,
    {
        self.phase
    }

    pub fn conflict_count(&self) -> (count: u64)
        ensures
            count == self@.conflicts,
    {
        self.conflicts
    }

    pub fn has_pending(&self) -> (result: bool)
        ensures
            result == !(self@.phase is Clean),
    {
        match self.phase {
            SyncPhase::Clean => false,
            _ => true,
        }
    }

    pub fn base_expired(&self) -> (result: bool)
        ensures
            result == self@.base_expired,
    {
        self.base_expired
    }

    /// The publication that is under way: what it expects, its target, operation and epoch.
    pub fn pending_publication(&self) -> (result: Option<
        (NamespaceRevision, NamespaceRevision, OperationId, GcEpoch),
    >)
        ensures
            result == (match self@.phase {
                SyncPhase::Publishing { target, operation_id, gc_epoch } => Some(
                    (self@.observed, target, operation_id, gc_epoch),
                ),
                _ => None,
            }),
    {
        match self.phase {
            SyncPhase::Publishing { target, operation_id, gc_epoch } => Some(
                (self.observed, target, operation_id, gc_epoch),
            ),
            _ => None,
        }
    }

    /// The installation that is under way: its target, and whether it was published here.
    pub fn installation(&self) -> (result: Option<(NamespaceRevision, bool)>)
        ensures
            result == (match self@.phase {
                SyncPhase::Installing { published } => Some((self@.observed, published)),
                _ => None,
            }),
    {
        match self.phase {
            SyncPhase::Installing { published } => Some((self.observed, published)),
            _ => None,
        }
    }

    /// The revision whose namespace is needed to go on.
    pub fn resume_revision(&self) -> (revision: NamespaceRevision)
        ensures
            revision == (if self@.phase is Clean {
                self@.common
            } else {
                self@.observed
            }),
    {
        match self.phase {
            SyncPhase::Clean => self.common,
            SyncPhase::Publishing { .. } => self.observed,
            SyncPhase::Installing { .. } => self.observed,
        }
    }

    /// The replica has what a revision has.
    pub fn advance(&mut self, common: NamespaceRevision)
        ensures
            final(self)@ == (StateView {
                common,
                observed: common,
                phase: SyncPhase::Clean,
                conflicts: 0,
                base_expired: false,
                ..old(self)@
            }),
            state_fault(final(self)@) is None,
    {
        self.common = common;
        self.observed = common;
        self.phase = SyncPhase::Clean;
        self.conflicts = 0;
        self.base_expired = false;
    }

    /// The common namespace is stored under another revision with the same cursor.
    pub fn rebase_equivalent(&mut self, common: NamespaceRevision) -> (result: Result<(), Error>)
        ensures
            match result {
                Ok(()) => {
                    &&& old(self)@.phase is Clean
                    &&& common.sequence() == old(self)@.common.sequence()
                    &&& final(self)@ == (StateView { common, observed: common, ..old(self)@ })
                    &&& state_fault(final(self)@) is None
                },
                Err(error) => {
                    &&& !(old(self)@.phase is Clean) || common.sequence()
                        != old(self)@.common.sequence()
                    &&& error.fault() == corrupt(
                        "synchronize replica",
                        "equivalent namespace rebase changed the logical cursor",
                    )
                    &&& final(self)@ == old(self)@
                },
            },
    {
        let clean = match self.phase {
            SyncPhase::Clean => true,
            _ => false,
        };
        if !clean || common.cursor().sequence() != self.common.cursor().sequence() {
            return Err(
                Error::corrupt(
                    "synchronize replica",
                    "equivalent namespace rebase changed the logical cursor",
                ),
            );
        }
        self.common = common;
        self.observed = common;
        self.validate()
    }

    /// A publication begins, on top of an expected revision.
    pub fn begin_publication(
        &mut self,
        expected: NamespaceRevision,
        target: NamespaceRevision,
        operation_id: OperationId,
        gc_epoch: GcEpoch,
    ) -> (result: Result<(), Error>)
        ensures
            final(self)@ == (StateView {
                observed: expected,
                phase: SyncPhase::Publishing { target, operation_id, gc_epoch },
                conflicts: 0,
                base_expired: false,
                ..old(self)@
            }),
            match result {
                Ok(()) => state_fault(final(self)@) is None,
                Err(error) => state_fault(final(self)@) == Some(error.fault()),
            },
    {
        self.phase = SyncPhase::Publishing { target, operation_id, gc_epoch };
        self.observed = expected;
        self.conflicts = 0;
        self.base_expired = false;
        self.validate()
    }

    /// An installation begins.
    pub fn begin_install(&mut self, target: NamespaceRevision, published: bool)
        ensures
            final(self)@ == (StateView {
                observed: target,
                phase: SyncPhase::Installing { published },
                conflicts: 0,
                base_expired: false,
                ..old(self)@
            }),
    {
        self.phase = SyncPhase::Installing { published };
        self.observed = target;
        self.conflicts = 0;
        self.base_expired = false;
    }

    /// Conflicts stay to be resolved.
    pub fn retain_conflicts(
        &mut self,
        conflicts: usize,
        remote: NamespaceRevision,
        base_expired: bool,
    )
        ensures
            final(self)@ == (StateView {
                observed: remote,
                phase: SyncPhase::Clean,
                conflicts: conflicts as u64,
                base_expired,
                ..old(self)@
            }),
    {
        self.phase = SyncPhase::Clean;
        self.conflicts = conflicts as u64;
        self.observed = remote;
        self.base_expired = base_expired;
    }

    /// What was under way is given up.
    pub fn cancel_pending(&mut self, remote: NamespaceRevision)
        ensures
            final(self)@ == (StateView {
                common: if remote.sequence() == old(self)@.common.sequence() {
                    remote
                } else {
                    old(self)@.common
                },
                observed: remote,
                phase: SyncPhase::Clean,
                base_expired: false,
                ..old(self)@
            }),
    {
        self.phase = SyncPhase::Clean;
        if remote.cursor().sequence() == self.common.cursor().sequence() {
            self.common = remote;
        }
        self.observed = remote;
        self.base_expired = false;
    }
}

impl Clone for ReplicaState {
    fn clone(&self) -> (result: Self)
        ensures
            result@ == self@,
    {
        ReplicaState {
            root: self.root.clone(),
            volume_id: self.volume_id,
            authority_id: self.authority_id,
            authority_name: self.authority_name.clone(),
            common: self.common,
            observed: self.observed,
            phase: self.phase,
            conflicts: self.conflicts,
            base_expired: self.base_expired,
        }
    }
}

/// As long as the remote namespace does not go back behind the common one, a state stays
/// valid when an installation begins, when conflicts stay, and when what was under way is
/// given up.
pub proof fn later_remotes_keep_states_valid(state: StateView, remote: NamespaceRevision)
    requires
        remote.sequence() >= state.common.sequence(),
    ensures
        forall|published: bool, base_expired: bool, conflicts: u64|
            {
                &&& #[trigger] state_fault(
                    StateView {
                        observed: remote,
                        phase: SyncPhase::Installing { published },
                        conflicts,
                        base_expired,
                        ..state
                    },
                ) is None
                &&& state_fault(
                    StateView {
                        observed: remote,
                        phase: SyncPhase::Clean,
                        conflicts,
                        base_expired,
                        ..state
                    },
                ) is None
                &&& state_fault(
                    StateView {
                        common: if remote.sequence() == state.common.sequence() {
                            remote
                        } else {
                            state.common
                        },
                        observed: remote,
                        phase: SyncPhase::Clean,
                        base_expired,
                        ..state
                    },
                ) is None
            },
{
}

pub open spec fn binding_fault(message: &str) -> Fault {
    invalid("restore replica", message)
}

/// Check that a stored state is that of a directory and a volume.
pub fn validate_binding(state: Option<&ReplicaState>, root: &StoredPath, volume: VolumeId) -> (result:
    Result<(), Error>)
    ensures
        match state {
            None => result is Ok,
            Some(state) => match result {
                Ok(()) => state@.root == root@ && state@.volume_id == volume,
                Err(error) => if state@.root != root@ {
                    error.fault() == binding_fault(
                        "replica state belongs to a different local directory",
                    )
                } else {
                    state@.volume_id != volume && error.fault() == binding_fault(
                        "replica state belongs to a different volume",
                    )
                },
            },
        },
{
    if let Some(state) = state {
        if !state.root.same(root) {
            return Err(
                Error::invalid(
                    "restore replica",
                    "replica state belongs to a different local directory",
                ),
            );
        }
        if state.volume_id != volume {
            return Err(
                Error::invalid("restore replica", "replica state belongs to a different volume"),
            );
        }
    }
    Ok(())
}

/// Check that a stored state is that of a namespace authority.
pub fn validate_authority(state: &ReplicaState, id: AuthorityId, name: &str) -> (result: Result<
    (),
    Error,
>)
    ensures
        match result {
            Ok(()) => state@.authority_id == id && state@.authority_name == name@,
            Err(error) => (state@.authority_id != id || state@.authority_name != name@)
                && error.fault() == binding_fault(
                "replica state belongs to a different namespace authority",
            ),
        },
{
    if state.authority_id != id || !crate::text::same_text(state.authority_name.as_str(), name) {
        return Err(
            Error::invalid(
                "restore replica",
                "replica state belongs to a different namespace authority",
            ),
        );
    }
    Ok(())
}

// What the life of a replica keeps.

/// The directory, volume and authority that a state is bound to.
pub open spec fn same_binding(left: StateView, right: StateView) -> bool {
    &&& left.root == right.root
    &&& left.volume_id == right.volume_id
    &&& left.authority_id == right.authority_id
    &&& left.authority_name == right.authority_name
}

/// A stored state is accepted for its own directory and volume and for no other.
pub proof fn a_binding_is_accepted_once(
    state: &ReplicaState,
    root: &StoredPath,
    volume: VolumeId,
    result: Result<(), Error>,
)
    requires
        call_ensures(validate_binding, (Some(state), root, volume), result),
    ensures
        result is Ok <==> state@.root == root.bytes@ && state@.volume_id == volume,
{
}

/// A stored state is accepted for its own authority, by identity and name, and for no other.
pub proof fn an_authority_is_accepted_once(
    state: &ReplicaState,
    id: AuthorityId,
    name: &str,
    result: Result<(), Error>,
)
    requires
        call_ensures(validate_authority, (state, id, name), result),
    ensures
        result is Ok <==> state@.authority_id == id && state@.authority_name == name@,
{
}

/// A replica that advances has the revision in common with the remote namespace and nothing
/// under way.
pub proof fn advancing_leaves_nothing_pending(state: &mut ReplicaState, revision: NamespaceRevision)
    requires
        call_ensures(ReplicaState::advance, (state, revision), ()),
    ensures
        same_binding(final(state)@, old(state)@),
        final(state)@.common == revision,
        final(state)@.observed == revision,
        final(state)@.phase is Clean,
        final(state)@.conflicts == 0,
        !final(state)@.base_expired,
{
}

/// A publication that begins is the one that is found pending again, on top of the revision
/// that it expects. It begins exactly if that revision is no older than the common one and the
/// target is the next one.
pub proof fn a_publication_that_begins_is_pending(
    state: &mut ReplicaState,
    expected: NamespaceRevision,
    target: NamespaceRevision,
    operation_id: OperationId,
    gc_epoch: GcEpoch,
    result: Result<(), Error>,
    after: &ReplicaState,
    pending: Option<(NamespaceRevision, NamespaceRevision, OperationId, GcEpoch)>,
    resumed: NamespaceRevision,
)
    requires
        call_ensures(
            ReplicaState::begin_publication,
            (state, expected, target, operation_id, gc_epoch),
            result,
        ),
        *after == *final(state),
        call_ensures(ReplicaState::pending_publication, (after,), pending),
        call_ensures(ReplicaState::resume_revision, (after,), resumed),
    ensures
        result is Ok <==> expected.sequence() >= old(state)@.common.sequence() && target.sequence()
            == expected.sequence() + 1,
        pending == Some((expected, target, operation_id, gc_epoch)),
        resumed == expected,
        same_binding(final(state)@, old(state)@),
        final(state)@.common == old(state)@.common,
        final(state)@.conflicts == 0,
        !final(state)@.base_expired,
{
}

/// An installation that begins is the one that is found again, and nothing is pending for
/// publication.
pub proof fn an_installation_that_begins_is_found(
    state: &mut ReplicaState,
    target: NamespaceRevision,
    published: bool,
    after: &ReplicaState,
    found: Option<(NamespaceRevision, bool)>,
    pending: Option<(NamespaceRevision, NamespaceRevision, OperationId, GcEpoch)>,
    resumed: NamespaceRevision,
)
    requires
        call_ensures(ReplicaState::begin_install, (state, target, published), ()),
        *after == *final(state),
        call_ensures(ReplicaState::installation, (after,), found),
        call_ensures(ReplicaState::pending_publication, (after,), pending),
        call_ensures(ReplicaState::resume_revision, (after,), resumed),
    ensures
        found == Some((target, published)),
        pending is None,
        resumed == target,
        same_binding(final(state)@, old(state)@),
        final(state)@.common == old(state)@.common,
        final(state)@.conflicts == 0,
        !final(state)@.base_expired,
{
}

/// Conflicts that stay leave the common revision as it was, and nothing under way.
pub proof fn conflicts_leave_the_common_revision(
    state: &mut ReplicaState,
    conflicts: usize,
    remote: NamespaceRevision,
    base_expired: bool,
)
    requires
        call_ensures(ReplicaState::retain_conflicts, (state, conflicts, remote, base_expired), ()),
    ensures
        same_binding(final(state)@, old(state)@),
        final(state)@.common == old(state)@.common,
        final(state)@.observed == remote,
        final(state)@.phase is Clean,
        final(state)@.conflicts as int == conflicts as int,
        final(state)@.base_expired == base_expired,
{
}

/// What is given up leaves nothing under way, and the common revision at the cursor where it
/// was; it is stored as the remote revision has it if that is at the same cursor.
pub proof fn giving_up_keeps_the_common_cursor(state: &mut ReplicaState, remote: NamespaceRevision)
    requires
        call_ensures(ReplicaState::cancel_pending, (state, remote), ()),
    ensures
        same_binding(final(state)@, old(state)@),
        final(state)@.phase is Clean,
        final(state)@.observed == remote,
        !final(state)@.base_expired,
        final(state)@.common.sequence() == old(state)@.common.sequence(),
        final(state)@.common == old(state)@.common || final(state)@.common == remote,
        remote.sequence() == old(state)@.common.sequence() ==> final(state)@.common == remote,
        final(state)@.conflicts == old(state)@.conflicts,
{
}

/// A rebase on an equivalent revision moves no cursor, and is refused while something is under
/// way.
pub proof fn an_equivalent_rebase_moves_no_cursor(
    state: &mut ReplicaState,
    revision: NamespaceRevision,
    result: Result<(), Error>,
)
    requires
        call_ensures(ReplicaState::rebase_equivalent, (state, revision), result),
    ensures
        result is Ok <==> old(state)@.phase is Clean && old(state)@.common.sequence()
            == revision.sequence(),
        result is Ok ==> {
            &&& final(state)@.common == revision
            &&& final(state)@.observed == revision
            &&& final(state)@.common.sequence() == old(state)@.common.sequence()
            &&& final(state)@.conflicts == old(state)@.conflicts
            &&& final(state)@.base_expired == old(state)@.base_expired
        },
        result is Err ==> final(state)@ == old(state)@,
        final(state)@.phase == old(state)@.phase,
        same_binding(final(state)@, old(state)@),
{
}

/// A stored state is restored as it was, exactly if the remote cursor is not behind the common
/// one and a pending target is the next one behind the remote cursor.
pub proof fn stored_states_are_restored(
    root: StoredPath,
    volume_id: VolumeId,
    authority_id: AuthorityId,
    authority_name: String,
    common: NamespaceRevision,
    observed: NamespaceRevision,
    phase: SyncPhase,
    conflicts: u64,
    base_expired: bool,
    result: Result<ReplicaState, Error>,
)
    requires
        call_ensures(
            ReplicaState::restore,
            (
                root,
                volume_id,
                authority_id,
                authority_name,
                common,
                observed,
                phase,
                conflicts,
                base_expired,
            ),
            result,
        ),
    ensures
        result is Ok <==> {
            &&& common.sequence() <= observed.sequence()
            &&& phase is Publishing ==> phase->target.sequence() == observed.sequence() + 1
        },
        result matches Ok(state) ==> {
            &&& state@.root == root.bytes@
            &&& state@.volume_id == volume_id
            &&& state@.authority_id == authority_id
            &&& state@.authority_name == authority_name@
            &&& state@.common == common
            &&& state@.observed == observed
            &&& state@.phase == phase
            &&& state@.conflicts == conflicts
            &&& state@.base_expired == base_expired
        },
{
}

} // verus!
