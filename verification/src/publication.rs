//! The publication of successive versions through one head.
//!
//! The functions here decide; reading and writing the storage is up to the caller,
//! who performs what a decision asks for and hands the answer to the next one.

use vstd::prelude::*;

use crate::error::{conflict, corrupt, invalid, not_found, Error, ErrorKind, Fault};
use crate::filesystem::BlobRef;
use crate::identity::{counter_overflow, CommitId, FsId, GcEpoch, NodeId, VersionNumber};
use crate::tree::{
    entries_fault, entry_fault, follow_fault, follows, genesis_is_one, is_genesis, membership_fault,
    place_is_unique,
    tree_fault, EntryView, Tree,
};
use crate::version::{
    commits_extended, extension_view, extensions_view, head_corrupt, head_is_sound,
    same_configuration, version_fault, Commit, Extension, FsFormat, FsFormatView, FsHead,
    FsHeadView, FsVersion, FsVersionRef, FsVersionRefView, FsVersionView,
};

verus! {

/// Persisted choices made when a filesystem is created.
#[derive(Debug)]
pub struct CreateOptions {
    pub decodings: Vec<Extension>,
    pub head_extension: Option<Extension>,
}

impl CreateOptions {
    pub fn new() -> (options: Self)
        ensures
            options.decodings@ == Seq::<Extension>::empty(),
            options.head_extension is None,
    {
        CreateOptions { decodings: Vec::new(), head_extension: None }
    }

    pub fn with_decodings(self, decodings: Vec<Extension>) -> (options: Self)
        ensures
            options.decodings == decodings,
            options.head_extension == self.head_extension,
    {
        CreateOptions { decodings, head_extension: self.head_extension }
    }

    pub fn with_head_extension(self, extension: Extension) -> (options: Self)
        ensures
            options.decodings == self.decodings,
            options.head_extension == Some(extension),
    {
        CreateOptions { decodings: self.decodings, head_extension: Some(extension) }
    }
}

impl Default for CreateOptions {
    fn default() -> (options: Self)
        ensures
            options.decodings@ == Seq::<Extension>::empty(),
            options.head_extension is None,
    {
        Self::new()
    }
}

pub ghost struct HeadObservationView {
    pub head: FsHeadView,
    pub condition: Seq<u8>,
}

/// One head value and the opaque condition required to replace that observation.
#[derive(Debug)]
pub struct HeadObservation {
    head: FsHead,
    condition: Vec<u8>,
}

impl HeadObservation {
    pub closed spec fn view(&self) -> HeadObservationView {
        HeadObservationView { head: self.head@, condition: self.condition@ }
    }

    pub fn new(head: FsHead, condition: Vec<u8>) -> (observation: Self)
        ensures
            observation@ == (HeadObservationView { head: head@, condition: condition@ }),
    {
        HeadObservation { head, condition }
    }

    pub fn head(&self) -> (head: &FsHead)
        ensures
            head@ == self@.head,
    {
        &self.head
    }

    /// The reference to the version that the head publishes.
    pub fn version(&self) -> (version: &BlobRef)
        ensures
            version@ == self@.head.current.blob,
    {
        self.head.current().blob()
    }

    pub fn condition(&self) -> (condition: &[u8])
        ensures
            condition@ == self@.condition,
    {
        self.condition.as_slice()
    }
}

pub ghost struct ObservationView {
    pub head: HeadObservationView,
    pub version: FsVersionView,
}

/// Current immutable version together with the condition needed for publication.
#[derive(Debug)]
pub struct Observation {
    head: HeadObservation,
    version: FsVersion,
}

impl Observation {
    pub closed spec fn view(&self) -> ObservationView {
        ObservationView { head: self.head@, version: self.version@ }
    }

    pub fn head(&self) -> (head: &FsHead)
        ensures
            head@ == self@.head.head,
    {
        self.head.head()
    }

    pub fn condition(&self) -> (condition: &[u8])
        ensures
            condition@ == self@.head.condition,
    {
        self.head.condition()
    }

    /// The head together with the condition to replace it under.
    pub fn observed_head(&self) -> (head: &HeadObservation)
        ensures
            head@ == self@.head,
    {
        &self.head
    }

    pub fn version(&self) -> (version: &FsVersion)
        ensures
            version@ == self@.version,
    {
        &self.version
    }

    pub fn tree(&self) -> (tree: &Tree)
        ensures
            tree@ == self@.version.tree,
    {
        self.version.tree()
    }
}

/// Result of an idempotent publication attempt.
#[derive(Clone, Copy, Debug, PartialEq, Eq, Structural)]
pub enum CommitOutcome {
    Committed { version: VersionNumber },
    Conflict { current: VersionNumber },
}

/// Open filesystem over one storage implementation.
#[derive(Debug)]
pub struct Fs<S> {
    format: FsFormat,
    storage: S,
}

/// What a publication attempt asks for first.
#[derive(Debug)]
pub enum CommitStart {
    /// The commit was published before, as this version.
    Committed { version: VersionNumber },
    /// This version has to be written, then its head published.
    Publish { successor: FsVersion },
}

/// How the storage answered the request to replace the head.
#[derive(Clone, Copy, Debug, PartialEq, Eq, Structural)]
pub enum Replacement {
    Replaced,
    Refused,
    Failed,
}

/// What follows from the answer to the request to replace the head.
#[derive(Clone, Copy, Debug, PartialEq, Eq, Structural)]
pub enum CommitNext {
    /// The attempt has succeeded.
    Committed { version: VersionNumber },
    /// The head has to be observed to tell a conflict from an earlier success.
    Resolve,
    /// The head has to be observed; unless it shows the commit, the failure stands.
    Recover,
}

/// The place of the commit among the commits of a version.
pub open spec fn commit_place(commits: Seq<Commit>, id: CommitId) -> Option<int>
    decreases commits.len(),
{
    if commits.len() == 0 {
        None
    } else if commit_place(commits.drop_last(), id) is Some {
        commit_place(commits.drop_last(), id)
    } else if commits.last().id == id {
        Some(commits.len() - 1)
    } else {
        None
    }
}

/// The version that the first commit with the identity was published as.
pub open spec fn committed_as(commits: Seq<Commit>, id: CommitId) -> Option<VersionNumber> {
    match commit_place(commits, id) {
        Some(place) => Some(commits[place].version),
        None => None,
    }
}

/// What commit_place means.
pub proof fn commit_place_is_first(commits: Seq<Commit>, id: CommitId)
    ensures
        match commit_place(commits, id) {
            Some(place) => 0 <= place < commits.len() && commits[place].id == id && forall|i: int|
                0 <= i < place ==> (#[trigger] commits[i]).id != id,
            None => forall|i: int| 0 <= i < commits.len() ==> (#[trigger] commits[i]).id != id,
        },
    decreases commits.len(),
{
    if commits.len() > 0 {
        let rest = commits.drop_last();
        commit_place_is_first(rest, id);
        assert forall|i: int| 0 <= i < rest.len() implies rest[i] == #[trigger] commits[i] by {}
    }
}

/// The place of an identity that stands at one place only.
pub proof fn commit_place_found(commits: Seq<Commit>, id: CommitId, place: int)
    requires
        0 <= place < commits.len(),
        commits[place].id == id,
        forall|i: int| 0 <= i < place ==> (#[trigger] commits[i]).id != id,
    ensures
        commit_place(commits, id) == Some(place),
{
    commit_place_is_first(commits, id);
}

/// Find the version that a commit was published as.
pub fn find_commit(commits: &[Commit], id: CommitId) -> (result: Option<VersionNumber>)
    ensures
        result == committed_as(commits@, id),
{
    let mut index: usize = 0;
    while index < commits.len()
        invariant
            index <= commits@.len(),
            forall|k: int| 0 <= k < index ==> (#[trigger] commits@[k]).id != id,
        decreases commits@.len() - index,
    {
        if commits[index].id == id {
            proof {
                commit_place_found(commits@, id, index as int);
            }
            return Some(commits[index].version);
        }
        index += 1;
    }
    proof {
        commit_place_is_first(commits@, id);
    }
    None
}

/// What is wrong with an observation: its head, its version, or that they do not match.
pub open spec fn observation_fault(format: FsFormatView, observed: ObservationView) -> Option<
    Fault,
> {
    if !head_is_sound(observed.head.head) {
        Some(head_corrupt())
    } else if version_fault(format, observed.version) is Some {
        version_fault(format, observed.version)
    } else if observed.version.number != observed.head.head.current.number {
        Some(invalid("commit YinYang filesystem", "observation does not match its head"))
    } else {
        None
    }
}

/// The version that a publication attempt writes.
pub open spec fn next_version(
    observed: ObservationView,
    id: CommitId,
    tree: Seq<EntryView>,
    number: VersionNumber,
) -> FsVersionView {
    FsVersionView {
        fs: observed.version.fs,
        number,
        tree,
        commits: observed.version.commits.push(Commit { id, version: number }),
    }
}

/// The format that a filesystem is created with, given fresh identities.
pub fn requested_format(fs: FsId, root: NodeId, options: CreateOptions) -> (format: FsFormat)
    ensures
        format@ == (FsFormatView {
            fs,
            root,
            decodings: extensions_view(options.decodings@),
            head_extension: extension_view(options.head_extension),
        }),
{
    FsFormat::new(fs, root, options.decodings, options.head_extension)
}

/// The format to go on with where another one was stored first.
pub fn adopt_format(requested: &FsFormat, existing: Option<FsFormat>) -> (result: Result<
    FsFormat,
    Error,
>)
    ensures
        match (result, existing) {
            (Ok(format), Some(existing)) => same_configuration(existing@, requested@) && format
                == existing,
            (Ok(_), None) => false,
            (Err(error), None) => error.fault() == (Fault {
                kind: ErrorKind::Storage,
                operation: "create YinYang filesystem"@,
                message: "format disappeared after create conflict"@,
            }),
            (Err(error), Some(existing)) => !same_configuration(existing@, requested@)
                && error.fault() == conflict(
                "create YinYang filesystem",
                "storage contains a different format configuration",
            ),
        },
{
    match existing {
        None => Err(
            Error::new(
                ErrorKind::Storage,
                "create YinYang filesystem",
                "format disappeared after create conflict",
            ),
        ),
        Some(existing) => {
            if existing.has_same_configuration(requested) {
                Ok(existing)
            } else {
                Err(
                    Error::conflict(
                        "create YinYang filesystem",
                        "storage contains a different format configuration",
                    ),
                )
            }
        },
    }
}

/// The format of an existing filesystem.
pub fn require_format(format: Option<FsFormat>) -> (result: Result<FsFormat, Error>)
    ensures
        match result {
            Ok(found) => format == Some(found),
            Err(error) => format is None && error.fault() == not_found(
                "open YinYang filesystem",
                "format is missing",
            ),
        },
{
    match format {
        Some(format) => Ok(format),
        None => Err(Error::not_found("open YinYang filesystem", "format is missing")),
    }
}

/// The head of an existing filesystem, before its version is read.
pub fn require_head(head: Option<HeadObservation>) -> (result: Result<HeadObservation, Error>)
    ensures
        match result {
            Ok(found) => head == Some(found) && head_is_sound(found@.head),
            Err(error) => match head {
                Some(head) => !head_is_sound(head@.head) && error.fault() == head_corrupt(),
                None => error.fault() == not_found("observe YinYang filesystem", "head is missing"),
            },
        },
{
    match head {
        None => Err(Error::not_found("observe YinYang filesystem", "head is missing")),
        Some(head) => match head.head().validate() {
            Ok(()) => Ok(head),
            Err(error) => Err(error),
        },
    }
}

/// What is wrong with what was read for a head.
pub open spec fn reading_fault(
    format: FsFormatView,
    head: HeadObservationView,
    version: FsVersionView,
) -> Option<Fault> {
    if !head_is_sound(head.head) {
        Some(head_corrupt())
    } else if version_fault(format, version) is Some {
        version_fault(format, version)
    } else if version.number != head.head.current.number {
        Some(
            corrupt(
                "observe YinYang filesystem",
                "version number does not match the head reference",
            ),
        )
    } else {
        None
    }
}

impl<S> Fs<S> {
    /// The format of the filesystem.
    pub closed spec fn spec_format(&self) -> FsFormatView {
        self.format@
    }

    pub closed spec fn spec_storage(&self) -> S {
        self.storage
    }

    /// A filesystem whose format has been read from the storage.
    pub fn attach(format: FsFormat, storage: S) -> (fs: Self)
        ensures
            fs.spec_format() == format@,
            fs.spec_storage() == storage,
    {
        Fs { format, storage }
    }

    pub fn format(&self) -> (format: &FsFormat)
        ensures
            format@ == self.spec_format(),
    {
        &self.format
    }

    pub fn storage(&self) -> (storage: &S)
        ensures
            *storage == self.spec_storage(),
    {
        &self.storage
    }

    /// The version that a filesystem starts with.
    pub fn genesis(&self) -> (result: Result<FsVersion, Error>)
        ensures
            result is Ok,
            version_fault(self.spec_format(), result->Ok_0@) is None,
            result->Ok_0@.fs == self.spec_format().fs,
            result->Ok_0@.number@ == 0,
            result->Ok_0@.commits == Seq::<Commit>::empty(),
            is_genesis(result->Ok_0@.tree, self.spec_format().root),
    {
        let tree = Tree::genesis(self.format.root());
        proof {
            genesis_is_valid(
                tree@,
                self.format@.root,
                self.format@.decodings.len() as usize,
            );
        }
        FsVersion::new(&self.format, VersionNumber::zero(), tree, Vec::new())
    }

    /// The head that publishes the first version.
    pub fn genesis_head(&self, blob: BlobRef) -> (result: Result<FsHead, Error>)
        ensures
            result is Ok,
            result->Ok_0@.current.number@ == 0,
            result->Ok_0@.current.blob == blob@,
            result->Ok_0@.gc_epoch@ == 0,
            result->Ok_0@.min_retained@ == 0,
    {
        FsHead::new(
            FsVersionRef::new(VersionNumber::zero(), blob),
            GcEpoch::zero(),
            VersionNumber::zero(),
        )
    }

    /// The observation that a head and the version read for it make.
    pub fn read_observation(&self, head: HeadObservation, version: FsVersion) -> (result: Result<
        Observation,
        Error,
    >)
        ensures
            match result {
                Ok(observed) => {
                    &&& reading_fault(self.spec_format(), head@, version@) is None
                    &&& observed@ == (ObservationView { head: head@, version: version@ })
                    &&& observation_fault(self.spec_format(), observed@) is None
                },
                Err(error) => reading_fault(self.spec_format(), head@, version@) == Some(
                    error.fault(),
                ),
            },
    {
        match head.head().validate() {
            Ok(()) => {},
            Err(error) => {
                return Err(error);
            },
        }
        match version.validate(&self.format) {
            Ok(()) => {},
            Err(error) => {
                return Err(error);
            },
        }
        if version.number() != head.head().current().number() {
            return Err(
                Error::corrupt(
                    "observe YinYang filesystem",
                    "version number does not match the head reference",
                ),
            );
        }
        Ok(Observation { head, version })
    }

    /// Check an observation that a caller hands back.
    pub fn validate_observation(&self, observed: &Observation) -> (result: Result<(), Error>)
        ensures
            match result {
                Ok(()) => observation_fault(self.spec_format(), observed@) is None,
                Err(error) => observation_fault(self.spec_format(), observed@) == Some(
                    error.fault(),
                ),
            },
    {
        match observed.head().validate() {
            Ok(()) => {},
            Err(error) => {
                return Err(error);
            },
        }
        match observed.version.validate(&self.format) {
            Ok(()) => {},
            Err(error) => {
                return Err(error);
            },
        }
        if observed.version.number() != observed.head().current().number() {
            return Err(
                Error::invalid("commit YinYang filesystem", "observation does not match its head"),
            );
        }
        Ok(())
    }

    /// Start to publish `tree` as the successor of what was observed, under a caller
    /// chosen idempotency key.
    pub fn begin_commit(&self, observed: &Observation, id: CommitId, tree: Tree) -> (result: Result<
        CommitStart,
        Error,
    >)
        ensures
            ({
                let format = self.spec_format();
                let decodings = format.decodings.len() as usize;
                let known = committed_as(observed@.version.commits, id);
                if observation_fault(format, observed@) is Some {
                    result is Err && observation_fault(format, observed@) == Some(
                        result->Err_0.fault(),
                    )
                } else if known is Some {
                    result is Ok && result->Ok_0 == (CommitStart::Committed { version: known->0 })
                } else if !follows(observed@.version.tree, tree@, format.root, decodings) {
                    result is Err && follow_fault(
                        observed@.version.tree,
                        tree@,
                        format.root,
                        decodings,
                        result->Err_0.fault(),
                    )
                } else if observed@.version.number@ == u64::MAX {
                    result is Err && result->Err_0.fault() == counter_overflow()
                } else {
                    &&& result is Ok
                    &&& result->Ok_0 is Publish
                    &&& result->Ok_0->Publish_successor@.number@ == observed@.version.number@ + 1
                    &&& result->Ok_0->Publish_successor@ == next_version(
                        observed@,
                        id,
                        tree@,
                        result->Ok_0->Publish_successor@.number,
                    )
                    &&& version_fault(format, result->Ok_0->Publish_successor@) is None
                }
            }),
    {
        match self.validate_observation(observed) {
            Ok(()) => {},
            Err(error) => {
                return Err(error);
            },
        }
        if let Some(version) = find_commit(observed.version.commits(), id) {
            return Ok(CommitStart::Committed { version });
        }
        match observed.version.tree().validate_successor(
            &tree,
            self.format.root(),
            self.format.decodings().len(),
        ) {
            Ok(()) => {},
            Err(error) => {
                return Err(error);
            },
        }
        let number = match observed.version.number().next() {
            Ok(number) => number,
            Err(error) => {
                return Err(error);
            },
        };
        let retained = observed.version.commits();
        let mut commits: Vec<Commit> = Vec::new();
        let mut index: usize = 0;
        while index < retained.len()
            invariant
                index <= retained@.len(),
                commits@ == retained@.take(index as int),
            decreases retained@.len() - index,
        {
            commits.push(retained[index]);
            index += 1;
        }
        assert(retained@.take(index as int) =~= retained@);
        commits.push(Commit::new(id, number));
        proof {
            commit_place_is_first(retained@, id);
            commits_extended(observed@.version.number, retained@, id, number);
        }
        match FsVersion::new(&self.format, number, tree, commits) {
            Ok(version) => Ok(CommitStart::Publish { successor: version }),
            Err(error) => Err(error),
        }
    }

    /// The head that publishes a version that was written.
    pub fn next_head(&self, observed: &Observation, number: VersionNumber, blob: BlobRef) -> (result:
        Result<FsHead, Error>)
        ensures
            ({
                let view = FsHeadView {
                    current: FsVersionRefView { number, blob: blob@ },
                    gc_epoch: observed@.head.head.gc_epoch,
                    min_retained: observed@.head.head.min_retained,
                };
                match result {
                    Ok(head) => head_is_sound(view) && head@ == view,
                    Err(error) => !head_is_sound(view) && error.fault() == invalid(
                        "construct YinYang head",
                        "minimum retained version exceeds the current version",
                    ),
                }
            }),
    {
        FsHead::new(
            FsVersionRef::new(number, blob),
            observed.head().gc_epoch(),
            observed.head().min_retained(),
        )
    }
}

/// What follows from the answer to the request to replace the head.
pub fn after_replacement(number: VersionNumber, answer: Replacement) -> (next: CommitNext)
    ensures
        next == (match answer {
            Replacement::Replaced => CommitNext::Committed { version: number },
            Replacement::Refused => CommitNext::Resolve,
            Replacement::Failed => CommitNext::Recover,
        }),
{
    match answer {
        Replacement::Replaced => CommitNext::Committed { version: number },
        Replacement::Refused => CommitNext::Resolve,
        Replacement::Failed => CommitNext::Recover,
    }
}

/// The outcome of an attempt whose head was refused, given what is current now.
pub open spec fn resolved_outcome(current: FsVersionView, id: CommitId) -> CommitOutcome {
    match committed_as(current.commits, id) {
        Some(version) => CommitOutcome::Committed { version },
        None => CommitOutcome::Conflict { current: current.number },
    }
}

/// The outcome of an attempt whose head was refused, given what is current now.
pub fn resolve_conflict(current: &Observation, id: CommitId) -> (outcome: CommitOutcome)
    ensures
        outcome == resolved_outcome(current@.version, id),
{
    match find_commit(current.version.commits(), id) {
        Some(version) => CommitOutcome::Committed { version },
        None => CommitOutcome::Conflict { current: current.version.number() },
    }
}

/// The outcome of an attempt whose answer was lost: a success if the commit shows.
pub fn recover_commit(current: Option<&Observation>, id: CommitId) -> (result: Option<
    CommitOutcome,
>)
    ensures
        result == (match current {
            Some(current) => match committed_as(current@.version.commits, id) {
                Some(version) => Some(CommitOutcome::Committed { version }),
                None => None,
            },
            None => None,
        }),
{
    match current {
        Some(current) => match find_commit(current.version.commits(), id) {
            Some(version) => Some(CommitOutcome::Committed { version }),
            None => None,
        },
        None => None,
    }
}

/// The genesis tree is valid for its root.
pub proof fn genesis_is_valid(entries: Seq<EntryView>, root: NodeId, decodings: usize)
    requires
        is_genesis(entries, root),
    ensures
        tree_fault(entries, root, decodings) is None,
{
    assert(crate::tree::ordered(entries));
    place_is_unique(entries, 0);
    reveal_with_fuel(entries_fault, 2);
    reveal_with_fuel(membership_fault, 2);
    assert(entry_fault(entries, 0, decodings) is None);
}

/// What a new filesystem publishes can be observed: its genesis head and its genesis
/// version make an observation, which shows the genesis tree of the root.
pub proof fn a_new_filesystem_shows_its_genesis(
    format: FsFormatView,
    head: HeadObservationView,
    version: FsVersionView,
    genesis: Seq<EntryView>,
)
    requires
        version_fault(format, version) is None,
        version.number@ == 0,
        is_genesis(version.tree, format.root),
        head.head.current.number@ == 0,
        head.head.min_retained@ == 0,
        is_genesis(genesis, format.root),
    ensures
        reading_fault(format, head, version) is None,
        version.tree == genesis,
{
    VersionNumber::counted(version.number, head.head.current.number);
    genesis_is_one(version.tree, genesis, format.root);
}

/// A published commit is found in the version that it was published as and in every
/// version that retains the commits of that version, under the same number.
pub proof fn commit_stays_committed(
    observed: ObservationView,
    id: CommitId,
    tree: Seq<EntryView>,
    number: VersionNumber,
    later: Seq<Commit>,
)
    requires
        committed_as(observed.version.commits, id) is None,
        next_version(observed, id, tree, number).commits.is_prefix_of(later),
    ensures
        committed_as(next_version(observed, id, tree, number).commits, id) == Some(number),
        committed_as(later, id) == Some(number),
{
    let published = next_version(observed, id, tree, number).commits;
    let place = observed.version.commits.len() as int;
    commit_place_is_first(observed.version.commits, id);
    assert(published[place] == (Commit { id, version: number }));
    commit_place_found(published, id, place);
    assert forall|i: int| 0 <= i < published.len() implies published[i] == #[trigger] later[i] by {
        assert(later.take(published.len() as int)[i] == later[i]);
    }
    commit_place_found(later, id, place);
}

/// A later version under another identity does not change what is committed.
pub proof fn other_commits_are_kept(
    observed: ObservationView,
    id: CommitId,
    tree: Seq<EntryView>,
    number: VersionNumber,
    other: CommitId,
)
    requires
        other != id,
    ensures
        committed_as(next_version(observed, id, tree, number).commits, other) == committed_as(
            observed.version.commits,
            other,
        ),
{
    let commits = observed.version.commits;
    let published = next_version(observed, id, tree, number).commits;
    commit_place_is_first(commits, other);
    commit_place_is_first(published, other);
    assert forall|i: int| 0 <= i < commits.len() implies #[trigger] published[i] == commits[i] by {}
    if commit_place(commits, other) is Some {
        commit_place_found(published, other, commit_place(commits, other)->0);
    }
}

// What a publication promises.

/// A commit that some retained commit of the observed version bears the identity of is not
/// published again: the version that it was first published as is told, whatever tree comes with
/// it. Nothing else is told to be committed.
pub proof fn a_commit_is_published_once<S>(
    fs: &Fs<S>,
    observed: &Observation,
    id: CommitId,
    tree: Tree,
    result: Result<CommitStart, Error>,
)
    requires
        call_ensures(Fs::<S>::begin_commit, (fs, observed, id, tree), result),
    ensures
        ({
            let commits = observed@.version.commits;
            let known = exists|i: int| 0 <= i < commits.len() && (#[trigger] commits[i]).id == id;
            &&& result matches Ok(CommitStart::Committed { version }) ==> exists|i: int|
                0 <= i < commits.len() && (#[trigger] commits[i]).id == id && commits[i].version
                    == version && forall|k: int|
                    0 <= k < i ==> (#[trigger] commits[k]).id != id
            &&& result is Ok ==> (result->Ok_0 is Committed <==> known)
        }),
{
    let commits = observed@.version.commits;
    commit_place_is_first(commits, id);
    if result is Ok && result->Ok_0 is Committed {
        let place = commit_place(commits, id)->0;
        assert(commits[place].id == id);
    }
}

/// What is published on top of an observation is the next version of the same filesystem: it
/// holds the given tree, keeps the commits of the version before and adds its own. The head
/// that publishes it keeps the epoch and the oldest retained version.
pub proof fn a_publication_is_the_next_version<S>(
    fs: &Fs<S>,
    observed: &Observation,
    id: CommitId,
    tree: Tree,
    result: Result<CommitStart, Error>,
    blob: BlobRef,
    head: Result<FsHead, Error>,
)
    requires
        call_ensures(Fs::<S>::begin_commit, (fs, observed, id, tree), result),
        result is Ok,
        result->Ok_0 is Publish,
        call_ensures(
            Fs::<S>::next_head,
            (fs, observed, result->Ok_0->Publish_successor@.number, blob),
            head,
        ),
    ensures
        ({
            let before = observed@.version;
            let after = result->Ok_0->Publish_successor@;
            &&& after.fs == before.fs
            &&& after.number@ == before.number@ + 1
            &&& after.tree == tree@
            &&& after.commits.len() == before.commits.len() + 1
            &&& forall|i: int|
                0 <= i < before.commits.len() ==> #[trigger] after.commits[i] == before.commits[i]
            &&& after.commits[before.commits.len() as int].id == id
            &&& after.commits[before.commits.len() as int].version == after.number
            &&& follows(before.tree, tree@, fs.spec_format().root, fs.spec_format().decodings.len() as usize)
            &&& head is Ok
            &&& head->Ok_0@.current.number == after.number
            &&& head->Ok_0@.current.blob == blob@
            &&& head->Ok_0@.gc_epoch == observed@.head.head.gc_epoch
            &&& head->Ok_0@.min_retained == observed@.head.head.min_retained
        }),
{
}

/// A tree that follows the observed one can be published under a new identity, unless the
/// version numbers are used up.
pub proof fn a_tree_that_follows_can_be_published<S>(
    fs: &Fs<S>,
    observed: &Observation,
    id: CommitId,
    tree: Tree,
    result: Result<CommitStart, Error>,
)
    requires
        call_ensures(Fs::<S>::begin_commit, (fs, observed, id, tree), result),
        observation_fault(fs.spec_format(), observed@) is None,
        follows(
            observed@.version.tree,
            tree@,
            fs.spec_format().root,
            fs.spec_format().decodings.len() as usize,
        ),
        observed@.version.number@ < u64::MAX,
    ensures
        result is Ok,
{
}

/// What was published and is observed again makes an observation exactly if the head and the
/// version are sound and the version is the one that the head names; it is what was read.
pub proof fn an_observation_is_what_was_read<S>(
    fs: &Fs<S>,
    head: HeadObservation,
    version: FsVersion,
    result: Result<Observation, Error>,
    checked: Result<(), Error>,
)
    requires
        call_ensures(Fs::<S>::read_observation, (fs, head, version), result),
        result is Ok ==> call_ensures(
            Fs::<S>::validate_observation,
            (fs, &result->Ok_0),
            checked,
        ),
    ensures
        result is Ok <==> {
            &&& head@.head.min_retained@ <= head@.head.current.number@
            &&& version_fault(fs.spec_format(), version@) is None
            &&& version@.number == head@.head.current.number
        },
        result matches Ok(observed) ==> {
            &&& observed@.head == head@
            &&& observed@.version == version@
            &&& checked is Ok
        },
{
}

/// An attempt whose head was refused is committed exactly if the current version shows its
/// commit; otherwise it conflicts with the current version. An attempt whose answer was lost
/// is told as committed only where the commit shows.
pub proof fn an_attempt_is_committed_if_it_shows(
    current: &Observation,
    id: CommitId,
    refused: CommitOutcome,
    lost: Option<CommitOutcome>,
    unseen: Option<CommitOutcome>,
)
    requires
        call_ensures(resolve_conflict, (current, id), refused),
        call_ensures(recover_commit, (Some(current), id), lost),
        call_ensures(recover_commit, (None, id), unseen),
    ensures
        ({
            let commits = current@.version.commits;
            let shows = exists|i: int| 0 <= i < commits.len() && (#[trigger] commits[i]).id == id;
            &&& refused is Committed <==> shows
            &&& lost is Some <==> shows
            &&& lost matches Some(outcome) ==> outcome == refused
            &&& refused matches CommitOutcome::Committed { version } ==> exists|i: int|
                0 <= i < commits.len() && (#[trigger] commits[i]).id == id && commits[i].version
                    == version
            &&& refused matches CommitOutcome::Conflict { current: number } ==> number
                == current@.version.number
            &&& unseen is None
        }),
{
    let commits = current@.version.commits;
    commit_place_is_first(commits, id);
    if commit_place(commits, id) is Some {
        assert(commits[commit_place(commits, id)->0].id == id);
    }
}

/// Only a head that was replaced commits without another look, as the version that was
/// published; only a refusal can end in a conflict.
pub proof fn only_a_replaced_head_commits(
    number: VersionNumber,
    answer: Replacement,
    next: CommitNext,
)
    requires
        call_ensures(after_replacement, (number, answer), next),
    ensures
        next is Committed <==> answer is Replaced,
        next is Resolve <==> answer is Refused,
        next is Recover <==> answer is Failed,
        next matches CommitNext::Committed { version } ==> version == number,
{
}

/// A new filesystem starts with version zero, without commits, with a head that keeps
/// everything.
pub proof fn a_filesystem_starts_at_zero<S>(
    fs: &Fs<S>,
    version: Result<FsVersion, Error>,
    blob: BlobRef,
    head: Result<FsHead, Error>,
)
    requires
        call_ensures(Fs::<S>::genesis, (fs,), version),
        call_ensures(Fs::<S>::genesis_head, (fs, blob), head),
    ensures
        version is Ok,
        version->Ok_0@.number@ == 0,
        version->Ok_0@.commits.len() == 0,
        version->Ok_0@.fs == fs.spec_format().fs,
        version->Ok_0@.tree.len() == 1,
        version->Ok_0@.tree[0].path.len() == 0,
        version->Ok_0@.tree[0].node.id == fs.spec_format().root,
        head is Ok,
        head->Ok_0@.current.number == version->Ok_0@.number,
        head->Ok_0@.current.blob == blob@,
        head->Ok_0@.min_retained@ == 0,
        head->Ok_0@.gc_epoch@ == 0,
{
    VersionNumber::counted(head->Ok_0@.current.number, version->Ok_0@.number);
}

} // verus!
