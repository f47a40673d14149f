//! Filesystem formats, versions and the head that publishes them.

use vstd::prelude::*;

use crate::error::{corrupt, invalid, Error, Fault};
use crate::filesystem::{BlobRef, BlobRefView};
use crate::identity::{CommitId, ExtensionId, FsId, GcEpoch, NodeId, VersionNumber};
use crate::order::{has_repeated_key, repeats_key, Ranked};
use crate::text::{bytes_rank_is_injective, same_bytes};
use crate::tree::{tree_fault, EntryView, Tree};

verus! {

pub ghost struct ExtensionView {
    pub id: ExtensionId,
    pub configuration: Seq<u8>,
}

/// Persisted extension identity and configuration.
#[derive(Debug)]
pub struct Extension {
    id: ExtensionId,
    configuration: Vec<u8>,
}

impl Extension {
    pub closed spec fn view(&self) -> ExtensionView {
        ExtensionView { id: self.id, configuration: self.configuration@ }
    }

    pub fn new(id: ExtensionId, configuration: Vec<u8>) -> (extension: Self)
        ensures
            extension@ == (ExtensionView { id, configuration: configuration@ }),
    {
        Extension { id, configuration }
    }

    pub fn id(&self) -> (id: ExtensionId)
        ensures
            id == self@.id,
    {
        self.id
    }

    pub fn configuration(&self) -> (configuration: &[u8])
        ensures
            configuration@ == self@.configuration,
    {
        self.configuration.as_slice()
    }

    pub fn same(&self, other: &Self) -> (result: bool)
        ensures
            result == (self@ == other@),
    {
        self.id == other.id && same_bytes(
            self.configuration.as_slice(),
            other.configuration.as_slice(),
        )
    }
}

impl Clone for Extension {
    fn clone(&self) -> (result: Self)
        ensures
            result@ == self@,
    {
        let configuration = self.configuration.clone();
        assert(configuration@ =~= self.configuration@);
        Extension { id: self.id, configuration }
    }
}

pub open spec fn extensions_view(extensions: Seq<Extension>) -> Seq<ExtensionView> {
    Seq::new(extensions.len(), |i: int| extensions[i]@)
}

pub open spec fn extension_view(extension: Option<Extension>) -> Option<ExtensionView> {
    match extension {
        Some(extension) => Some(extension@),
        None => None,
    }
}

pub(crate) fn same_extensions(left: &Vec<Extension>, right: &Vec<Extension>) -> (result: bool)
    ensures
        result == (extensions_view(left@) == extensions_view(right@)),
{
    let ghost a = extensions_view(left@);
    let ghost b = extensions_view(right@);
    if left.len() != right.len() {
        assert(a.len() != b.len());
        return false;
    }
    let mut index: usize = 0;
    while index < left.len()
        invariant
            a == extensions_view(left@),
            b == extensions_view(right@),
            left@.len() == right@.len(),
            index <= left@.len(),
            forall|k: int| 0 <= k < index ==> a[k] == b[k],
        decreases left@.len() - index,
    {
        if !left[index].same(&right[index]) {
            assert(a[index as int] != b[index as int]);
            return false;
        }
        index += 1;
    }
    assert(a =~= b);
    true
}

fn same_extension(left: &Option<Extension>, right: &Option<Extension>) -> (result: bool)
    ensures
        result == (extension_view(*left) == extension_view(*right)),
{
    match (left, right) {
        (Some(left), Some(right)) => left.same(right),
        (None, None) => true,
        (Some(_), None) | (None, Some(_)) => false,
    }
}

pub ghost struct FsFormatView {
    pub fs: FsId,
    pub root: NodeId,
    pub decodings: Seq<ExtensionView>,
    pub head_extension: Option<ExtensionView>,
}

/// Bootstrap record required before reading a filesystem.
#[derive(Debug)]
pub struct FsFormat {
    fs: FsId,
    root: NodeId,
    decodings: Vec<Extension>,
    head_extension: Option<Extension>,
}

impl FsFormat {
    pub closed spec fn view(&self) -> FsFormatView {
        FsFormatView {
            fs: self.fs,
            root: self.root,
            decodings: extensions_view(self.decodings@),
            head_extension: extension_view(self.head_extension),
        }
    }

    pub fn new(
        fs: FsId,
        root: NodeId,
        decodings: Vec<Extension>,
        head_extension: Option<Extension>,
    ) -> (format: Self)
        ensures
            format@ == (FsFormatView {
                fs,
                root,
                decodings: extensions_view(decodings@),
                head_extension: extension_view(head_extension),
            }),
    {
        FsFormat { fs, root, decodings, head_extension }
    }

    pub fn fs(&self) -> (fs: FsId)
        ensures
            fs == self@.fs,
    {
        self.fs
    }

    pub fn root(&self) -> (root: NodeId)
        ensures
            root == self@.root,
    {
        self.root
    }

    pub fn decodings(&self) -> (decodings: &[Extension])
        ensures
            extensions_view(decodings@) == self@.decodings,
    {
        self.decodings.as_slice()
    }

    pub fn head_extension(&self) -> (extension: Option<&Extension>)
        ensures
            match extension {
                Some(extension) => self@.head_extension == Some(extension@),
                None => self@.head_extension is None,
            },
    {
        self.head_extension.as_ref()
    }

    /// Whether the two formats differ in their identities at most.
    pub fn has_same_configuration(&self, other: &Self) -> (result: bool)
        ensures
            result == same_configuration(self@, other@),
    {
        same_extensions(&self.decodings, &other.decodings) && same_extension(
            &self.head_extension,
            &other.head_extension,
        )
    }
}

/// The persisted choices of two formats agree.
pub open spec fn same_configuration(left: FsFormatView, right: FsFormatView) -> bool {
    left.decodings == right.decodings && left.head_extension == right.head_extension
}

pub ghost struct FsVersionRefView {
    pub number: VersionNumber,
    pub blob: BlobRefView,
}

/// Reference to one immutable filesystem version.
#[derive(Debug)]
pub struct FsVersionRef {
    number: VersionNumber,
    blob: BlobRef,
}

impl FsVersionRef {
    pub closed spec fn view(&self) -> FsVersionRefView {
        FsVersionRefView { number: self.number, blob: self.blob@ }
    }

    pub fn new(number: VersionNumber, blob: BlobRef) -> (reference: Self)
        ensures
            reference@ == (FsVersionRefView { number, blob: blob@ }),
    {
        FsVersionRef { number, blob }
    }

    pub fn number(&self) -> (number: VersionNumber)
        ensures
            number == self@.number,
    {
        self.number
    }

    pub fn blob(&self) -> (blob: &BlobRef)
        ensures
            blob@ == self@.blob,
    {
        &self.blob
    }
}

impl Clone for FsVersionRef {
    fn clone(&self) -> (result: Self)
        ensures
            result@ == self@,
    {
        FsVersionRef { number: self.number, blob: self.blob.clone() }
    }
}

/// Durable fact binding an idempotency key to a published version.
#[derive(Clone, Copy, Debug)]
pub struct Commit {
    pub id: CommitId,
    pub version: VersionNumber,
}

impl Commit {
    pub fn new(id: CommitId, version: VersionNumber) -> (commit: Self)
        ensures
            commit == (Commit { id, version }),
    {
        Commit { id, version }
    }

    pub fn id(self) -> (id: CommitId)
        ensures
            id == self.id,
    {
        self.id
    }

    pub fn version(self) -> (version: VersionNumber)
        ensures
            version == self.version,
    {
        self.version
    }
}

pub open spec fn version_corrupt(message: &str) -> Fault {
    corrupt("read YinYang version", message)
}

/// No commit identity occurs twice.
pub open spec fn unique_commits(commits: Seq<Commit>) -> bool {
    forall|i: int, j: int|
        0 <= i < j < commits.len() ==> (#[trigger] commits[i]).id != (#[trigger] commits[j]).id
}

/// Each commit is numbered one above the commit before it.
pub open spec fn contiguous_commits(commits: Seq<Commit>) -> bool {
    forall|i: int|
        1 <= i < commits.len() ==> (#[trigger] commits[i]).version@ == commits[i - 1].version@ + 1
}

/// What is wrong with the commits that a version retains.
pub open spec fn commits_fault(number: VersionNumber, commits: Seq<Commit>) -> Option<Fault> {
    if number@ == 0 {
        if commits.len() == 0 {
            None
        } else {
            Some(version_corrupt("genesis version contains commits"))
        }
    } else if commits.len() == 0 {
        Some(version_corrupt("non-genesis version has no retained commits"))
    } else if commits[0].version@ == 0 || commits.last().version != number {
        Some(version_corrupt("commit range does not end at the filesystem version"))
    } else if !unique_commits(commits) || !contiguous_commits(commits) {
        Some(version_corrupt("commits are not unique and contiguous"))
    } else {
        None
    }
}

/// Check the commits that the version with the given number retains.
pub fn validate_commits(number: VersionNumber, commits: &[Commit]) -> (result: Result<(), Error>)
    ensures
        match result {
            Ok(()) => commits_fault(number, commits@) is None,
            Err(error) => commits_fault(number, commits@) == Some(error.fault()),
        },
{
    let count: usize = commits.len();
    if number.value() == 0 {
        if count == 0 {
            return Ok(());
        }
        return Err(Error::corrupt("read YinYang version", "genesis version contains commits"));
    }
    if count == 0 {
        return Err(
            Error::corrupt("read YinYang version", "non-genesis version has no retained commits"),
        );
    }
    proof {
        VersionNumber::counted(commits@.last().version, number);
    }
    if commits[0].version.value() == 0 || commits[count - 1].version != number {
        return Err(
            Error::corrupt(
                "read YinYang version",
                "commit range does not end at the filesystem version",
            ),
        );
    }
    let mut ids: Vec<CommitId> = Vec::new();
    let mut contiguous = true;
    let mut index: usize = 0;
    while index < count
        invariant
            count == commits@.len(),
            index <= count,
            ids@.len() == index,
            forall|k: int| 0 <= k < index ==> #[trigger] ids@[k] == commits@[k].id,
            contiguous == contiguous_commits(commits@.take(index as int)),
        decreases count - index,
    {
        ids.push(commits[index].id);
        let ghost now = commits@.take(index + 1);
        let ghost then = commits@.take(index as int);
        if index > 0 {
            let prior: u64 = commits[index - 1].version.value();
            let current: u64 = commits[index].version.value();
            if prior == u64::MAX || current != prior + 1 {
                contiguous = false;
                assert(now[index as int].version@ != now[index - 1].version@ + 1);
            }
        }
        proof {
            assert forall|i: int| 1 <= i < then.len() implies #[trigger] then[i] == now[i] && then[i
                - 1] == now[i - 1] by {}
            if contiguous {
                assert forall|i: int| 1 <= i < now.len() implies (#[trigger] now[i]).version@
                    == now[i - 1].version@ + 1 by {
                    if i < index {
                        assert(then[i].version@ == then[i - 1].version@ + 1);
                    }
                }
            } else if !contiguous_commits(then) {
                let i = choose|i: int|
                    1 <= i < then.len() && !((#[trigger] then[i]).version@ == then[i - 1].version@
                        + 1);
                assert(now[i].version@ != now[i - 1].version@ + 1);
            }
        }
        index += 1;
    }
    assert(commits@.take(count as int) =~= commits@);
    proof {
        assert forall|i: int, j: int| 0 <= i < ids@.len() && 0 <= j < ids@.len() implies (
        #[trigger] ids@[i].rank() == #[trigger] ids@[j].rank() <==> commits@[i].id
            == commits@[j].id) by {
            CommitId::identified(ids@[i], ids@[j]);
            bytes_rank_is_injective(ids@[i]@, ids@[j]@);
        }
        if repeats_key(ids@) {
            let (i, j) = choose|i: int, j: int|
                0 <= i < j < ids@.len() && #[trigger] ids@[i].rank() == #[trigger] ids@[j].rank();
            assert(commits@[i].id == commits@[j].id);
        }
        if !unique_commits(commits@) {
            let (i, j) = choose|i: int, j: int|
                0 <= i < j < commits@.len() && (#[trigger] commits@[i]).id == (
                #[trigger] commits@[j]).id;
            assert(ids@[i].rank() == ids@[j].rank());
        }
    }
    if !contiguous || has_repeated_key(ids) {
        return Err(
            Error::corrupt("read YinYang version", "commits are not unique and contiguous"),
        );
    }
    Ok(())
}

/// In valid commits the number of each follows from its place.
pub proof fn commit_numbers(number: VersionNumber, commits: Seq<Commit>, place: int)
    requires
        commits_fault(number, commits) is None,
        0 <= place < commits.len(),
    ensures
        commits[place].version@ == number@ - (commits.len() - 1 - place),
        commits[place].version@ > 0,
    decreases commits.len() - place,
{
    if place < commits.len() - 1 {
        commit_numbers(number, commits, place + 1);
        assert(commits[place + 1].version@ == commits[place].version@ + 1);
    }
    if place > 0 {
        assert(commits[place].version@ == commits[place - 1].version@ + 1);
    }
}

/// A new commit under the next number keeps the commits of a version valid.
pub proof fn commits_extended(
    number: VersionNumber,
    commits: Seq<Commit>,
    id: CommitId,
    next: VersionNumber,
)
    requires
        commits_fault(number, commits) is None,
        forall|i: int| 0 <= i < commits.len() ==> (#[trigger] commits[i]).id != id,
        next@ == number@ + 1,
    ensures
        commits_fault(next, commits.push(Commit { id, version: next })) is None,
{
    let all = commits.push(Commit { id, version: next });
    assert forall|i: int| 1 <= i < all.len() implies (#[trigger] all[i]).version@ == all[i
        - 1].version@ + 1 by {
        if i < commits.len() {
            assert(commits[i].version@ == commits[i - 1].version@ + 1);
        } else {
            assert(commits.last().version == number);
        }
    }
    assert forall|i: int, j: int| 0 <= i < j < all.len() implies (#[trigger] all[i]).id != (
    #[trigger] all[j]).id by {
        if j < commits.len() {
            assert(commits[i].id != commits[j].id);
        }
    }
}

pub ghost struct FsVersionView {
    pub fs: FsId,
    pub number: VersionNumber,
    pub tree: Seq<EntryView>,
    pub commits: Seq<Commit>,
}

/// What is wrong with a version in a filesystem of the given format.
pub open spec fn version_fault(format: FsFormatView, version: FsVersionView) -> Option<Fault> {
    if version.fs != format.fs {
        Some(version_corrupt("filesystem identity does not match the format"))
    } else if tree_fault(version.tree, format.root, format.decodings.len() as usize) is Some {
        tree_fault(version.tree, format.root, format.decodings.len() as usize)
    } else {
        commits_fault(version.number, version.commits)
    }
}

/// One immutable materialized filesystem version.
#[derive(Debug)]
pub struct FsVersion {
    fs: FsId,
    number: VersionNumber,
    tree: Tree,
    commits: Vec<Commit>,
}

impl Clone for FsVersion {
    fn clone(&self) -> (result: Self)
        ensures
            result@ == self@,
    {
        let mut commits: Vec<Commit> = Vec::new();
        let mut index: usize = 0;
        while index < self.commits.len()
            invariant
                index <= self.commits@.len(),
                commits@ == self.commits@.take(index as int),
            decreases self.commits@.len() - index,
        {
            commits.push(self.commits[index]);
            index += 1;
        }
        assert(commits@ =~= self.commits@);
        FsVersion { fs: self.fs, number: self.number, tree: self.tree.clone(), commits }
    }
}

impl FsVersion {
    pub closed spec fn view(&self) -> FsVersionView {
        FsVersionView {
            fs: self.fs,
            number: self.number,
            tree: self.tree@,
            commits: self.commits@,
        }
    }

    pub fn new(
        format: &FsFormat,
        number: VersionNumber,
        tree: Tree,
        commits: Vec<Commit>,
    ) -> (result: Result<Self, Error>)
        ensures
            ({
                let view = FsVersionView {
                    fs: format@.fs,
                    number,
                    tree: tree@,
                    commits: commits@,
                };
                match result {
                    Ok(version) => version_fault(format@, view) is None && version@ == view,
                    Err(error) => version_fault(format@, view) == Some(error.fault()),
                }
            }),
    {
        let version = FsVersion { fs: format.fs(), number, tree, commits };
        match version.validate(format) {
            Ok(()) => Ok(version),
            Err(error) => Err(error),
        }
    }

    pub fn fs(&self) -> (fs: FsId)
        ensures
            fs == self@.fs,
    {
        self.fs
    }

    pub fn number(&self) -> (number: VersionNumber)
        ensures
            number == self@.number,
    {
        self.number
    }

    pub fn tree(&self) -> (tree: &Tree)
        ensures
            tree@ == self@.tree,
    {
        &self.tree
    }

    pub fn commits(&self) -> (commits: &[Commit])
        ensures
            commits@ == self@.commits,
    {
        self.commits.as_slice()
    }

    /// Check the version against the format of its filesystem.
    pub fn validate(&self, format: &FsFormat) -> (result: Result<(), Error>)
        ensures
            match result {
                Ok(()) => version_fault(format@, self@) is None,
                Err(error) => version_fault(format@, self@) == Some(error.fault()),
            },
    {
        if self.fs != format.fs() {
            return Err(
                Error::corrupt(
                    "read YinYang version",
                    "filesystem identity does not match the format",
                ),
            );
        }
        match self.tree.validate(format.root(), format.decodings().len()) {
            Ok(()) => {},
            Err(error) => {
                return Err(error);
            },
        }
        validate_commits(self.number, self.commits.as_slice())
    }
}

pub ghost struct FsHeadView {
    pub current: FsVersionRefView,
    pub gc_epoch: GcEpoch,
    pub min_retained: VersionNumber,
}

/// The retained versions end at the current one.
pub open spec fn head_is_sound(head: FsHeadView) -> bool {
    head.min_retained@ <= head.current.number@
}

/// Mutable publication cell for one filesystem.
#[derive(Debug)]
pub struct FsHead {
    current: FsVersionRef,
    gc_epoch: GcEpoch,
    min_retained: VersionNumber,
}

impl FsHead {
    pub closed spec fn view(&self) -> FsHeadView {
        FsHeadView {
            current: self.current@,
            gc_epoch: self.gc_epoch,
            min_retained: self.min_retained,
        }
    }

    pub fn new(current: FsVersionRef, gc_epoch: GcEpoch, min_retained: VersionNumber) -> (result:
        Result<Self, Error>)
        ensures
            ({
                let view = FsHeadView { current: current@, gc_epoch, min_retained };
                match result {
                    Ok(head) => head_is_sound(view) && head@ == view,
                    Err(error) => !head_is_sound(view) && error.fault() == invalid(
                        "construct YinYang head",
                        "minimum retained version exceeds the current version",
                    ),
                }
            }),
    {
        if min_retained.value() > current.number().value() {
            return Err(
                Error::invalid(
                    "construct YinYang head",
                    "minimum retained version exceeds the current version",
                ),
            );
        }
        Ok(FsHead { current, gc_epoch, min_retained })
    }

    pub fn current(&self) -> (current: &FsVersionRef)
        ensures
            current@ == self@.current,
    {
        &self.current
    }

    pub fn gc_epoch(&self) -> (epoch: GcEpoch)
        ensures
            epoch == self@.gc_epoch,
    {
        self.gc_epoch
    }

    pub fn min_retained(&self) -> (number: VersionNumber)
        ensures
            number == self@.min_retained,
    {
        self.min_retained
    }

    pub fn validate(&self) -> (result: Result<(), Error>)
        ensures
            match result {
                Ok(()) => head_is_sound(self@),
                Err(error) => !head_is_sound(self@) && error.fault() == head_corrupt(),
            },
    {
        if self.min_retained.value() > self.current.number().value() {
            return Err(
                Error::corrupt(
                    "read YinYang head",
                    "minimum retained version exceeds the current version",
                ),
            );
        }
        Ok(())
    }
}

impl Clone for FsHead {
    fn clone(&self) -> (result: Self)
        ensures
            result@ == self@,
    {
        FsHead {
            current: self.current.clone(),
            gc_epoch: self.gc_epoch,
            min_retained: self.min_retained,
        }
    }
}

/// The fault of a head that was read and is not sound.
pub open spec fn head_corrupt() -> Fault {
    corrupt("read YinYang head", "minimum retained version exceeds the current version")
}

// What versions and heads promise.

/// The commits that a version retains count up to its number without a gap, and no identity
/// occurs twice: exactly then they are valid. The first version retains none.
pub proof fn retained_commits_count_up_to_the_version(
    number: VersionNumber,
    commits: &[Commit],
    result: Result<(), Error>,
)
    requires
        call_ensures(validate_commits, (number, commits), result),
    ensures
        number@ == 0 ==> (result is Ok <==> commits@.len() == 0),
        number@ > 0 ==> (result is Ok <==> {
            &&& 0 < commits@.len() <= number@
            &&& forall|i: int|
                0 <= i < commits@.len() ==> (#[trigger] commits@[i]).version@ == number@ - (
                commits@.len() - 1 - i)
            &&& forall|i: int, j: int|
                0 <= i < j < commits@.len() ==> (#[trigger] commits@[i]).id != (
                #[trigger] commits@[j]).id
        }),
{
    let all = commits@;
    if number@ > 0 && all.len() > 0 {
        let last = all.len() - 1;
        if result is Ok {
            assert forall|i: int| 0 <= i < all.len() implies (#[trigger] all[i]).version@
                == number@ - (last - i) by {
                contiguous_from_the_first(all, i);
                contiguous_from_the_first(all, last);
            }
            contiguous_from_the_first(all, last);
        }
        if 0 < all.len() <= number@ && (forall|i: int|
            0 <= i < all.len() ==> (#[trigger] all[i]).version@ == number@ - (last - i)) && (
        forall|i: int, j: int|
            0 <= i < j < all.len() ==> (#[trigger] all[i]).id != (#[trigger] all[j]).id) {
            VersionNumber::counted(all[last].version, number);
            assert(all.last() == all[last]);
        }
    }
}

proof fn contiguous_from_the_first(commits: Seq<Commit>, place: int)
    requires
        contiguous_commits(commits),
        0 <= place < commits.len(),
    ensures
        commits[place].version@ == commits[0].version@ + place,
    decreases place,
{
    if place > 0 {
        contiguous_from_the_first(commits, place - 1);
    }
}

/// A head is accepted exactly if it retains no version that is not published yet, and is what it
/// was made of.
pub proof fn heads_retain_published_versions(
    current: FsVersionRef,
    gc_epoch: GcEpoch,
    min_retained: VersionNumber,
    result: Result<FsHead, Error>,
)
    requires
        call_ensures(FsHead::new, (current, gc_epoch, min_retained), result),
    ensures
        result is Ok <==> min_retained@ <= current@.number@,
        result matches Ok(head) ==> {
            &&& head@.current == current@
            &&& head@.gc_epoch == gc_epoch
            &&& head@.min_retained == min_retained
        },
{
}

/// A version is accepted only for the filesystem of the format, with a tree that is valid for
/// its root and decodings, and is what it was made of.
pub proof fn versions_belong_to_their_format(
    format: &FsFormat,
    number: VersionNumber,
    tree: Tree,
    commits: Vec<Commit>,
    result: Result<FsVersion, Error>,
)
    requires
        call_ensures(FsVersion::new, (format, number, tree, commits), result),
    ensures
        result matches Ok(version) ==> {
            &&& version@.fs == format@.fs
            &&& version@.number == number
            &&& version@.tree == tree@
            &&& version@.commits == commits@
            &&& tree_fault(tree@, format@.root, format@.decodings.len() as usize) is None
        },
{
}

} // verus!
