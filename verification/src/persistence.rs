//! Snapshots and heads as stored objects.

use vstd::prelude::*;

use crate::codec::{
    list_bytes, many_bytes, put_bool, put_bytes, put_fixed, put_u32, put_u64, Reader,
};
use crate::error::{corrupt, invalid, Error, ErrorKind, Fault};
use crate::filesystem::{
    part_fault, range_fault, BlobRefView, ContentId, FileRange,
};
use crate::hash::{digest, digest_of};
use crate::identity::{CommitId, Digest, Generation, NodeId};
use crate::order::{
    before, before_irreflexive, repeats_key, same_by_key_same_items, same_by_key_same_repeats,
    sort, sorted, Ranked,
};
use crate::path::{path_fault, Path};
use crate::text::{same_bytes, text_rank, text_rank_is_injective};
use crate::wire::{
    blob_bytes, blob_fits, blob_reads_back, claims_fit, claims_hold, commit_encoder, content_bytes, content_fits,
    entry_bytes, entry_encoder, entry_fits, file_bytes, file_fits, parse_blob, parse_version,
    part_bytes, part_encoder, read_blob, read_version, version_bytes, version_fits,
    version_reads_back, wire_content, WireBlob, WireBlobRef, WireBody, WireEntryView, WireFile,
    WireFilePart, WireFileView, WireNode, WireNodeBody, WireNodeView, WirePart, WireVersion,
    WireVersionView,
};

verus! {

pub const MAX_HEAD_BYTES: usize = 4096;

pub const MAX_VERSION_BYTES: usize = 67_108_864;

pub const CHECKSUM_BYTES: usize = 32;

/// The first bytes of a stored version.
pub open spec fn version_magic() -> Seq<u8> {
    seq![0x59u8, 0x59, 0x56, 0x45, 0x52, 0x30, 0x30, 0x31]
}

/// The first bytes of a stored head.
pub open spec fn head_magic() -> Seq<u8> {
    seq![0x59u8, 0x59, 0x48, 0x45, 0x41, 0x44, 0x30, 0x31]
}

// What is stored of a file, a node and a version.

/// The wire form of a blob reference.
pub open spec fn wire_blob(blob: BlobRefView) -> WireBlob {
    WireBlob { reference: blob.reference, content: wire_content(blob.content) }
}

/// A reference as it is stored: any bytes, and what they refer to.
#[derive(Debug)]
pub struct StoredRef {
    reference: Vec<u8>,
    content: ContentId,
}

impl StoredRef {
    pub closed spec fn view(&self) -> BlobRefView {
        BlobRefView { reference: self.reference@, content: self.content }
    }

    pub fn new(reference: Vec<u8>, content: ContentId) -> (stored: Self)
        ensures
            stored@ == (BlobRefView { reference: reference@, content }),
    {
        StoredRef { reference, content }
    }

    pub fn as_bytes(&self) -> (bytes: &[u8])
        ensures
            bytes@ == self@.reference,
    {
        self.reference.as_slice()
    }

    pub fn content(&self) -> (content: ContentId)
        ensures
            content == self@.content,
    {
        self.content
    }

    pub fn same(&self, other: &Self) -> (result: bool)
        ensures
            result == (self@ == other@),
    {
        same_bytes(self.reference.as_slice(), other.reference.as_slice()) && self.content
            == other.content
    }
}

/// One part of a stored file: a range of the file, and where its bytes stand in a blob.
#[derive(Debug)]
pub struct SnapshotPart {
    range: FileRange,
    blob_offset: u64,
    blob: StoredRef,
}

impl SnapshotPart {
    pub closed spec fn view(&self) -> WirePart {
        WirePart {
            start: self.range.start(),
            end: (self.range.start() + self.range.size()) as u64,
            blob_offset: self.blob_offset,
            blob: wire_blob(self.blob@),
        }
    }

    #[verifier::type_invariant]
    spec fn is_within_blob(self) -> bool {
        &&& self.range.start() + self.range.size() <= u64::MAX
        &&& part_conversion_fault(self@) is None
    }

    /// The part of a file from a start up to an end, at an offset of a blob.
    pub fn new(start: u64, end: u64, blob_offset: u64, blob: StoredRef) -> (result: Result<
        Self,
        Error,
    >)
        ensures
            ({
                let view = WirePart { start, end, blob_offset, blob: wire_blob(blob@) };
                match result {
                    Ok(part) => part_conversion_fault(view) is None && part@ == view,
                    Err(error) => part_conversion_fault(view) == Some(error.fault()),
                }
            }),
    {
        let length: u64 = if end > start {
            end - start
        } else {
            0
        };
        let range = match FileRange::new(start, length) {
            Ok(range) => range,
            Err(error) => {
                return Err(error);
            },
        };
        let fits = match blob_offset.checked_add(length) {
            Some(reach) => reach <= blob.content().length(),
            None => false,
        };
        if !fits {
            return Err(
                Error::invalid(
                    "construct YinYang file part",
                    "file part exceeds its source content",
                ),
            );
        }
        Ok(SnapshotPart { range, blob_offset, blob })
    }

    pub fn range(&self) -> (range: FileRange)
        ensures
            range.start() == self@.start,
            range.start() + range.size() == self@.end,
            part_conversion_fault(self@) is None,
    {
        proof {
            use_type_invariant(self);
        }
        self.range
    }

    pub fn blob_offset(&self) -> (offset: u64)
        ensures
            offset == self@.blob_offset,
            part_conversion_fault(self@) is None,
    {
        proof {
            use_type_invariant(self);
        }
        self.blob_offset
    }

    pub fn blob(&self) -> (blob: &StoredRef)
        ensures
            wire_blob(blob@) == self@.blob,
            part_conversion_fault(self@) is None,
    {
        proof {
            use_type_invariant(self);
        }
        &self.blob
    }
}

pub open spec fn snapshot_parts(parts: Seq<SnapshotPart>) -> Seq<WirePart> {
    Seq::new(parts.len(), |i: int| parts[i]@)
}

/// The content and the parts of one stored file.
#[derive(Debug)]
pub struct SnapshotFile {
    content: ContentId,
    parts: Vec<SnapshotPart>,
}

impl SnapshotFile {
    pub closed spec fn view(&self) -> WireFileView {
        WireFileView { content: wire_content(self.content), parts: snapshot_parts(self.parts@) }
    }

    #[verifier::type_invariant]
    spec fn is_stored(self) -> bool {
        file_conversion_fault(self@) is None
    }

    pub fn content(&self) -> (content: ContentId)
        ensures
            wire_content(content) == self@.content,
            file_conversion_fault(self@) is None,
    {
        proof {
            use_type_invariant(self);
        }
        self.content
    }

    pub fn parts(&self) -> (parts: &[SnapshotPart])
        ensures
            snapshot_parts(parts@) == self@.parts,
            file_conversion_fault(self@) is None,
    {
        proof {
            use_type_invariant(self);
        }
        self.parts.as_slice()
    }
}

/// The body of one stored node.
#[derive(Debug)]
pub enum SnapshotBody {
    Dir { entries_generation: Generation },
    File { file: SnapshotFile },
}

impl SnapshotBody {
    pub open spec fn view(&self) -> WireBody {
        match self {
            SnapshotBody::Dir { entries_generation } => WireBody::Dir {
                entries_generation: entries_generation@,
            },
            SnapshotBody::File { file } => WireBody::File { file: file@ },
        }
    }
}

/// One stored node.
#[derive(Debug)]
pub struct SnapshotNode {
    pub id: NodeId,
    pub generation: Generation,
    pub executable: bool,
    pub body: SnapshotBody,
}

impl SnapshotNode {
    pub open spec fn view(&self) -> WireNodeView {
        WireNodeView {
            id: self.id@,
            generation: self.generation@,
            executable: self.executable,
            body: self.body@,
        }
    }
}

/// One stored path and its node.
#[derive(Debug)]
pub struct SnapshotEntry {
    pub path: Path,
    pub node: SnapshotNode,
}

impl SnapshotEntry {
    pub open spec fn view(&self) -> WireEntryView {
        WireEntryView { path: self.path@, node: self.node@ }
    }
}

impl Ranked for SnapshotEntry {
    open spec fn rank(&self) -> Seq<int> {
        text_rank(self.path@)
    }

    fn precedes(&self, other: &Self) -> (result: bool) {
        self.path.precedes(&other.path)
    }
}

pub open spec fn snapshot_entries(entries: Seq<SnapshotEntry>) -> Seq<WireEntryView> {
    Seq::new(entries.len(), |i: int| entries[i]@)
}

pub open spec fn snapshot_commits(commits: Seq<CommitId>) -> Seq<Seq<u8>> {
    Seq::new(commits.len(), |i: int| commits[i]@)
}

/// The entries stand in the byte order of their paths, each path once.
pub open spec fn wire_ordered(entries: Seq<WireEntryView>) -> bool {
    forall|i: int, j: int|
        0 <= i < j < entries.len() ==> before(
            text_rank((#[trigger] entries[i]).path),
            text_rank((#[trigger] entries[j]).path),
        )
}

/// A stored version: its tree and the commits that led to it.
#[derive(Debug)]
pub struct Snapshot {
    entries: Vec<SnapshotEntry>,
    commits: Vec<CommitId>,
}

impl Snapshot {
    /// What is stored of the version.
    pub closed spec fn view(&self) -> WireVersionView {
        WireVersionView {
            entries: snapshot_entries(self.entries@),
            commits: snapshot_commits(self.commits@),
        }
    }

    #[verifier::type_invariant]
    spec fn is_ordered(self) -> bool {
        wire_ordered(snapshot_entries(self.entries@))
    }

    /// The version with the given entries, if no path occurs twice among them.
    pub fn new(entries: Vec<SnapshotEntry>, commits: Vec<CommitId>) -> (result: Result<Self, Error>)
        ensures
            match result {
                Ok(snapshot) => {
                    &&& !repeats_path(snapshot_entries(entries@))
                    &&& holds_entries(snapshot@.entries, snapshot_entries(entries@))
                    &&& wire_ordered(snapshot@.entries)
                    &&& snapshot@.commits == snapshot_commits(commits@)
                },
                Err(error) => repeats_path(snapshot_entries(entries@)) && error.fault()
                    == duplicate_path(),
            },
    {
        let ghost given = entries@;
        let sorted_entries = sort(entries);
        proof {
            same_by_key_same_items(given, sorted_entries@);
            same_by_key_same_repeats(given, sorted_entries@);
            repeats_by_rank(given);
            repeats_by_rank(sorted_entries@);
        }
        let ghost all = sorted_entries@;
        let mut index: usize = 1;
        while index < sorted_entries.len()
            invariant
                given == entries@,
                all == sorted_entries@,
                1 <= index,
                all.len() > 0 ==> index <= all.len(),
                sorted(all),
                repeats_key(given) <==> repeats_key(all),
                repeats_path(snapshot_entries(given)) <==> repeats_key(given),
                forall|k: int| 1 <= k < index ==> before(all[k - 1].rank(), #[trigger] all[k].rank()),
            decreases all.len() - index,
        {
            if !sorted_entries[index - 1].precedes(&sorted_entries[index]) {
                proof {
                    let prior = index - 1;
                    crate::order::before_total(all[prior].rank(), all[index as int].rank());
                    assert(crate::order::not_after(all[prior].rank(), all[index as int].rank()));
                    assert(all[prior].rank() == all[index as int].rank());
                }
                return Err(
                    Error::invalid("construct YinYang tree", "tree contains a duplicate path"),
                );
            }
            index += 1;
        }
        proof {
            let views = snapshot_entries(all);
            assert forall|i: int, j: int| 0 <= i < j < views.len() implies before(
                text_rank((#[trigger] views[i]).path),
                text_rank((#[trigger] views[j]).path),
            ) by {
                assert(before(all[j - 1].rank(), all[j].rank()));
                assert(all[i].rank() == text_rank(views[i].path));
                assert(all[j].rank() == text_rank(views[j].path));
                if i < j - 1 {
                    assert(crate::order::not_after(all[i].rank(), all[j - 1].rank()));
                    crate::order::not_after_before(all[i].rank(), all[j - 1].rank(), all[j].rank());
                }
            }
            assert(!repeats_key(all)) by {
                if repeats_key(all) {
                    let (i, j) = choose|i: int, j: int|
                        0 <= i < j < all.len() && #[trigger] all[i].rank()
                            == #[trigger] all[j].rank();
                    assert(before(text_rank(views[i].path), text_rank(views[j].path)));
                    before_irreflexive(all[i].rank());
                }
            }
            assert(holds_entries(views, snapshot_entries(given))) by {
                assert forall|i: int| 0 <= i < given.len() implies views.contains(
                    #[trigger] snapshot_entries(given)[i],
                ) by {
                    assert(given.contains(given[i]));
                    assert(all.contains(given[i]));
                    let k = choose|k: int| 0 <= k < all.len() && all[k] == given[i];
                    assert(views[k] == snapshot_entries(given)[i]);
                }
            }
        }
        Ok(Snapshot { entries: sorted_entries, commits })
    }

    /// The entries in the byte order of their paths.
    pub fn entries(&self) -> (entries: &[SnapshotEntry])
        ensures
            snapshot_entries(entries@) == self@.entries,
            wire_ordered(self@.entries),
    {
        proof {
            use_type_invariant(self);
        }
        self.entries.as_slice()
    }

    pub fn commits(&self) -> (commits: &[CommitId])
        ensures
            snapshot_commits(commits@) == self@.commits,
    {
        self.commits.as_slice()
    }
}

/// Some path occurs twice.
pub open spec fn repeats_path(entries: Seq<WireEntryView>) -> bool {
    exists|i: int, j: int|
        0 <= i < j < entries.len() && (#[trigger] entries[i]).path == (#[trigger] entries[j]).path
}

/// The first sequence holds just the entries of the second one.
pub open spec fn holds_entries(
    entries: Seq<WireEntryView>,
    given: Seq<WireEntryView>,
) -> bool {
    &&& entries.len() == given.len()
    &&& forall|i: int| 0 <= i < given.len() ==> entries.contains(#[trigger] given[i])
}

pub open spec fn duplicate_path() -> Fault {
    invalid("construct YinYang tree", "tree contains a duplicate path")
}

proof fn repeats_by_rank(entries: Seq<SnapshotEntry>)
    ensures
        repeats_path(snapshot_entries(entries)) <==> repeats_key(entries),
{
    let views = snapshot_entries(entries);
    if repeats_path(views) {
        let (i, j) = choose|i: int, j: int|
            0 <= i < j < views.len() && (#[trigger] views[i]).path == (#[trigger] views[j]).path;
        assert(entries[i].rank() == entries[j].rank());
    }
    if repeats_key(entries) {
        let (i, j) = choose|i: int, j: int|
            0 <= i < j < entries.len() && #[trigger] entries[i].rank()
                == #[trigger] entries[j].rank();
        text_rank_is_injective(entries[i].path@, entries[j].path@);
        assert(views[i].path == views[j].path);
    }
}

// From what was read to what is stored.

/// What is wrong with a part as it was read.
pub open spec fn part_conversion_fault(part: WirePart) -> Option<Fault> {
    if part.start >= part.end {
        Some(range_fault())
    } else if part.blob_offset + (part.end - part.start) > part.blob.content.length {
        Some(part_fault())
    } else {
        None
    }
}

/// What is wrong with the first part that has something wrong by itself.
pub open spec fn parts_conversion_fault(parts: Seq<WirePart>) -> Option<Fault>
    decreases parts.len(),
{
    if parts.len() == 0 {
        None
    } else if parts_conversion_fault(parts.drop_last()) is Some {
        parts_conversion_fault(parts.drop_last())
    } else {
        part_conversion_fault(parts.last())
    }
}

/// Where the last part ends; the start of the file where there is none.
pub open spec fn end_of(parts: Seq<WirePart>) -> u64 {
    if parts.len() == 0 {
        0
    } else {
        parts.last().end
    }
}

/// Each part starts where the part before it ends, the first one at the start of the file.
pub open spec fn chained(parts: Seq<WirePart>) -> bool
    decreases parts.len(),
{
    parts.len() == 0 || (chained(parts.drop_last()) && parts.last().start == end_of(
        parts.drop_last(),
    ))
}

/// What is wrong with a file as it was read.
pub open spec fn file_conversion_fault(file: WireFileView) -> Option<Fault> {
    if parts_conversion_fault(file.parts) is Some {
        parts_conversion_fault(file.parts)
    } else if file.content.length == 0 {
        if file.parts.len() == 0 {
            None
        } else {
            Some(invalid("validate YinYang file", "empty file contains parts"))
        }
    } else if !chained(file.parts) {
        Some(invalid("validate YinYang file", "file parts contain a gap or overlap"))
    } else if end_of(file.parts) != file.content.length {
        Some(
            invalid(
                "validate YinYang file",
                "file parts do not exactly cover the logical content",
            ),
        )
    } else {
        None
    }
}

/// What is wrong with an entry as it was read.
pub open spec fn entry_conversion_fault(entry: WireEntryView) -> Option<Fault> {
    if path_fault(entry.path) is Some {
        path_fault(entry.path)
    } else if entry.node.body is File {
        file_conversion_fault(entry.node.body->file)
    } else {
        None
    }
}

pub open spec fn entries_conversion_fault(entries: Seq<WireEntryView>) -> Option<Fault>
    decreases entries.len(),
{
    if entries.len() == 0 {
        None
    } else if entries_conversion_fault(entries.drop_last()) is Some {
        entries_conversion_fault(entries.drop_last())
    } else {
        entry_conversion_fault(entries.last())
    }
}

/// What is wrong with a version as it was read.
pub open spec fn version_conversion_fault(version: WireVersionView) -> Option<Fault> {
    if entries_conversion_fault(version.entries) is Some {
        entries_conversion_fault(version.entries)
    } else if repeats_path(version.entries) {
        Some(duplicate_path())
    } else {
        None
    }
}

impl WireBlobRef {
    pub fn into_blob_ref(self) -> (stored: StoredRef)
        ensures
            wire_blob(stored@) == self@,
    {
        StoredRef::new(self.reference, self.content)
    }
}

impl WireFilePart {
    pub fn into_part(self) -> (result: Result<SnapshotPart, Error>)
        ensures
            match result {
                Ok(part) => part_conversion_fault(self@) is None && part@ == self@,
                Err(error) => part_conversion_fault(self@) == Some(error.fault()),
            },
    {
        SnapshotPart::new(self.start, self.end, self.blob_offset, self.blob.into_blob_ref())
    }
}

/// A fault among the first parts is the fault of all of them.
proof fn later_parts_keep_fault(parts: Seq<WirePart>, count: nat)
    requires
        count <= parts.len(),
        parts_conversion_fault(parts.take(count as int)) is Some,
    ensures
        parts_conversion_fault(parts) == parts_conversion_fault(parts.take(count as int)),
    decreases parts.len(),
{
    if count < parts.len() {
        assert(parts.drop_last().take(count as int) =~= parts.take(count as int));
        later_parts_keep_fault(parts.drop_last(), count);
    } else {
        assert(parts.take(count as int) =~= parts);
    }
}

/// The first parts of a chain are a chain.
proof fn first_parts_are_chained(parts: Seq<WirePart>, count: nat)
    requires
        count <= parts.len(),
        chained(parts),
    ensures
        chained(parts.take(count as int)),
    decreases parts.len(),
{
    if count < parts.len() {
        assert(parts.drop_last().take(count as int) =~= parts.take(count as int));
        first_parts_are_chained(parts.drop_last(), count);
    } else {
        assert(parts.take(count as int) =~= parts);
    }
}

/// Check that parts cover a content one after the other.
fn check_parts(content: ContentId, parts: &Vec<SnapshotPart>) -> (result: Result<(), Error>)
    requires
        parts_conversion_fault(snapshot_parts(parts@)) is None,
    ensures
        ({
            let view = WireFileView {
                content: wire_content(content),
                parts: snapshot_parts(parts@),
            };
            match result {
                Ok(()) => file_conversion_fault(view) is None,
                Err(error) => file_conversion_fault(view) == Some(error.fault()),
            }
        }),
{
    let ghost all = snapshot_parts(parts@);
    if content.length() == 0 {
        if parts.len() == 0 {
            return Ok(());
        }
        return Err(Error::invalid("validate YinYang file", "empty file contains parts"));
    }
    let mut expected: u64 = 0;
    let mut index: usize = 0;
    assert(all.take(0) =~= Seq::empty());
    while index < parts.len()
        invariant
            all == snapshot_parts(parts@),
            index <= parts@.len(),
            chained(all.take(index as int)),
            expected == end_of(all.take(index as int)),
            parts_conversion_fault(all) is None,
            content.length > 0,
        decreases parts@.len() - index,
    {
        let range = parts[index].range();
        let ghost now = all.take(index + 1);
        proof {
            assert(now.drop_last() =~= all.take(index as int));
            assert(now.last() == parts@[index as int]@);
        }
        if range.offset() != expected {
            proof {
                if chained(all) {
                    first_parts_are_chained(all, (index + 1) as nat);
                }
            }
            return Err(
                Error::invalid("validate YinYang file", "file parts contain a gap or overlap"),
            );
        }
        expected = range.offset() + range.length();
        index += 1;
    }
    assert(all.take(index as int) =~= all);
    if expected != content.length() {
        return Err(
            Error::invalid(
                "validate YinYang file",
                "file parts do not exactly cover the logical content",
            ),
        );
    }
    Ok(())
}

impl WireFile {
    pub fn into_file(self) -> (result: Result<SnapshotFile, Error>)
        ensures
            match result {
                Ok(file) => file_conversion_fault(self@) is None && file@ == self@,
                Err(error) => file_conversion_fault(self@) == Some(error.fault()),
            },
    {
        let ghost view = self@;
        let ghost wires = self@.parts;
        let content = self.content;
        let mut pending = crate::order::reversed(self.parts);
        let ghost given = pending@.reverse();
        let mut parts: Vec<SnapshotPart> = Vec::new();
        proof {
            assert(given =~= self.parts@);
            assert(wires.take(0) =~= Seq::empty());
        }
        let ghost mut count: int = 0;
        while pending.len() > 0
            invariant
                view == self@,
                wires == view.parts,
                content == self.content,
                given.len() == wires.len(),
                forall|i: int| 0 <= i < given.len() ==> (#[trigger] given[i])@ == wires[i],
                0 <= count <= given.len(),
                pending@ == given.skip(count).reverse(),
                parts@.len() == count,
                parts_conversion_fault(wires.take(count)) is None,
                forall|i: int| 0 <= i < count ==> (#[trigger] parts@[i])@ == wires[i],
            decreases pending@.len(),
        {
            assert(pending@.last() == given[count]);
            if let Some(wire) = pending.pop() {
                assert(pending@ =~= given.skip(count + 1).reverse());
                let ghost now = wires.take(count + 1);
                proof {
                    assert(now.drop_last() =~= wires.take(count));
                    assert(now.last() == wire@);
                }
                match wire.into_part() {
                    Ok(part) => {
                        parts.push(part);
                    },
                    Err(error) => {
                        proof {
                            later_parts_keep_fault(wires, (count + 1) as nat);
                        }
                        return Err(error);
                    },
                }
                proof {
                    count = count + 1;
                }
            }
        }
        assert(wires.take(count) =~= wires);
        assert(snapshot_parts(parts@) =~= wires);
        match check_parts(content, &parts) {
            Ok(()) => Ok(SnapshotFile { content, parts }),
            Err(error) => Err(error),
        }
    }
}

impl WireNode {
    pub fn into_node(self) -> (result: Result<SnapshotNode, Error>)
        ensures
            match result {
                Ok(node) => node@ == self@ && (self@.body is File ==> file_conversion_fault(
                    self@.body->file,
                ) is None),
                Err(error) => self@.body is File && file_conversion_fault(self@.body->file) == Some(
                    error.fault(),
                ),
            },
    {
        let id = NodeId::from_bytes(self.id);
        let generation = Generation::from_value(self.generation);
        let executable = self.executable;
        match self.body {
            WireNodeBody::Dir { entries_generation } => Ok(
                SnapshotNode {
                    id,
                    generation,
                    executable,
                    body: SnapshotBody::Dir {
                        entries_generation: Generation::from_value(entries_generation),
                    },
                },
            ),
            WireNodeBody::File { file } => match file.into_file() {
                Ok(file) => Ok(
                    SnapshotNode { id, generation, executable, body: SnapshotBody::File { file } },
                ),
                Err(error) => Err(error),
            },
        }
    }
}

/// A fault among the first entries is the fault of all of them.
proof fn later_entries_keep_fault(entries: Seq<WireEntryView>, count: nat)
    requires
        count <= entries.len(),
        entries_conversion_fault(entries.take(count as int)) is Some,
    ensures
        entries_conversion_fault(entries) == entries_conversion_fault(entries.take(count as int)),
    decreases entries.len(),
{
    if count < entries.len() {
        assert(entries.drop_last().take(count as int) =~= entries.take(count as int));
        later_entries_keep_fault(entries.drop_last(), count);
    } else {
        assert(entries.take(count as int) =~= entries);
    }
}

impl WireVersion {
    pub fn into_version(self) -> (result: Result<Snapshot, Error>)
        ensures
            match result {
                Ok(snapshot) => {
                    &&& version_conversion_fault(self@) is None
                    &&& holds_entries(snapshot@.entries, self@.entries)
                    &&& wire_ordered(snapshot@.entries)
                    &&& snapshot@.commits == self@.commits
                },
                Err(error) => version_conversion_fault(self@) == Some(error.fault()),
            },
    {
        let ghost view = self@;
        let ghost wires = self@.entries;
        let ghost raw_commits = self.commits@;
        let raw = self.commits;
        let mut pending = crate::order::reversed(self.entries);
        let ghost given = pending@.reverse();
        let mut entries: Vec<SnapshotEntry> = Vec::new();
        proof {
            assert(given =~= self.entries@);
            assert(wires.take(0) =~= Seq::empty());
        }
        let ghost mut count: int = 0;
        while pending.len() > 0
            invariant
                view == self@,
                wires == view.entries,
                given.len() == wires.len(),
                forall|i: int| 0 <= i < given.len() ==> (#[trigger] given[i])@ == wires[i],
                0 <= count <= given.len(),
                pending@ == given.skip(count).reverse(),
                entries@.len() == count,
                entries_conversion_fault(wires.take(count)) is None,
                forall|i: int| 0 <= i < count ==> (#[trigger] entries@[i])@ == wires[i],
            decreases pending@.len(),
        {
            assert(pending@.last() == given[count]);
            if let Some(wire) = pending.pop() {
                assert(pending@ =~= given.skip(count + 1).reverse());
                let ghost now = wires.take(count + 1);
                let ghost wire_view = wire@;
                proof {
                    assert(now.drop_last() =~= wires.take(count));
                    assert(now.last() == wire@);
                    if entry_conversion_fault(wire@) is Some {
                        later_entries_keep_fault(wires, (count + 1) as nat);
                    }
                }
                let path = match Path::new(wire.path) {
                    Ok(path) => path,
                    Err(error) => {
                        return Err(error);
                    },
                };
                let node = match wire.node.into_node() {
                    Ok(node) => node,
                    Err(error) => {
                        return Err(error);
                    },
                };
                let entry = SnapshotEntry { path, node };
                assert(entry@ == wire_view);
                entries.push(entry);
                proof {
                    count = count + 1;
                }
            }
        }
        assert(wires.take(count) =~= wires);
        assert(snapshot_entries(entries@) =~= wires);
        let mut commits: Vec<CommitId> = Vec::new();
        let mut index: usize = 0;
        while index < raw.len()
            invariant
                index <= raw@.len(),
                commits@.len() == index,
                forall|i: int| 0 <= i < index ==> (#[trigger] commits@[i])@ == raw@[i]@,
            decreases raw@.len() - index,
        {
            commits.push(CommitId::from_bytes(raw[index]));
            index += 1;
        }
        assert(snapshot_commits(commits@) =~= view.commits);
        Snapshot::new(entries, commits)
    }
}

// Writing the wire form.

fn put_content(output: &mut Vec<u8>, content: ContentId)
    ensures
        final(output)@ == old(output)@ + content_bytes(wire_content(content)),
        content_fits(wire_content(content)),
{
    proof {
        Digest::identified(content.digest, content.digest);
    }
    put_fixed(output, content.digest.as_bytes().as_slice());
    put_u64(output, content.length);
    assert(output@ =~= old(output)@ + content_bytes(wire_content(content)));
}

fn put_blob(output: &mut Vec<u8>, blob: &StoredRef)
    ensures
        final(output)@ == old(output)@ + blob_bytes(wire_blob(blob@)),
        blob_fits(wire_blob(blob@)),
{
    let reference = blob.as_bytes();
    assert(reference.len() == reference@.len());
    put_bytes(output, reference);
    put_content(output, blob.content());
    assert(output@ =~= old(output)@ + blob_bytes(wire_blob(blob@)));
}

fn put_part(output: &mut Vec<u8>, part: &SnapshotPart)
    ensures
        final(output)@ == old(output)@ + part_bytes(part@),
        blob_fits(part@.blob),
{
    let offset: u64 = part.range().offset();
    let length: u64 = part.range().length();
    put_u64(output, offset);
    put_u64(output, offset + length);
    put_u64(output, part.blob_offset());
    put_blob(output, part.blob());
    assert(output@ =~= old(output)@ + part_bytes(part@));
}

fn put_file(output: &mut Vec<u8>, file: &SnapshotFile)
    ensures
        final(output)@ == old(output)@ + file_bytes(file@),
        file_fits(file@),
        file_conversion_fault(file@) is None,
{
    proof {
        use_type_invariant(file);
    }
    let ghost parts = file@.parts;
    put_content(output, file.content);
    put_u64(output, file.parts.len() as u64);
    let ghost start = output@;
    let mut index: usize = 0;
    assert(output@ =~= start + many_bytes(parts.take(0), part_encoder()));
    while index < file.parts.len()
        invariant
            parts == file@.parts,
            parts.len() == file.parts@.len(),
            index <= file.parts@.len(),
            output@ == start + many_bytes(parts.take(index as int), part_encoder()),
            forall|i: int| 0 <= i < index ==> blob_fits((#[trigger] parts[i]).blob),
        decreases file.parts@.len() - index,
    {
        let ghost now = parts.take(index + 1);
        put_part(output, &file.parts[index]);
        proof {
            assert(now.drop_last() =~= parts.take(index as int));
            assert(now.last() == file.parts@[index as int]@);
            assert(output@ =~= start + many_bytes(now, part_encoder()));
        }
        index += 1;
    }
    assert(parts.take(index as int) =~= parts);
    assert(output@ =~= old(output)@ + file_bytes(file@));
}

fn put_entry(output: &mut Vec<u8>, entry: &SnapshotEntry)
    ensures
        final(output)@ == old(output)@ + entry_bytes(entry@),
        entry_fits(entry@),
        entry_conversion_fault(entry@) is None,
{
    proof {
        NodeId::identified(entry.node.id, entry.node.id);
    }
    put_bytes(output, entry.path.as_str().as_bytes());
    put_fixed(output, entry.node.id.as_bytes().as_slice());
    put_u64(output, entry.node.generation.value());
    put_bool(output, entry.node.executable);
    match &entry.node.body {
        SnapshotBody::Dir { entries_generation } => {
            put_u32(output, 0);
            put_u64(output, entries_generation.value());
        },
        SnapshotBody::File { file } => {
            put_u32(output, 1);
            put_file(output, file);
        },
    }
    assert(output@ =~= old(output)@ + entry_bytes(entry@));
}

fn put_entries(output: &mut Vec<u8>, entries: &[SnapshotEntry])
    ensures
        final(output)@ == old(output)@ + list_bytes(snapshot_entries(entries@), entry_encoder()),
        entries_conversion_fault(snapshot_entries(entries@)) is None,
        entries@.len() <= u64::MAX,
        forall|i: int|
            0 <= i < entries@.len() ==> entry_fits(#[trigger] snapshot_entries(entries@)[i]),
{
    let ghost views = snapshot_entries(entries@);
    put_u64(output, entries.len() as u64);
    let ghost start = output@;
    let mut index: usize = 0;
    assert(output@ =~= start + many_bytes(views.take(0), entry_encoder()));
    while index < entries.len()
        invariant
            views == snapshot_entries(entries@),
            index <= entries@.len(),
            output@ == start + many_bytes(views.take(index as int), entry_encoder()),
            entries_conversion_fault(views.take(index as int)) is None,
            forall|i: int| 0 <= i < index ==> entry_fits(#[trigger] views[i]),
        decreases entries@.len() - index,
    {
        let ghost now = views.take(index + 1);
        put_entry(output, &entries[index]);
        proof {
            assert(now.drop_last() =~= views.take(index as int));
            assert(now.last() == entries@[index as int]@);
            assert(output@ =~= start + many_bytes(now, entry_encoder()));
        }
        index += 1;
    }
    assert(views.take(index as int) =~= views);
    assert(output@ =~= old(output)@ + list_bytes(views, entry_encoder()));
}

fn put_commits(output: &mut Vec<u8>, commits: &[CommitId])
    ensures
        final(output)@ == old(output)@ + list_bytes(snapshot_commits(commits@), commit_encoder()),
        commits@.len() <= u64::MAX,
        forall|i: int|
            0 <= i < commits@.len() ==> (#[trigger] snapshot_commits(commits@)[i]).len() == 16,
{
    proof {
        assert forall|i: int| 0 <= i < commits@.len() implies (#[trigger] snapshot_commits(
            commits@,
        )[i]).len() == 16 by {
            CommitId::identified(commits@[i], commits@[i]);
        }
    }
    let ghost views = snapshot_commits(commits@);
    put_u64(output, commits.len() as u64);
    let ghost start = output@;
    let mut index: usize = 0;
    assert(output@ =~= start + many_bytes(views.take(0), commit_encoder()));
    while index < commits.len()
        invariant
            views == snapshot_commits(commits@),
            index <= commits@.len(),
            output@ == start + many_bytes(views.take(index as int), commit_encoder()),
        decreases commits@.len() - index,
    {
        let ghost now = views.take(index + 1);
        put_fixed(output, commits[index].as_bytes().as_slice());
        proof {
            assert(now.drop_last() =~= views.take(index as int));
            assert(now.last() == commits@[index as int]@);
            assert(output@ =~= start + many_bytes(now, commit_encoder()));
        }
        index += 1;
    }
    assert(views.take(index as int) =~= views);
    assert(output@ =~= old(output)@ + list_bytes(views, commit_encoder()));
}

/// The bytes that a version is stored as.
pub open spec fn stored_version(version: WireVersionView) -> Seq<u8> {
    version_magic() + version_bytes(version)
}

/// The bytes that a head is stored as: a magic, the reference and a checksum of both.
pub open spec fn stored_head(blob: WireBlob) -> Seq<u8> {
    let body = head_magic() + blob_bytes(blob);
    body + digest_of(body)
}

pub open spec fn version_decoding(message: &str) -> Fault {
    corrupt("decode YinYang version", message)
}

pub open spec fn head_decoding(message: &str) -> Fault {
    corrupt("decode YinYang head", message)
}

fn magic_bytes(first: u8, second: u8, third: u8, fourth: u8, fifth: u8, sixth: u8) -> (result: Vec<
    u8,
>)
    ensures
        result@ == seq![0x59u8, 0x59, first, second, third, fourth, fifth, sixth],
{
    let mut result: Vec<u8> = Vec::new();
    result.push(0x59);
    result.push(0x59);
    result.push(first);
    result.push(second);
    result.push(third);
    result.push(fourth);
    result.push(fifth);
    result.push(sixth);
    assert(result@ =~= seq![0x59u8, 0x59, first, second, third, fourth, fifth, sixth]);
    result
}

/// Whether the bytes begin with the given ones.
fn starts_with(bytes: &[u8], start: &[u8]) -> (result: bool)
    ensures
        result == (start@.len() <= bytes@.len() && bytes@.take(start@.len() as int) == start@),
{
    if start.len() > bytes.len() {
        return false;
    }
    same_bytes(vstd::slice::slice_subrange(bytes, 0, start.len()), start)
}

/// The bytes that store a version.
pub fn encode_version(version: &Snapshot) -> (result: Result<Vec<u8>, Error>)
    ensures
        match result {
            Ok(bytes) => {
                &&& bytes@ == stored_version(version@)
                &&& bytes@.len() <= MAX_VERSION_BYTES
                &&& stores_version(bytes@, version@)
                &&& version_bytes_fault(bytes@) == (if claims_fit(
                    version@,
                    MAX_VERSION_BYTES as int,
                ) {
                    None
                } else {
                    Some(version_decoding("version body is invalid"))
                })
                &&& wire_ordered(version@.entries)
            },
            Err(error) => stored_version(version@).len() > MAX_VERSION_BYTES && error.fault()
                == invalid("encode YinYang version", "version exceeds its size limit"),
        },
{
    let mut bytes = magic_bytes(0x56, 0x45, 0x52, 0x30, 0x30, 0x31);
    put_entries(&mut bytes, version.entries());
    put_commits(&mut bytes, version.commits());
    assert(bytes@ =~= stored_version(version@));
    if bytes.len() > MAX_VERSION_BYTES {
        return Err(Error::invalid("encode YinYang version", "version exceeds its size limit"));
    }
    proof {
        assert(version_fits(version@));
        version_reads_back(version@, Seq::empty());
        assert(version_bytes(version@) + Seq::<u8>::empty() =~= version_bytes(version@));
        assert(bytes@.take(8) =~= version_magic());
        assert(bytes@.skip(8) =~= version_bytes(version@));
        ordered_paths_differ(version@.entries);
    }
    Ok(bytes)
}

/// In ordered entries no path occurs twice.
proof fn ordered_paths_differ(entries: Seq<WireEntryView>)
    requires
        wire_ordered(entries),
    ensures
        !repeats_path(entries),
{
    if repeats_path(entries) {
        let (i, j) = choose|i: int, j: int|
            0 <= i < j < entries.len() && (#[trigger] entries[i]).path == (
            #[trigger] entries[j]).path;
        before_irreflexive(text_rank(entries[i].path));
    }
}

/// Ordered entries that hold just the entries of another ordered sequence are that sequence.
proof fn ordered_entries_are_unique(left: Seq<WireEntryView>, right: Seq<WireEntryView>)
    requires
        wire_ordered(left),
        wire_ordered(right),
        holds_entries(left, right),
    ensures
        left == right,
    decreases right.len(),
{
    if right.len() > 0 {
        let last = right.len() - 1;
        // The last entry of the right side can only stand last on the left side.
        assert(left.contains(right[last]));
        let place = choose|k: int| 0 <= k < left.len() && left[k] == right[last];
        places_grow(left, right, last, place);
        let front_left = left.drop_last();
        let front_right = right.drop_last();
        assert forall|i: int| 0 <= i < front_right.len() implies front_left.contains(
            #[trigger] front_right[i],
        ) by {
            assert(left.contains(right[i]));
            let k = choose|k: int| 0 <= k < left.len() && left[k] == right[i];
            if k == last {
                before_irreflexive(text_rank(right[i].path));
                assert(before(text_rank(right[i].path), text_rank(right[last].path)));
            }
            assert(front_left[k] == front_right[i]);
        }
        ordered_entries_are_unique(front_left, front_right);
        assert(left =~= front_left.push(left[last]));
        assert(right =~= front_right.push(right[last]));
        assert(left[last] == right[last]);
    } else {
        assert(left =~= right);
    }
}

/// An entry stands no earlier among entries that hold all of its predecessors.
proof fn places_grow(left: Seq<WireEntryView>, right: Seq<WireEntryView>, index: int, place: int)
    requires
        wire_ordered(left),
        wire_ordered(right),
        holds_entries(left, right),
        0 <= index < right.len(),
        0 <= place < left.len(),
        left[place] == right[index],
    ensures
        place >= index,
    decreases index,
{
    if index > 0 {
        let earlier = index - 1;
        assert(left.contains(right[earlier]));
        let prior = choose|k: int| 0 <= k < left.len() && left[k] == right[earlier];
        assert(before(text_rank(right[earlier].path), text_rank(right[index].path)));
        before_irreflexive(text_rank(left[place].path));
        if prior > place {
            assert(before(text_rank(left[place].path), text_rank(left[prior].path)));
            crate::order::before_asymmetric(
                text_rank(left[place].path),
                text_rank(left[prior].path),
            );
        }
        places_grow(left, right, earlier, prior);
    }
}

/// What decoding returns for bytes that store a version is that version.
pub proof fn stored_version_is_read_back(
    bytes: Seq<u8>,
    written: WireVersionView,
    read: WireVersionView,
)
    requires
        stores_version(bytes, written),
        wire_ordered(written.entries),
        wire_ordered(read.entries),
        exists|version: WireVersionView| #[trigger]
            stores_version(bytes, version) && holds_entries(read.entries, version.entries)
                && read.commits == version.commits,
    ensures
        read == written,
{
    ordered_entries_are_unique(read.entries, written.entries);
}

/// What is wrong with the bytes of a stored version.
pub open spec fn version_bytes_fault(bytes: Seq<u8>) -> Option<Fault> {
    let body = bytes.skip(8);
    if bytes.len() > MAX_VERSION_BYTES || bytes.len() < 8 || bytes.take(8) != version_magic() {
        Some(version_decoding("version envelope is invalid"))
    } else {
        match parse_version(body) {
            None => Some(version_decoding("version body is invalid")),
            Some((version, rest)) => if !claims_fit(version, MAX_VERSION_BYTES as int) {
                Some(version_decoding("version body is invalid"))
            } else if rest.len() > 0 {
                Some(version_decoding("version contains trailing bytes"))
            } else {
                match version_conversion_fault(version) {
                    Some(fault) => Some(
                        Fault {
                            kind: ErrorKind::Corrupt,
                            operation: "decode YinYang version"@,
                            message: fault.message,
                        },
                    ),
                    None => None,
                }
            },
        }
    }
}

/// The bytes store a version: they are a magic and the version in its wire form.
pub open spec fn stores_version(bytes: Seq<u8>, version: WireVersionView) -> bool {
    &&& bytes.len() <= MAX_VERSION_BYTES
    &&& bytes.len() >= 8
    &&& bytes.take(8) == version_magic()
    &&& parse_version(bytes.skip(8)) == Some((version, Seq::<u8>::empty()))
}

/// The version that bytes store.
pub fn decode_version(bytes: &[u8]) -> (result: Result<Snapshot, Error>)
    ensures
        match result {
            Ok(snapshot) => version_bytes_fault(bytes@) is None && wire_ordered(snapshot@.entries)
                && exists|version: WireVersionView| #[trigger]
                stores_version(bytes@, version) && holds_entries(
                    snapshot@.entries,
                    version.entries,
                ) && snapshot@.commits == version.commits,
            Err(error) => version_bytes_fault(bytes@) == Some(error.fault()),
        },
{
    let magic = magic_bytes(0x56, 0x45, 0x52, 0x30, 0x30, 0x31);
    if bytes.len() > MAX_VERSION_BYTES || !starts_with(bytes, magic.as_slice()) {
        return Err(Error::corrupt("decode YinYang version", "version envelope is invalid"));
    }
    let body = vstd::slice::slice_subrange(bytes, 8, bytes.len());
    assert(body@ =~= bytes@.skip(8));
    let mut reader = Reader::new(body);
    let wire = match read_version(&mut reader) {
        Some(wire) => wire,
        None => {
            return Err(Error::corrupt("decode YinYang version", "version body is invalid"));
        },
    };
    if !claims_hold(&wire, MAX_VERSION_BYTES) {
        return Err(Error::corrupt("decode YinYang version", "version body is invalid"));
    }
    if reader.remaining() > 0 {
        return Err(Error::corrupt("decode YinYang version", "version contains trailing bytes"));
    }
    assert(reader@ =~= Seq::empty());
    let ghost version = wire@;
    assert(stores_version(bytes@, version));
    match wire.into_version() {
        Ok(snapshot) => Ok(snapshot),
        Err(error) => Err(Error::corrupt("decode YinYang version", error.message())),
    }
}

/// The bytes that store a head.
pub fn encode_head(reference: &StoredRef) -> (result: Result<Vec<u8>, Error>)
    ensures
        match result {
            Ok(bytes) => {
                &&& bytes@ == stored_head(wire_blob(reference@))
                &&& bytes@.len() <= MAX_HEAD_BYTES
                &&& stores_head(bytes@, wire_blob(reference@))
                &&& head_bytes_fault(bytes@) is None
            },
            Err(error) => head_magic().len() + blob_bytes(wire_blob(reference@)).len()
                + CHECKSUM_BYTES > MAX_HEAD_BYTES && error.fault() == invalid(
                "encode YinYang head",
                "head exceeds its size limit",
            ),
        },
{
    let mut bytes = magic_bytes(0x48, 0x45, 0x41, 0x44, 0x30, 0x31);
    put_blob(&mut bytes, reference);
    let ghost body = bytes@;
    assert(body =~= head_magic() + blob_bytes(wire_blob(reference@)));
    let checksum = digest(bytes.as_slice());
    put_fixed(&mut bytes, checksum.as_bytes().as_slice());
    proof {
        Digest::identified(checksum, checksum);
    }
    if bytes.len() > MAX_HEAD_BYTES {
        return Err(Error::invalid("encode YinYang head", "head exceeds its size limit"));
    }
    proof {
        let blob = wire_blob(reference@);
        let end = bytes@.len() - 32;
        blob_reads_back(blob, Seq::empty());
        assert(blob_bytes(blob) + Seq::<u8>::empty() =~= blob_bytes(blob));
        assert(bytes@.take(8) =~= head_magic());
        assert(bytes@.take(end) =~= body);
        assert(bytes@.skip(end) =~= digest_of(body));
        assert(bytes@.subrange(8, end) =~= blob_bytes(blob));
    }
    Ok(bytes)
}

/// What is wrong with the bytes of a stored head.
pub open spec fn head_bytes_fault(bytes: Seq<u8>) -> Option<Fault> {
    let end = bytes.len() - 32;
    if bytes.len() < 8 + CHECKSUM_BYTES || bytes.len() > MAX_HEAD_BYTES || bytes.take(8)
        != head_magic() {
        Some(head_decoding("head envelope is invalid"))
    } else if digest_of(bytes.take(end)) != bytes.skip(end) {
        Some(head_decoding("head checksum is invalid"))
    } else {
        match parse_blob(bytes.subrange(8, end)) {
            None => Some(head_decoding("head body is invalid")),
            Some((blob, rest)) => if rest.len() > 0 {
                Some(head_decoding("head contains trailing bytes"))
            } else {
                None
            },
        }
    }
}

/// The bytes store a head with the given reference.
pub open spec fn stores_head(bytes: Seq<u8>, blob: WireBlob) -> bool {
    parse_blob(bytes.subrange(8, bytes.len() - 32)) == Some((blob, Seq::<u8>::empty()))
}

/// What decoding returns for bytes that store a head is the reference that was written.
pub proof fn stored_head_is_read_back(bytes: Seq<u8>, written: BlobRefView, read: BlobRefView)
    requires
        stores_head(bytes, wire_blob(written)),
        stores_head(bytes, wire_blob(read)),
    ensures
        read == written,
{
    Digest::identified(written.content.digest, read.content.digest);
}

/// The reference that the bytes of a head store.
pub fn decode_head(bytes: &[u8]) -> (result: Result<StoredRef, Error>)
    ensures
        match result {
            Ok(reference) => head_bytes_fault(bytes@) is None && stores_head(
                bytes@,
                wire_blob(reference@),
            ),
            Err(error) => head_bytes_fault(bytes@) == Some(error.fault()),
        },
{
    let magic = magic_bytes(0x48, 0x45, 0x41, 0x44, 0x30, 0x31);
    if bytes.len() < 8 + CHECKSUM_BYTES || bytes.len() > MAX_HEAD_BYTES || !starts_with(
        bytes,
        magic.as_slice(),
    ) {
        return Err(Error::corrupt("decode YinYang head", "head envelope is invalid"));
    }
    let end: usize = bytes.len() - CHECKSUM_BYTES;
    let covered_bytes = vstd::slice::slice_subrange(bytes, 0, end);
    let checksum = vstd::slice::slice_subrange(bytes, end, bytes.len());
    assert(covered_bytes@ =~= bytes@.take(end as int));
    assert(checksum@ =~= bytes@.skip(end as int));
    let expected = digest(covered_bytes);
    if !same_bytes(expected.as_bytes().as_slice(), checksum) {
        return Err(Error::corrupt("decode YinYang head", "head checksum is invalid"));
    }
    let mut reader = Reader::new(vstd::slice::slice_subrange(bytes, 8, end));
    let wire = match read_blob(&mut reader) {
        Some(wire) => wire,
        None => {
            return Err(Error::corrupt("decode YinYang head", "head body is invalid"));
        },
    };
    if reader.remaining() > 0 {
        return Err(Error::corrupt("decode YinYang head", "head contains trailing bytes"));
    }
    assert(reader@ =~= Seq::empty());
    Ok(wire.into_blob_ref())
}

// What storing promises.

/// A head that was encoded is decoded as the reference that it was made of.
pub proof fn a_head_survives_storing(
    reference: &StoredRef,
    encoded: Result<Vec<u8>, Error>,
    bytes: &[u8],
    decoded: Result<StoredRef, Error>,
)
    requires
        call_ensures(encode_head, (reference,), encoded),
        encoded is Ok,
        bytes@ == encoded->Ok_0@,
        call_ensures(decode_head, (bytes,), decoded),
    ensures
        decoded is Ok,
        decoded->Ok_0@ == reference@,
        bytes@.len() <= 4096,
{
    stored_head_is_read_back(bytes@, reference@, decoded->Ok_0@);
}

/// A head is decoded only from bytes that begin with its mark and end in the digest of all that
/// stands before it.
pub proof fn a_damaged_head_is_refused(bytes: &[u8], decoded: Result<StoredRef, Error>)
    requires
        call_ensures(decode_head, (bytes,), decoded),
        decoded is Ok,
    ensures
        40 <= bytes@.len() <= 4096,
        bytes@.take(8) == seq![0x59u8, 0x59, 0x48, 0x45, 0x41, 0x44, 0x30, 0x31],
        digest_of(bytes@.take(bytes@.len() - 32)) == bytes@.skip(bytes@.len() - 32),
{
}

/// A version that was encoded is decoded as it was, where what it claims to hold fits.
pub proof fn a_version_survives_storing(
    version: &Snapshot,
    encoded: Result<Vec<u8>, Error>,
    bytes: &[u8],
    decoded: Result<Snapshot, Error>,
)
    requires
        call_ensures(encode_version, (version,), encoded),
        encoded is Ok,
        bytes@ == encoded->Ok_0@,
        call_ensures(decode_version, (bytes,), decoded),
        claims_fit(version@, 67_108_864),
    ensures
        decoded is Ok,
        decoded->Ok_0@ == version@,
        bytes@.len() <= 67_108_864,
{
    stored_version_is_read_back(bytes@, version@, decoded->Ok_0@);
}

/// A version is decoded only from bytes that begin with its mark, and holds no path twice.
pub proof fn a_damaged_version_is_refused(bytes: &[u8], decoded: Result<Snapshot, Error>)
    requires
        call_ensures(decode_version, (bytes,), decoded),
        decoded is Ok,
    ensures
        8 <= bytes@.len() <= 67_108_864,
        bytes@.take(8) == seq![0x59u8, 0x59, 0x56, 0x45, 0x52, 0x30, 0x30, 0x31],
        forall|i: int, j: int|
            0 <= i < j < decoded->Ok_0@.entries.len() ==> (
            #[trigger] decoded->Ok_0@.entries[i]).path != (
            #[trigger] decoded->Ok_0@.entries[j]).path,
{
    let entries = decoded->Ok_0@.entries;
    assert forall|i: int, j: int| 0 <= i < j < entries.len() implies (#[trigger] entries[i]).path
        != (#[trigger] entries[j]).path by {
        crate::order::before_irreflexive(text_rank(entries[i].path));
        assert(before(text_rank(entries[i].path), text_rank(entries[j].path)));
    }
}

/// A stored part is accepted exactly if it is not empty and its bytes lie within its blob.
pub proof fn stored_parts_lie_within_their_blob(
    start: u64,
    end: u64,
    blob_offset: u64,
    blob: StoredRef,
    result: Result<SnapshotPart, Error>,
)
    requires
        call_ensures(SnapshotPart::new, (start, end, blob_offset, blob), result),
    ensures
        result is Ok <==> start < end && blob_offset + (end - start) <= blob@.content.length,
        result matches Ok(part) ==> {
            &&& part@.start == start
            &&& part@.end == end
            &&& part@.blob_offset == blob_offset
            &&& part@.blob.reference == blob@.reference
            &&& part@.blob.content.digest == blob@.content.digest@
            &&& part@.blob.content.length == blob@.content.length
        },
{
}

proof fn chained_parts_follow(parts: Seq<WirePart>)
    ensures
        chained(parts) <==> forall|i: int|
            0 <= i < parts.len() ==> #[trigger] begins_where_due(parts, i),
    decreases parts.len(),
{
    if parts.len() > 0 {
        let rest = parts.drop_last();
        let last = parts.len() - 1;
        chained_parts_follow(rest);
        assert forall|i: int| 0 <= i < last implies begins_where_due(rest, i)
            == #[trigger] begins_where_due(parts, i) by {
            assert(rest[i] == parts[i]);
            if i > 0 {
                assert(rest[i - 1] == parts[i - 1]);
            }
        }
        assert(begins_where_due(parts, last) == (parts.last().start == end_of(rest))) by {
            if last > 0 {
                assert(rest.last() == parts[last - 1]);
            }
        }
        if chained(parts) {
            assert forall|i: int| 0 <= i < parts.len() implies #[trigger] begins_where_due(
                parts,
                i,
            ) by {
                if i < last {
                    assert(begins_where_due(rest, i));
                }
            }
        }
        if forall|i: int| 0 <= i < parts.len() ==> #[trigger] begins_where_due(parts, i) {
            assert forall|i: int| 0 <= i < rest.len() implies #[trigger] begins_where_due(
                rest,
                i,
            ) by {
                assert(begins_where_due(parts, i));
            }
            assert(begins_where_due(parts, last));
        }
    }
}

/// The part begins where the one before it ends, and the first one at the start.
pub open spec fn begins_where_due(parts: Seq<WirePart>, place: int) -> bool {
    parts[place].start == if place == 0 {
        0
    } else {
        parts[place - 1].end
    }
}

proof fn sound_parts(parts: Seq<WirePart>)
    ensures
        parts_conversion_fault(parts) is None <==> forall|i: int|
            0 <= i < parts.len() ==> part_conversion_fault(#[trigger] parts[i]) is None,
    decreases parts.len(),
{
    if parts.len() > 0 {
        let rest = parts.drop_last();
        sound_parts(rest);
        assert forall|i: int| 0 <= i < rest.len() implies rest[i] == #[trigger] parts[i] by {}
        if parts_conversion_fault(rest) is None {
            assert forall|i: int| 0 <= i < rest.len() implies part_conversion_fault(
                #[trigger] parts[i],
            ) is None by {
                assert(part_conversion_fault(rest[i]) is None);
            }
        } else {
            let i = choose|i: int|
                0 <= i < rest.len() && part_conversion_fault(#[trigger] rest[i]) is Some;
            assert(part_conversion_fault(parts[i]) is Some);
        }
        assert(parts.last() == parts[parts.len() - 1]);
    }
}

/// A stored file is accepted exactly if its parts are not empty, lie within their blobs and
/// stand one behind the other from its start to its end; an empty file has none.
pub proof fn stored_files_are_covered(file: WireFileView)
    ensures
        file_conversion_fault(file) is None <==> if file.content.length == 0 {
            file.parts.len() == 0
        } else {
            &&& file.parts.len() > 0
            &&& forall|i: int|
                0 <= i < file.parts.len() ==> {
                    let part = #[trigger] file.parts[i];
                    part.start < part.end && part.blob_offset + (part.end - part.start)
                        <= part.blob.content.length
                }
            &&& forall|i: int|
                0 <= i < file.parts.len() ==> #[trigger] begins_where_due(file.parts, i)
            &&& file.parts.last().end == file.content.length
        },
{
    sound_parts(file.parts);
    chained_parts_follow(file.parts);
}

/// A snapshot holds the entries that it was made of, in path order, and is made exactly if no
/// path occurs twice.
pub proof fn snapshots_hold_their_entries(
    entries: Vec<SnapshotEntry>,
    commits: Vec<CommitId>,
    result: Result<Snapshot, Error>,
    place: int,
)
    requires
        call_ensures(Snapshot::new, (entries, commits), result),
    ensures
        result is Ok <==> forall|i: int, j: int|
            0 <= i < j < entries@.len() ==> (#[trigger] entries@[i])@.path != (
            #[trigger] entries@[j])@.path,
        result matches Ok(snapshot) ==> {
            &&& snapshot@.entries.len() == entries@.len()
            &&& 0 <= place < entries@.len() ==> snapshot@.entries.contains(entries@[place]@)
            &&& wire_ordered(snapshot@.entries)
            &&& snapshot@.commits.len() == commits@.len()
            &&& 0 <= place < commits@.len() ==> snapshot@.commits[place] == commits@[place]@
        },
{
    let views = snapshot_entries(entries@);
    assert(forall|i: int| 0 <= i < entries@.len() ==> #[trigger] views[i] == entries@[i]@);
    assert(forall|i: int| 0 <= i < entries@.len() ==> views[i] == (#[trigger] entries@[i])@);
    if result is Ok && 0 <= place < entries@.len() {
        assert(result->Ok_0@.entries.contains(views[place]));
    }
}

} // verus!
