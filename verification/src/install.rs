//! What a namespace asks of a directory: paths to remove, directories and files to install.

use vstd::prelude::*;
use vstd::utf8::encode_utf8;

use crate::batches::{
    bare, bare_building, bare_holds_the_same, batch_view, capped, first_wrong_stays, joins,
    must_part, packed_alone, packed_grows, packed_next, packing, projected, well_packed, BatchView,
    ItemView, RangeBatch, RangeBatcher, Wanted,
};
use crate::error::{corrupt, Error, Fault};
use crate::extents::{ExtentRef, ExtentView};
use crate::filesystem::ContentId;
use crate::identity::FileVersionId;
use crate::layers::{FileExtentMap, MapView};
use crate::namespace::{
    find, find_record, has_path, increasing, records_view, value_at, MemberView, Namespace,
    NamespaceRecord, NamespaceValue, RecordView, ValueView,
};
use crate::order::{
    before, before_after_prefix, before_of_pairs, not_after, same_by_key, same_by_key_same_items,
    sort, sorted, Ranked,
};
use crate::ordered::{has_key_from, ranks, unique, unique_keys_increase};
use crate::paths::PathSet;
use crate::replica::StoredPath;
use crate::text::{bytes_rank, bytes_rank_is_injective};

verus! {

/// What a directory is taken to hold.
#[derive(Debug)]
pub enum CurrentPaths<'a> {
    /// The paths of the namespace that was installed before.
    Namespace(&'a Namespace),
    /// The paths that were found, and those that are no Unicode.
    Filesystem { paths: &'a PathSet, strange: Vec<StoredPath> },
}

impl<'a> CurrentPaths<'a> {
    pub open spec fn paths(&self) -> Seq<Seq<char>> {
        match *self {
            CurrentPaths::Namespace(namespace) => Seq::new(
                namespace@.records.len(),
                |i: int| namespace@.records[i].path,
            ),
            CurrentPaths::Filesystem { paths, strange } => paths@,
        }
    }

    pub open spec fn strange(&self) -> Seq<Seq<u8>> {
        match *self {
            CurrentPaths::Namespace(namespace) => Seq::empty(),
            CurrentPaths::Filesystem { paths, strange } => stored_views(strange@),
        }
    }
}

pub open spec fn stored_views(paths: Seq<StoredPath>) -> Seq<Seq<u8>> {
    Seq::new(paths.len(), |i: int| paths[i]@)
}

/// The first paths that the target does not have, apart from the root.
pub open spec fn gone(paths: Seq<Seq<char>>, target: Seq<RecordView>, count: int) -> Seq<Seq<u8>>
    decreases count,
{
    if count <= 0 {
        Seq::empty()
    } else if paths[count - 1].len() > 0 && !has_path(target, paths[count - 1]) {
        gone(paths, target, count - 1).push(encode_utf8(paths[count - 1]))
    } else {
        gone(paths, target, count - 1)
    }
}

/// The paths stand from the last to the first.
pub open spec fn last_first(listed: Seq<Seq<u8>>, ordered: Seq<StoredPath>) -> bool {
    exists|given: Seq<StoredPath>, rising: Seq<StoredPath>|
        stored_views(given) == listed && sorted(rising) && #[trigger] same_by_key(given, rising)
            && ordered == rising.reverse()
}

/// The paths to remove before a namespace is installed, from the last to the first.
pub fn installation_removals(current: CurrentPaths<'_>, target: &Namespace) -> (removed: Vec<
    StoredPath,
>)
    ensures
        last_first(
            current.strange() + gone(
                current.paths(),
                target@.records,
                current.paths().len() as int,
            ),
            removed@,
        ),
{
    let ghost paths = current.paths();
    let ghost strange_views = current.strange();
    let records = target.records();
    let mut removed: Vec<StoredPath> = Vec::new();
    match current {
        CurrentPaths::Namespace(namespace) => {
            let listed = namespace.records();
            let mut index: usize = 0;
            proof {
                assert(stored_views(removed@) =~= strange_views + gone(paths, target@.records, 0));
            }
            while index < listed.len()
                invariant
                    index <= listed@.len(),
                    paths.len() == listed@.len(),
                    forall|i: int| 0 <= i < listed@.len() ==> paths[i] == (#[trigger] listed@[i])@.path,
                    records_view(records@) == target@.records,
                    increasing(target@.records),
                    stored_views(removed@) == strange_views + gone(
                        paths,
                        target@.records,
                        index as int,
                    ),
                decreases listed@.len() - index,
            {
                assert(paths[index as int] == listed@[index as int]@.path);
                note_gone(
                    &mut removed,
                    &listed[index],
                    records,
                    Ghost(strange_views),
                    Ghost(paths),
                    Ghost(index as int),
                );
                index += 1;
            }
        },
        CurrentPaths::Filesystem { paths: found, strange } => {
            removed = strange;
            let mut index: usize = 0;
            proof {
                assert(stored_views(removed@) =~= strange_views + gone(paths, target@.records, 0));
            }
            while index < found.len()
                invariant
                    index <= found@.len(),
                    paths == found@,
                    records_view(records@) == target@.records,
                    increasing(target@.records),
                    stored_views(removed@) == strange_views + gone(
                        paths,
                        target@.records,
                        index as int,
                    ),
                decreases found@.len() - index,
            {
                let probe = NamespaceRecord { path: found.path(index).to_owned(), value: None };
                note_gone(
                    &mut removed,
                    &probe,
                    records,
                    Ghost(strange_views),
                    Ghost(paths),
                    Ghost(index as int),
                );
                index += 1;
            }
        },
    }
    let ghost given = removed@;
    let rising = sort(removed);
    let ghost ascending = rising@;
    proof {
        assert(same_by_key(given, ascending));
    }
    crate::order::reversed(rising)
}

fn note_gone(
    removed: &mut Vec<StoredPath>,
    probe: &NamespaceRecord,
    records: &Vec<NamespaceRecord>,
    Ghost(strange): Ghost<Seq<Seq<u8>>>,
    Ghost(paths): Ghost<Seq<Seq<char>>>,
    Ghost(index): Ghost<int>,
)
    requires
        increasing(records_view(records@)),
        0 <= index < paths.len(),
        paths[index] == probe@.path,
        stored_views(old(removed)@) == strange + gone(paths, records_view(records@), index),
    ensures
        stored_views(final(removed)@) == strange + gone(paths, records_view(records@), index + 1),
{
    let ghost so_far = removed@;
    let is_root = probe.path.as_str().is_empty();
    if !is_root && find_record(records, probe).is_none() {
        let bytes = copy_bytes(probe.path.as_str());
        let ghost encoded = bytes@;
        removed.push(StoredPath::from_bytes(bytes));
        proof {
            assert(stored_views(removed@) =~= stored_views(so_far).push(encoded));
            assert(stored_views(removed@) =~= strange + gone(
                paths,
                records_view(records@),
                index + 1,
            ));
        }
    }
}

/// The encoding of a text.
fn copy_bytes(text: &str) -> (bytes: Vec<u8>)
    ensures
        bytes@ == encode_utf8(text@),
{
    let slice = text.as_bytes();
    let mut bytes: Vec<u8> = Vec::new();
    let mut index: usize = 0;
    while index < slice.len()
        invariant
            index <= slice@.len(),
            bytes@ == slice@.take(index as int),
        decreases slice@.len() - index,
    {
        bytes.push(slice[index]);
        index += 1;
    }
    assert(slice@.take(index as int) =~= slice@);
    bytes
}

/// Whatever lies in a directory is removed before the directory.
pub proof fn contents_go_before_their_directory(
    listed: Seq<Seq<u8>>,
    ordered: Seq<StoredPath>,
    directory: int,
    inside: int,
)
    requires
        last_first(listed, ordered),
        0 <= directory < ordered.len(),
        0 <= inside < ordered.len(),
        ordered[inside]@.len() > ordered[directory]@.len(),
        ordered[inside]@.take(ordered[directory]@.len() as int) == ordered[directory]@,
    ensures
        inside < directory,
{
    let (given, rising) = choose|given: Seq<StoredPath>, rising: Seq<StoredPath>|
        stored_views(given) == listed && sorted(rising) && #[trigger] same_by_key(given, rising)
            && ordered == rising.reverse();
    let a = ordered[directory].rank();
    let b = ordered[inside].rank();
    let count = ordered[directory]@.len();
    assert forall|i: int| 0 <= i < count implies a[i] == b[i] by {
        assert(ordered[inside]@.take(count as int)[i] == ordered[directory]@[i]);
    }
    before_after_prefix(a, b, count);
    before_after_prefix(b, a, count);
    assert(a.skip(count as int) =~= Seq::empty());
    assert(before(a, b));
    if directory < inside {
        let x = rising.len() - 1 - inside;
        let y = rising.len() - 1 - directory;
        assert(rising[x] == ordered[inside] && rising[y] == ordered[directory]);
        assert(not_after(rising[x].rank(), rising[y].rank()));
    } else if directory == inside {
    }
}

/// No path stands twice, and each comes before all that it precedes.
pub open spec fn strictly_falling(paths: Seq<StoredPath>) -> bool {
    forall|i: int, j: int|
        0 <= i < j < paths.len() ==> before(
            (#[trigger] paths[j]).rank(),
            (#[trigger] paths[i]).rank(),
        )
}

pub open spec fn has_stored(paths: Seq<StoredPath>, path: Seq<u8>) -> bool {
    exists|i: int| 0 <= i < paths.len() && (#[trigger] paths[i])@ == path
}

/// The directories to make durable, each once, from the last to the first.
pub fn durable_order(changed: Vec<StoredPath>) -> (directories: Vec<StoredPath>)
    ensures
        strictly_falling(directories@),
        forall|path: Seq<u8>|
            #[trigger] has_stored(directories@, path) <==> has_stored(changed@, path),
{
    let ghost given = changed@;
    let ordered = sort(changed);
    let ghost all = ordered@;
    let rising = unique(ordered);
    let ghost once = rising@;
    proof {
        same_by_key_same_items(given, all);
        unique_keys_increase(all);
    }
    let directories = crate::order::reversed(rising);
    proof {
        assert forall|i: int, j: int| 0 <= i < j < directories@.len() implies before(
            (#[trigger] directories@[j]).rank(),
            (#[trigger] directories@[i]).rank(),
        ) by {
            let last = once.len() - 1;
            assert(before(once[last - j].rank(), once[last - i].rank()));
        }
        assert forall|path: Seq<u8>|
            #[trigger] has_stored(directories@, path) <==> has_stored(given, path) by {
            let key = bytes_rank(path);
            assert(has_key_from(ranks(all), key, 0) <==> has_key_from(ranks(once), key, 0));
            if has_stored(directories@, path) {
                let i = choose|i: int|
                    0 <= i < directories@.len() && (#[trigger] directories@[i])@ == path;
                assert(once[once.len() - 1 - i] == directories@[i]);
                assert(ranks(once)[once.len() - 1 - i] == key);
                let k = choose|k: int| 0 <= k < all.len() && #[trigger] ranks(all)[k] == key;
                bytes_rank_is_injective(all[k]@, path);
                assert(all.contains(all[k]));
                assert(given.contains(all[k]));
                let m = choose|m: int| 0 <= m < given.len() && given[m] == all[k];
                assert(given[m]@ == path);
            }
            if has_stored(given, path) {
                let m = choose|m: int| 0 <= m < given.len() && (#[trigger] given[m])@ == path;
                assert(given.contains(given[m]));
                assert(all.contains(given[m]));
                let k = choose|k: int| 0 <= k < all.len() && all[k] == given[m];
                assert(ranks(all)[k] == key);
                let n = choose|n: int| 0 <= n < once.len() && #[trigger] ranks(once)[n] == key;
                bytes_rank_is_injective(once[n]@, path);
                assert(directories@[once.len() - 1 - n] == once[n]);
            }
        }
    }
    directories
}

/// What to do about a directory of the namespace.
#[derive(Clone, Copy, Debug, PartialEq, Eq, Structural)]
pub enum DirectoryAction {
    Keep,
    Replace,
    Create,
}

/// What to do about a directory, given whether its path exists and is a directory.
pub fn directory_action(is_dir: Option<bool>) -> (action: DirectoryAction)
    ensures
        action == (match is_dir {
            Some(true) => DirectoryAction::Keep,
            Some(false) => DirectoryAction::Replace,
            None => DirectoryAction::Create,
        }),
{
    match is_dir {
        Some(true) => DirectoryAction::Keep,
        Some(false) => DirectoryAction::Replace,
        None => DirectoryAction::Create,
    }
}

/// A file that is put together from its extents.
#[derive(Debug)]
pub struct FileInstallation {
    pub path: String,
    pub fingerprint: ContentId,
    pub content: FileExtentMap,
    pub reusable: Option<FileExtentMap>,
    pub executable: bool,
}

/// A file that is one extent of a segment.
#[derive(Debug)]
pub struct SegmentFile {
    pub path: String,
    pub extent: ExtentRef,
    pub fingerprint: ContentId,
    pub executable: bool,
}

/// What the namespace asks for at one path.
#[derive(Debug)]
pub enum InstallStep {
    Directory(String),
    File(FileInstallation),
    Segment(SegmentFile),
}

pub ghost enum StepView {
    Skip,
    Directory { path: Seq<char> },
    File {
        path: Seq<char>,
        fingerprint: ContentId,
        content: MapView,
        reusable: Option<MapView>,
        executable: bool,
    },
    Segment { path: Seq<char>, extent: ExtentView, fingerprint: ContentId, executable: bool },
    Corrupt,
}

pub open spec fn map_view(map: Option<FileExtentMap>) -> Option<MapView> {
    match map {
        Some(map) => Some(map@),
        None => None,
    }
}

impl InstallStep {
    pub open spec fn view(&self) -> StepView {
        match *self {
            InstallStep::Directory(path) => StepView::Directory { path: path@ },
            InstallStep::File(file) => StepView::File {
                path: file.path@,
                fingerprint: file.fingerprint,
                content: file.content@,
                reusable: map_view(file.reusable),
                executable: file.executable,
            },
            InstallStep::Segment(file) => StepView::Segment {
                path: file.path@,
                extent: file.extent@,
                fingerprint: file.fingerprint,
                executable: file.executable,
            },
        }
    }
}

/// The node that was installed at a path before.
pub open spec fn installed(current: Option<Seq<RecordView>>, path: Seq<char>) -> Option<MemberView> {
    match current {
        Some(records) => value_at(records, path),
        None => None,
    }
}

/// The file is installed already, with its attributes and its version.
pub open spec fn is_installed(installed: Option<MemberView>, node: MemberView) -> bool {
    &&& installed matches Some(before)
    &&& before.attributes == node.attributes
    &&& before.version() is Some
    &&& before.version() == node.version()
}

/// The extents of a file.
pub open spec fn data_of(node: Option<MemberView>) -> Option<MapView> {
    match node {
        Some(node) => match node.value {
            ValueView::RegularFile { version, content, data } => Some(data),
            ValueView::Directory { generation } => None,
        },
        None => None,
    }
}

/// The file needs no other extent than the first of its base run.
pub open spec fn is_single(data: MapView) -> bool {
    data.patch_levels.len() == 0 && data.base_run is Some && data.base_run->0.continuation is None
}

/// What is asked for at a path, given what was installed before.
pub open spec fn step_of(current: Option<Seq<RecordView>>, record: RecordView) -> StepView {
    match record.value {
        None => StepView::Skip,
        Some(node) => match node.value {
            ValueView::Directory { generation } => if record.path.len() == 0 {
                StepView::Skip
            } else {
                StepView::Directory { path: record.path }
            },
            ValueView::RegularFile { version, content, data } => {
                let before = installed(current, record.path);
                if is_installed(before, node) {
                    StepView::Skip
                } else if is_single(data) {
                    let mapping = data.base_run->0.inline_extent;
                    if mapping.offset != 0 || mapping.extent_offset != 0 || mapping.length
                        != content.length || mapping.extent.content() != content {
                        StepView::Corrupt
                    } else {
                        StepView::Segment {
                            path: record.path,
                            extent: mapping.extent,
                            fingerprint: content,
                            executable: node.attributes.executable,
                        }
                    }
                } else {
                    StepView::File {
                        path: record.path,
                        fingerprint: content,
                        content: data,
                        reusable: data_of(before),
                        executable: node.attributes.executable,
                    }
                }
            },
        },
    }
}

pub open spec fn inline_fault() -> Fault {
    corrupt("install Managed file", "inline extent does not match its file content")
}

/// What one record asks for.
fn step_at(current: Option<&Namespace>, record: &NamespaceRecord) -> (result: Result<
    Option<InstallStep>,
    Error,
>)
    ensures
        ({
            let asked = step_of(current_records(current), record@);
            match result {
                Ok(Some(step)) => step@ == asked && !(asked is Skip) && !(asked is Corrupt),
                Ok(None) => asked is Skip,
                Err(error) => asked is Corrupt && error.fault() == inline_fault(),
            }
        }),
{
    let node = match &record.value {
        Some(node) => node,
        None => {
            return Ok(None);
        },
    };
    let (version, content, data) = match &node.value {
        NamespaceValue::Directory { .. } => {
            if record.path.as_str().is_empty() {
                return Ok(None);
            }
            return Ok(Some(InstallStep::Directory(record.path.clone())));
        },
        NamespaceValue::RegularFile { version, content, data } => (*version, *content, data),
    };
    let existing = match current {
        Some(namespace) => find_record(namespace.records(), record),
        None => None,
    };
    let mut reusable: Option<FileExtentMap> = None;
    if let Some(before) = existing {
        if let Some(before) = &before.value {
            if let Some((before_version, _, before_data)) = before.file() {
                if before.attributes == node.attributes && before_version == version {
                    return Ok(None);
                }
                reusable = Some(before_data.clone());
            }
        }
    }
    let executable = node.attributes.executable;
    if let Some(mapping) = data.inline_file_extent() {
        if mapping.offset() != 0 || mapping.extent_offset() != 0 || mapping.length()
            != content.length() || mapping.extent().content() != content {
            return Err(
                Error::corrupt(
                    "install Managed file",
                    "inline extent does not match its file content",
                ),
            );
        }
        return Ok(
            Some(
                InstallStep::Segment(
                    SegmentFile {
                        path: record.path.clone(),
                        extent: mapping.extent().clone(),
                        fingerprint: content,
                        executable,
                    },
                ),
            ),
        );
    }
    Ok(
        Some(
            InstallStep::File(
                FileInstallation {
                    path: record.path.clone(),
                    fingerprint: content,
                    content: data.clone(),
                    reusable,
                    executable,
                },
            ),
        ),
    )
}

pub open spec fn current_records(current: Option<&Namespace>) -> Option<Seq<RecordView>> {
    match current {
        Some(namespace) => Some(namespace@.records),
        None => None,
    }
}

pub ghost struct WalkView {
    pub current: Option<Seq<RecordView>>,
    pub target: Seq<RecordView>,
    pub done: int,
}

impl WalkView {
    /// The place of the first record from a place on that asks for something.
    pub open spec fn next_from(self, place: int) -> int
        decreases self.target.len() - place,
    {
        if place >= self.target.len() {
            self.target.len() as int
        } else if step_of(self.current, self.target[place]) is Skip {
            self.next_from(place + 1)
        } else {
            place
        }
    }
}

/// The walk through a namespace that is installed over another one, or over unknown contents.
#[derive(Debug)]
pub struct InstallWalk<'a> {
    current: Option<&'a Namespace>,
    target: &'a Namespace,
    done: usize,
}

impl<'a> InstallWalk<'a> {
    pub closed spec fn view(&self) -> WalkView {
        WalkView {
            current: current_records(self.current),
            target: self.target@.records,
            done: self.done as int,
        }
    }

    pub fn new(current: Option<&'a Namespace>, target: &'a Namespace) -> (walk: Self)
        ensures
            walk@ == (WalkView {
                current: current_records(current),
                target: target@.records,
                done: 0,
            }),
    {
        InstallWalk { current, target, done: 0 }
    }

    /// Whether what a directory holds has to be looked at, as nothing is known of it.
    pub fn verify_existing(&self) -> (result: bool)
        ensures
            result == (self@.current is None),
    {
        self.current.is_none()
    }

    /// What the next record asks for that asks for something.
    pub fn next(&mut self) -> (result: Result<Option<InstallStep>, Error>)
        ensures
            ({
                let walk = old(self)@;
                let place = walk.next_from(walk.done);
                &&& final(self)@ == (WalkView { done: final(self)@.done, ..walk })
                &&& match result {
                    Ok(Some(step)) => {
                        &&& place < walk.target.len()
                        &&& step@ == step_of(walk.current, walk.target[place])
                        &&& !(step@ is Skip) && !(step@ is Corrupt)
                        &&& final(self)@.done == place + 1
                    },
                    Ok(None) => place >= walk.target.len() && final(self)@.done >= walk.done
                        && final(self)@.done >= walk.target.len(),
                    Err(error) => {
                        &&& place < walk.target.len()
                        &&& step_of(walk.current, walk.target[place]) is Corrupt
                        &&& error.fault() == inline_fault()
                        &&& final(self)@.done == place + 1
                    },
                }
            }),
    {
        let ghost walk = self@;
        let records = self.target.records();
        let current = self.current;
        let mut place: usize = self.done;
        while place < records.len()
            invariant
                walk.target == records_view(records@),
                walk == old(self)@,
                walk.current == current_records(current),
                walk.done <= place,
                walk.next_from(walk.done) == walk.next_from(place as int),
                self.current == current,
                self@ == walk,
            decreases records@.len() - place,
        {
            assert(walk.target[place as int] == records@[place as int]@);
            let step = step_at(current, &records[place]);
            place += 1;
            match step {
                Ok(None) => {},
                Ok(Some(step)) => {
                    self.done = place;
                    return Ok(Some(step));
                },
                Err(error) => {
                    self.done = place;
                    return Err(error);
                },
            }
        }
        self.done = place;
        Ok(None)
    }
}

/// The paths to remove are those that the target lacks, apart from the root.
pub proof fn removals_are_what_the_target_lacks(
    paths: Seq<Seq<char>>,
    target: Seq<RecordView>,
    count: int,
)
    requires
        0 <= count <= paths.len(),
    ensures
        forall|i: int|
            0 <= i < count && (#[trigger] paths[i]).len() > 0 && !has_path(target, paths[i])
                ==> gone(paths, target, count).contains(encode_utf8(paths[i])),
        forall|n: int|
            0 <= n < gone(paths, target, count).len() ==> exists|i: int|
                0 <= i < count && (#[trigger] paths[i]).len() > 0 && !has_path(target, paths[i])
                    && encode_utf8(paths[i]) == #[trigger] gone(paths, target, count)[n],
    decreases count,
{
    if count > 0 {
        removals_are_what_the_target_lacks(paths, target, count - 1);
        let less = gone(paths, target, count - 1);
        let all = gone(paths, target, count);
        assert forall|i: int|
            0 <= i < count && (#[trigger] paths[i]).len() > 0 && !has_path(
                target,
                paths[i],
            ) implies all.contains(encode_utf8(paths[i])) by {
            if i < count - 1 {
                let n = choose|n: int| 0 <= n < less.len() && less[n] == encode_utf8(paths[i]);
                assert(all[n] == encode_utf8(paths[i]));
            } else {
                assert(all[less.len() as int] == encode_utf8(paths[i]));
            }
        }
        assert forall|n: int| 0 <= n < all.len() implies exists|i: int|
            0 <= i < count && (#[trigger] paths[i]).len() > 0 && !has_path(target, paths[i])
                && encode_utf8(paths[i]) == #[trigger] all[n] by {
            if n < less.len() {
                assert(all[n] == less[n]);
                let i = choose|i: int|
                    0 <= i < count - 1 && (#[trigger] paths[i]).len() > 0 && !has_path(
                        target,
                        paths[i],
                    ) && encode_utf8(paths[i]) == less[n];
                assert(encode_utf8(paths[i]) == all[n]);
            } else {
                assert(encode_utf8(paths[count - 1]) == all[n]);
            }
        }
    }
}

/// A namespace that is installed over itself asks for no file.
pub proof fn installing_again_asks_for_no_file(records: Seq<RecordView>, place: int)
    requires
        increasing(records),
        0 <= place < records.len(),
    ensures
        ({
            let step = step_of(Some(records), records[place]);
            step is Skip || step is Directory
        }),
{
    crate::namespace::find_at(records, place);
}

/// A file to cut out of a segment.
#[derive(Debug)]
pub struct SegmentInstallation {
    pub extent: ExtentRef,
    pub destination: StoredPath,
    pub fingerprint: ContentId,
    pub executable: bool,
}

/// The bytes that an installation takes up in a batch, given the sizes of an installation and
/// of one decoding output.
pub open spec fn installation_weight(item_bytes: usize, output_bytes: usize) -> spec_fn(
    SegmentInstallation,
) -> int {
    |file: SegmentInstallation|
        capped(
            capped(item_bytes + file.destination@.len(), usize::MAX as int) + capped(
                file.extent@.decoding_outputs.len() * output_bytes,
                usize::MAX as int,
            ),
            usize::MAX as int,
        )
}

impl SegmentInstallation {
    pub fn memory_bytes(&self, item_bytes: usize, output_bytes: usize) -> (bytes: usize)
        ensures
            bytes == installation_weight(item_bytes, output_bytes)(*self),
    {
        let count: usize = self.extent.decoding_outputs.len();
        assert(count * output_bytes >= 0) by (nonlinear_arith);
        let outputs: usize = match count.checked_mul(output_bytes) {
            Some(bytes) => bytes,
            None => usize::MAX,
        };
        let own: usize = match item_bytes.checked_add(self.destination.memory_bytes()) {
            Some(bytes) => bytes,
            None => usize::MAX,
        };
        match own.checked_add(outputs) {
            Some(bytes) => bytes,
            None => usize::MAX,
        }
    }
}

impl Ranked for SegmentInstallation {
    open spec fn rank(&self) -> Seq<int> {
        self.extent@.stored_range.segment.rank() + seq![self.extent@.stored_range.offset as int]
    }

    fn precedes(&self, other: &Self) -> (result: bool) {
        let left = self.extent.stored_range;
        let right = other.extent.stored_range;
        proof {
            reveal_with_fuel(before, 2);
            crate::identity::ObjectId::identified(left.segment.id, right.segment.id);
            crate::identity::ObjectId::identified(right.segment.id, left.segment.id);
            crate::model::locator_order(left.segment, right.segment);
            let x = seq![left.offset as int];
            let y = seq![right.offset as int];
            before_of_pairs(left.segment.rank(), x, right.segment.rank(), y);
            assert(x[0] == left.offset && y[0] == right.offset);
            crate::order::before_irreflexive(left.segment.rank());
            crate::order::before_total(left.segment.rank(), right.segment.rank());
            crate::order::before_asymmetric(left.segment.rank(), right.segment.rank());
        }
        if left.segment.precedes(&right.segment) {
            true
        } else if right.segment.precedes(&left.segment) {
            false
        } else {
            left.offset < right.offset
        }
    }
}

/// The range of its segment that a file needs.
pub open spec fn installation_item(file: SegmentInstallation) -> ItemView<SegmentInstallation> {
    ItemView {
        value: file,
        start: file.extent@.stored_range.offset,
        end: (file.extent@.stored_range.offset
            + file.extent@.stored_range.stored_content.length) as u64,
    }
}

/// The ranges of batches, one after the other.
pub open spec fn all_items(batches: Seq<RangeBatch<SegmentInstallation>>) -> Seq<
    ItemView<SegmentInstallation>,
>
    decreases batches.len(),
{
    if batches.len() == 0 {
        Seq::empty()
    } else {
        all_items(batches.drop_last()) + batches.last()@.items
    }
}

/// Each batch is of one segment, stays within the bytes that may be held, and is as large as
/// that allows.
pub open spec fn packed_batches(
    batches: Seq<RangeBatch<SegmentInstallation>>,
    weight: spec_fn(SegmentInstallation) -> int,
    maximum_bytes: u64,
    gap_bytes: u64,
) -> bool {
    &&& forall|i: int|
        0 <= i < batches.len() ==> well_packed(
            (#[trigger] batches[i])@,
            weight,
            maximum_bytes,
            gap_bytes,
        ) && of_one_segment(batches[i]@)
    &&& forall|i: int, j: int|
        0 <= i && j == i + 1 && j < batches.len() ==> must_part(
            (#[trigger] batches[i])@,
            (#[trigger] batches[j])@,
            weight,
            maximum_bytes,
            gap_bytes,
        )
}

pub open spec fn of_one_segment(batch: BatchView<SegmentInstallation>) -> bool {
    forall|i: int|
        0 <= i < batch.items.len() ==> (
        #[trigger] batch.items[i]).value.extent@.stored_range.segment == batch.locator
}

/// The range that a file needs ends where no segment can.
pub open spec fn reaches_over(file: SegmentInstallation) -> bool {
    file.extent@.stored_range.offset + file.extent@.stored_range.stored_content.length > u64::MAX
}

pub open spec fn reach_fault() -> Fault {
    corrupt("install Managed segment", "file range overflows")
}

/// What a file wants of a plan.
pub open spec fn file_wanted(
    file: SegmentInstallation,
    item_bytes: usize,
    output_bytes: usize,
) -> Wanted {
    if reaches_over(file) {
        Wanted::Wrong { fault: reach_fault() }
    } else {
        Wanted::Range {
            locator: file.extent@.stored_range.segment,
            start: installation_item(file).start,
            end: installation_item(file).end,
            weight: installation_weight(item_bytes, output_bytes)(file),
        }
    }
}

pub open spec fn files_wanted(
    files: Seq<SegmentInstallation>,
    item_bytes: usize,
    output_bytes: usize,
) -> Seq<Wanted> {
    Seq::new(files.len(), |i: int| file_wanted(files[i], item_bytes, output_bytes))
}

/// The batches hold the files in the order of their places in the segments.
pub open spec fn is_segment_plan(
    pending: Seq<SegmentInstallation>,
    ordered: Seq<SegmentInstallation>,
    batches: Seq<RangeBatch<SegmentInstallation>>,
) -> bool {
    &&& same_by_key(pending, ordered)
    &&& sorted(ordered)
    &&& all_items(batches) == Seq::new(ordered.len(), |i: int| installation_item(ordered[i]))
}

spec fn building_items(building: Option<BatchView<SegmentInstallation>>) -> Seq<
    ItemView<SegmentInstallation>,
> {
    match building {
        Some(batch) => batch.items,
        None => Seq::empty(),
    }
}

spec fn packed_so_far(
    batches: Seq<RangeBatch<SegmentInstallation>>,
    building: Option<BatchView<SegmentInstallation>>,
    weight: spec_fn(SegmentInstallation) -> int,
    maximum_bytes: u64,
    gap_bytes: u64,
) -> bool {
    &&& packed_batches(batches, weight, maximum_bytes, gap_bytes)
    &&& building is None ==> batches.len() == 0
    &&& building matches Some(next) ==> {
        &&& well_packed(next, weight, maximum_bytes, gap_bytes)
        &&& of_one_segment(next)
        &&& batches.len() > 0 ==> must_part(
            batches.last()@,
            next,
            weight,
            maximum_bytes,
            gap_bytes,
        )
    }
}

fn hand_out(
    batches: &mut Vec<RangeBatch<SegmentInstallation>>,
    batch: RangeBatch<SegmentInstallation>,
    Ghost(weight): Ghost<spec_fn(SegmentInstallation) -> int>,
    Ghost(maximum_bytes): Ghost<u64>,
    Ghost(gap_bytes): Ghost<u64>,
)
    requires
        packed_so_far(old(batches)@, Some(batch@), weight, maximum_bytes, gap_bytes),
    ensures
        final(batches)@ == old(batches)@.push(batch),
        packed_batches(final(batches)@, weight, maximum_bytes, gap_bytes),
        all_items(final(batches)@) == all_items(old(batches)@) + batch@.items,
{
    let ghost earlier = batches@;
    batches.push(batch);
    proof {
        assert(batches@.drop_last() =~= earlier);
        assert forall|i: int, j: int| 0 <= i && j == i + 1 && j < batches@.len() implies must_part(
            (#[trigger] batches@[i])@,
            (#[trigger] batches@[j])@,
            weight,
            maximum_bytes,
            gap_bytes,
        ) by {
            if j < earlier.len() {
                assert(earlier[i] == batches@[i] && earlier[j] == batches@[j]);
            } else {
                assert(earlier.last() == batches@[i]);
            }
        }
    }
}

/// Plan the reads for files that are cut out of segments, in requests of bounded size.
pub fn plan_segments(
    pending: Vec<SegmentInstallation>,
    window_bytes: usize,
    gap_bytes: usize,
    item_bytes: usize,
    output_bytes: usize,
) -> (result: Result<Vec<RangeBatch<SegmentInstallation>>, Error>)
    ensures
        match result {
            Ok(batches) => {
                &&& packed_batches(
                    batches@,
                    installation_weight(item_bytes, output_bytes),
                    window_bytes as u64,
                    gap_bytes as u64,
                )
                &&& exists|ordered: Seq<SegmentInstallation>| #[trigger]
                    is_segment_plan(pending@, ordered, batches@) && packing(
                        files_wanted(ordered, item_bytes, output_bytes),
                        window_bytes as u64,
                        gap_bytes as u64,
                    ) is Ok
            },
            Err(error) => exists|ordered: Seq<SegmentInstallation>| #[trigger]
                same_by_key(pending@, ordered) && sorted(ordered) && packing(
                    files_wanted(ordered, item_bytes, output_bytes),
                    window_bytes as u64,
                    gap_bytes as u64,
                ) == Err::<Option<BatchView<()>>, Fault>(error.fault()),
        },
{
    let ghost given = pending@;
    let ordered = sort(pending);
    let ghost order = ordered@;
    let ghost items = Seq::new(order.len(), |i: int| installation_item(order[i]));
    let ghost weight = installation_weight(item_bytes, output_bytes);
    let ghost maximum = window_bytes as u64;
    let ghost gap = gap_bytes as u64;
    let ghost wanted = files_wanted(order, item_bytes, output_bytes);
    let mut batcher: RangeBatcher<SegmentInstallation> = RangeBatcher::new(window_bytes, gap_bytes);
    let mut batches: Vec<RangeBatch<SegmentInstallation>> = Vec::new();
    let mut remaining = crate::order::reversed(ordered);
    let ghost backward = remaining@;
    let ghost mut index: int = 0;
    assert(all_items(batches@) + building_items(batcher.building()) =~= items.take(0));
    while remaining.len() > 0
        invariant
            given == pending@,
            same_by_key(given, order),
            sorted(order),
            items == Seq::new(order.len(), |i: int| installation_item(order[i])),
            backward == order.reverse(),
            0 <= index <= order.len(),
            remaining@ == backward.take(order.len() - index),
            weight == installation_weight(item_bytes, output_bytes),
            maximum == window_bytes as u64,
            gap == gap_bytes as u64,
            maximum == batcher.maximum(),
            gap == batcher.gap(),
            packed_so_far(batches@, batcher.building(), weight, maximum, gap),
            all_items(batches@) + building_items(batcher.building()) == items.take(index),
            wanted == files_wanted(order, item_bytes, output_bytes),
            packing(wanted.take(index), maximum, gap) == Ok::<Option<BatchView<()>>, Fault>(
                bare_building(batcher.building()),
            ),
        decreases remaining@.len(),
    {
        let ghost done = items.take(index);
        let ghost building = batcher.building();
        let file = remaining.pop().unwrap();
        let ghost item = installation_item(file);
        proof {
            assert(file == order[index]);
            assert(wanted.take(index + 1).drop_last() =~= wanted.take(index));
            assert(wanted.take(index + 1).last() == file_wanted(file, item_bytes, output_bytes));
            if building is Some {
                bare_holds_the_same(building->0);
            }
            assert(items.take(index + 1) =~= done.push(item));
            assert(remaining@ =~= backward.take(order.len() - (index + 1)));
        }
        let locator = file.extent.stored_range.segment;
        let start: u64 = file.extent.stored_range.offset;
        let length: u64 = file.extent.stored_range.stored_content.length();
        let end: u64 = match start.checked_add(length) {
            Some(end) => end,
            None => {
                proof {
                    first_wrong_stays(wanted, index + 1, maximum, gap);
                }
                return Err(Error::corrupt("install Managed segment", "file range overflows"));
            },
        };
        let bytes: u64 = file.memory_bytes(item_bytes, output_bytes) as u64;
        proof {
            assert(item.start == start && item.end == end);
        }
        match batcher.push(locator, start, end, bytes, file) {
            Err(error) => {
                proof {
                    first_wrong_stays(wanted, index + 1, maximum, gap);
                }
                return Err(error);
            },
            Ok(ready) => {
                let ghost handed = batch_view(ready);
                let ghost now = batcher.building()->0;
                proof {
                    let next = packed_next(bare_building(building), wanted[index], maximum, gap);
                    assert(next->Ok_0->0.items =~= bare(now).items);
                    assert(next->Ok_0->0 == bare(now));
                    if joins(building, locator, projected(building->0, start, end, bytes, gap), maximum) {
                        packed_grows(building->0, item, weight, maximum, gap);
                        assert(now.items[0] == building->0.items[0]);
                        assert(handed is None);
                        assert(all_items(batches@) + now.items =~= done.push(item));
                    } else {
                        packed_alone(locator, item, weight, maximum, gap);
                        assert(handed == building);
                    }
                }
                if let Some(batch) = ready {
                    hand_out(&mut batches, batch, Ghost(weight), Ghost(maximum), Ghost(gap));
                    proof {
                        assert(now.items[0] == item);
                        assert(all_items(batches@) + now.items =~= done.push(item));
                    }
                }
                assert(all_items(batches@) + now.items =~= done.push(item));
            },
        }
        proof {
            index = index + 1;
        }
    }
    if let Some(batch) = batcher.take() {
        hand_out(&mut batches, batch, Ghost(weight), Ghost(maximum), Ghost(gap));
    }
    proof {
        assert(items.take(index) =~= items);
        assert(all_items(batches@) =~= items);
        assert(wanted.take(index) =~= wanted);
        assert(packing(wanted, maximum, gap) is Ok);
        assert(packing(
            files_wanted(order, item_bytes, output_bytes),
            window_bytes as u64,
            gap_bytes as u64,
        ) is Ok);
        assert(is_segment_plan(given, order, batches@));
    }
    Ok(batches)
}

// What a walk leaves in place.

/// The namespace that was installed before has the same version of the file at the path, with
/// the same executable attribute.
pub open spec fn has_file(
    current: Option<Seq<RecordView>>,
    path: Seq<char>,
    node: MemberView,
) -> bool {
    &&& current is Some
    &&& value_at(current->0, path) matches Some(before)
    &&& before.value is RegularFile
    &&& node.value is RegularFile
    &&& before.value->version == node.value->version
    &&& before.attributes.executable == node.attributes.executable
}

/// A step asks for the file as the record has it.
pub open spec fn asks_for_file(step: StepView, record: RecordView) -> bool {
    record.value matches Some(node) && node.value matches ValueView::RegularFile {
        version,
        content,
        data,
    } && match step {
        StepView::File { path, fingerprint, content: wanted, reusable, executable } => {
            &&& path == record.path
            &&& fingerprint == content
            &&& wanted == data
            &&& executable == node.attributes.executable
        },
        StepView::Segment { path, extent, fingerprint, executable } => {
            &&& path == record.path
            &&& fingerprint == content
            &&& data.base_run is Some
            &&& data.base_run->0.continuation is None
            &&& data.patch_levels.len() == 0
            &&& extent == data.base_run->0.inline_extent.extent
            &&& extent.content() == content
            &&& data.base_run->0.inline_extent.offset == 0
            &&& data.base_run->0.inline_extent.extent_offset == 0
            &&& data.base_run->0.inline_extent.length == content.length
            &&& executable == node.attributes.executable
        },
        _ => false,
    }
}

/// A file of the target is passed over exactly if the namespace installed before has it at that
/// path in the same version and with the same executable attribute. Any other file is asked for
/// as the target has it, unless its only extent is not its content; a directory is asked for by
/// its path, and the root and a path without a node are not.
pub proof fn a_file_is_passed_over_only_if_it_is_there(
    current: Option<Seq<RecordView>>,
    record: RecordView,
)
    ensures
        ({
            let step = step_of(current, record);
            match record.value {
                None => step is Skip,
                Some(node) => if node.value is Directory {
                    if record.path.len() == 0 {
                        step is Skip
                    } else {
                        step == StepView::Directory { path: record.path }
                    }
                } else {
                    &&& step is Skip <==> has_file(current, record.path, node)
                    &&& step is Skip || step is Corrupt || asks_for_file(step, record)
                    &&& step is Corrupt ==> {
                        let data = node.value->data;
                        &&& data.patch_levels.len() == 0 && data.base_run is Some
                        &&& data.base_run->0.inline_extent.extent.content() != node.value->content
                            || data.base_run->0.inline_extent.offset != 0
                            || data.base_run->0.inline_extent.extent_offset != 0
                            || data.base_run->0.inline_extent.length != node.value->content.length
                    }
                },
            }
        }),
{
}

/// What a step reuses is the file that was installed at its path before.
pub proof fn reused_data_was_installed_before(current: Option<Seq<RecordView>>, record: RecordView)
    ensures
        step_of(current, record) matches StepView::File {
            path,
            fingerprint,
            content,
            reusable,
            executable,
        } ==> {
            let before = if current is Some {
                value_at(current->0, record.path)
            } else {
                None
            };
            match reusable {
                Some(data) => before is Some && before->0.value is RegularFile
                    && before->0.value->data == data,
                None => before is None || before->0.value is Directory,
            }
        },
{
}

/// From one step of a walk to the next, and behind the last one, every file of the target is
/// passed over only where it is in place: a file is asked for or was installed before in the same
/// version and with the same executable attribute.
pub proof fn a_walk_passes_over_what_is_in_place(walk: WalkView, from: int, place: int)
    requires
        0 <= from <= place < walk.next_from(from),
    ensures
        place < walk.target.len(),
        walk.target[place].value matches Some(node) ==> {
            ||| node.value is Directory && walk.target[place].path.len() == 0
            ||| has_file(walk.current, walk.target[place].path, node)
        },
    decreases walk.target.len() - from,
{
    if from < walk.target.len() && step_of(walk.current, walk.target[from]) is Skip {
        if from < place {
            a_walk_passes_over_what_is_in_place(walk, from + 1, place);
        } else {
            next_is_inside(walk, from);
        }
    }
}

proof fn next_is_inside(walk: WalkView, from: int)
    requires
        from <= walk.target.len(),
    ensures
        from <= walk.next_from(from) <= walk.target.len(),
    decreases walk.target.len() - from,
{
    if from < walk.target.len() {
        next_is_inside(walk, from + 1);
    }
}

/// The file that the steps of a walk leave at a path, given what was there before: a step
/// replaces it by the version and the attribute that the target has, and what is passed over
/// stays.
pub open spec fn left_at(current: Option<Seq<RecordView>>, record: RecordView) -> Option<
    (FileVersionId, bool),
> {
    match step_of(current, record) {
        StepView::File { path, fingerprint, content, reusable, executable } => Some(
            (record.value->0.value->version, executable),
        ),
        StepView::Segment { path, extent, fingerprint, executable } => Some(
            (record.value->0.value->version, executable),
        ),
        _ => match installed(current, record.path) {
            Some(before) => if before.value is RegularFile {
                Some((before.value->version, before.attributes.executable))
            } else {
                None
            },
            None => None,
        },
    }
}

/// After the steps of a walk the directory has every file of the target in its version and with
/// its executable attribute.
pub proof fn after_a_walk_the_files_are_the_target(current: Option<Seq<RecordView>>, record: RecordView)
    requires
        record.value is Some,
        record.value->0.value is RegularFile,
        !(step_of(current, record) is Corrupt),
    ensures
        left_at(current, record) == Some(
            (record.value->0.value->version, record.value->0.attributes.executable),
        ),
{
}

/// The paths of a namespace.
pub open spec fn paths_of(records: Seq<RecordView>) -> Seq<Seq<char>> {
    Seq::new(records.len(), |i: int| records[i].path)
}

/// The file that a directory holds at a path after one namespace was installed over another:
/// what is removed is gone, and what the target has was asked for or stayed.
pub open spec fn directory_after(
    current: Seq<RecordView>,
    target: Seq<RecordView>,
    path: Seq<char>,
) -> Option<(FileVersionId, bool)> {
    let removed = gone(paths_of(current), target, current.len() as int);
    if has_path(target, path) {
        left_at(Some(current), find(target, path)->0)
    } else if removed.contains(encode_utf8(path)) {
        None
    } else {
        file_at(current, path)
    }
}

/// The version and the executable attribute of the file that a namespace has at a path.
pub open spec fn file_at(records: Seq<RecordView>, path: Seq<char>) -> Option<
    (FileVersionId, bool),
> {
    match value_at(records, path) {
        Some(node) => if node.value is RegularFile {
            Some((node.value->version, node.attributes.executable))
        } else {
            None
        },
        None => None,
    }
}

/// After an installation the directory agrees with the target at every path but the root: each
/// file of the target is there in its version and with its executable attribute, and no other
/// file is left.
pub proof fn after_an_installation_the_directory_is_the_target(
    current: Seq<RecordView>,
    target: Seq<RecordView>,
    path: Seq<char>,
)
    requires
        path.len() > 0,
        file_at(target, path) is Some ==> !(step_of(
            Some(current),
            find(target, path)->0,
        ) is Corrupt),
    ensures
        file_at(target, path) is Some ==> directory_after(current, target, path) == file_at(
            target,
            path,
        ),
        !has_path(target, path) ==> directory_after(current, target, path) is None,
{
    if has_path(target, path) {
        let record = find(target, path)->0;
        let i = crate::namespace::found_at(target, path);
        assert(record.path == path);
        if file_at(target, path) is Some {
            after_a_walk_the_files_are_the_target(Some(current), record);
        }
    } else if has_path(current, path) {
        let count = current.len() as int;
        removals_are_what_the_target_lacks(paths_of(current), target, count);
        let i = choose|i: int| 0 <= i < current.len() && (#[trigger] current[i]).path == path;
        assert(paths_of(current)[i] == path);
    }
}

// What the functions promise.

/// A walk goes through the target once and in order. The step that it gives asks for the next
/// record as the target has it, and what it passed over on the way is in place; once it gives
/// none, all the rest is.
pub proof fn a_walk_asks_for_all_that_is_missing(
    walk: &mut InstallWalk<'_>,
    result: Result<Option<InstallStep>, Error>,
    place: int,
)
    requires
        call_ensures(InstallWalk::next, (walk,), result),
        0 <= old(walk)@.done <= old(walk)@.target.len(),
        old(walk)@.done <= place < old(walk)@.target.len(),
    ensures
        final(walk)@.target == old(walk)@.target,
        final(walk)@.current == old(walk)@.current,
        ({
            let record = old(walk)@.target[place];
            let in_place = record.value matches Some(node) ==> {
                ||| node.value is Directory && record.path.len() == 0
                ||| has_file(old(walk)@.current, record.path, node)
            };
            &&& result matches Ok(None) ==> in_place
            &&& result matches Ok(Some(step)) ==> {
                &&& old(walk)@.done < final(walk)@.done <= old(walk)@.target.len()
                &&& place < final(walk)@.done - 1 ==> in_place
                &&& place == final(walk)@.done - 1 ==> {
                    &&& record.value is Some
                    &&& record.value->0.value is Directory ==> step@ == StepView::Directory {
                        path: record.path,
                    } && record.path.len() > 0
                    &&& record.value->0.value is RegularFile ==> asks_for_file(step@, record)
                        && !has_file(old(walk)@.current, record.path, record.value->0)
                }
            }
        }),
{
    let view = old(walk)@;
    next_is_inside(view, view.done);
    let next = view.next_from(view.done);
    if place < next {
        a_walk_passes_over_what_is_in_place(view, view.done, place);
    }
    a_file_is_passed_over_only_if_it_is_there(view.current, view.target[place]);
}

/// What is removed before an installation are the paths that the directory holds and the target
/// lacks, and all paths that are no Unicode, each of them and nothing else.
pub proof fn what_the_target_lacks_is_removed(
    current: CurrentPaths<'_>,
    target: &Namespace,
    removed: Vec<StoredPath>,
    path: Seq<u8>,
)
    requires
        call_ensures(installation_removals, (current, target), removed),
    ensures
        has_stored(removed@, path) <==> current.strange().contains(path) || exists|i: int|
            0 <= i < current.paths().len() && (#[trigger] current.paths()[i]).len() > 0
                && !has_path(target@.records, current.paths()[i]) && encode_utf8(
                current.paths()[i],
            ) == path,
{
    let paths = current.paths();
    let count = paths.len() as int;
    let lost = gone(paths, target@.records, count);
    let listed = current.strange() + lost;
    removals_are_what_the_target_lacks(paths, target@.records, count);
    let (given, rising) = listed_in_turn(listed, removed@);
    same_by_key_same_items(given, rising);
    assert(stored_views(given).len() == given.len());
    if has_stored(removed@, path) {
        let i = choose|i: int| 0 <= i < removed@.len() && (#[trigger] removed@[i])@ == path;
        assert(rising[rising.len() - 1 - i] == removed@[i]);
        assert(rising.contains(removed@[i]));
        assert(given.contains(removed@[i]));
        let k = choose|k: int| 0 <= k < given.len() && given[k] == removed@[i];
        assert(stored_views(given)[k] == path);
        assert(listed[k] == path);
        if k < current.strange().len() {
            assert(current.strange()[k] == path);
        } else {
            let n = k - current.strange().len();
            assert(lost[n] == path);
            let i = choose|i: int|
                0 <= i < count && (#[trigger] paths[i]).len() > 0 && !has_path(
                    target@.records,
                    paths[i],
                ) && encode_utf8(paths[i]) == lost[n];
            assert(paths[i].len() > 0);
        }
    }
    if listed.contains(path) {
        let k = choose|k: int| 0 <= k < listed.len() && listed[k] == path;
        assert(stored_views(given)[k] == given[k]@);
        assert(given.contains(given[k]));
        assert(rising.contains(given[k]));
        let n = choose|n: int| 0 <= n < rising.len() && rising[n] == given[k];
        assert(removed@[rising.len() - 1 - n] == given[k]);
    }
    if current.strange().contains(path) {
        let k = choose|k: int| 0 <= k < current.strange().len() && current.strange()[k] == path;
        assert(listed[k] == path);
    }
    if lost.contains(path) {
        let k = choose|k: int| 0 <= k < lost.len() && lost[k] == path;
        assert(listed[current.strange().len() + k] == path);
    }
}

proof fn listed_in_turn(listed: Seq<Seq<u8>>, ordered: Seq<StoredPath>) -> (parts: (
    Seq<StoredPath>,
    Seq<StoredPath>,
))
    requires
        last_first(listed, ordered),
    ensures
        ({
            let (given, rising) = parts;
            &&& stored_views(given) == listed
            &&& same_by_key(given, rising)
            &&& ordered == rising.reverse()
        }),
{
    choose|given: Seq<StoredPath>, rising: Seq<StoredPath>|
        stored_views(given) == listed && sorted(rising) && #[trigger] same_by_key(given, rising)
            && ordered == rising.reverse()
}

/// A directory that is there is kept, anything else at its path makes way for it.
pub proof fn directories_are_kept_or_made(is_dir: Option<bool>, action: DirectoryAction)
    requires
        call_ensures(directory_action, (is_dir,), action),
    ensures
        action is Keep <==> is_dir == Some(true),
        action is Replace <==> is_dir == Some(false),
        action is Create <==> is_dir is None,
{
}

proof fn planned_items(batches: Seq<RangeBatch<SegmentInstallation>>, item: ItemView<
    SegmentInstallation,
>) -> (place: (int, int))
    requires
        all_items(batches).contains(item),
    ensures
        ({
            let (batch, index) = place;
            &&& 0 <= batch < batches.len()
            &&& 0 <= index < batches[batch]@.items.len()
            &&& batches[batch]@.items[index] == item
        }),
    decreases batches.len(),
{
    let rest = batches.drop_last();
    let less = all_items(rest);
    let all = all_items(batches);
    let n = choose|n: int| 0 <= n < all.len() && all[n] == item;
    if n < less.len() {
        assert(less[n] == item);
        let (batch, index) = planned_items(rest, item);
        assert(rest[batch] == batches[batch]);
        (batch, index)
    } else {
        let last = batches.len() - 1;
        assert(batches[last]@.items[n - less.len()] == item);
        (last, n - less.len())
    }
}

/// Every file that waits for a segment is planned, as the bytes that are stored of it and in a
/// batch of the segment that stores it.
pub proof fn every_pending_file_is_planned(
    pending: Vec<SegmentInstallation>,
    window_bytes: usize,
    gap_bytes: usize,
    item_bytes: usize,
    output_bytes: usize,
    result: Result<Vec<RangeBatch<SegmentInstallation>>, Error>,
    file: int,
) -> (place: (int, int))
    requires
        call_ensures(
            plan_segments,
            (pending, window_bytes, gap_bytes, item_bytes, output_bytes),
            result,
        ),
        result is Ok,
        0 <= file < pending@.len(),
        pending@[file].extent@.stored_range.offset
            + pending@[file].extent@.stored_range.stored_content.length <= u64::MAX,
    ensures
        ({
            let (batch, index) = place;
            let stored = pending@[file].extent@.stored_range;
            &&& 0 <= batch < result->Ok_0@.len()
            &&& 0 <= index < result->Ok_0@[batch]@.items.len()
            &&& result->Ok_0@[batch]@.locator == stored.segment
            &&& result->Ok_0@[batch]@.items[index].value == pending@[file]
            &&& result->Ok_0@[batch]@.items[index].start == stored.offset
            &&& result->Ok_0@[batch]@.items[index].end == stored.offset
                + stored.stored_content.length
        }),
{
    let batches = result->Ok_0@;
    let ordered = choose|ordered: Seq<SegmentInstallation>| #[trigger]
        is_segment_plan(pending@, ordered, batches) && packing(
            files_wanted(ordered, item_bytes, output_bytes),
            window_bytes as u64,
            gap_bytes as u64,
        ) is Ok;
    same_by_key_same_items(pending@, ordered);
    assert(pending@.contains(pending@[file]));
    assert(ordered.contains(pending@[file]));
    let k = choose|k: int| 0 <= k < ordered.len() && ordered[k] == pending@[file];
    let item = installation_item(pending@[file]);
    assert(all_items(batches)[k] == item);
    let (batch, index) = planned_items(batches, item);
    assert(of_one_segment(batches[batch]@));
    assert(batches[batch]@.items[index].value.extent@.stored_range.segment
        == batches[batch]@.locator);
    (batch, index)
}

/// What is held of a file that waits for a segment is what an item takes, its path, and what
/// each of its decodings takes, as far as that can be counted.
pub proof fn a_pending_file_weighs_what_is_held_of_it(
    file: SegmentInstallation,
    item_bytes: usize,
    output_bytes: usize,
)
    ensures
        ({
            let held = item_bytes + file.destination@.len()
                + file.extent@.decoding_outputs.len() * output_bytes;
            installation_weight(item_bytes, output_bytes)(file) == if held <= usize::MAX {
                held
            } else {
                usize::MAX as int
            }
        }),
{
    assert(file.extent@.decoding_outputs.len() * output_bytes >= 0) by (nonlinear_arith);
}

} // verus!
