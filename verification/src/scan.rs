//! Facts of a native directory, as path-ordered entries.

use vstd::prelude::*;
use vstd::string::StrSliceExecFns;

use crate::error::{invalid, unsupported, Error, Fault};
use crate::namespace::NodeKind;
use crate::order::{
    before, before_of_pair_keys, has_repeated_key, pair_key, repeats_key, same_by_key, sort, sorted,
    Ranked,
};
use crate::path::{path_fault, validate_portable_path};
use crate::text::{
    chars_of, folded, folded_of, name_start, parent_of, same_text, text_precedes, text_rank,
    text_rank_is_injective,
};

verus! {

/// What a platform tells of one path.
#[derive(Clone, Copy, Debug)]
pub struct NativeFacts {
    pub is_dir: bool,
    pub is_file: bool,
    /// How many names the file has; one where the platform does not tell.
    pub links: u64,
    /// The permission bits; none where the platform has none.
    pub mode: u32,
    pub length: u64,
}

/// The bits that allow someone to execute a file.
pub const EXECUTE_BITS: u32 = 0o111;

pub open spec fn entry_fault(facts: NativeFacts) -> Option<Fault> {
    if facts.is_dir {
        None
    } else if facts.is_file {
        if facts.links > 1 {
            Some(
                unsupported(
                    "scan replica",
                    "local replica contains a hard-linked file, which Managed Sync does not support",
                ),
            )
        } else {
            None
        }
    } else {
        Some(
            unsupported("scan replica", "local replica contains a symbolic link or special file"),
        )
    }
}

/// The kind of node that a path is, and whether it is executable.
pub fn local_entry(facts: NativeFacts) -> (result: Result<(NodeKind, bool), Error>)
    ensures
        match result {
            Ok((kind, executable)) => {
                &&& entry_fault(facts) is None
                &&& kind == (if facts.is_dir {
                    NodeKind::Directory
                } else {
                    NodeKind::RegularFile
                })
                &&& executable == (!facts.is_dir && facts.mode & EXECUTE_BITS != 0)
            },
            Err(error) => entry_fault(facts) == Some(error.fault()),
        },
{
    if facts.is_dir {
        return Ok((NodeKind::Directory, false));
    }
    if facts.is_file {
        if facts.links > 1 {
            return Err(
                Error::unsupported(
                    "scan replica",
                    "local replica contains a hard-linked file, which Managed Sync does not support",
                ),
            );
        }
        return Ok((NodeKind::RegularFile, facts.mode & EXECUTE_BITS != 0));
    }
    Err(
        Error::unsupported(
            "scan replica",
            "local replica contains a symbolic link or special file",
        ),
    )
}

/// Whether a native file can stand for a file of a namespace without reading it: the kind,
/// the executable attribute and the length fit.
pub fn may_match(facts: NativeFacts, length: u64, executable: bool) -> (result: bool)
    ensures
        result == (facts.is_file && facts.links == 1 && (facts.mode & EXECUTE_BITS != 0)
            == executable && facts.length == length),
{
    if !(facts.is_file && facts.links == 1) || (facts.mode & EXECUTE_BITS != 0) != executable {
        return false;
    }
    facts.length == length
}

pub ghost struct LocalEntryView {
    pub path: Seq<char>,
    pub kind: NodeKind,
    pub executable: bool,
    pub length: Option<u64>,
}

/// One path of a replica directory.
#[derive(Debug)]
pub struct LocalEntry {
    pub path: String,
    pub kind: NodeKind,
    pub executable: bool,
    pub length: Option<u64>,
}

impl LocalEntry {
    pub open spec fn view(&self) -> LocalEntryView {
        LocalEntryView {
            path: self.path@,
            kind: self.kind,
            executable: self.executable,
            length: self.length,
        }
    }
}

impl Ranked for LocalEntry {
    open spec fn rank(&self) -> Seq<int> {
        text_rank(self@.path)
    }

    fn precedes(&self, other: &Self) -> (result: bool) {
        text_precedes(self.path.as_str(), other.path.as_str())
    }
}

/// The entry that facts make at a path.
pub open spec fn entry_of(path: Seq<char>, facts: NativeFacts) -> LocalEntryView {
    LocalEntryView {
        path,
        kind: if facts.is_dir {
            NodeKind::Directory
        } else {
            NodeKind::RegularFile
        },
        executable: !facts.is_dir && facts.mode & EXECUTE_BITS != 0,
        length: if facts.is_dir {
            None
        } else {
            Some(facts.length)
        },
    }
}

/// A name in a directory, with case and composition folded away.
#[derive(Debug)]
struct PortableName {
    parent: String,
    folded: String,
}

impl PortableName {
    spec fn view(&self) -> (Seq<char>, Seq<char>) {
        (self.parent@, self.folded@)
    }
}

impl Ranked for PortableName {
    closed spec fn rank(&self) -> Seq<int> {
        pair_key(text_rank(self.parent@), text_rank(self.folded@))
    }

    fn precedes(&self, other: &Self) -> (result: bool) {
        proof {
            names_compare(*self, *other);
            text_rank_is_injective(self.parent@, other.parent@);
            crate::order::before_irreflexive(text_rank(self.parent@));
        }
        if same_text(self.parent.as_str(), other.parent.as_str()) {
            text_precedes(self.folded.as_str(), other.folded.as_str())
        } else {
            text_precedes(self.parent.as_str(), other.parent.as_str())
        }
    }
}

proof fn names_compare(a: PortableName, b: PortableName)
    ensures
        before(a.rank(), b.rank()) == (before(text_rank(a.parent@), text_rank(b.parent@)) || (
        text_rank(a.parent@) == text_rank(b.parent@) && before(
            text_rank(a.folded@),
            text_rank(b.folded@),
        ))),
        a.rank() == b.rank() <==> a@ == b@,
{
    before_of_pair_keys(
        text_rank(a.parent@),
        text_rank(a.folded@),
        text_rank(b.parent@),
        text_rank(b.folded@),
    );
    text_rank_is_injective(a.parent@, b.parent@);
    text_rank_is_injective(a.folded@, b.folded@);
}

pub ghost struct ScanView {
    /// The entries so far.
    pub entries: Seq<LocalEntryView>,
    /// The directory and the folded name of each visited path.
    pub names: Seq<(Seq<char>, Seq<char>)>,
}

/// Two paths of one directory fold to one name.
pub open spec fn names_collide(names: Seq<(Seq<char>, Seq<char>)>) -> bool {
    exists|i: int, j: int|
        0 <= i < j < names.len() && (#[trigger] names[i]) == (#[trigger] names[j])
}

pub open spec fn entries_view(entries: Seq<LocalEntry>) -> Seq<LocalEntryView> {
    Seq::new(entries.len(), |i: int| entries[i]@)
}

/// Why a path cannot be taken into a namespace.
pub open spec fn visit_fault(name: Option<Seq<char>>, path: Option<Seq<char>>) -> Option<Fault> {
    if name is None {
        Some(invalid("synchronize replica", "local directory contains a non-Unicode name"))
    } else if path is None {
        Some(invalid("synchronize replica", "local directory contains a non-Unicode path"))
    } else {
        path_fault(path->0)
    }
}

pub open spec fn text_view(text: Option<String>) -> Option<Seq<char>> {
    match text {
        Some(text) => Some(text@),
        None => None,
    }
}

/// The walk through a replica directory.
#[derive(Debug)]
pub struct LocalScan {
    records: Vec<LocalEntry>,
    names: Vec<PortableName>,
}

impl LocalScan {
    pub closed spec fn view(&self) -> ScanView {
        ScanView {
            entries: entries_view(self.records@),
            names: Seq::new(self.names@.len(), |i: int| self.names@[i]@),
        }
    }

    /// Begin with the root, which must be a directory.
    pub fn new(root_is_dir: bool) -> (result: Result<Self, Error>)
        ensures
            match result {
                Ok(scan) => {
                    &&& root_is_dir
                    &&& scan@.entries == seq![
                        LocalEntryView {
                            path: Seq::empty(),
                            kind: NodeKind::Directory,
                            executable: false,
                            length: None,
                        },
                    ]
                    &&& scan@.names == Seq::<(Seq<char>, Seq<char>)>::empty()
                },
                Err(error) => !root_is_dir && error.fault() == invalid(
                    "scan replica",
                    "local replica root is not a directory",
                ),
            },
    {
        if !root_is_dir {
            return Err(Error::invalid("scan replica", "local replica root is not a directory"));
        }
        let mut records: Vec<LocalEntry> = Vec::new();
        let path = "".to_owned();
        proof {
            reveal_strlit("");
            assert(path@ =~= Seq::empty());
        }
        records.push(
            LocalEntry { path, kind: NodeKind::Directory, executable: false, length: None },
        );
        let scan = LocalScan { records, names: Vec::new() };
        proof {
            assert(scan@.names =~= Seq::empty());
            assert(scan@.entries =~= seq![records@[0]@]);
        }
        Ok(scan)
    }

    /// Visit a path by its name and its text below the root; either is absent where it is no
    /// Unicode.
    pub fn visit(&mut self, name: Option<String>, path: Option<String>) -> (result: Result<
        String,
        Error,
    >)
        ensures
            match result {
                Ok(accepted) => {
                    &&& visit_fault(text_view(name), text_view(path)) is None
                    &&& Some(accepted@) == text_view(path)
                    &&& final(self)@ == (ScanView {
                        names: old(self)@.names.push(
                            (parent_of(accepted@), folded_of(text_view(name)->0)),
                        ),
                        ..old(self)@
                    })
                },
                Err(error) => {
                    &&& visit_fault(text_view(name), text_view(path)) == Some(error.fault())
                    &&& final(self)@ == old(self)@
                },
            },
    {
        let name = match name {
            Some(name) => name,
            None => {
                return Err(
                    Error::invalid(
                        "synchronize replica",
                        "local directory contains a non-Unicode name",
                    ),
                );
            },
        };
        let path = match path {
            Some(path) => path,
            None => {
                return Err(
                    Error::invalid(
                        "synchronize replica",
                        "local directory contains a non-Unicode path",
                    ),
                );
            },
        };
        match validate_portable_path(path.as_str()) {
            Ok(()) => {},
            Err(error) => {
                return Err(error);
            },
        }
        let parent = parent_text(path.as_str());
        let ghost then = self@;
        self.names.push(PortableName { parent, folded: folded(name.as_str()) });
        proof {
            assert(self@.names =~= then.names.push((parent_of(path@), folded_of(name@))));
            assert(self@.entries == then.entries);
        }
        Ok(path)
    }

    /// Record a visited path with what the platform tells of it.
    pub fn record(&mut self, path: String, facts: NativeFacts) -> (result: Result<(), Error>)
        ensures
            match result {
                Ok(()) => {
                    &&& entry_fault(facts) is None
                    &&& final(self)@ == (ScanView {
                        entries: old(self)@.entries.push(entry_of(path@, facts)),
                        ..old(self)@
                    })
                },
                Err(error) => {
                    &&& entry_fault(facts) == Some(error.fault())
                    &&& final(self)@ == old(self)@
                },
            },
    {
        let (kind, executable) = match local_entry(facts) {
            Ok(found) => found,
            Err(error) => {
                return Err(error);
            },
        };
        let length = if kind == NodeKind::RegularFile {
            Some(facts.length)
        } else {
            None
        };
        let ghost then = self@;
        let ghost given = path@;
        self.records.push(LocalEntry { path, kind, executable, length });
        proof {
            assert(self@.entries =~= then.entries.push(entry_of(given, facts)));
            assert(self@.names == then.names);
        }
        Ok(())
    }

    /// The entries in path order, unless two names of one directory fold together.
    pub fn finish(self) -> (result: Result<Vec<LocalEntry>, Error>)
        ensures
            match result {
                Ok(entries) => {
                    &&& !names_collide(self@.names)
                    &&& sorted(entries@)
                    &&& exists|walked: Seq<LocalEntry>|
                        entries_view(walked) == self@.entries && #[trigger] same_by_key(
                            walked,
                            entries@,
                        )
                },
                Err(error) => names_collide(self@.names) && error.fault() == invalid(
                    "synchronize replica",
                    "directory contains a case-folding collision",
                ),
            },
    {
        let ghost names = self.names@;
        proof {
            let views = self@.names;
            if names_collide(views) {
                let (i, j) = choose|i: int, j: int|
                    0 <= i < j < views.len() && (#[trigger] views[i]) == (#[trigger] views[j]);
                names_compare(names[i], names[j]);
                assert(names[i].rank() == names[j].rank());
            }
            if repeats_key(names) {
                let (i, j) = choose|i: int, j: int|
                    0 <= i < j < names.len() && #[trigger] names[i].rank()
                        == #[trigger] names[j].rank();
                names_compare(names[i], names[j]);
                assert(views[i] == views[j]);
            }
        }
        if has_repeated_key(self.names) {
            return Err(
                Error::invalid(
                    "synchronize replica",
                    "directory contains a case-folding collision",
                ),
            );
        }
        let entries = sort(self.records);
        assert(same_by_key(self.records@, entries@));
        Ok(entries)
    }
}

/// What stands before the last slash of a path.
fn parent_text(path: &str) -> (parent: String)
    ensures
        parent@ == parent_of(path@),
{
    let chars = chars_of(path);
    let start: usize = name_start(&chars, chars.len());
    proof {
        assert(chars@.take(chars@.len() as int) =~= chars@);
    }
    if start == 0 {
        proof {
            reveal_strlit("");
            assert(""@ =~= parent_of(path@));
        }
        return "".to_owned();
    }
    assert(path@.subrange(0, start - 1) =~= parent_of(path@));
    path.substring_char(0, start - 1).to_owned()
}

// What a scan promises.

/// A path is taken as a directory or as a file with one name, and nothing else is taken. A file
/// is executable if any of the execute bits is set, and a directory never is.
pub proof fn only_directories_and_plain_files_are_taken(
    facts: NativeFacts,
    result: Result<(NodeKind, bool), Error>,
)
    requires
        call_ensures(local_entry, (facts,), result),
    ensures
        result is Ok <==> facts.is_dir || facts.is_file && facts.links <= 1,
        result matches Ok((kind, executable)) ==> {
            &&& kind == NodeKind::Directory <==> facts.is_dir
            &&& facts.is_dir ==> !executable
            &&& !facts.is_dir ==> (executable <==> facts.mode & 0o111 != 0)
        },
{
}

/// A native file is taken for a file of a namespace unread only if it has one name, the same
/// length and the same executable attribute; whatever is taken so is recorded alike.
pub proof fn what_may_match_is_recorded_alike(
    facts: NativeFacts,
    length: u64,
    executable: bool,
    matches: bool,
    recorded: Result<(NodeKind, bool), Error>,
)
    requires
        call_ensures(may_match, (facts, length, executable), matches),
        call_ensures(local_entry, (facts,), recorded),
        !facts.is_dir,
    ensures
        matches ==> recorded == Ok::<(NodeKind, bool), Error>((NodeKind::RegularFile, executable))
            && facts.length == length,
        recorded == Ok::<(NodeKind, bool), Error>((NodeKind::RegularFile, executable))
            && facts.links == 1 && facts.length == length ==> matches,
{
}

/// A scan begins with the root alone, and only at a directory.
pub proof fn a_scan_begins_with_the_root(root_is_dir: bool, result: Result<LocalScan, Error>)
    requires
        call_ensures(LocalScan::new, (root_is_dir,), result),
    ensures
        result is Ok <==> root_is_dir,
        result matches Ok(scan) ==> {
            &&& scan@.entries.len() == 1
            &&& scan@.entries[0].path.len() == 0
            &&& scan@.entries[0].kind == NodeKind::Directory
            &&& !scan@.entries[0].executable
            &&& scan@.entries[0].length is None
            &&& scan@.names.len() == 0
        },
{
}

/// A visit takes a portable path that is Unicode as it is, notes its directory and its folded
/// name, and touches no entry; any other path is refused and nothing is noted.
pub proof fn a_visit_notes_the_name(
    scan: &mut LocalScan,
    name: Option<String>,
    path: Option<String>,
    result: Result<String, Error>,
)
    requires
        call_ensures(LocalScan::visit, (scan, name, path), result),
    ensures
        result is Ok <==> name is Some && path is Some && path_fault(path->0@) is None,
        final(scan)@.entries == old(scan)@.entries,
        result matches Ok(accepted) ==> {
            let names = final(scan)@.names;
            &&& accepted@ == path->0@
            &&& names.len() == old(scan)@.names.len() + 1
            &&& names.drop_last() == old(scan)@.names
            &&& names.last().0 == parent_of(path->0@)
            &&& names.last().1 == folded_of(name->0@)
        },
        result is Err ==> final(scan)@.names == old(scan)@.names,
{
    if result is Ok {
        assert(final(scan)@.names.drop_last() =~= old(scan)@.names);
    }
}

/// A record adds one entry, with the path and the length that were given, or is refused and adds
/// none.
pub proof fn a_record_adds_one_entry(
    scan: &mut LocalScan,
    path: String,
    facts: NativeFacts,
    result: Result<(), Error>,
)
    requires
        call_ensures(LocalScan::record, (scan, path, facts), result),
    ensures
        result is Ok <==> facts.is_dir || facts.is_file && facts.links <= 1,
        final(scan)@.names == old(scan)@.names,
        result is Ok ==> {
            let entries = final(scan)@.entries;
            &&& entries.len() == old(scan)@.entries.len() + 1
            &&& entries.drop_last() == old(scan)@.entries
            &&& entries.last().path == path@
            &&& entries.last().kind == NodeKind::Directory <==> facts.is_dir
            &&& entries.last().length is Some <==> !facts.is_dir
            &&& !facts.is_dir ==> entries.last().length == Some(facts.length)
            &&& entries.last().executable <==> !facts.is_dir && facts.mode & 0o111 != 0
        },
        result is Err ==> final(scan)@.entries == old(scan)@.entries,
{
    if result is Ok {
        assert(final(scan)@.entries.drop_last() =~= old(scan)@.entries);
    }
}

/// A scan ends with the recorded entries in path order, each of them and no other, exactly if no
/// two visited names of one directory fold together.
pub proof fn a_scan_ends_with_what_was_recorded(
    scan: LocalScan,
    result: Result<Vec<LocalEntry>, Error>,
    entry: LocalEntryView,
)
    requires
        call_ensures(LocalScan::finish, (scan,), result),
    ensures
        result is Ok <==> forall|i: int, j: int|
            0 <= i < j < scan@.names.len() ==> (#[trigger] scan@.names[i]) != (
            #[trigger] scan@.names[j]),
        result matches Ok(entries) ==> {
            &&& sorted(entries@)
            &&& entries_view(entries@).contains(entry) <==> scan@.entries.contains(entry)
        },
{
    if let Ok(entries) = result {
        let walked = choose|walked: Seq<LocalEntry>|
            entries_view(walked) == scan@.entries && #[trigger] same_by_key(walked, entries@);
        crate::order::same_by_key_same_items(walked, entries@);
        if entries_view(entries@).contains(entry) {
            let i = choose|i: int| 0 <= i < entries@.len() && entries_view(entries@)[i] == entry;
            assert(entries@.contains(entries@[i]));
            assert(walked.contains(entries@[i]));
            let k = choose|k: int| 0 <= k < walked.len() && walked[k] == entries@[i];
            assert(entries_view(walked)[k] == entry);
        }
        if entries_view(walked).contains(entry) {
            let k = choose|k: int| 0 <= k < walked.len() && entries_view(walked)[k] == entry;
            assert(walked.contains(walked[k]));
            assert(entries@.contains(walked[k]));
            let i = choose|i: int| 0 <= i < entries@.len() && entries@[i] == walked[k];
            assert(entries_view(entries@)[i] == entry);
        }
    }
}

} // verus!
