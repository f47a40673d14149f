use std::collections::BTreeMap;

use yinyang::error::{Error, ErrorKind};
use yinyang::filesystem::{
    BlobRef, ContentId, File, FilePart, FileRange, FileSource, Node, NodeAttrs,
};
use yinyang::identity::{
    CommitId, Digest, ExtensionId, FileVersionId, FsId, Generation, NodeId, VersionNumber,
};
use yinyang::path::Path;
use yinyang::publication::{
    adopt_format, after_replacement, recover_commit, require_format, require_head,
    requested_format, resolve_conflict, CommitNext, CommitOutcome, CommitStart, CreateOptions, Fs,
    HeadObservation, Observation, Replacement,
};
use yinyang::tree::Tree;
use yinyang::version::{Extension, FsFormat, FsHead, FsVersion};

/// A storage in memory, and the calls that a filesystem makes of it.
#[derive(Default)]
struct Memory {
    format: Option<(FsId, NodeId)>,
    head: Option<FsHead>,
    head_revision: u64,
    versions: BTreeMap<Vec<u8>, FsVersion>,
    next_blob: u64,
    fail_after_replace: bool,
}

fn format_of(stored: (FsId, NodeId)) -> FsFormat {
    FsFormat::new(stored.0, stored.1, Vec::new(), None)
}

impl Memory {
    fn write_version(&mut self, version: &FsVersion) -> BlobRef {
        self.next_blob += 1;
        let identity = self.next_blob.to_le_bytes();
        let mut digest = [0; 32];
        digest[..8].copy_from_slice(&identity);
        self.versions.insert(identity.to_vec(), version.clone());
        BlobRef::new(
            identity.to_vec(),
            ContentId::new(Digest::from_bytes(digest), 1),
        )
        .unwrap()
    }

    fn read_version(&self, reference: &BlobRef) -> Result<FsVersion, Error> {
        match self.versions.get(reference.as_bytes()) {
            Some(version) => Ok(version.clone()),
            None => Err(Error::new(
                ErrorKind::Corrupt,
                "read in-memory YinYang version",
                "referenced version is missing",
            )),
        }
    }

    fn observe_head(&self) -> Option<HeadObservation> {
        self.head.as_ref().map(|head| {
            HeadObservation::new(head.clone(), self.head_revision.to_le_bytes().to_vec())
        })
    }

    fn replace_head(&mut self, observed: &HeadObservation, next: FsHead) -> Replacement {
        if self.head.is_none() || observed.condition() != self.head_revision.to_le_bytes() {
            return Replacement::Refused;
        }
        self.head = Some(next);
        self.head_revision += 1;
        if self.fail_after_replace {
            self.fail_after_replace = false;
            return Replacement::Failed;
        }
        Replacement::Replaced
    }

    fn observe(&self, filesystem: &Fs<()>) -> Result<Observation, Error> {
        let head = require_head(self.observe_head())?;
        let version = self.read_version(head.version())?;
        filesystem.read_observation(head, version)
    }

    fn create(&mut self) -> Result<Fs<()>, Error> {
        let requested = requested_format(FsId::generate(), NodeId::generate(), CreateOptions::new());
        let format = match self.format {
            None => {
                self.format = Some((requested.fs(), requested.root()));
                requested
            }
            Some(stored) => adopt_format(&requested, Some(format_of(stored)))?,
        };
        let filesystem = Fs::attach(format, ());
        if self.head.is_none() {
            let genesis = filesystem.genesis()?;
            let blob = self.write_version(&genesis);
            self.head = Some(filesystem.genesis_head(blob)?);
            self.head_revision = 1;
        }
        self.observe(&filesystem)?;
        Ok(filesystem)
    }

    fn open(&self) -> Result<Fs<()>, Error> {
        let format = require_format(self.format.map(format_of))?;
        let filesystem = Fs::attach(format, ());
        self.observe(&filesystem)?;
        Ok(filesystem)
    }

    fn commit(
        &mut self,
        filesystem: &Fs<()>,
        observed: &Observation,
        id: CommitId,
        tree: Tree,
    ) -> Result<CommitOutcome, Error> {
        let successor = match filesystem.begin_commit(observed, id, tree)? {
            CommitStart::Committed { version } => return Ok(CommitOutcome::Committed { version }),
            CommitStart::Publish { successor } => successor,
        };
        let number = successor.number();
        let blob = self.write_version(&successor);
        let next = filesystem.next_head(observed, number, blob)?;
        let answer = self.replace_head(observed.observed_head(), next);
        match after_replacement(number, answer) {
            CommitNext::Committed { version } => Ok(CommitOutcome::Committed { version }),
            CommitNext::Resolve => Ok(resolve_conflict(&self.observe(filesystem)?, id)),
            CommitNext::Recover => {
                let current = self.observe(filesystem).ok();
                recover_commit(current.as_ref(), id).ok_or_else(|| {
                    Error::new(
                        ErrorKind::Storage,
                        "replace in-memory YinYang head",
                        "publication response was lost",
                    )
                })
            }
        }
    }
}

fn plain() -> NodeAttrs {
    NodeAttrs { executable: false }
}

fn path(text: &str) -> Path {
    Path::new(text.to_owned()).unwrap()
}

fn new_directory(id: NodeId) -> Node {
    Node::dir(id, Generation::first(), plain(), Generation::first())
}

fn advance_root_membership(tree: &mut Tree) {
    let root = tree.get(&Path::root()).unwrap().clone();
    let entries = root.dir_body().unwrap().entries_generation();
    tree.insert(
        Path::root(),
        Node::dir(
            root.id(),
            root.generation(),
            root.attrs(),
            entries.next().unwrap(),
        ),
    );
}

fn add_directory(tree: &Tree, name: &str, id: NodeId) -> Tree {
    let mut successor = tree.clone();
    advance_root_membership(&mut successor);
    successor.insert(path(name), new_directory(id));
    successor
}

fn number(value: u64) -> VersionNumber {
    VersionNumber::from_value(value)
}

fn content(fill: u8, length: u64) -> ContentId {
    ContentId::new(Digest::from_bytes([fill; 32]), length)
}

#[test]
fn creates_and_reopens_one_filesystem() {
    let mut storage = Memory::default();
    let left = storage.create().unwrap();
    let right = storage.create().unwrap();

    assert!(left.format().root() == right.format().root());
    let opened = storage.open().unwrap();
    let observed = storage.observe(&opened).unwrap();
    assert_eq!(observed.version().number().value(), 0);
    assert!(observed.tree().get(&Path::root()).unwrap().id() == left.format().root());
}

#[test]
fn a_new_filesystem_shows_its_genesis_tree() {
    let mut storage = Memory::default();
    storage.create().unwrap();
    let opened = storage.open().unwrap();
    let observed = storage.observe(&opened).unwrap();
    assert!(observed.version().commits().is_empty());
    let tree = observed.tree();
    assert_eq!(tree.len(), 1);
    let root = tree.get(&Path::root()).unwrap();
    assert!(root.id() == opened.format().root());
    assert_eq!(root.generation().value(), 1);
    assert!(!root.attrs().executable);
    assert_eq!(root.dir_body().unwrap().entries_generation().value(), 1);
}

#[test]
fn publishes_and_retries_one_commit() {
    let mut storage = Memory::default();
    let filesystem = storage.create().unwrap();
    let observed = storage.observe(&filesystem).unwrap();
    let commit = CommitId::generate();
    let successor = add_directory(observed.tree(), "dir", NodeId::generate());

    assert_eq!(
        storage
            .commit(&filesystem, &observed, commit, successor.clone())
            .unwrap(),
        CommitOutcome::Committed { version: number(1) }
    );
    assert_eq!(
        storage
            .commit(&filesystem, &observed, commit, successor)
            .unwrap(),
        CommitOutcome::Committed { version: number(1) }
    );

    let reopened = storage.open().unwrap();
    let current = storage.observe(&reopened).unwrap();
    assert!(current.tree().get(&path("dir")).is_some());
    assert_eq!(current.version().commits().len(), 1);
    assert!(current.version().commits()[0].id() == commit);
    assert_eq!(
        storage
            .commit(&reopened, &current, commit, current.tree().clone())
            .unwrap(),
        CommitOutcome::Committed { version: number(1) }
    );
}

#[test]
fn reports_conflict_for_competing_observations() {
    let mut storage = Memory::default();
    let filesystem = storage.create().unwrap();
    let first = storage.observe(&filesystem).unwrap();
    let second = storage.observe(&filesystem).unwrap();

    let first_tree = add_directory(first.tree(), "first", NodeId::generate());
    let second_tree = add_directory(second.tree(), "second", NodeId::generate());
    assert!(matches!(
        storage
            .commit(&filesystem, &first, CommitId::generate(), first_tree)
            .unwrap(),
        CommitOutcome::Committed { .. }
    ));
    assert_eq!(
        storage
            .commit(&filesystem, &second, CommitId::generate(), second_tree)
            .unwrap(),
        CommitOutcome::Conflict { current: number(1) }
    );
}

#[test]
fn resolves_a_lost_publication_response() {
    let mut storage = Memory::default();
    let filesystem = storage.create().unwrap();
    let observed = storage.observe(&filesystem).unwrap();
    let successor = add_directory(observed.tree(), "durable", NodeId::generate());
    storage.fail_after_replace = true;

    assert_eq!(
        storage
            .commit(&filesystem, &observed, CommitId::generate(), successor)
            .unwrap(),
        CommitOutcome::Committed { version: number(1) }
    );
}

#[test]
fn requires_directory_generation_for_membership_changes() {
    let mut storage = Memory::default();
    let filesystem = storage.create().unwrap();
    let observed = storage.observe(&filesystem).unwrap();
    let mut invalid = observed.tree().clone();
    invalid.insert(path("child"), new_directory(NodeId::generate()));

    let error = storage
        .commit(&filesystem, &observed, CommitId::generate(), invalid)
        .unwrap_err();
    assert_eq!(error.kind(), ErrorKind::Invalid);
}

#[test]
fn rejects_duplicate_nodes_and_missing_parents() {
    let mut storage = Memory::default();
    let filesystem = storage.create().unwrap();
    let observed = storage.observe(&filesystem).unwrap();
    let node = NodeId::generate();
    let mut duplicate = add_directory(observed.tree(), "first", node);
    duplicate.insert(path("second"), new_directory(node));
    assert_eq!(
        storage
            .commit(&filesystem, &observed, CommitId::generate(), duplicate)
            .unwrap_err()
            .kind(),
        ErrorKind::Invalid
    );

    let mut missing_parent = observed.tree().clone();
    missing_parent.insert(path("missing/child"), new_directory(NodeId::generate()));
    assert_eq!(
        storage
            .commit(&filesystem, &observed, CommitId::generate(), missing_parent)
            .unwrap_err()
            .kind(),
        ErrorKind::Invalid
    );
}

#[test]
fn rejects_case_folding_collisions_within_a_directory() {
    let mut storage = Memory::default();
    let filesystem = storage.create().unwrap();
    let observed = storage.observe(&filesystem).unwrap();
    let mut successor = observed.tree().clone();
    advance_root_membership(&mut successor);
    successor.insert(path("Readme"), new_directory(NodeId::generate()));
    successor.insert(path("README"), new_directory(NodeId::generate()));

    let error = storage
        .commit(&filesystem, &observed, CommitId::generate(), successor)
        .unwrap_err();
    assert_eq!(error.kind(), ErrorKind::Invalid);
    assert_eq!(
        error.message(),
        "directory contains a case-folding name collision"
    );
}

#[test]
fn requires_node_generation_for_file_changes() {
    let mut storage = Memory::default();
    let filesystem = storage.create().unwrap();
    let genesis = storage.observe(&filesystem).unwrap();
    let node = NodeId::generate();
    let file = |fill: u8| {
        Node::file(
            node,
            Generation::first(),
            plain(),
            File::new(FileVersionId::from_bytes([fill; 16]), content(fill, 0), Vec::new()).unwrap(),
        )
    };
    let mut first = genesis.tree().clone();
    advance_root_membership(&mut first);
    first.insert(path("file"), file(1));
    storage
        .commit(&filesystem, &genesis, CommitId::generate(), first)
        .unwrap();

    let observed = storage.observe(&filesystem).unwrap();
    let mut changed = observed.tree().clone();
    changed.insert(path("file"), file(2));
    assert_eq!(
        storage
            .commit(&filesystem, &observed, CommitId::generate(), changed)
            .unwrap_err()
            .kind(),
        ErrorKind::Invalid
    );
}

#[test]
fn preserves_node_generation_across_rename() {
    let mut storage = Memory::default();
    let filesystem = storage.create().unwrap();
    let genesis = storage.observe(&filesystem).unwrap();
    let node_id = NodeId::generate();
    let tree = add_directory(genesis.tree(), "before", node_id);
    storage
        .commit(&filesystem, &genesis, CommitId::generate(), tree)
        .unwrap();
    let observed = storage.observe(&filesystem).unwrap();
    let mut renamed = observed.tree().clone();
    let node = renamed.remove(&path("before")).unwrap();
    renamed.insert(path("after"), node);
    advance_root_membership(&mut renamed);

    storage
        .commit(&filesystem, &observed, CommitId::generate(), renamed)
        .unwrap();
    let current = storage.observe(&filesystem).unwrap();
    assert_eq!(
        current
            .tree()
            .get(&path("after"))
            .unwrap()
            .generation()
            .value(),
        Generation::first().value()
    );
}

#[test]
fn validates_file_part_coverage_and_blobs() {
    let blob = BlobRef::new(b"blob".to_vec(), content(1, 8)).unwrap();
    let part = |start: u64, end: u64, offset: u64| {
        FilePart::new(
            FileRange::new(start, end - start).unwrap(),
            offset,
            FileSource::new(blob.clone(), Vec::new()),
        )
    };
    let first = part(0, 4, 0).unwrap();
    let second = part(5, 8, 4).unwrap();

    let version = FileVersionId::from_bytes([3; 16]);
    assert_eq!(
        File::new(version, content(2, 8), vec![first, second])
            .unwrap_err()
            .kind(),
        ErrorKind::Invalid
    );
    assert_eq!(part(0, 5, 4).unwrap_err().kind(), ErrorKind::Invalid);
    let last = part(0, 4, 4).unwrap();
    assert_eq!(
        last.source_offset() + last.range().length(),
        last.source().content().length()
    );
    assert!(part(0, 4, u64::MAX).is_err());
    let whole = part(0, 8, 0).unwrap();
    assert!(File::new(version, content(2, 8), vec![whole]).is_ok());
}

#[test]
fn accepts_only_canonical_portable_paths() {
    assert!(Path::new("".to_owned()).unwrap().same(&Path::root()));
    assert!(Path::new("dir/file".to_owned()).is_ok());
    for invalid in ["/rooted", "trailing/", "double//slash", ".", "CON", "bad?"] {
        assert_eq!(
            Path::new(invalid.to_owned()).unwrap_err().kind(),
            ErrorKind::Invalid
        );
    }
}

#[test]
fn rejects_a_missing_referenced_version() {
    let mut storage = Memory::default();
    let filesystem = storage.create().unwrap();
    let current = storage.head.as_ref().unwrap().current().blob().as_bytes().to_vec();
    storage.versions.remove(&current);

    let error = storage.observe(&filesystem).unwrap_err();
    assert_eq!(error.kind(), ErrorKind::Corrupt);
}

#[test]
fn reopening_needs_the_same_configuration() {
    let fs = FsId::generate();
    let root = NodeId::generate();
    let extension = || Extension::new(ExtensionId::from_bytes([7; 16]), vec![1, 2]);
    let requested = requested_format(
        FsId::generate(),
        NodeId::generate(),
        CreateOptions::new().with_decodings(vec![extension()]),
    );
    let existing = FsFormat::new(fs, root, vec![extension()], None);
    let adopted = adopt_format(&requested, Some(existing)).unwrap();
    assert!(adopted.fs() == fs && adopted.root() == root);

    let other = FsFormat::new(fs, root, Vec::new(), None);
    assert_eq!(
        adopt_format(&requested, Some(other)).unwrap_err().kind(),
        ErrorKind::Conflict
    );
    assert_eq!(
        adopt_format(&requested, None).unwrap_err().kind(),
        ErrorKind::Storage
    );
    assert_eq!(require_format(None).unwrap_err().kind(), ErrorKind::NotFound);
    assert_eq!(require_head(None).unwrap_err().kind(), ErrorKind::NotFound);
}

#[test]
fn trees_keep_their_paths_in_byte_order() {
    let mut tree = Tree::genesis(NodeId::generate());
    for name in ["b", "a", "a/b", "a-b"] {
        tree.insert(path(name), new_directory(NodeId::generate()));
    }
    let listed: Vec<&str> = tree.iter().iter().map(|entry| entry.path.as_str()).collect();
    assert_eq!(listed, vec!["", "a", "a-b", "a/b", "b"]);
    assert_eq!(tree.len(), 5);
    assert!(tree.remove(&path("a/b")).is_some());
    assert!(tree.remove(&path("a/b")).is_none());
    assert_eq!(path("a/b").parent().unwrap().as_str(), "a");
    assert_eq!(path("a/b").name(), Some("b"));
    assert!(Path::root().parent().is_none());
}

#[test]
fn trees_are_made_of_entries_with_one_path_each() {
    let file = File::new(FileVersionId::generate(), content(1, 0), Vec::new()).unwrap();
    let version = file.version();
    let node = Node::file(NodeId::generate(), Generation::first(), plain(), file);
    assert!(node.dir_body().is_none());
    assert!(node.file_body().unwrap().version() == version);
    let root = new_directory(NodeId::generate());
    assert!(root.file_body().is_none());

    let tree = Tree::from_entries(vec![
        (path("file"), node.clone()),
        (Path::root(), root.clone()),
    ])
    .unwrap();
    assert_eq!(tree.len(), 2);
    assert!(tree.get(&path("file")).unwrap().id() == node.id());
    assert!(tree.get(&Path::root()).unwrap().id() == root.id());
    let twice = Tree::from_entries(vec![(path("file"), node.clone()), (path("file"), node)]);
    assert_eq!(twice.err().unwrap().kind(), ErrorKind::Invalid);
}

#[test]
fn head_extensions_are_part_of_the_configuration() {
    let extension = |fill: u8| Extension::new(ExtensionId::from_bytes([9; 16]), vec![fill]);
    let options = CreateOptions::new().with_head_extension(extension(1));
    let requested = requested_format(FsId::generate(), NodeId::generate(), options);
    assert!(requested.head_extension().unwrap().same(&extension(1)));
    let existing = |head| FsFormat::new(FsId::generate(), NodeId::generate(), Vec::new(), head);
    assert!(requested.has_same_configuration(&existing(Some(extension(1)))));
    assert!(!requested.has_same_configuration(&existing(Some(extension(2)))));
    assert!(!requested.has_same_configuration(&existing(None)));
}

#[test]
fn trees_follow_themselves_and_count_their_changes() {
    let root = NodeId::generate();
    let tree = Tree::genesis(root);
    assert!(tree.validate_successor(&tree, root, 0).is_ok());

    let child = NodeId::generate();
    let grown = add_directory(&tree, "child", child);
    assert!(tree.validate_successor(&grown, root, 0).is_ok());
    assert!(grown.validate_successor(&grown, root, 0).is_ok());
    let entries = |tree: &Tree| {
        let top = tree.get(&Path::root()).unwrap();
        (top.generation().value(), top.dir_body().unwrap().entries_generation().value())
    };
    assert_eq!(entries(&tree), (1, 1));
    assert_eq!(entries(&grown), (1, 2));

    let mut marked = grown.clone();
    let executable = NodeAttrs { executable: true };
    let first = Generation::first();
    marked.insert(path("child"), Node::dir(child, first, executable, first));
    assert!(grown.validate_successor(&marked, root, 0).is_err());
    marked.insert(
        path("child"),
        Node::dir(child, first.next().unwrap(), executable, first),
    );
    assert!(grown.validate_successor(&marked, root, 0).is_ok());
}
