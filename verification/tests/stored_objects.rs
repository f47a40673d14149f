use yinyang::authority::{
    exchanged, require_default, AuthorityHead, AuthorityObservation, AuthorityRoot, BoundedBuffer,
    CollectionFence, DefaultAuthorityAccess, ObservedControl, WriteEnd,
};
use yinyang::error::{from_io, from_storage, Error, ErrorKind, LocalFailure, StorageFailure, StorageStatus};
use yinyang::filesystem::{BlobRef, ContentId, FileRange, FileSource, FilePart};
use yinyang::hash::{content_id, digest, StreamHasher};
use yinyang::identity::{
    AuthorityId, CommitId, Digest, GcEpoch, Generation, NodeId, ObjectId,
};
use yinyang::model::{
    ChangeCursor, NamespaceRevision, ObjectClass, ObjectLocator, ObjectRef, StreamKind, StreamRef,
};
use yinyang::objects::{
    check_version_reference, existed, observe_head, read_version, replaced, validate_operator,
    version_path, version_reference, HEAD_PATH,
};
use yinyang::path::Path;
use yinyang::persistence::{
    decode_head, decode_version, encode_head, encode_version, Snapshot, SnapshotBody,
    SnapshotEntry, SnapshotNode, SnapshotPart, StoredRef,
};
use yinyang::segments::{
    check_fetch, object_length, read_immutable, segment_part_bytes, verify_copy, ContentHasher,
    CopyStep, DataSegmentWriter, ImmutableWriter, Placement, RangeReader,
};
use yinyang::streams::{RecordStreamReader, RecordStreamWriter, StreamStep};
use yinyang::volume::Capabilities;
use yinyang::wire::{
    claims_hold, read_version as read_wire_version, WireBlobRef, WireEntry, WireFile,
    WireFilePart, WireNode, WireNodeBody, WireVersion,
};

use bincode::de::{Decode, Decoder};
use bincode::error::DecodeError;
use yinyang::codec::Reader;

fn genesis_snapshot(root: NodeId) -> Snapshot {
    Snapshot::new(
        vec![SnapshotEntry {
            path: Path::root(),
            node: SnapshotNode {
                id: root,
                generation: Generation::first(),
                executable: false,
                body: SnapshotBody::Dir {
                    entries_generation: Generation::first(),
                },
            },
        }],
        Vec::new(),
    )
    .unwrap()
}

#[test]
fn version_wire_contract_is_stable() {
    let root = NodeId::from_bytes([1; 16]);
    let version = genesis_snapshot(root);

    let actual = encode_version(&version).unwrap();
    let mut expected = b"YYVER001".to_vec();
    expected.extend_from_slice(&1_u64.to_le_bytes());
    expected.extend_from_slice(&0_u64.to_le_bytes());
    expected.extend_from_slice(&[1; 16]);
    expected.extend_from_slice(&1_u64.to_le_bytes());
    expected.push(0);
    expected.extend_from_slice(&0_u32.to_le_bytes());
    expected.extend_from_slice(&1_u64.to_le_bytes());
    expected.extend_from_slice(&0_u64.to_le_bytes());

    assert_eq!(actual, expected);
    let decoded = decode_version(&actual).unwrap();
    assert_eq!(decoded.entries().len(), 1);
    assert!(decoded.entries()[0].path.is_root());
    assert!(decoded.entries()[0].node.id == root);
    assert_eq!(decoded.entries()[0].node.generation.value(), 1);
    assert!(!decoded.entries()[0].node.executable);
    assert!(decoded.commits().is_empty());
    assert_eq!(encode_version(&decoded).unwrap(), expected);
}

#[test]
fn head_wire_contract_is_stable() {
    let content = ContentId::new(Digest::from_bytes([2; 32]), 3);
    let reference = StoredRef::new(b"v".to_vec(), content);

    let actual = encode_head(&reference).unwrap();
    let mut expected = b"YYHEAD01".to_vec();
    expected.extend_from_slice(&1_u64.to_le_bytes());
    expected.push(b'v');
    expected.extend_from_slice(&[2; 32]);
    expected.extend_from_slice(&3_u64.to_le_bytes());
    let checksum = blake3::hash(&expected);
    expected.extend_from_slice(checksum.as_bytes());

    assert_eq!(actual, expected);
    assert!(decode_head(&actual).unwrap().same(&reference));
}

#[test]
fn stored_bytes_are_fixed_width_bincode() {
    let config = bincode::config::standard().with_fixed_int_encoding();
    let content = ContentId::new(Digest::from_bytes([7; 32]), 12);
    let blob = ContentId::new(Digest::from_bytes([8; 32]), 300);
    let file = WireFile {
        content,
        parts: vec![WireFilePart {
            start: 0,
            end: 12,
            blob_offset: 258,
            blob: WireBlobRef {
                reference: b"blob".to_vec(),
                content: blob,
            },
        }],
    };
    let root = genesis_snapshot(NodeId::from_bytes([1; 16]));
    let mut entries: Vec<SnapshotEntry> = vec![SnapshotEntry {
        path: Path::new("caf\u{e9}".to_owned()).unwrap(),
        node: SnapshotNode {
            id: NodeId::from_bytes([2; 16]),
            generation: Generation::from_value(0x0102_0304_0506_0708),
            executable: true,
            body: SnapshotBody::File {
                file: file.into_file().unwrap(),
            },
        },
    }];
    entries.push(SnapshotEntry {
        path: Path::root(),
        node: SnapshotNode {
            id: root.entries()[0].node.id,
            generation: Generation::first(),
            executable: false,
            body: SnapshotBody::Dir {
                entries_generation: Generation::from_value(9),
            },
        },
    });
    let commits = vec![CommitId::from_bytes([3; 16]), CommitId::from_bytes([4; 16])];
    let snapshot = Snapshot::new(entries, commits).unwrap();

    let directory = (String::new(), [1_u8; 16], 1_u64, false, (0_u32, 9_u64));
    let part = (0_u64, 12_u64, 258_u64, (b"blob".to_vec(), [8_u8; 32], 300_u64));
    let regular = (
        "caf\u{e9}".to_owned(),
        [2_u8; 16],
        0x0102_0304_0506_0708_u64,
        true,
        (1_u32, ([7_u8; 32], 12_u64), vec![part]),
    );
    let commits = vec![[3_u8; 16], [4_u8; 16]];
    let mut expected = b"YYVER001".to_vec();
    expected.extend(bincode::encode_to_vec((2_u64, directory, regular, commits), config).unwrap());
    let actual = encode_version(&snapshot).unwrap();
    assert_eq!(actual, expected);
    let decoded = decode_version(&actual).unwrap();
    assert_eq!(encode_version(&decoded).unwrap(), actual);

    let head = StoredRef::new(b"head".to_vec(), blob);
    let stored = encode_head(&head).unwrap();
    let wire = (b"head".to_vec(), [8_u8; 32], 300_u64);
    let body = bincode::encode_to_vec(wire, config).unwrap();
    assert_eq!(&stored[8..stored.len() - 32], &body[..]);
}

/// What a version decodes to with bincode.
#[allow(dead_code)]
struct Version {
    entries: Vec<Entry>,
    commits: Vec<[u8; 16]>,
}

#[allow(dead_code)]
struct Entry {
    path: String,
    node: Node,
}

#[allow(dead_code)]
struct Node {
    id: [u8; 16],
    generation: u64,
    executable: bool,
    body: Body,
}

#[allow(dead_code)]
enum Body {
    Dir { entries_generation: u64 },
    File(Regular),
}

#[allow(dead_code)]
struct Regular {
    content: Content,
    parts: Vec<Part>,
}

#[allow(dead_code)]
struct Part {
    start: u64,
    end: u64,
    blob_offset: u64,
    blob: Blob,
}

#[allow(dead_code)]
struct Blob {
    reference: Vec<u8>,
    content: Content,
}

#[allow(dead_code)]
struct Content {
    digest: [u8; 32],
    length: u64,
}

impl<C> Decode<C> for Version {
    fn decode<D: Decoder<Context = C>>(decoder: &mut D) -> Result<Self, DecodeError> {
        Ok(Self {
            entries: Decode::decode(decoder)?,
            commits: Decode::decode(decoder)?,
        })
    }
}

impl<C> Decode<C> for Entry {
    fn decode<D: Decoder<Context = C>>(decoder: &mut D) -> Result<Self, DecodeError> {
        Ok(Self {
            path: Decode::decode(decoder)?,
            node: Decode::decode(decoder)?,
        })
    }
}

impl<C> Decode<C> for Node {
    fn decode<D: Decoder<Context = C>>(decoder: &mut D) -> Result<Self, DecodeError> {
        Ok(Self {
            id: Decode::decode(decoder)?,
            generation: Decode::decode(decoder)?,
            executable: Decode::decode(decoder)?,
            body: Decode::decode(decoder)?,
        })
    }
}

impl<C> Decode<C> for Body {
    fn decode<D: Decoder<Context = C>>(decoder: &mut D) -> Result<Self, DecodeError> {
        let variant: u32 = Decode::decode(decoder)?;
        match variant {
            0 => Ok(Self::Dir {
                entries_generation: Decode::decode(decoder)?,
            }),
            1 => Ok(Self::File(Decode::decode(decoder)?)),
            _ => Err(DecodeError::Other("unknown body")),
        }
    }
}

impl<C> Decode<C> for Regular {
    fn decode<D: Decoder<Context = C>>(decoder: &mut D) -> Result<Self, DecodeError> {
        Ok(Self {
            content: Decode::decode(decoder)?,
            parts: Decode::decode(decoder)?,
        })
    }
}

impl<C> Decode<C> for Part {
    fn decode<D: Decoder<Context = C>>(decoder: &mut D) -> Result<Self, DecodeError> {
        Ok(Self {
            start: Decode::decode(decoder)?,
            end: Decode::decode(decoder)?,
            blob_offset: Decode::decode(decoder)?,
            blob: Decode::decode(decoder)?,
        })
    }
}

impl<C> Decode<C> for Blob {
    fn decode<D: Decoder<Context = C>>(decoder: &mut D) -> Result<Self, DecodeError> {
        Ok(Self {
            reference: Decode::decode(decoder)?,
            content: Decode::decode(decoder)?,
        })
    }
}

impl<C> Decode<C> for Content {
    fn decode<D: Decoder<Context = C>>(decoder: &mut D) -> Result<Self, DecodeError> {
        Ok(Self {
            digest: Decode::decode(decoder)?,
            length: Decode::decode(decoder)?,
        })
    }
}

fn bincode_reads<const LIMIT: usize>(body: &[u8]) -> bool {
    bincode::decode_from_slice::<Version, _>(
        body,
        bincode::config::standard()
            .with_fixed_int_encoding()
            .with_limit::<LIMIT>(),
    )
    .is_ok()
}

fn wire_directory(path: &str) -> WireEntry {
    WireEntry {
        path: path.to_owned(),
        node: WireNode {
            id: [1; 16],
            generation: 1,
            executable: false,
            body: WireNodeBody::Dir {
                entries_generation: 1,
            },
        },
    }
}

fn directory_bytes(path: &str) -> Vec<u8> {
    let mut bytes = (path.len() as u64).to_le_bytes().to_vec();
    bytes.extend_from_slice(path.as_bytes());
    bytes.extend_from_slice(&[1; 16]);
    bytes.extend_from_slice(&1_u64.to_le_bytes());
    bytes.push(0);
    bytes.extend_from_slice(&0_u32.to_le_bytes());
    bytes.extend_from_slice(&1_u64.to_le_bytes());
    bytes
}

#[test]
fn reading_claims_what_bincode_claims() {
    assert_eq!(std::mem::size_of::<WireEntry>(), std::mem::size_of::<Entry>());
    assert_eq!(std::mem::size_of::<WireFilePart>(), std::mem::size_of::<Part>());

    // Two short directories claim more than their bytes before they are read.
    let size = std::mem::size_of::<WireEntry>();
    let directories = WireVersion {
        entries: vec![wire_directory(""), wire_directory("a")],
        commits: Vec::new(),
    };
    let at_first = 8 + 2 * size;
    assert!(claims_hold(&directories, at_first));
    assert!(!claims_hold(&directories, at_first - 1));

    let mut body = 2_u64.to_le_bytes().to_vec();
    body.extend(directory_bytes(""));
    body.extend(directory_bytes("a"));
    body.extend_from_slice(&0_u64.to_le_bytes());
    let mut reader = Reader::new(&body);
    let read = read_wire_version(&mut reader).unwrap();
    assert_eq!(read.entries.len(), 2);
    assert_eq!(bincode_reads::<200>(&body), claims_hold(&read, 200));
    assert_eq!(bincode_reads::<247>(&body), claims_hold(&read, 247));
    assert_eq!(bincode_reads::<248>(&body), claims_hold(&read, 248));
    assert_eq!(bincode_reads::<300>(&body), claims_hold(&read, 300));

    // The parts of a file are claimed while a later entry still is.
    let mut body = 2_u64.to_le_bytes().to_vec();
    let part_bytes = |reference: &[u8]| {
        let mut bytes = vec![0; 24];
        bytes.extend_from_slice(&(reference.len() as u64).to_le_bytes());
        bytes.extend_from_slice(reference);
        bytes.extend_from_slice(&[0; 40]);
        bytes
    };
    body.extend_from_slice(&1_u64.to_le_bytes());
    body.push(b'f');
    body.extend_from_slice(&[1; 16]);
    body.extend_from_slice(&1_u64.to_le_bytes());
    body.push(1);
    body.extend_from_slice(&1_u32.to_le_bytes());
    body.extend_from_slice(&[0; 40]);
    body.extend_from_slice(&3_u64.to_le_bytes());
    for _ in 0..3 {
        body.extend(part_bytes(b"xy"));
    }
    body.extend(directory_bytes("g"));
    body.extend_from_slice(&0_u64.to_le_bytes());
    let mut reader = Reader::new(&body);
    let read = read_wire_version(&mut reader).unwrap();
    assert_eq!(bincode_reads::<450>(&body), claims_hold(&read, 450));
    assert_eq!(bincode_reads::<475>(&body), claims_hold(&read, 475));
    assert_eq!(bincode_reads::<477>(&body), claims_hold(&read, 477));
    assert_eq!(bincode_reads::<478>(&body), claims_hold(&read, 478));
    assert_eq!(bincode_reads::<479>(&body), claims_hold(&read, 479));
    assert_eq!(bincode_reads::<600>(&body), claims_hold(&read, 600));
    assert!(!claims_hold(&read, 450));
    assert!(claims_hold(&read, 600));
}

#[test]
fn versions_that_claim_too_much_are_corrupt() {
    const LIMIT: usize = 64 * 1024 * 1024;
    let most = (LIMIT - 8) / std::mem::size_of::<WireEntry>();
    let version = |count: usize| {
        let mut bytes = b"YYVER001".to_vec();
        bytes.extend_from_slice(&(count as u64).to_le_bytes());
        for _ in 0..count {
            bytes.extend(directory_bytes("a"));
        }
        bytes.extend_from_slice(&0_u64.to_le_bytes());
        bytes.push(7);
        bytes
    };
    let fitting = version(most);
    assert!(fitting.len() <= LIMIT);
    assert!(bincode_reads::<LIMIT>(&fitting[8..]));
    assert_eq!(
        decode_version(&fitting).unwrap_err().message(),
        "version contains trailing bytes"
    );
    let over = version(most + 1);
    assert!(!bincode_reads::<LIMIT>(&over[8..]));
    let error = decode_version(&over).unwrap_err();
    assert_eq!(error.kind(), ErrorKind::Corrupt);
    assert_eq!(error.message(), "version body is invalid");
}

#[test]
fn stored_references_may_be_empty() {
    let content = ContentId::new(Digest::from_bytes([2; 32]), 3);
    let reference = StoredRef::new(Vec::new(), content);
    let bytes = encode_head(&reference).unwrap();
    let decoded = decode_head(&bytes).unwrap();
    assert!(decoded.same(&reference));
    assert!(decoded.as_bytes().is_empty());
    assert!(!decoded.same(&StoredRef::new(b"v".to_vec(), content)));

    let part = SnapshotPart::new(0, 3, 0, reference).unwrap();
    assert_eq!(part.range().length(), 3);
    assert_eq!(part.blob_offset(), 0);
    assert!(part.blob().as_bytes().is_empty());
    let blob = |length: u64| {
        StoredRef::new(Vec::new(), ContentId::new(Digest::from_bytes([2; 32]), length))
    };
    assert_eq!(
        SnapshotPart::new(3, 3, 0, blob(3)).unwrap_err().message(),
        "file range is empty or overflows"
    );
    assert_eq!(
        SnapshotPart::new(0, 3, 1, blob(3)).unwrap_err().message(),
        "file part exceeds its source content"
    );
}

#[test]
fn damaged_records_are_corrupt() {
    let version = encode_version(&genesis_snapshot(NodeId::from_bytes([1; 16]))).unwrap();
    let mut trailing = version.clone();
    trailing.push(0);
    assert_eq!(
        decode_version(&trailing).unwrap_err().message(),
        "version contains trailing bytes"
    );
    assert_eq!(
        decode_version(&version[..version.len() - 1]).unwrap_err().message(),
        "version body is invalid"
    );
    assert_eq!(
        decode_version(b"YYVER002").unwrap_err().message(),
        "version envelope is invalid"
    );

    let reference =
        StoredRef::new(b"v".to_vec(), ContentId::new(Digest::from_bytes([2; 32]), 3));
    let mut head = encode_head(&reference).unwrap();
    assert_eq!(
        decode_head(&head[..20]).unwrap_err().message(),
        "head envelope is invalid"
    );
    head[10] ^= 1;
    let error = decode_head(&head).unwrap_err();
    assert_eq!(error.kind(), ErrorKind::Corrupt);
    assert_eq!(error.message(), "head checksum is invalid");
}

#[test]
fn versions_with_files_and_commits_are_read_back() {
    let blob = BlobRef::new(
        b"segment".to_vec(),
        ContentId::new(Digest::from_bytes([5; 32]), 9),
    )
    .unwrap();
    let part = FilePart::new(
        FileRange::new(0, 4).unwrap(),
        5,
        FileSource::new(blob, Vec::new()),
    )
    .unwrap();
    assert_eq!(part.source_offset(), 5);
    let version = Snapshot::new(
        vec![
            SnapshotEntry {
                path: Path::root(),
                node: SnapshotNode {
                    id: NodeId::from_bytes([1; 16]),
                    generation: Generation::first(),
                    executable: false,
                    body: SnapshotBody::Dir {
                        entries_generation: Generation::from_value(7),
                    },
                },
            },
            SnapshotEntry {
                path: Path::new("sub".to_owned()).unwrap(),
                node: SnapshotNode {
                    id: NodeId::from_bytes([2; 16]),
                    generation: Generation::from_value(3),
                    executable: true,
                    body: SnapshotBody::Dir {
                        entries_generation: Generation::first(),
                    },
                },
            },
        ],
        vec![CommitId::from_bytes([8; 16]), CommitId::from_bytes([9; 16])],
    )
    .unwrap();
    let bytes = encode_version(&version).unwrap();
    let read = decode_version(&bytes).unwrap();
    assert_eq!(read.entries().len(), 2);
    assert_eq!(read.entries()[1].path.as_str(), "sub");
    assert!(read.entries()[1].node.executable);
    assert_eq!(read.entries()[1].node.generation.value(), 3);
    assert_eq!(read.commits().len(), 2);
    assert!(read.commits()[1] == CommitId::from_bytes([9; 16]));
    assert_eq!(encode_version(&read).unwrap(), bytes);
}

#[test]
fn versions_stand_under_the_digest_of_their_bytes() {
    let bytes = encode_version(&genesis_snapshot(NodeId::from_bytes([1; 16]))).unwrap();
    let content = content_id(&bytes);
    assert_eq!(
        version_path(content),
        format!(".yinyang/versions/{}", blake3::hash(&bytes).to_hex())
    );
    let reference = version_reference(content);
    assert_eq!(
        check_version_reference(&reference).unwrap(),
        version_path(content)
    );
    assert!(read_version(&reference, Some(bytes.clone())).is_ok());
    assert_eq!(
        read_version(&reference, None).unwrap_err().message(),
        "referenced version is missing"
    );
    let mut other = bytes;
    other.push(1);
    assert_eq!(
        read_version(&reference, Some(other)).unwrap_err().message(),
        "version does not match its reference"
    );
    let wrong = StoredRef::new(b"elsewhere".to_vec(), content);
    assert_eq!(
        check_version_reference(&wrong).unwrap_err().message(),
        "version reference is invalid"
    );
    assert_eq!(HEAD_PATH, ".yinyang/head");
}

#[test]
fn heads_are_observed_with_their_revision() {
    let reference =
        StoredRef::new(b"v".to_vec(), ContentId::new(Digest::from_bytes([2; 32]), 3));
    let bytes = encode_head(&reference).unwrap();
    assert!(observe_head(None).unwrap().is_none());
    let head = observe_head(Some((bytes.clone(), Some("\"etag\"".to_owned()))))
        .unwrap()
        .unwrap();
    assert!(head.version.same(&reference));
    assert_eq!(head.etag, "\"etag\"");
    let error = observe_head(Some((bytes, None))).unwrap_err();
    assert_eq!(error.kind(), ErrorKind::Unsupported);
}

#[test]
fn conditional_writes_tell_lost_races_from_failures() {
    assert_eq!(existed(WriteEnd::Written), Ok(false));
    assert_eq!(existed(WriteEnd::Failed(StorageFailure::AlreadyExists)), Ok(true));
    assert_eq!(existed(WriteEnd::Failed(StorageFailure::ConditionNotMatch)), Ok(true));
    assert_eq!(
        existed(WriteEnd::Failed(StorageFailure::NotFound)),
        Err(StorageFailure::NotFound)
    );
    assert_eq!(replaced(WriteEnd::Written), Ok(true));
    assert_eq!(replaced(WriteEnd::Failed(StorageFailure::ConditionNotMatch)), Ok(false));
    assert_eq!(replaced(WriteEnd::Failed(StorageFailure::NotFound)), Ok(false));
    assert_eq!(
        replaced(WriteEnd::Failed(StorageFailure::AlreadyExists)),
        Err(StorageFailure::AlreadyExists)
    );
}

#[test]
fn storage_must_create_once_and_exchange() {
    let full = Capabilities {
        read: true,
        write: true,
        write_with_if_not_exists: true,
        write_with_if_match: true,
    };
    assert!(validate_operator(full).is_ok());
    let error = validate_operator(Capabilities {
        write_with_if_match: false,
        ..full
    })
    .unwrap_err();
    assert_eq!(error.kind(), ErrorKind::Unsupported);
}

/// A control object: its bytes and the number of times that it was written.
#[derive(Default)]
struct Control {
    object: Option<(Vec<u8>, u64)>,
}

impl Control {
    fn write(&mut self, value: &str, condition: Option<&str>) -> WriteEnd {
        let next = match (&self.object, condition) {
            (None, None) => 1,
            (Some(_), None) => return WriteEnd::Failed(StorageFailure::ConditionNotMatch),
            (Some((_, revision)), Some(condition)) if revision.to_string() == condition => {
                revision + 1
            }
            _ => return WriteEnd::Failed(StorageFailure::ConditionNotMatch),
        };
        self.object = Some((value.as_bytes().to_vec(), next));
        WriteEnd::Written
    }
}

#[test]
fn conditionally_publishes_control_records() {
    let mut control = Control::default();
    assert_eq!(exchanged(control.write("first", None)), Ok(true));
    assert_eq!(exchanged(control.write("stale", None)), Ok(false));

    let (bytes, _) = control.object.as_ref().unwrap();
    let mut buffer = BoundedBuffer::new("read Managed control", Some(5), 1024).unwrap();
    buffer = buffer.push("read Managed control", bytes.clone()).unwrap();
    assert_eq!(buffer.into_bytes(), b"first");
    assert_eq!(
        exchanged(WriteEnd::Failed(StorageFailure::PermissionDenied)),
        Err(StorageFailure::PermissionDenied)
    );
}

#[test]
fn binds_control_bytes_to_their_conditional_revision() {
    let observed = DefaultAuthorityAccess::observe(
        "main",
        Some(ObservedControl {
            value: authority_head(),
            revision: Some("\"revision-from-read\"".to_owned()),
        }),
    )
    .unwrap();
    assert_eq!(
        DefaultAuthorityAccess::exchange_condition("main", &observed).unwrap(),
        Some("\"revision-from-read\"".to_owned())
    );
}

#[test]
fn rejects_an_oversized_control_record_before_reading_its_body() {
    let error = BoundedBuffer::new("read Managed control", Some(33), 32)
        .err()
        .unwrap();
    assert_eq!(error.kind(), ErrorKind::Corrupt);
}

#[test]
fn keeps_the_streaming_size_limit_without_read_metadata() {
    let buffer = BoundedBuffer::new("read Managed control", None, 32).unwrap();
    let buffer = buffer.push("read Managed control", vec![0; 20]).unwrap();
    let error = buffer
        .push("read Managed control", vec![0; 13])
        .err()
        .unwrap();
    assert_eq!(error.kind(), ErrorKind::Corrupt);
}

#[test]
fn reads_bounded_objects_without_read_metadata() {
    let mut buffer = BoundedBuffer::new("read Managed control", None, 1024).unwrap();
    for piece in ["va", "lue"] {
        buffer = buffer
            .push("read Managed control", piece.as_bytes().to_vec())
            .unwrap();
    }
    assert_eq!(buffer.into_bytes(), b"value");
}

const HEADER: u64 = 8;
const TAIL: &[u8] = b"TAIL";

fn encode_record(text: &str) -> Vec<u8> {
    let mut bytes = vec![text.len() as u8];
    bytes.extend_from_slice(text.as_bytes());
    bytes
}

fn flush(writer: &mut RecordStreamWriter, object: &mut Vec<u8>) {
    if let Some(frame) = writer.take_frame() {
        let mut header = frame.records.to_le_bytes().to_vec();
        header.extend_from_slice(&(frame.payload.len() as u32).to_le_bytes());
        writer.frame_written(&header, &frame.payload).unwrap();
        object.extend_from_slice(&header);
        object.extend_from_slice(&frame.payload);
    }
}

fn write_stream(records: &[&str], maximum_frame: usize) -> (StreamRef, Vec<u8>) {
    let epoch = GcEpoch::from_value(7);
    let mut writer = RecordStreamWriter::open(
        epoch,
        ObjectClass::NamespaceSegment,
        StreamKind::NamespaceSnapshot,
        maximum_frame,
    );
    let mut object = Vec::new();
    for text in records {
        let record = encode_record(text);
        if writer.must_flush(&record) {
            flush(&mut writer, &mut object);
        }
        writer.write(&record).unwrap();
    }
    flush(&mut writer, &mut object);
    assert_eq!(writer.payload().0, object.len() as u64);
    let locator = writer.object().locator();
    let reference = writer.finish(TAIL).unwrap();
    assert!(reference.object.locator == locator);
    assert!(reference.object.locator.gc_epoch == epoch);
    assert!(reference.object.locator.class == ObjectClass::NamespaceSegment);
    assert!(reference.kind == StreamKind::NamespaceSnapshot);
    object.extend_from_slice(TAIL);
    (reference, object)
}

fn read_stream(reference: StreamRef, object: &[u8]) -> Result<Vec<String>, Error> {
    let mut reader = RecordStreamReader::open(reference, HEADER, TAIL.len() as u64)?;
    let mut place = 0_usize;
    let mut frame: Vec<u8> = Vec::new();
    let mut at = 0_usize;
    let mut texts = Vec::new();
    loop {
        match reader.step()? {
            StreamStep::Frame => {
                let header_end = reader.header_end()? as usize;
                let count = u32::from_le_bytes(object[place..place + 4].try_into().unwrap());
                let length = u32::from_le_bytes(object[place + 4..header_end].try_into().unwrap());
                let end = reader.frame_end(length as usize)? as usize;
                frame = object[place..end].to_vec();
                reader.frame_read(&frame, count);
                at = HEADER as usize;
                place = end;
            }
            StreamStep::Record => {
                let length = frame[at] as usize;
                let text = frame[at + 1..at + 1 + length].to_vec();
                texts.push(String::from_utf8(text).unwrap());
                at += 1 + length;
                reader.record_read(at);
            }
            StreamStep::Tail => reader.tail_read(&object[place..])?,
            StreamStep::Finished => return Ok(texts),
        }
    }
}

#[test]
fn streams_records_through_immutable_objects() {
    let (reference, object) = write_stream(&["alpha", "beta"], 1024);
    assert_eq!(
        read_stream(reference, &object).unwrap(),
        vec!["alpha".to_owned(), "beta".to_owned()]
    );

    let (reference, object) = write_stream(&["alpha", "beta", "gamma"], 11);
    assert_eq!(object.len(), 8 + 11 + 8 + 6 + 4);
    assert_eq!(read_stream(reference, &object).unwrap().len(), 3);
}

#[test]
fn streams_that_do_not_fit_their_reference_are_corrupt() {
    let (reference, object) = write_stream(&["alpha", "beta"], 1024);
    let mut flipped = object.clone();
    flipped[10] ^= 1;
    assert_eq!(
        read_stream(reference, &flipped).unwrap_err().message(),
        "stream payload does not match its reference"
    );
    let mut tail = object.clone();
    let last = tail.len() - 1;
    tail[last] ^= 1;
    assert_eq!(
        read_stream(reference, &tail).unwrap_err().message(),
        "object does not match its reference"
    );
    let mut count = object.clone();
    count[0] = 1;
    assert_eq!(
        read_stream(reference, &count).unwrap_err().message(),
        "frame record count does not match its payload"
    );
    let mut long = object.clone();
    long[4] = 200;
    assert_eq!(
        read_stream(reference, &long).unwrap_err().message(),
        "frame payload is truncated"
    );
    let mut short = reference;
    short.payload_length = 4;
    assert_eq!(
        read_stream(short, &object).unwrap_err().message(),
        "stream length does not match its reference"
    );
    short.object.encoded_length = 8;
    assert_eq!(
        read_stream(short, &object).unwrap_err().message(),
        "frame header is truncated"
    );
    assert!(reference
        .require(StreamKind::NamespaceSnapshot, ObjectClass::NamespaceSegment)
        .is_ok());
    assert_eq!(
        reference
            .require(StreamKind::NamespaceChanges, ObjectClass::NamespaceSegment)
            .unwrap_err()
            .kind(),
        ErrorKind::Corrupt
    );
}

fn copy(reader: &mut RangeReader, source: &[u8], chunk: usize, content: ContentId) -> Result<Vec<u8>, Error> {
    reader.begin_copy(content.length())?;
    let mut left = content.length();
    let mut given = 0_usize;
    let mut copied = StreamHasher::new();
    let mut output = Vec::new();
    loop {
        match reader.step(left) {
            CopyStep::Done => break,
            CopyStep::Refill => {
                let end = (given + chunk).min(source.len());
                let piece = if given < end {
                    Some(source[given..end].to_vec())
                } else {
                    None
                };
                given = end;
                reader.refill(piece)?;
            }
            CopyStep::Write(bytes) => {
                left -= bytes.len() as u64;
                copied.update(&bytes);
                output.extend_from_slice(&bytes);
            }
        }
    }
    verify_copy(&copied, content)?;
    Ok(output)
}

#[test]
fn round_trips_verified_segment_ranges() {
    let expected = b"streamed Managed data";
    let mut segments = DataSegmentWriter::new(GcEpoch::zero(), 1024);
    assert_eq!(segments.placement(), Placement::Open);
    segments.opened();
    let locator = ObjectLocator::generate(segments.gc_epoch(), ObjectClass::DataSegment);
    let content = content_id(expected);
    let offset = segments.appended(content.length()).unwrap();
    assert_eq!(offset, 0);
    assert_eq!(segments.finish(), Some(21));

    let mut reader = RangeReader::open(locator, offset, offset + content.length()).unwrap();
    let actual = copy(&mut reader, expected, 5, content).unwrap();
    assert_eq!(actual, expected);

    let mut truncated = RangeReader::open(locator, 0, 21).unwrap();
    assert_eq!(
        copy(&mut truncated, &expected[..10], 5, content).unwrap_err().kind(),
        ErrorKind::Corrupt
    );
    let mut other = expected.to_vec();
    other[3] ^= 1;
    let mut changed = RangeReader::open(locator, 0, 21).unwrap();
    assert_eq!(
        copy(&mut changed, &other, 21, content).unwrap_err().kind(),
        ErrorKind::Corrupt
    );
}

#[test]
fn segments_rotate_at_their_target() {
    let mut segments = DataSegmentWriter::new(GcEpoch::zero(), 10);
    segments.opened();
    assert_eq!(segments.appended(4).unwrap(), 0);
    assert_eq!(segments.placement(), Placement::Current);
    assert_eq!(segments.appended(6).unwrap(), 4);
    assert_eq!(segments.placement(), Placement::Rotate);
    assert_eq!(segments.finish(), Some(10));
    assert_eq!(segments.finish(), None);
    assert_eq!(segment_part_bytes(1024, Some(2000), 28), 2028);
    assert_eq!(segment_part_bytes(1024, Some(100), 28), 1024);
    assert_eq!(segment_part_bytes(1024, None, 28), 1024);
}

#[test]
fn fetched_ranges_have_their_lengths() {
    let segment = ObjectLocator::generate(GcEpoch::zero(), ObjectClass::DataSegment);
    let commit = ObjectLocator::generate(GcEpoch::zero(), ObjectClass::NamespaceCommit);
    assert!(check_fetch(segment, &[(0, 3), (5, 5)]).is_ok());
    assert_eq!(
        check_fetch(segment, &[(3, 0)]).unwrap_err().kind(),
        ErrorKind::Corrupt
    );
    assert_eq!(
        check_fetch(commit, &[(0, 3)]).unwrap_err().kind(),
        ErrorKind::Corrupt
    );
    let mut readers = RangeReader::fetched(&[(0, 3)], vec![b"abc".to_vec()]).unwrap();
    assert_eq!(
        copy(&mut readers[0], b"", 1, content_id(b"abc")).unwrap(),
        b"abc"
    );
    assert_eq!(
        RangeReader::fetched(&[(0, 3)], vec![b"ab".to_vec()]).err().unwrap().message(),
        "storage returned a truncated range"
    );
    assert_eq!(
        RangeReader::fetched(&[(0, 3)], Vec::new()).err().unwrap().message(),
        "storage returned a different number of ranges"
    );
    assert_eq!(
        RangeReader::open(commit, 0, 3).err().unwrap().message(),
        "data segment range reference is invalid"
    );
}

#[test]
fn immutable_objects_are_read_back_under_their_reference() {
    let mut writer = ImmutableWriter::open(GcEpoch::from_value(3), ObjectClass::NamespaceCommit);
    writer.write(b"one ").unwrap();
    writer.write(b"commit").unwrap();
    let reference = writer.reference();
    assert_eq!(reference.encoded_length, 10);
    assert_eq!(reference.locator.gc_epoch.value(), 3);
    assert!(writer.published_object_is_visible(Some(10)));
    assert!(!writer.published_object_is_visible(Some(9)));
    assert!(!writer.published_object_is_visible(None));
    assert!(digest(b"one commit") == reference.digest);
    assert_eq!(object_length(reference, 10).unwrap(), 10);
    assert_eq!(object_length(reference, 9).unwrap_err().kind(), ErrorKind::Corrupt);
    assert_eq!(
        read_immutable(reference, Some(b"one commit".to_vec())).unwrap(),
        b"one commit"
    );
    assert_eq!(
        read_immutable(reference, Some(b"two commit".to_vec())).unwrap_err().kind(),
        ErrorKind::Corrupt
    );
    assert_eq!(read_immutable(reference, None).unwrap_err().kind(), ErrorKind::Corrupt);
}

#[test]
fn digests_are_those_of_the_hash_function() {
    let bytes: Vec<u8> = (0..200_u16).map(|value| value as u8).collect();
    let mut hasher = StreamHasher::new();
    hasher.update(&bytes[..50]);
    hasher.update(&bytes[50..]);
    assert_eq!(hasher.digest().as_bytes(), blake3::hash(&bytes).as_bytes());
    assert_eq!(content_id(&bytes).digest().as_bytes(), blake3::hash(&bytes).as_bytes());
    assert_eq!(content_id(&bytes).length(), 200);

    let mut content = ContentHasher::new();
    content.observe(&bytes);
    assert!(content.complete_content().is_none());
    content.observe(&[]);
    assert!(content.complete_content().unwrap() == content_id(&bytes));
}

fn authority_head() -> AuthorityHead {
    AuthorityHead {
        current_commit: NamespaceRevision {
            object: ObjectRef {
                locator: ObjectLocator {
                    gc_epoch: GcEpoch::zero(),
                    class: ObjectClass::NamespaceCommit,
                    id: ObjectId::from_bytes([1; 16]),
                },
                encoded_length: 1,
                digest: Digest::from_bytes([2; 32]),
            },
            change_cursor: ChangeCursor::genesis(),
        },
        gc_epoch: GcEpoch::zero(),
        minimum_retained_cursor: ChangeCursor::genesis(),
    }
}

fn observed_main() -> AuthorityObservation {
    DefaultAuthorityAccess::observe(
        "main",
        Some(ObservedControl {
            value: authority_head(),
            revision: Some("r1".to_owned()),
        }),
    )
    .unwrap()
}

#[test]
fn core_authority_owns_only_main() {
    assert!(observed_main().head == authority_head());
    assert_eq!(
        DefaultAuthorityAccess::observe("feature", None).unwrap_err().kind(),
        ErrorKind::NotFound
    );
    assert_eq!(require_default("feature").unwrap_err().kind(), ErrorKind::NotFound);
    assert!(DefaultAuthorityAccess::observe("main", None).is_err());
}

#[test]
fn collections_rotate_the_epoch_and_end_at_one_root() {
    let rotated = DefaultAuthorityAccess::rotated(authority_head()).unwrap();
    assert_eq!(rotated.gc_epoch.value(), 1);
    assert!(rotated.current_commit == authority_head().current_commit);
    let full = AuthorityHead {
        gc_epoch: GcEpoch::from_value(u64::MAX),
        ..authority_head()
    };
    assert!(DefaultAuthorityAccess::rotated(full).is_err());

    let current = AuthorityObservation {
        head: rotated,
        ..observed_main()
    };
    let (fence, root) =
        DefaultAuthorityAccess::begin_collection(true, rotated, current).unwrap();
    assert_eq!(fence.epoch.value(), 1);
    assert_eq!(root.name, "main");
    assert_eq!(
        DefaultAuthorityAccess::begin_collection(false, rotated, observed_main())
            .unwrap_err()
            .kind(),
        ErrorKind::Conflict
    );

    let (observed, head) = DefaultAuthorityAccess::finish_collection(fence, vec![root]).unwrap();
    assert!(head == rotated);
    assert_eq!(observed.revision, b"r1");
    let fence = || CollectionFence {
        epoch: GcEpoch::zero(),
        revision: Vec::new(),
    };
    assert_eq!(
        DefaultAuthorityAccess::finish_collection(fence(), Vec::new())
            .unwrap_err()
            .message(),
        "compacted authority root is missing"
    );
    let other = AuthorityRoot {
        id: AuthorityId::generate(),
        name: "feature".to_owned(),
        head: authority_head(),
    };
    assert_eq!(
        DefaultAuthorityAccess::finish_collection(fence(), vec![other])
            .unwrap_err()
            .message(),
        "compacted authority root set is invalid"
    );
}

#[test]
fn errors_carry_kind_operation_and_context() {
    let plain = Error::invalid("do a thing", "it is wrong");
    assert_eq!(plain.source(), None);
    assert_eq!(plain.with_source("the disk is full").source(), Some("the disk is full"));
    let error = Error::invalid("do a thing", "it is wrong").with_context("path", "a/b");
    assert_eq!(error.kind(), ErrorKind::Invalid);
    assert_eq!(error.operation(), "do a thing");
    assert_eq!(error.to_text(), "do a thing: it is wrong (path: a/b)");
    let local = from_io("open a file", Some("x"), LocalFailure::NotFound, "no such file");
    assert_eq!(local.kind(), ErrorKind::NotFound);
    let kinds = [
        (StorageFailure::ConfigInvalid, ErrorKind::Invalid),
        (StorageFailure::Unsupported, ErrorKind::Unsupported),
        (StorageFailure::NotFound, ErrorKind::NotFound),
        (StorageFailure::PermissionDenied, ErrorKind::PermissionDenied),
        (StorageFailure::AlreadyExists, ErrorKind::Conflict),
        (StorageFailure::ConditionNotMatch, ErrorKind::Conflict),
        (StorageFailure::Other, ErrorKind::Unavailable),
    ];
    for (failure, kind) in kinds {
        let error = from_storage("read", failure, "Kind", StorageStatus::Temporary, "cause");
        assert_eq!(error.kind(), kind);
    }
    let locals = [
        (LocalFailure::PermissionDenied, ErrorKind::PermissionDenied),
        (LocalFailure::AlreadyExists, ErrorKind::Conflict),
        (LocalFailure::Unsupported, ErrorKind::Unsupported),
        (LocalFailure::Other, ErrorKind::Unavailable),
    ];
    for (failure, kind) in locals {
        assert_eq!(from_io("read", None, failure, "cause").kind(), kind);
    }
}

#[test]
fn random_identities_differ_and_are_marked() {
    let left = NodeId::generate();
    let right = NodeId::generate();
    assert!(left != right);
    for identity in [left, right] {
        let bytes = identity.as_bytes();
        assert_eq!(bytes[6] >> 4, 4);
        assert_eq!(bytes[8] >> 6, 2);
        assert_eq!(identity.to_text().len(), 32);
    }
    assert_eq!(NodeId::from_bytes([0xab; 16]).to_text(), "ab".repeat(16));
}
