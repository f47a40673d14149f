//! The wire form of snapshots and heads: its grammar, and reading it back.

use vstd::bytes::{
    lemma_auto_spec_u32_to_from_le_bytes, lemma_auto_spec_u64_to_from_le_bytes,
    spec_u32_to_le_bytes, spec_u64_to_le_bytes,
};
use vstd::layout::size_of;
use vstd::prelude::*;
use vstd::utf8::encode_utf8;

use crate::codec::{
    bool_bytes, bool_reads_back, bytes_read_back, counted_bytes, fixed_reads_back, list_bytes,
    list_reads_back, many_bytes, parse_bool, parse_bytes, parse_fixed, parse_list, parse_many,
    parse_many_stops, parse_text, parse_u32, parse_u64, reads_back, text_reads_back,
    u32_reads_back, u64_reads_back, Reader,
};
use crate::filesystem::ContentId;
use crate::identity::Digest;

verus! {

pub ghost struct WireContent {
    pub digest: Seq<u8>,
    pub length: u64,
}

pub ghost struct WireBlob {
    pub reference: Seq<u8>,
    pub content: WireContent,
}

pub ghost struct WirePart {
    pub start: u64,
    pub end: u64,
    pub blob_offset: u64,
    pub blob: WireBlob,
}

pub ghost struct WireFileView {
    pub content: WireContent,
    pub parts: Seq<WirePart>,
}

pub ghost enum WireBody {
    Dir { entries_generation: u64 },
    File { file: WireFileView },
}

pub ghost struct WireNodeView {
    pub id: Seq<u8>,
    pub generation: u64,
    pub executable: bool,
    pub body: WireBody,
}

pub ghost struct WireEntryView {
    pub path: Seq<char>,
    pub node: WireNodeView,
}

pub ghost struct WireVersionView {
    pub entries: Seq<WireEntryView>,
    pub commits: Seq<Seq<u8>>,
}

// The grammar, written out.

pub open spec fn content_bytes(content: WireContent) -> Seq<u8> {
    content.digest + spec_u64_to_le_bytes(content.length)
}

pub open spec fn blob_bytes(blob: WireBlob) -> Seq<u8> {
    counted_bytes(blob.reference) + content_bytes(blob.content)
}

pub open spec fn part_bytes(part: WirePart) -> Seq<u8> {
    spec_u64_to_le_bytes(part.start) + (spec_u64_to_le_bytes(part.end) + (spec_u64_to_le_bytes(
        part.blob_offset,
    ) + blob_bytes(part.blob)))
}

pub open spec fn part_encoder() -> spec_fn(WirePart) -> Seq<u8> {
    |part: WirePart| part_bytes(part)
}

pub open spec fn file_bytes(file: WireFileView) -> Seq<u8> {
    content_bytes(file.content) + list_bytes(file.parts, part_encoder())
}

pub open spec fn body_bytes(body: WireBody) -> Seq<u8> {
    match body {
        WireBody::Dir { entries_generation } => spec_u32_to_le_bytes(0) + spec_u64_to_le_bytes(
            entries_generation,
        ),
        WireBody::File { file } => spec_u32_to_le_bytes(1) + file_bytes(file),
    }
}

pub open spec fn node_bytes(node: WireNodeView) -> Seq<u8> {
    node.id + (spec_u64_to_le_bytes(node.generation) + (bool_bytes(node.executable) + body_bytes(
        node.body,
    )))
}

pub open spec fn entry_bytes(entry: WireEntryView) -> Seq<u8> {
    counted_bytes(encode_utf8(entry.path)) + node_bytes(entry.node)
}

pub open spec fn entry_encoder() -> spec_fn(WireEntryView) -> Seq<u8> {
    |entry: WireEntryView| entry_bytes(entry)
}

pub open spec fn commit_encoder() -> spec_fn(Seq<u8>) -> Seq<u8> {
    |commit: Seq<u8>| commit
}

pub open spec fn version_bytes(version: WireVersionView) -> Seq<u8> {
    list_bytes(version.entries, entry_encoder()) + list_bytes(version.commits, commit_encoder())
}

// The grammar, read from the front.

pub open spec fn parse_content(bytes: Seq<u8>) -> Option<(WireContent, Seq<u8>)> {
    match parse_fixed(bytes, 32) {
        Some((digest, rest)) => match parse_u64(rest) {
            Some((length, rest)) => Some((WireContent { digest, length }, rest)),
            None => None,
        },
        None => None,
    }
}

pub open spec fn parse_blob(bytes: Seq<u8>) -> Option<(WireBlob, Seq<u8>)> {
    match parse_bytes(bytes) {
        Some((reference, rest)) => match parse_content(rest) {
            Some((content, rest)) => Some((WireBlob { reference, content }, rest)),
            None => None,
        },
        None => None,
    }
}

pub open spec fn parse_part(bytes: Seq<u8>) -> Option<(WirePart, Seq<u8>)> {
    match parse_u64(bytes) {
        Some((start, rest)) => match parse_u64(rest) {
            Some((end, rest)) => match parse_u64(rest) {
                Some((blob_offset, rest)) => match parse_blob(rest) {
                    Some((blob, rest)) => Some((WirePart { start, end, blob_offset, blob }, rest)),
                    None => None,
                },
                None => None,
            },
            None => None,
        },
        None => None,
    }
}

pub open spec fn part_parser() -> spec_fn(Seq<u8>) -> Option<(WirePart, Seq<u8>)> {
    |bytes: Seq<u8>| parse_part(bytes)
}

pub open spec fn parse_file(bytes: Seq<u8>) -> Option<(WireFileView, Seq<u8>)> {
    match parse_content(bytes) {
        Some((content, rest)) => match parse_list(rest, part_parser()) {
            Some((parts, rest)) => Some((WireFileView { content, parts }, rest)),
            None => None,
        },
        None => None,
    }
}

pub open spec fn parse_body(bytes: Seq<u8>) -> Option<(WireBody, Seq<u8>)> {
    match parse_u32(bytes) {
        Some((tag, rest)) => if tag == 0 {
            match parse_u64(rest) {
                Some((entries_generation, rest)) => Some(
                    (WireBody::Dir { entries_generation }, rest),
                ),
                None => None,
            }
        } else if tag == 1 {
            match parse_file(rest) {
                Some((file, rest)) => Some((WireBody::File { file }, rest)),
                None => None,
            }
        } else {
            None
        },
        None => None,
    }
}

pub open spec fn parse_node(bytes: Seq<u8>) -> Option<(WireNodeView, Seq<u8>)> {
    match parse_fixed(bytes, 16) {
        Some((id, rest)) => match parse_u64(rest) {
            Some((generation, rest)) => match parse_bool(rest) {
                Some((executable, rest)) => match parse_body(rest) {
                    Some((body, rest)) => Some(
                        (WireNodeView { id, generation, executable, body }, rest),
                    ),
                    None => None,
                },
                None => None,
            },
            None => None,
        },
        None => None,
    }
}

pub open spec fn parse_entry(bytes: Seq<u8>) -> Option<(WireEntryView, Seq<u8>)> {
    match parse_text(bytes) {
        Some((path, rest)) => match parse_node(rest) {
            Some((node, rest)) => Some((WireEntryView { path, node }, rest)),
            None => None,
        },
        None => None,
    }
}

pub open spec fn entry_parser() -> spec_fn(Seq<u8>) -> Option<(WireEntryView, Seq<u8>)> {
    |bytes: Seq<u8>| parse_entry(bytes)
}

pub open spec fn commit_parser() -> spec_fn(Seq<u8>) -> Option<(Seq<u8>, Seq<u8>)> {
    |bytes: Seq<u8>| parse_fixed(bytes, 16)
}

pub open spec fn parse_version(bytes: Seq<u8>) -> Option<(WireVersionView, Seq<u8>)> {
    match parse_list(bytes, entry_parser()) {
        Some((entries, rest)) => match parse_list(rest, commit_parser()) {
            Some((commits, rest)) => Some((WireVersionView { entries, commits }, rest)),
            None => None,
        },
        None => None,
    }
}

// What is written is read back.

pub open spec fn content_fits(content: WireContent) -> bool {
    content.digest.len() == 32
}

pub open spec fn blob_fits(blob: WireBlob) -> bool {
    blob.reference.len() <= u64::MAX && content_fits(blob.content)
}

pub open spec fn file_fits(file: WireFileView) -> bool {
    &&& content_fits(file.content)
    &&& file.parts.len() <= u64::MAX
    &&& forall|i: int| 0 <= i < file.parts.len() ==> blob_fits((#[trigger] file.parts[i]).blob)
}

pub open spec fn entry_fits(entry: WireEntryView) -> bool {
    &&& encode_utf8(entry.path).len() <= u64::MAX
    &&& entry.node.id.len() == 16
    &&& entry.node.body is File ==> file_fits(entry.node.body->file)
}

/// The lengths in a version are those that the grammar has room for.
pub open spec fn version_fits(version: WireVersionView) -> bool {
    &&& version.entries.len() <= u64::MAX
    &&& version.commits.len() <= u64::MAX
    &&& forall|i: int| 0 <= i < version.entries.len() ==> entry_fits(#[trigger] version.entries[i])
    &&& forall|i: int|
        0 <= i < version.commits.len() ==> (#[trigger] version.commits[i]).len() == 16
}

proof fn content_reads_back(content: WireContent, rest: Seq<u8>)
    requires
        content_fits(content),
    ensures
        parse_content(content_bytes(content) + rest) == Some((content, rest)),
{
    let tail = spec_u64_to_le_bytes(content.length) + rest;
    assert(content_bytes(content) + rest =~= content.digest + tail);
    fixed_reads_back(content.digest, tail);
    u64_reads_back(content.length, rest);
}

/// A blob reference is read back.
pub proof fn blob_reads_back(blob: WireBlob, rest: Seq<u8>)
    requires
        blob_fits(blob),
    ensures
        parse_blob(blob_bytes(blob) + rest) == Some((blob, rest)),
{
    let tail = content_bytes(blob.content) + rest;
    assert(blob_bytes(blob) + rest =~= counted_bytes(blob.reference) + tail);
    bytes_read_back(blob.reference, tail);
    content_reads_back(blob.content, rest);
}

proof fn part_reads_back(part: WirePart, rest: Seq<u8>)
    requires
        blob_fits(part.blob),
    ensures
        parse_part(part_bytes(part) + rest) == Some((part, rest)),
{
    let blob = blob_bytes(part.blob) + rest;
    let offset = spec_u64_to_le_bytes(part.blob_offset) + blob;
    let end = spec_u64_to_le_bytes(part.end) + offset;
    assert(part_bytes(part) + rest =~= spec_u64_to_le_bytes(part.start) + end);
    u64_reads_back(part.start, end);
    u64_reads_back(part.end, offset);
    u64_reads_back(part.blob_offset, blob);
    blob_reads_back(part.blob, rest);
}

proof fn file_reads_back(file: WireFileView, rest: Seq<u8>)
    requires
        file_fits(file),
    ensures
        parse_file(file_bytes(file) + rest) == Some((file, rest)),
{
    let tail = list_bytes(file.parts, part_encoder()) + rest;
    assert(file_bytes(file) + rest =~= content_bytes(file.content) + tail);
    content_reads_back(file.content, tail);
    assert forall|i: int| 0 <= i < file.parts.len() implies reads_back(
        part_encoder(),
        part_parser(),
        #[trigger] file.parts[i],
    ) by {
        assert forall|rest: Seq<u8>| #[trigger]
            part_parser()(part_encoder()(file.parts[i]) + rest) == Some((file.parts[i], rest)) by {
            part_reads_back(file.parts[i], rest);
        }
    }
    list_reads_back(file.parts, part_encoder(), part_parser(), rest);
}

proof fn node_reads_back(node: WireNodeView, rest: Seq<u8>)
    requires
        node.id.len() == 16,
        node.body is File ==> file_fits(node.body->file),
    ensures
        parse_node(node_bytes(node) + rest) == Some((node, rest)),
{
    let body = body_bytes(node.body) + rest;
    let flag = bool_bytes(node.executable) + body;
    let generation = spec_u64_to_le_bytes(node.generation) + flag;
    assert(node_bytes(node) + rest =~= node.id + generation);
    fixed_reads_back(node.id, generation);
    u64_reads_back(node.generation, flag);
    bool_reads_back(node.executable, body);
    match node.body {
        WireBody::Dir { entries_generation } => {
            let tail = spec_u64_to_le_bytes(entries_generation) + rest;
            assert(body =~= spec_u32_to_le_bytes(0) + tail);
            u32_reads_back(0, tail);
            u64_reads_back(entries_generation, rest);
        },
        WireBody::File { file } => {
            let tail = file_bytes(file) + rest;
            assert(body =~= spec_u32_to_le_bytes(1) + tail);
            u32_reads_back(1, tail);
            file_reads_back(file, rest);
        },
    }
}

proof fn entry_reads_back(entry: WireEntryView, rest: Seq<u8>)
    requires
        entry_fits(entry),
    ensures
        parse_entry(entry_bytes(entry) + rest) == Some((entry, rest)),
{
    let tail = node_bytes(entry.node) + rest;
    assert(entry_bytes(entry) + rest =~= counted_bytes(encode_utf8(entry.path)) + tail);
    text_reads_back(entry.path, tail);
    node_reads_back(entry.node, rest);
}

/// A version is read back.
pub proof fn version_reads_back(version: WireVersionView, rest: Seq<u8>)
    requires
        version_fits(version),
    ensures
        parse_version(version_bytes(version) + rest) == Some((version, rest)),
{
    let tail = list_bytes(version.commits, commit_encoder()) + rest;
    assert(version_bytes(version) + rest =~= list_bytes(version.entries, entry_encoder()) + tail);
    assert forall|i: int| 0 <= i < version.entries.len() implies reads_back(
        entry_encoder(),
        entry_parser(),
        #[trigger] version.entries[i],
    ) by {
        assert forall|rest: Seq<u8>| #[trigger]
            entry_parser()(entry_encoder()(version.entries[i]) + rest) == Some(
                (version.entries[i], rest),
            ) by {
            entry_reads_back(version.entries[i], rest);
        }
    }
    list_reads_back(version.entries, entry_encoder(), entry_parser(), tail);
    assert forall|i: int| 0 <= i < version.commits.len() implies reads_back(
        commit_encoder(),
        commit_parser(),
        #[trigger] version.commits[i],
    ) by {
        assert forall|rest: Seq<u8>| #[trigger]
            commit_parser()(commit_encoder()(version.commits[i]) + rest) == Some(
                (version.commits[i], rest),
            ) by {
            fixed_reads_back(version.commits[i], rest);
        }
    }
    list_reads_back(version.commits, commit_encoder(), commit_parser(), rest);
}

// Values as they were read.

pub open spec fn wire_content(content: ContentId) -> WireContent {
    WireContent { digest: content.digest@, length: content.length }
}

/// A blob reference as it was read.
pub struct WireBlobRef {
    pub reference: Vec<u8>,
    pub content: ContentId,
}

impl WireBlobRef {
    pub open spec fn view(&self) -> WireBlob {
        WireBlob { reference: self.reference@, content: wire_content(self.content) }
    }
}

/// A file part as it was read.
pub struct WireFilePart {
    pub start: u64,
    pub end: u64,
    pub blob_offset: u64,
    pub blob: WireBlobRef,
}

impl WireFilePart {
    pub open spec fn view(&self) -> WirePart {
        WirePart {
            start: self.start,
            end: self.end,
            blob_offset: self.blob_offset,
            blob: self.blob@,
        }
    }
}

pub open spec fn wire_parts(parts: Seq<WireFilePart>) -> Seq<WirePart> {
    Seq::new(parts.len(), |i: int| parts[i]@)
}

/// A file as it was read.
pub struct WireFile {
    pub content: ContentId,
    pub parts: Vec<WireFilePart>,
}

impl WireFile {
    pub open spec fn view(&self) -> WireFileView {
        WireFileView { content: wire_content(self.content), parts: wire_parts(self.parts@) }
    }
}

/// The body of a node as it was read.
pub enum WireNodeBody {
    Dir { entries_generation: u64 },
    File { file: WireFile },
}

impl WireNodeBody {
    pub open spec fn view(&self) -> WireBody {
        match self {
            WireNodeBody::Dir { entries_generation } => WireBody::Dir {
                entries_generation: *entries_generation,
            },
            WireNodeBody::File { file } => WireBody::File { file: file@ },
        }
    }
}

/// A node as it was read.
pub struct WireNode {
    pub id: [u8; 16],
    pub generation: u64,
    pub executable: bool,
    pub body: WireNodeBody,
}

impl WireNode {
    pub open spec fn view(&self) -> WireNodeView {
        WireNodeView {
            id: self.id@,
            generation: self.generation,
            executable: self.executable,
            body: self.body@,
        }
    }
}

/// An entry as it was read.
pub struct WireEntry {
    pub path: String,
    pub node: WireNode,
}

impl WireEntry {
    pub open spec fn view(&self) -> WireEntryView {
        WireEntryView { path: self.path@, node: self.node@ }
    }
}

pub open spec fn wire_entries(entries: Seq<WireEntry>) -> Seq<WireEntryView> {
    Seq::new(entries.len(), |i: int| entries[i]@)
}

pub open spec fn wire_commits(commits: Seq<[u8; 16]>) -> Seq<Seq<u8>> {
    Seq::new(commits.len(), |i: int| commits[i]@)
}

/// A version as it was read.
pub struct WireVersion {
    pub entries: Vec<WireEntry>,
    pub commits: Vec<[u8; 16]>,
}

impl WireVersion {
    pub open spec fn view(&self) -> WireVersionView {
        WireVersionView {
            entries: wire_entries(self.entries@),
            commits: wire_commits(self.commits@),
        }
    }
}

fn read_content(reader: &mut Reader) -> (result: Option<ContentId>)
    ensures
        match result {
            Some(content) => parse_content(old(reader)@) == Some(
                (wire_content(content), final(reader)@),
            ),
            None => parse_content(old(reader)@) is None,
        },
{
    let digest = reader.read_digest()?;
    let length: u64 = reader.read_u64()?;
    Some(ContentId::new(Digest::from_bytes(digest), length))
}

/// Read a blob reference.
pub fn read_blob(reader: &mut Reader) -> (result: Option<WireBlobRef>)
    ensures
        match result {
            Some(blob) => parse_blob(old(reader)@) == Some((blob@, final(reader)@)),
            None => parse_blob(old(reader)@) is None,
        },
{
    let bytes = reader.read_bytes()?;
    let content = read_content(reader)?;
    let mut reference: Vec<u8> = Vec::new();
    crate::codec::put_fixed(&mut reference, bytes);
    assert(reference@ =~= bytes@);
    Some(WireBlobRef { reference, content })
}

fn read_part(reader: &mut Reader) -> (result: Option<WireFilePart>)
    ensures
        match result {
            Some(part) => parse_part(old(reader)@) == Some((part@, final(reader)@)),
            None => parse_part(old(reader)@) is None,
        },
{
    let start: u64 = reader.read_u64()?;
    let end: u64 = reader.read_u64()?;
    let blob_offset: u64 = reader.read_u64()?;
    let blob = read_blob(reader)?;
    Some(WireFilePart { start, end, blob_offset, blob })
}

fn read_file(reader: &mut Reader) -> (result: Option<WireFile>)
    ensures
        match result {
            Some(file) => parse_file(old(reader)@) == Some((file@, final(reader)@)),
            None => parse_file(old(reader)@) is None,
        },
{
    let content = read_content(reader)?;
    let ghost tail = reader@;
    let count: u64 = reader.read_u64()?;
    let ghost body = reader@;
    let mut parts: Vec<WireFilePart> = Vec::new();
    let mut index: u64 = 0;
    assert(wire_parts(parts@) =~= Seq::empty());
    while index < count
        invariant
            index <= count,
            parts@.len() == index,
            parse_many(body, index as nat, part_parser()) == Some((wire_parts(parts@), reader@)),
            parse_content(old(reader)@) == Some((wire_content(content), tail)),
            parse_u64(tail) == Some((count, body)),
        decreases count - index,
    {
        let ghost left = reader@;
        let part = match read_part(reader) {
            Some(part) => part,
            None => {
                proof {
                    assert(part_parser()(left) is None);
                    parse_many_stops(body, (index + 1) as nat, count as nat, part_parser());
                }
                return None;
            },
        };
        let ghost so_far = wire_parts(parts@);
        assert(part_parser()(left) == Some((part@, reader@)));
        parts.push(part);
        index += 1;
        assert(wire_parts(parts@) =~= so_far.push(part@));
    }
    Some(WireFile { content, parts })
}

fn read_node(reader: &mut Reader) -> (result: Option<WireNode>)
    ensures
        match result {
            Some(node) => parse_node(old(reader)@) == Some((node@, final(reader)@)),
            None => parse_node(old(reader)@) is None,
        },
{
    let id = reader.read_id()?;
    let generation: u64 = reader.read_u64()?;
    let executable = reader.read_bool()?;
    let tag: u32 = reader.read_u32()?;
    if tag == 0 {
        let entries_generation: u64 = reader.read_u64()?;
        Some(
            WireNode {
                id,
                generation,
                executable,
                body: WireNodeBody::Dir { entries_generation },
            },
        )
    } else if tag == 1 {
        let file = read_file(reader)?;
        Some(WireNode { id, generation, executable, body: WireNodeBody::File { file } })
    } else {
        None
    }
}

fn read_entry(reader: &mut Reader) -> (result: Option<WireEntry>)
    ensures
        match result {
            Some(entry) => parse_entry(old(reader)@) == Some((entry@, final(reader)@)),
            None => parse_entry(old(reader)@) is None,
        },
{
    let path = reader.read_text()?;
    let node = read_node(reader)?;
    Some(WireEntry { path, node })
}

fn read_entries(reader: &mut Reader) -> (result: Option<Vec<WireEntry>>)
    ensures
        match result {
            Some(entries) => parse_list(old(reader)@, entry_parser()) == Some(
                (wire_entries(entries@), final(reader)@),
            ),
            None => parse_list(old(reader)@, entry_parser()) is None,
        },
{
    let count: u64 = reader.read_u64()?;
    let ghost body = reader@;
    let mut entries: Vec<WireEntry> = Vec::new();
    let mut index: u64 = 0;
    assert(wire_entries(entries@) =~= Seq::empty());
    while index < count
        invariant
            index <= count,
            entries@.len() == index,
            parse_many(body, index as nat, entry_parser()) == Some(
                (wire_entries(entries@), reader@),
            ),
            parse_u64(old(reader)@) == Some((count, body)),
        decreases count - index,
    {
        let ghost left = reader@;
        let entry = match read_entry(reader) {
            Some(entry) => entry,
            None => {
                proof {
                    assert(entry_parser()(left) is None);
                    parse_many_stops(body, (index + 1) as nat, count as nat, entry_parser());
                }
                return None;
            },
        };
        let ghost so_far = wire_entries(entries@);
        assert(entry_parser()(left) == Some((entry@, reader@)));
        entries.push(entry);
        index += 1;
        assert(wire_entries(entries@) =~= so_far.push(entry@));
    }
    Some(entries)
}

fn read_commits(reader: &mut Reader) -> (result: Option<Vec<[u8; 16]>>)
    ensures
        match result {
            Some(commits) => parse_list(old(reader)@, commit_parser()) == Some(
                (wire_commits(commits@), final(reader)@),
            ),
            None => parse_list(old(reader)@, commit_parser()) is None,
        },
{
    let count: u64 = reader.read_u64()?;
    let ghost body = reader@;
    let mut commits: Vec<[u8; 16]> = Vec::new();
    let mut index: u64 = 0;
    assert(wire_commits(commits@) =~= Seq::empty());
    while index < count
        invariant
            index <= count,
            commits@.len() == index,
            parse_many(body, index as nat, commit_parser()) == Some(
                (wire_commits(commits@), reader@),
            ),
            parse_u64(old(reader)@) == Some((count, body)),
        decreases count - index,
    {
        let ghost left = reader@;
        let commit = match reader.read_id() {
            Some(commit) => commit,
            None => {
                proof {
                    assert(commit_parser()(left) is None);
                    parse_many_stops(body, (index + 1) as nat, count as nat, commit_parser());
                }
                return None;
            },
        };
        let ghost so_far = wire_commits(commits@);
        assert(commit_parser()(left) == Some((commit@, reader@)));
        commits.push(commit);
        index += 1;
        assert(wire_commits(commits@) =~= so_far.push(commit@));
    }
    Some(commits)
}

/// Read a version.
pub fn read_version(reader: &mut Reader) -> (result: Option<WireVersion>)
    ensures
        match result {
            Some(version) => parse_version(old(reader)@) == Some((version@, final(reader)@)),
            None => parse_version(old(reader)@) is None,
        },
{
    let entries = read_entries(reader)?;
    let commits = read_commits(reader)?;
    Some(WireVersion { entries, commits })
}

// What reading a version claims. The items of a list are claimed as a whole when its number
// is read, with the size that each has in memory; an item that is then read claims the bytes
// that it is read from in place of its size.

/// What the items of a list claim when a number of them was read.
pub open spec fn list_claim<T>(
    items: Seq<T>,
    encode: spec_fn(T) -> Seq<u8>,
    size: nat,
    count: int,
) -> int {
    many_bytes(items.take(count), encode).len() + (items.len() - count) * size
}

/// What the entries of a version claim when a number of them was read.
pub open spec fn entries_claim(entries: Seq<WireEntryView>, count: int) -> int {
    8 + list_claim(entries, entry_encoder(), size_of::<WireEntry>(), count)
}

/// What the parts of a file claim when a number of them was read.
pub open spec fn parts_claim(parts: Seq<WirePart>, count: int) -> int {
    list_claim(parts, part_encoder(), size_of::<WireFilePart>(), count)
}

/// The bytes of the entry of a file up to its parts.
pub open spec fn file_head(path: Seq<char>) -> nat {
    (8 + encode_utf8(path).len()) + (16 + 8 + 1 + 4) + (32 + 8) + 8
}

/// The parts of a file claim no more than a limit, beside what is claimed already.
pub open spec fn parts_claims_fit(parts: Seq<WirePart>, claimed: int, limit: int) -> bool {
    forall|count: int|
        0 <= count <= parts.len() ==> claimed + #[trigger] parts_claim(parts, count) <= limit
}

/// An entry claims no more than a limit for its parts, beside what is claimed already.
pub open spec fn entry_claims_fit(entry: WireEntryView, claimed: int, limit: int) -> bool {
    entry.node.body is File ==> parts_claims_fit(
        entry.node.body->file.parts,
        claimed + file_head(entry.path),
        limit,
    )
}

/// Reading the version claims no more than a limit at any time.
pub open spec fn claims_fit(version: WireVersionView, limit: int) -> bool {
    let entries = version.entries;
    &&& forall|count: int|
        0 <= count <= entries.len() ==> #[trigger] entries_claim(entries, count) <= limit
    &&& forall|i: int|
        0 <= i < entries.len() ==> entry_claims_fit(
            #[trigger] entries[i],
            entries_claim(entries, i) - size_of::<WireEntry>(),
            limit,
        )
}

/// A list claims the size of each item before any is read.
proof fn nothing_read<T>(items: Seq<T>, encode: spec_fn(T) -> Seq<u8>, size: nat)
    ensures
        list_claim(items, encode, size, 0) == items.len() * size,
{
    assert(items.take(0) =~= Seq::empty());
}

/// An item that is read claims its bytes in place of its size.
proof fn one_more_read<T>(items: Seq<T>, encode: spec_fn(T) -> Seq<u8>, size: nat, count: int)
    requires
        0 <= count < items.len(),
    ensures
        list_claim(items, encode, size, count + 1) == list_claim(items, encode, size, count) - size
            + encode(items[count]).len(),
        list_claim(items, encode, size, count) >= size,
{
    let now = items.take(count + 1);
    assert(now.drop_last() =~= items.take(count));
    let left = items.len() - count;
    assert((left - 1) * size == left * size - size) by (nonlinear_arith);
    assert(left * size >= size) by (nonlinear_arith)
        requires
            left >= 1,
            size >= 0,
    ;
}

/// A list that was read claims its bytes.
proof fn all_read<T>(items: Seq<T>, encode: spec_fn(T) -> Seq<u8>, size: nat)
    ensures
        list_claim(items, encode, size, items.len() as int) == many_bytes(items, encode).len(),
{
    assert(items.take(items.len() as int) =~= items);
    assert(0 * size == 0);
}

proof fn part_length(part: WirePart)
    requires
        content_fits(part.blob.content),
    ensures
        part_bytes(part).len() == 24 + 8 + part.blob.reference.len() + 40,
{
    lemma_auto_spec_u64_to_from_le_bytes();
}

proof fn entry_length(entry: WireEntryView)
    requires
        entry.node.id.len() == 16,
        entry.node.body is File ==> content_fits(entry.node.body->file.content),
    ensures
        entry_bytes(entry).len() == (match entry.node.body {
            WireBody::Dir { entries_generation } => encode_utf8(entry.path).len() + 45,
            WireBody::File { file } => file_head(entry.path) + many_bytes(
                file.parts,
                part_encoder(),
            ).len(),
        }),
{
    lemma_auto_spec_u64_to_from_le_bytes();
    lemma_auto_spec_u32_to_from_le_bytes();
}

/// What is claimed when the parts of a file were read, if that stays within a limit.
fn claim_parts(parts: &Vec<WireFilePart>, claimed: u128, limit: usize) -> (result: Option<u128>)
    ensures
        match result {
            Some(total) => {
                &&& parts_claims_fit(wire_parts(parts@), claimed as int, limit as int)
                &&& total == claimed + many_bytes(wire_parts(parts@), part_encoder()).len()
                &&& total <= limit
            },
            None => !parts_claims_fit(wire_parts(parts@), claimed as int, limit as int),
        },
{
    let ghost views = wire_parts(parts@);
    let ghost start = claimed as int;
    let size: usize = core::mem::size_of::<WireFilePart>();
    let count: usize = parts.len();
    proof {
        nothing_read(views, part_encoder(), size as nat);
        assert(0 <= count * size <= 0xffff_ffff_ffff_ffff * 0xffff_ffff_ffff_ffff)
            by (nonlinear_arith)
            requires
                0 <= count <= 0xffff_ffff_ffff_ffff,
                0 <= size <= 0xffff_ffff_ffff_ffff,
        ;
    }
    if claimed > limit as u128 {
        assert(parts_claim(views, 0) >= 0);
        return None;
    }
    let mut total: u128 = claimed + (count as u128) * (size as u128);
    assert(total == start + parts_claim(views, 0));
    if total > limit as u128 {
        return None;
    }
    let mut index: usize = 0;
    while index < parts.len()
        invariant
            views == wire_parts(parts@),
            start == claimed,
            size == size_of::<WireFilePart>(),
            index <= parts@.len(),
            total == start + parts_claim(views, index as int),
            total <= limit,
            forall|count: int|
                0 <= count <= index ==> start + #[trigger] parts_claim(views, count) <= limit,
        decreases parts@.len() - index,
    {
        let part = &parts[index];
        proof {
            Digest::identified(part.blob.content.digest, part.blob.content.digest);
            one_more_read(views, part_encoder(), size as nat, index as int);
            part_length(part@);
            assert(views[index as int] == part@);
        }
        total = total - size as u128 + 72 + part.blob.reference.len() as u128;
        assert(total == start + parts_claim(views, index + 1));
        if total > limit as u128 {
            return None;
        }
        index += 1;
    }
    proof {
        all_read(views, part_encoder(), size as nat);
    }
    Some(total)
}

/// The number of bytes that an entry is read from.
#[verifier::opaque]
spec fn entry_size(entry: WireEntryView) -> nat {
    entry_bytes(entry).len()
}

/// The first entries claim no more than a limit while they are read.
#[verifier::opaque]
spec fn first_claims_fit(entries: Seq<WireEntryView>, count: int, limit: int) -> bool {
    &&& forall|n: int| 0 <= n <= count ==> #[trigger] entries_claim(entries, n) <= limit
    &&& forall|i: int|
        0 <= i < count ==> entry_claims_fit(
            #[trigger] entries[i],
            entries_claim(entries, i) - size_of::<WireEntry>(),
            limit,
        )
}

/// An entry that is read claims its bytes in place of its size.
proof fn entry_is_claimed(entries: Seq<WireEntryView>, count: int)
    requires
        0 <= count < entries.len(),
    ensures
        entries_claim(entries, count + 1) == entries_claim(entries, count)
            - size_of::<WireEntry>() + entry_size(entries[count]),
        entries_claim(entries, count) >= size_of::<WireEntry>(),
{
    reveal(entry_size);
    one_more_read(entries, entry_encoder(), size_of::<WireEntry>(), count);
}

/// One more entry fits if it fits by itself.
proof fn one_more_fits(entries: Seq<WireEntryView>, count: int, limit: int)
    requires
        0 <= count < entries.len(),
        first_claims_fit(entries, count, limit),
    ensures
        first_claims_fit(entries, count + 1, limit) <==> entries_claim(entries, count + 1) <= limit
            && entry_claims_fit(
            entries[count],
            entries_claim(entries, count) - size_of::<WireEntry>(),
            limit,
        ),
{
    reveal(first_claims_fit);
}

/// Where the first entries do not fit, the version does not.
proof fn unfit_stays_unfit(version: WireVersionView, count: int, limit: int)
    requires
        0 <= count <= version.entries.len(),
        !first_claims_fit(version.entries, count, limit),
    ensures
        !claims_fit(version, limit),
{
    reveal(first_claims_fit);
}

/// What is claimed when an entry was read, if that stays within a limit.
fn claim_entry(entry: &WireEntry, claimed: u128, limit: usize) -> (result: Option<u128>)
    requires
        claimed <= limit,
    ensures
        match result {
            Some(total) => {
                &&& entry_claims_fit(entry@, claimed as int, limit as int)
                &&& total == claimed + entry_size(entry@)
                &&& total <= limit
            },
            None => {
                ||| !entry_claims_fit(entry@, claimed as int, limit as int)
                ||| claimed + entry_size(entry@) > limit
            },
        },
{
    proof {
        reveal(entry_size);
    }
    let path: usize = entry.path.as_str().as_bytes().len();
    match &entry.node.body {
        WireNodeBody::Dir { .. } => {
            proof {
                entry_length(entry@);
            }
            let total: u128 = claimed + 45 + path as u128;
            if total > limit as u128 {
                None
            } else {
                Some(total)
            }
        },
        WireNodeBody::File { file } => {
            proof {
                Digest::identified(file.content.digest, file.content.digest);
                entry_length(entry@);
            }
            claim_parts(&file.parts, claimed + 85 + path as u128, limit)
        },
    }
}

/// Whether reading a version claims no more than a limit.
pub fn claims_hold(version: &WireVersion, limit: usize) -> (result: bool)
    ensures
        result == claims_fit(version@, limit as int),
{
    let ghost views = version@.entries;
    let size: usize = core::mem::size_of::<WireEntry>();
    let count: usize = version.entries.len();
    proof {
        nothing_read(views, entry_encoder(), size as nat);
        assert(0 <= count * size <= 0xffff_ffff_ffff_ffff * 0xffff_ffff_ffff_ffff)
            by (nonlinear_arith)
            requires
                0 <= count <= 0xffff_ffff_ffff_ffff,
                0 <= size <= 0xffff_ffff_ffff_ffff,
        ;
    }
    let mut claimed: u128 = 8 + (count as u128) * (size as u128);
    assert(claimed == entries_claim(views, 0));
    if claimed > limit as u128 {
        return false;
    }
    proof {
        reveal(first_claims_fit);
    }
    let mut index: usize = 0;
    while index < version.entries.len()
        invariant
            views == version@.entries,
            views.len() == version.entries@.len(),
            size == size_of::<WireEntry>(),
            index <= views.len(),
            claimed == entries_claim(views, index as int),
            claimed <= limit,
            first_claims_fit(views, index as int, limit as int),
        decreases views.len() - index,
    {
        let entry = &version.entries[index];
        proof {
            assert(views[index as int] == entry@);
            entry_is_claimed(views, index as int);
            one_more_fits(views, index as int, limit as int);
        }
        claimed =
        match claim_entry(entry, claimed - size as u128, limit) {
            Some(total) => total,
            None => {
                proof {
                    unfit_stays_unfit(version@, index + 1, limit as int);
                }
                return false;
            },
        };
        index += 1;
    }
    true
}

} // verus!
