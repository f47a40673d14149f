//! Files, their contents and the nodes of a filesystem tree.

use vstd::prelude::*;

use crate::error::{invalid, Error, Fault};
use crate::identity::{Digest, FileVersionId, Generation, NodeId};
use crate::text::same_bytes;

verus! {

/// Stable identity of one logical byte sequence.
#[derive(Clone, Copy, Debug)]
pub struct ContentId {
    pub digest: Digest,
    pub length: u64,
}

impl ContentId {
    pub fn new(digest: Digest, length: u64) -> (content: Self)
        ensures
            content == (ContentId { digest, length }),
    {
        ContentId { digest, length }
    }

    pub fn digest(self) -> (digest: Digest)
        ensures
            digest == self.digest,
    {
        self.digest
    }

    pub fn length(self) -> (length: u64)
        ensures
            length == self.length,
    {
        self.length
    }
}

impl PartialEq for ContentId {
    fn eq(&self, other: &Self) -> (result: bool) {
        self.digest == other.digest && self.length == other.length
    }
}

impl vstd::std_specs::cmp::PartialEqSpecImpl for ContentId {
    open spec fn obeys_eq_spec() -> bool {
        true
    }

    open spec fn eq_spec(&self, other: &Self) -> bool {
        *self == *other
    }
}

impl Eq for ContentId {

}

/// Whether two lists of contents are equal.
pub fn same_contents(left: &[ContentId], right: &[ContentId]) -> (result: bool)
    ensures
        result == (left@ == right@),
{
    if left.len() != right.len() {
        return false;
    }
    let mut index: usize = 0;
    while index < left.len()
        invariant
            left@.len() == right@.len(),
            index <= left@.len(),
            forall|k: int| 0 <= k < index ==> left@[k] == right@[k],
        decreases left@.len() - index,
    {
        if left[index] != right[index] {
            return false;
        }
        index += 1;
    }
    assert(left@ =~= right@);
    true
}

/// What a reference to stored bytes says.
pub ghost struct BlobRefView {
    pub reference: Seq<u8>,
    pub content: ContentId,
}

/// Opaque persistent reference to one verifiable immutable byte region.
#[derive(Debug)]
pub struct BlobRef {
    reference: Vec<u8>,
    content: ContentId,
}

impl BlobRef {
    pub closed spec fn view(&self) -> BlobRefView {
        BlobRefView { reference: self.reference@, content: self.content }
    }

    /// A reference is never empty.
    #[verifier::type_invariant]
    spec fn is_named(self) -> bool {
        self.reference@.len() > 0
    }

    pub fn new(reference: Vec<u8>, content: ContentId) -> (result: Result<Self, Error>)
        ensures
            match result {
                Ok(blob) => reference@.len() > 0 && blob@ == (BlobRefView {
                    reference: reference@,
                    content,
                }),
                Err(error) => reference@.len() == 0 && error.fault() == invalid(
                    "construct YinYang blob reference",
                    "blob reference is empty",
                ),
            },
    {
        if reference.len() == 0 {
            return Err(
                Error::invalid("construct YinYang blob reference", "blob reference is empty"),
            );
        }
        Ok(BlobRef { reference, content })
    }

    pub fn as_bytes(&self) -> (bytes: &[u8])
        ensures
            bytes@ == self@.reference,
            bytes@.len() > 0,
    {
        proof {
            use_type_invariant(self);
        }
        self.reference.as_slice()
    }

    pub fn content(&self) -> (content: ContentId)
        ensures
            content == self@.content,
    {
        self.content
    }

    pub fn same(&self, other: &Self) -> (result: bool)
        ensures
            result == (self@ == other@),
    {
        same_bytes(self.reference.as_slice(), other.reference.as_slice()) && self.content
            == other.content
    }
}

impl Clone for BlobRef {
    fn clone(&self) -> (result: Self)
        ensures
            result@ == self@,
    {
        proof {
            use_type_invariant(self);
        }
        let reference = self.reference.clone();
        assert(reference@ =~= self.reference@);
        BlobRef { reference, content: self.content }
    }
}

/// One half-open logical byte range in a file: not empty, and its end is a number.
#[derive(Clone, Copy, Debug, PartialEq, Eq, Structural)]
pub struct FileRange {
    offset: u64,
    length: u64,
}

impl FileRange {
    pub closed spec fn start(&self) -> u64 {
        self.offset
    }

    pub closed spec fn size(&self) -> u64 {
        self.length
    }

    #[verifier::type_invariant]
    spec fn is_range(self) -> bool {
        self.length > 0 && self.offset + self.length <= u64::MAX
    }

    pub fn new(offset: u64, length: u64) -> (result: Result<Self, Error>)
        ensures
            match result {
                Ok(range) => {
                    &&& length > 0
                    &&& offset + length <= u64::MAX
                    &&& range.start() == offset
                    &&& range.size() == length
                },
                Err(error) => (length == 0 || offset + length > u64::MAX) && error.fault()
                    == range_fault(),
            },
    {
        if length == 0 || offset.checked_add(length).is_none() {
            return Err(
                Error::invalid("construct YinYang file range", "file range is empty or overflows"),
            );
        }
        Ok(FileRange { offset, length })
    }

    pub fn offset(self) -> (offset: u64)
        ensures
            offset == self.start(),
            self.start() + self.size() <= u64::MAX,
    {
        proof {
            use_type_invariant(&self);
        }
        self.offset
    }

    pub fn length(self) -> (length: u64)
        ensures
            length == self.size(),
            length > 0,
    {
        proof {
            use_type_invariant(&self);
        }
        self.length
    }

    /// The first place behind the range.
    pub fn end(self) -> (result: Result<u64, Error>)
        ensures
            result is Ok,
            result->Ok_0 == self.start() + self.size(),
    {
        proof {
            use_type_invariant(&self);
        }
        Ok(self.offset + self.length)
    }
}

/// The fault of a range that cannot be made.
pub open spec fn range_fault() -> Fault {
    invalid("construct YinYang file range", "file range is empty or overflows")
}

pub ghost struct FileSourceView {
    pub stored: BlobRefView,
    pub decoded: Seq<ContentId>,
}

impl FileSourceView {
    /// The content behind the last decoding, or the stored bytes themselves.
    pub open spec fn content(self) -> ContentId {
        if self.decoded.len() > 0 {
            self.decoded.last()
        } else {
            self.stored.content
        }
    }
}

/// Independently verifiable and decodable source bytes.
#[derive(Debug)]
pub struct FileSource {
    stored: BlobRef,
    decoded: Vec<ContentId>,
}

impl FileSource {
    pub closed spec fn view(&self) -> FileSourceView {
        FileSourceView { stored: self.stored@, decoded: self.decoded@ }
    }

    pub fn new(stored: BlobRef, decoded: Vec<ContentId>) -> (source: Self)
        ensures
            source@ == (FileSourceView { stored: stored@, decoded: decoded@ }),
    {
        FileSource { stored, decoded }
    }

    pub fn stored(&self) -> (stored: &BlobRef)
        ensures
            stored@ == self@.stored,
    {
        &self.stored
    }

    pub fn decoded(&self) -> (decoded: &[ContentId])
        ensures
            decoded@ == self@.decoded,
    {
        self.decoded.as_slice()
    }

    pub fn content(&self) -> (content: ContentId)
        ensures
            content == self@.content(),
    {
        let count: usize = self.decoded.len();
        if count > 0 {
            self.decoded[count - 1]
        } else {
            self.stored.content()
        }
    }

    pub fn same(&self, other: &Self) -> (result: bool)
        ensures
            result == (self@ == other@),
    {
        self.stored.same(&other.stored) && same_contents(
            self.decoded.as_slice(),
            other.decoded.as_slice(),
        )
    }
}

impl Clone for FileSource {
    fn clone(&self) -> (result: Self)
        ensures
            result@ == self@,
    {
        let decoded = copied_contents(&self.decoded);
        FileSource { stored: self.stored.clone(), decoded }
    }
}

fn copied_contents(contents: &Vec<ContentId>) -> (result: Vec<ContentId>)
    ensures
        result@ == contents@,
{
    let mut result: Vec<ContentId> = Vec::new();
    let mut index: usize = 0;
    while index < contents.len()
        invariant
            index <= contents@.len(),
            result@ == contents@.take(index as int),
        decreases contents@.len() - index,
    {
        result.push(contents[index]);
        index += 1;
    }
    result
}

pub ghost struct FilePartView {
    pub offset: u64,
    pub length: u64,
    pub source_offset: u64,
    pub source: FileSourceView,
}

impl FilePartView {
    /// The first place of the file behind the part.
    pub open spec fn end(self) -> int {
        self.offset + self.length
    }

    /// The part names a range of the file and lies within its source.
    pub open spec fn fits(self) -> bool {
        &&& self.length > 0
        &&& self.offset + self.length <= u64::MAX
        &&& self.source_offset + self.length <= self.source.content().length
    }
}

/// Mapping from one logical file range into a source.
#[derive(Debug)]
pub struct FilePart {
    range: FileRange,
    source_offset: u64,
    source: FileSource,
}

impl FilePart {
    pub closed spec fn view(&self) -> FilePartView {
        FilePartView {
            offset: self.range.start(),
            length: self.range.size(),
            source_offset: self.source_offset,
            source: self.source@,
        }
    }

    #[verifier::type_invariant]
    spec fn is_within_source(self) -> bool {
        self@.fits()
    }

    pub fn new(range: FileRange, source_offset: u64, source: FileSource) -> (result: Result<
        Self,
        Error,
    >)
        ensures
            match result {
                Ok(part) => source_offset + range.size() <= source@.content().length && part@ == (
                FilePartView {
                    offset: range.start(),
                    length: range.size(),
                    source_offset,
                    source: source@,
                }),
                Err(error) => source_offset + range.size() > source@.content().length
                    && error.fault() == part_fault(),
            },
    {
        proof {
            use_type_invariant(&range);
        }
        let fits = match source_offset.checked_add(range.length()) {
            Some(end) => end <= source.content().length(),
            None => false,
        };
        if !fits {
            return Err(
                Error::invalid(
                    "construct YinYang file part",
                    "file part exceeds its source content",
                ),
            );
        }
        Ok(FilePart { range, source_offset, source })
    }

    pub fn range(&self) -> (range: FileRange)
        ensures
            range.start() == self@.offset,
            range.size() == self@.length,
            self@.fits(),
    {
        proof {
            use_type_invariant(self);
        }
        self.range
    }

    pub fn source_offset(&self) -> (offset: u64)
        ensures
            offset == self@.source_offset,
            self@.fits(),
    {
        proof {
            use_type_invariant(self);
        }
        self.source_offset
    }

    pub fn source(&self) -> (source: &FileSource)
        ensures
            source@ == self@.source,
            self@.fits(),
    {
        proof {
            use_type_invariant(self);
        }
        &self.source
    }

    pub fn same(&self, other: &Self) -> (result: bool)
        ensures
            result == (self@ == other@),
    {
        self.range.offset() == other.range.offset() && self.range.length() == other.range.length()
            && self.source_offset == other.source_offset && self.source.same(&other.source)
    }
}

impl Clone for FilePart {
    fn clone(&self) -> (result: Self)
        ensures
            result@ == self@,
    {
        proof {
            use_type_invariant(self);
        }
        FilePart {
            range: self.range,
            source_offset: self.source_offset,
            source: self.source.clone(),
        }
    }
}

/// The fault of a part that reaches behind its source.
pub open spec fn part_fault() -> Fault {
    invalid("construct YinYang file part", "file part exceeds its source content")
}

pub open spec fn parts_view(parts: Seq<FilePart>) -> Seq<FilePartView> {
    Seq::new(parts.len(), |i: int| parts[i]@)
}

pub ghost struct FileView {
    pub version: FileVersionId,
    pub content: ContentId,
    pub parts: Seq<FilePartView>,
}

/// The first place of the file that no part covers, if the parts leave no gap.
pub open spec fn covered(parts: Seq<FilePartView>) -> int {
    if parts.len() == 0 {
        0
    } else {
        parts.last().end()
    }
}

/// What is wrong with the first part that has something wrong.
pub open spec fn parts_fault(parts: Seq<FilePartView>, decodings: Option<usize>) -> Option<Fault>
    decreases parts.len(),
{
    if parts.len() == 0 {
        None
    } else if parts_fault(parts.drop_last(), decodings) is Some {
        parts_fault(parts.drop_last(), decodings)
    } else if parts.last().offset != covered(parts.drop_last()) {
        Some(invalid("validate YinYang file", "file parts contain a gap or overlap"))
    } else if decodings is Some && parts.last().source.decoded.len() != decodings->0 {
        Some(
            invalid(
                "validate YinYang file",
                "file source decoding count does not match the format",
            ),
        )
    } else {
        None
    }
}

/// What is wrong with the parts of a content: they have to cover it one after the other.
pub open spec fn content_fault(
    content: ContentId,
    parts: Seq<FilePartView>,
    decodings: Option<usize>,
) -> Option<Fault> {
    if content.length == 0 {
        if parts.len() == 0 {
            None
        } else {
            Some(invalid("validate YinYang file", "empty file contains parts"))
        }
    } else if parts_fault(parts, decodings) is Some {
        parts_fault(parts, decodings)
    } else if covered(parts) != content.length {
        Some(
            invalid(
                "validate YinYang file",
                "file parts do not exactly cover the logical content",
            ),
        )
    } else {
        None
    }
}

/// What is wrong with a file.
pub open spec fn file_fault(file: FileView, decodings: Option<usize>) -> Option<Fault> {
    content_fault(file.content, file.parts, decodings)
}

/// One published logical file.
#[derive(Debug)]
pub struct File {
    version: FileVersionId,
    content: ContentId,
    parts: Vec<FilePart>,
}

impl File {
    pub closed spec fn view(&self) -> FileView {
        FileView { version: self.version, content: self.content, parts: parts_view(self.parts@) }
    }

    #[verifier::type_invariant]
    spec fn is_covered(self) -> bool {
        file_fault(self@, None) is None
    }

    pub fn new(version: FileVersionId, content: ContentId, parts: Vec<FilePart>) -> (result: Result<
        Self,
        Error,
    >)
        ensures
            ({
                let view = FileView { version, content, parts: parts_view(parts@) };
                match result {
                    Ok(file) => file_fault(view, None) is None && file@ == view,
                    Err(error) => file_fault(view, None) == Some(error.fault()),
                }
            }),
    {
        match validate_parts(content, &parts, None) {
            Ok(()) => Ok(File { version, content, parts }),
            Err(error) => Err(error),
        }
    }

    pub fn version(&self) -> (version: FileVersionId)
        ensures
            version == self@.version,
    {
        self.version
    }

    pub fn content(&self) -> (content: ContentId)
        ensures
            content == self@.content,
            file_fault(self@, None) is None,
    {
        proof {
            use_type_invariant(self);
        }
        self.content
    }

    pub fn parts(&self) -> (parts: &[FilePart])
        ensures
            parts_view(parts@) == self@.parts,
            file_fault(self@, None) is None,
    {
        proof {
            use_type_invariant(self);
        }
        self.parts.as_slice()
    }

    /// Check the file against the number of decodings that its format asks for.
    pub fn validate(&self, decodings: Option<usize>) -> (result: Result<(), Error>)
        ensures
            match result {
                Ok(()) => file_fault(self@, decodings) is None,
                Err(error) => file_fault(self@, decodings) == Some(error.fault()),
            },
    {
        validate_parts(self.content, &self.parts, decodings)
    }

    pub fn same_parts(&self, other: &Self) -> (result: bool)
        ensures
            result == (self@.parts == other@.parts),
    {
        let ghost left = self@.parts;
        let ghost right = other@.parts;
        if self.parts.len() != other.parts.len() {
            assert(left.len() != right.len());
            return false;
        }
        let mut index: usize = 0;
        while index < self.parts.len()
            invariant
                left == self@.parts,
                right == other@.parts,
                self.parts@.len() == other.parts@.len(),
                left.len() == self.parts@.len(),
                right.len() == self.parts@.len(),
                index <= self.parts@.len(),
                forall|k: int| 0 <= k < index ==> left[k] == right[k],
            decreases self.parts@.len() - index,
        {
            if !self.parts[index].same(&other.parts[index]) {
                assert(left[index as int] != right[index as int]);
                return false;
            }
            index += 1;
        }
        assert(left =~= right);
        true
    }

    pub fn same(&self, other: &Self) -> (result: bool)
        ensures
            result == (self@ == other@),
    {
        self.version == other.version && self.content == other.content && self.same_parts(other)
    }
}

impl Clone for File {
    fn clone(&self) -> (result: Self)
        ensures
            result@ == self@,
    {
        proof {
            use_type_invariant(self);
        }
        let mut parts: Vec<FilePart> = Vec::new();
        let mut index: usize = 0;
        while index < self.parts.len()
            invariant
                index <= self.parts@.len(),
                parts@.len() == index,
                forall|k: int| 0 <= k < index ==> (#[trigger] parts@[k])@ == self.parts@[k]@,
            decreases self.parts@.len() - index,
        {
            parts.push(self.parts[index].clone());
            index += 1;
        }
        assert(parts_view(parts@) =~= parts_view(self.parts@));
        File { version: self.version, content: self.content, parts }
    }
}

/// Check that parts cover a content.
pub fn validate_parts(
    content: ContentId,
    parts: &Vec<FilePart>,
    decodings: Option<usize>,
) -> (result: Result<(), Error>)
    ensures
        match result {
            Ok(()) => content_fault(content, parts_view(parts@), decodings) is None,
            Err(error) => content_fault(content, parts_view(parts@), decodings) == Some(
                error.fault(),
            ),
        },
{
    let ghost all = parts_view(parts@);
    if content.length() == 0 {
        if parts.len() == 0 {
            return Ok(());
        }
        return Err(Error::invalid("validate YinYang file", "empty file contains parts"));
    }
    let mut expected: u64 = 0;
    let mut index: usize = 0;
    while index < parts.len()
        invariant
            all == parts_view(parts@),
            index <= parts@.len(),
            parts_fault(all.take(index as int), decodings) is None,
            expected == covered(all.take(index as int)),
            content.length > 0,
        decreases parts@.len() - index,
    {
        let part = &parts[index];
        let ghost now = all.take(index + 1);
        proof {
            assert(now.drop_last() =~= all.take(index as int));
            assert(now.last() == part@);
            assert(all.take(all.len() as int) =~= all);
            later_parts_keep_fault(all, decodings, (index + 1) as nat);
        }
        if part.range().offset() != expected {
            return Err(
                Error::invalid("validate YinYang file", "file parts contain a gap or overlap"),
            );
        }
        if let Some(count) = decodings {
            if part.source().decoded().len() != count {
                return Err(
                    Error::invalid(
                        "validate YinYang file",
                        "file source decoding count does not match the format",
                    ),
                );
            }
        }
        expected =
        match part.range().end() {
            Ok(end) => end,
            Err(error) => {
                return Err(error);
            },
        };
        index += 1;
    }
    assert(all.take(index as int) =~= all);
    if expected != content.length() {
        return Err(
            Error::invalid(
                "validate YinYang file",
                "file parts do not exactly cover the logical content",
            ),
        );
    }
    Ok(())
}

/// A fault among the first parts is the fault of all of them.
proof fn later_parts_keep_fault(parts: Seq<FilePartView>, decodings: Option<usize>, count: nat)
    requires
        count <= parts.len(),
    ensures
        parts_fault(parts.take(count as int), decodings) is Some ==> parts_fault(parts, decodings)
            == parts_fault(parts.take(count as int), decodings),
    decreases parts.len(),
{
    if count < parts.len() {
        later_parts_keep_fault(parts.drop_last(), decodings, count);
        assert(parts.drop_last().take(count as int) =~= parts.take(count as int));
    } else {
        assert(parts.take(count as int) =~= parts);
    }
}

/// Filesystem attributes owned by one node generation.
#[derive(Clone, Copy, Debug, PartialEq, Eq, Structural)]
pub struct NodeAttrs {
    pub executable: bool,
}

impl Default for NodeAttrs {
    fn default() -> (attrs: Self)
        ensures
            attrs == (NodeAttrs { executable: false }),
    {
        NodeAttrs { executable: false }
    }
}

/// Directory membership state.
#[derive(Clone, Copy, Debug, PartialEq, Eq, Structural)]
pub struct Dir {
    pub entries_generation: Generation,
}

impl Dir {
    pub fn new(entries_generation: Generation) -> (dir: Self)
        ensures
            dir == (Dir { entries_generation }),
    {
        Dir { entries_generation }
    }

    pub fn entries_generation(self) -> (generation: Generation)
        ensures
            generation == self.entries_generation,
    {
        self.entries_generation
    }
}

/// Node-specific filesystem state.
#[derive(Debug)]
pub enum NodeBody {
    Dir(Dir),
    File(File),
}

pub ghost enum BodyView {
    Dir(Dir),
    File(FileView),
}

pub ghost struct NodeView {
    pub id: NodeId,
    pub generation: Generation,
    pub attrs: NodeAttrs,
    pub body: BodyView,
}

impl NodeBody {
    pub open spec fn view(&self) -> BodyView {
        match self {
            NodeBody::Dir(dir) => BodyView::Dir(*dir),
            NodeBody::File(file) => BodyView::File(file@),
        }
    }
}

impl Clone for NodeBody {
    fn clone(&self) -> (result: Self)
        ensures
            result@ == self@,
    {
        match self {
            NodeBody::Dir(dir) => NodeBody::Dir(*dir),
            NodeBody::File(file) => NodeBody::File(file.clone()),
        }
    }
}

/// One stable filesystem node.
#[derive(Debug)]
pub struct Node {
    id: NodeId,
    generation: Generation,
    attrs: NodeAttrs,
    body: NodeBody,
}

impl Node {
    pub closed spec fn view(&self) -> NodeView {
        NodeView {
            id: self.id,
            generation: self.generation,
            attrs: self.attrs,
            body: self.body@,
        }
    }

    pub fn dir(
        id: NodeId,
        generation: Generation,
        attrs: NodeAttrs,
        entries_generation: Generation,
    ) -> (node: Self)
        ensures
            node@ == (NodeView {
                id,
                generation,
                attrs,
                body: BodyView::Dir(Dir { entries_generation }),
            }),
    {
        Node { id, generation, attrs, body: NodeBody::Dir(Dir::new(entries_generation)) }
    }

    pub fn file(id: NodeId, generation: Generation, attrs: NodeAttrs, file: File) -> (node: Self)
        ensures
            node@ == (NodeView { id, generation, attrs, body: BodyView::File(file@) }),
    {
        Node { id, generation, attrs, body: NodeBody::File(file) }
    }

    pub fn id(&self) -> (id: NodeId)
        ensures
            id == self@.id,
    {
        self.id
    }

    pub fn generation(&self) -> (generation: Generation)
        ensures
            generation == self@.generation,
    {
        self.generation
    }

    pub fn attrs(&self) -> (attrs: NodeAttrs)
        ensures
            attrs == self@.attrs,
    {
        self.attrs
    }

    pub fn body(&self) -> (body: &NodeBody)
        ensures
            body@ == self@.body,
    {
        &self.body
    }

    pub fn dir_body(&self) -> (result: Option<Dir>)
        ensures
            match result {
                Some(dir) => self@.body == BodyView::Dir(dir),
                None => self@.body is File,
            },
    {
        match &self.body {
            NodeBody::Dir(dir) => Some(*dir),
            NodeBody::File(_) => None,
        }
    }

    pub fn file_body(&self) -> (result: Option<&File>)
        ensures
            match result {
                Some(file) => self@.body == BodyView::File(file@),
                None => self@.body is Dir,
            },
    {
        match &self.body {
            NodeBody::Dir(_) => None,
            NodeBody::File(file) => Some(file),
        }
    }
}

impl Clone for Node {
    fn clone(&self) -> (result: Self)
        ensures
            result@ == self@,
    {
        Node {
            id: self.id,
            generation: self.generation,
            attrs: self.attrs,
            body: self.body.clone(),
        }
    }
}

// What files are made of.

/// A range is accepted exactly if it is not empty and its end can be counted.
pub proof fn ranges_can_be_counted(offset: u64, length: u64, result: Result<FileRange, Error>)
    requires
        call_ensures(FileRange::new, (offset, length), result),
    ensures
        result is Ok <==> length > 0 && offset + length <= u64::MAX,
        result matches Ok(range) ==> range.start() == offset && range.size() == length,
{
}

/// A part is accepted exactly if its bytes lie within the content that its source decodes to in
/// the end, or stores where nothing is decoded.
pub proof fn parts_lie_within_their_source(
    range: FileRange,
    source_offset: u64,
    source: FileSource,
    result: Result<FilePart, Error>,
)
    requires
        call_ensures(FilePart::new, (range, source_offset, source), result),
    ensures
        result is Ok <==> source_offset + range.size() <= if source@.decoded.len() == 0 {
            source@.stored.content.length
        } else {
            source@.decoded[source@.decoded.len() - 1].length
        },
        result matches Ok(part) ==> {
            &&& part@.offset == range.start()
            &&& part@.length == range.size()
            &&& part@.source_offset == source_offset
            &&& part@.source == source@
        },
{
}

/// A blob is referred to by a name that is not empty.
pub proof fn blobs_are_named(
    reference: Vec<u8>,
    content: ContentId,
    result: Result<BlobRef, Error>,
)
    requires
        call_ensures(BlobRef::new, (reference, content), result),
    ensures
        result is Ok <==> reference@.len() > 0,
        result matches Ok(blob) ==> blob@.reference == reference@ && blob@.content == content,
{
}

} // verus!
