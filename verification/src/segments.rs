//! Immutable objects and data segments: what is written, what is read back, and in which object.

use vstd::prelude::*;

use crate::error::{corrupt, invalid, Error, Fault};
use crate::filesystem::ContentId;
use crate::hash::{digest_of, is_content_of, StreamHasher};
use crate::identity::{marked_random, Digest, GcEpoch};
use crate::model::{ObjectClass, ObjectLocator, ObjectRef};

verus! {

/// Incremental content identity of a stream of bytes.
pub struct ContentHasher {
    hasher: StreamHasher,
    length: u64,
    complete: bool,
}

impl ContentHasher {
    /// The bytes observed so far.
    pub closed spec fn view(&self) -> Seq<u8> {
        self.hasher@
    }

    /// The end of the source was observed.
    pub closed spec fn ended(&self) -> bool {
        self.complete
    }

    #[verifier::type_invariant]
    spec fn counts(self) -> bool {
        self.length == self.hasher@.len()
    }

    pub fn new() -> (hasher: Self)
        ensures
            hasher@ == Seq::<u8>::empty(),
            !hasher.ended(),
    {
        ContentHasher { hasher: StreamHasher::new(), length: 0, complete: false }
    }

    /// Observe bytes read from a source, including the empty observation at its end.
    pub fn observe(&mut self, bytes: &[u8])
        requires
            old(self)@.len() + bytes@.len() <= u64::MAX,
        ensures
            final(self)@ == old(self)@ + bytes@,
            final(self).ended() == (old(self).ended() || bytes@.len() == 0),
    {
        proof {
            use_type_invariant(&*self);
        }
        let mut current = ContentHasher::new();
        std::mem::swap(&mut current, self);
        let mut hasher = current.hasher;
        hasher.update(bytes);
        *self =
        ContentHasher {
            hasher,
            length: current.length + bytes.len() as u64,
            complete: current.complete || bytes.len() == 0,
        };
    }

    /// The identity of all bytes observed so far.
    pub fn content(&self) -> (content: ContentId)
        ensures
            is_content_of(content, self@),
    {
        proof {
            use_type_invariant(self);
        }
        ContentId::new(self.hasher.digest(), self.length)
    }

    /// The content identity after the source has reached its end.
    pub fn complete_content(&self) -> (content: Option<ContentId>)
        ensures
            match content {
                Some(content) => self.ended() && is_content_of(content, self@),
                None => !self.ended(),
            },
    {
        if self.complete {
            Some(self.content())
        } else {
            None
        }
    }
}

/// What the copy out of a range does next.
pub enum CopyStep {
    /// The copy is complete.
    Done,
    /// More bytes of the range are needed.
    Refill,
    /// The bytes go to the destination.
    Write(Vec<u8>),
}

pub open spec fn segment_fault(message: &str) -> Fault {
    corrupt("read Managed data segment", message)
}

/// One byte range of a data segment, as far as it was read and not yet copied.
pub struct RangeReader {
    streamed: bool,
    pending: Vec<u8>,
    remaining: u64,
}

/// The locator names a data segment and every range is in order.
pub open spec fn ranges_valid(locator: ObjectLocator, ranges: Seq<(u64, u64)>) -> bool {
    &&& locator.class == ObjectClass::DataSegment
    &&& forall|i: int| 0 <= i < ranges.len() ==> (#[trigger] ranges[i]).0 <= ranges[i].1
}

pub open spec fn fetch_fault(message: &str) -> Fault {
    corrupt("fetch Managed data segment ranges", message)
}

/// Check the ranges of a fetch.
pub fn check_fetch(locator: ObjectLocator, ranges: &[(u64, u64)]) -> (result: Result<(), Error>)
    ensures
        match result {
            Ok(()) => ranges_valid(locator, ranges@),
            Err(error) => !ranges_valid(locator, ranges@) && error.fault() == corrupt(
                "fetch Managed data segment",
                "data segment range reference is invalid",
            ),
        },
{
    let mut valid = locator.class == ObjectClass::DataSegment;
    let mut index: usize = 0;
    while index < ranges.len()
        invariant
            index <= ranges@.len(),
            valid == (locator.class == ObjectClass::DataSegment && forall|i: int|
                0 <= i < index ==> (#[trigger] ranges@[i]).0 <= ranges@[i].1),
        decreases ranges@.len() - index,
    {
        valid = valid && ranges[index].0 <= ranges[index].1;
        index += 1;
    }
    if valid {
        Ok(())
    } else {
        Err(
            Error::corrupt(
                "fetch Managed data segment",
                "data segment range reference is invalid",
            ),
        )
    }
}

pub open spec fn bytes_views(pieces: Seq<Vec<u8>>) -> Seq<Seq<u8>> {
    Seq::new(pieces.len(), |i: int| pieces[i]@)
}

/// Every piece has the length of its range.
pub open spec fn lengths_match(pieces: Seq<Seq<u8>>, ranges: Seq<(u64, u64)>) -> bool {
    forall|i: int|
        0 <= i < pieces.len() ==> (#[trigger] pieces[i]).len() == ranges[i].1 - ranges[i].0
}

impl RangeReader {
    /// The bytes read and not yet copied.
    pub closed spec fn pending(&self) -> Seq<u8> {
        self.pending@
    }

    /// The number of bytes of the range that may still be copied.
    pub closed spec fn remaining(&self) -> u64 {
        self.remaining
    }

    /// More bytes of the range can be asked for.
    pub closed spec fn is_streamed(&self) -> bool {
        self.streamed
    }

    /// The readers of ranges that storage returned whole.
    pub fn fetched(ranges: &[(u64, u64)], pieces: Vec<Vec<u8>>) -> (result: Result<
        Vec<Self>,
        Error,
    >)
        requires
            forall|i: int| 0 <= i < ranges@.len() ==> (#[trigger] ranges@[i]).0 <= ranges@[i].1,
        ensures
            match result {
                Ok(readers) => {
                    &&& pieces@.len() == ranges@.len()
                    &&& lengths_match(bytes_views(pieces@), ranges@)
                    &&& readers@.len() == pieces@.len()
                    &&& forall|i: int|
                        0 <= i < readers@.len() ==> {
                            &&& (#[trigger] readers@[i]).pending() == pieces@[i]@
                            &&& readers@[i].remaining() == pieces@[i]@.len()
                            &&& !readers@[i].is_streamed()
                        }
                },
                Err(error) => if pieces@.len() != ranges@.len() {
                    error.fault() == fetch_fault("storage returned a different number of ranges")
                } else {
                    !lengths_match(bytes_views(pieces@), ranges@) && error.fault() == fetch_fault(
                        "storage returned a truncated range",
                    )
                },
            },
    {
        if pieces.len() != ranges.len() {
            return Err(
                Error::corrupt(
                    "fetch Managed data segment ranges",
                    "storage returned a different number of ranges",
                ),
            );
        }
        let ghost given = pieces@;
        let ghost views = bytes_views(pieces@);
        let count: usize = pieces.len();
        let mut remaining = crate::order::reversed(pieces);
        let ghost backward = remaining@;
        let mut readers: Vec<RangeReader> = Vec::new();
        let mut index: usize = 0;
        while index < count
            invariant
                given == pieces@,
                views == bytes_views(given),
                count == given.len(),
                count == ranges@.len(),
                forall|i: int|
                    0 <= i < ranges@.len() ==> (#[trigger] ranges@[i]).0 <= ranges@[i].1,
                backward.len() == count,
                forall|i: int|
                    0 <= i < given.len() ==> #[trigger] backward[given.len() - 1 - i] == given[i],
                index <= count,
                remaining@ == backward.take(count - index),
                readers@.len() == index,
                forall|i: int|
                    0 <= i < index ==> (#[trigger] views[i]).len() == ranges@[i].1 - ranges@[i].0,
                forall|i: int|
                    0 <= i < index ==> {
                        &&& (#[trigger] readers@[i]).pending() == given[i]@
                        &&& readers@[i].remaining() == given[i]@.len()
                        &&& !readers@[i].is_streamed()
                    },
            decreases count - index,
        {
            let piece = remaining.pop().unwrap();
            proof {
                assert(piece == backward[given.len() - 1 - index]);
                assert(remaining@ =~= backward.take(count - (index + 1)));
                assert(views[index as int] == piece@);
            }
            let expected: u64 = ranges[index].1 - ranges[index].0;
            if piece.len() as u64 != expected {
                return Err(
                    Error::corrupt(
                        "fetch Managed data segment ranges",
                        "storage returned a truncated range",
                    ),
                );
            }
            readers.push(RangeReader { streamed: false, pending: piece, remaining: expected });
            index += 1;
        }
        Ok(readers)
    }

    /// The reader of a range whose bytes come one after the other.
    pub fn open(locator: ObjectLocator, start: u64, end: u64) -> (result: Result<Self, Error>)
        ensures
            match result {
                Ok(reader) => {
                    &&& locator.class == ObjectClass::DataSegment
                    &&& start <= end
                    &&& reader.pending() == Seq::<u8>::empty()
                    &&& reader.remaining() == end - start
                    &&& reader.is_streamed()
                },
                Err(error) => (locator.class != ObjectClass::DataSegment || start > end)
                    && error.fault() == segment_fault("data segment range reference is invalid"),
            },
    {
        if locator.class != ObjectClass::DataSegment || start > end {
            return Err(
                Error::corrupt(
                    "read Managed data segment",
                    "data segment range reference is invalid",
                ),
            );
        }
        Ok(RangeReader { streamed: true, pending: Vec::new(), remaining: end - start })
    }

    /// Check that so many bytes can be copied.
    pub fn begin_copy(&self, length: u64) -> (result: Result<(), Error>)
        ensures
            match result {
                Ok(()) => length <= self.remaining(),
                Err(error) => length > self.remaining() && error.fault() == segment_fault(
                    "stored range exceeds the requested range",
                ),
            },
    {
        if length > self.remaining {
            return Err(
                Error::corrupt(
                    "read Managed data segment",
                    "stored range exceeds the requested range",
                ),
            );
        }
        Ok(())
    }

    /// Take the next bytes of a copy that so many bytes are left of.
    pub fn step(&mut self, left: u64) -> (step: CopyStep)
        requires
            left <= old(self).remaining(),
        ensures
            final(self).is_streamed() == old(self).is_streamed(),
            match step {
                CopyStep::Done => left == 0 && final(self).pending() == old(self).pending()
                    && final(self).remaining() == old(self).remaining(),
                CopyStep::Refill => {
                    &&& left > 0
                    &&& old(self).pending().len() == 0
                    &&& final(self).pending() == old(self).pending()
                    &&& final(self).remaining() == old(self).remaining()
                },
                CopyStep::Write(bytes) => {
                    &&& left > 0
                    &&& bytes@.len() == (if left < old(self).pending().len() {
                        left as int
                    } else {
                        old(self).pending().len() as int
                    })
                    &&& bytes@.len() > 0
                    &&& old(self).pending() == bytes@ + final(self).pending()
                    &&& final(self).remaining() == old(self).remaining() - bytes@.len()
                },
            },
    {
        if left == 0 {
            return CopyStep::Done;
        }
        let available: usize = self.pending.len();
        if available == 0 {
            return CopyStep::Refill;
        }
        let take: usize = if left < available as u64 {
            left as usize
        } else {
            available
        };
        let ghost before = self.pending@;
        let mut bytes: Vec<u8> = Vec::new();
        std::mem::swap(&mut bytes, &mut self.pending);
        let rest = bytes.split_off(take);
        self.pending = rest;
        self.remaining = self.remaining - take as u64;
        assert(before =~= bytes@ + self.pending@);
        CopyStep::Write(bytes)
    }

    /// Add the bytes that storage gave; nothing means that its stream ended.
    pub fn refill(&mut self, chunk: Option<Vec<u8>>) -> (result: Result<(), Error>)
        requires
            old(self).pending().len() == 0,
        ensures
            final(self).is_streamed() == old(self).is_streamed(),
            final(self).remaining() == old(self).remaining(),
            match result {
                Ok(()) => old(self).is_streamed() && chunk is Some && final(self).pending()
                    == chunk->0@,
                Err(error) => {
                    &&& final(self).pending() == old(self).pending()
                    &&& if !old(self).is_streamed() {
                        error.fault() == segment_fault("fetched data segment range is truncated")
                    } else {
                        chunk is None && error.fault() == segment_fault(
                            "data segment range is truncated",
                        )
                    }
                },
            },
    {
        if !self.streamed {
            return Err(
                Error::corrupt(
                    "read Managed data segment",
                    "fetched data segment range is truncated",
                ),
            );
        }
        match chunk {
            Some(bytes) => {
                self.pending = bytes;
                Ok(())
            },
            None => Err(
                Error::corrupt("read Managed data segment", "data segment range is truncated"),
            ),
        }
    }
}

/// Check that the bytes copied are those of a stored content.
pub fn verify_copy(copied: &StreamHasher, content: ContentId) -> (result: Result<(), Error>)
    ensures
        match result {
            Ok(()) => content.digest@ == digest_of(copied@),
            Err(error) => content.digest@ != digest_of(copied@) && error.fault() == segment_fault(
                "stored range does not match its content reference",
            ),
        },
{
    let digest = copied.digest();
    proof {
        Digest::identified(digest, content.digest);
    }
    if digest != content.digest() {
        return Err(
            Error::corrupt(
                "read Managed data segment",
                "stored range does not match its content reference",
            ),
        );
    }
    Ok(())
}

/// The object that is being written: its name, and its bytes so far.
pub struct ImmutableWriter {
    locator: ObjectLocator,
    hasher: StreamHasher,
    encoded_length: u64,
}

impl ImmutableWriter {
    /// The bytes written so far.
    pub closed spec fn view(&self) -> Seq<u8> {
        self.hasher@
    }

    pub closed spec fn name(&self) -> ObjectLocator {
        self.locator
    }

    #[verifier::type_invariant]
    spec fn counts(self) -> bool {
        self.encoded_length == self.hasher@.len()
    }

    /// Start an object with a name of its own.
    pub fn open(gc_epoch: GcEpoch, class: ObjectClass) -> (writer: Self)
        ensures
            writer@ == Seq::<u8>::empty(),
            writer.name().gc_epoch == gc_epoch,
            writer.name().class == class,
            marked_random(writer.name().id@),
    {
        ImmutableWriter {
            locator: ObjectLocator::generate(gc_epoch, class),
            hasher: StreamHasher::new(),
            encoded_length: 0,
        }
    }

    /// Count and digest bytes that are written to the object.
    pub fn write(&mut self, bytes: &[u8]) -> (result: Result<(), Error>)
        ensures
            final(self).name() == old(self).name(),
            match result {
                Ok(()) => final(self)@ == old(self)@ + bytes@ && final(self)@.len() <= u64::MAX,
                Err(error) => {
                    &&& old(self)@.len() + bytes@.len() > u64::MAX
                    &&& error.fault() == invalid(
                        "write Managed object",
                        "object length overflows",
                    )
                    &&& final(self)@ == old(self)@
                },
            },
    {
        proof {
            use_type_invariant(&*self);
        }
        let encoded_length: u64 = match self.encoded_length.checked_add(bytes.len() as u64) {
            Some(length) => length,
            None => {
                return Err(Error::invalid("write Managed object", "object length overflows"));
            },
        };
        let locator = self.locator;
        let mut current = ImmutableWriter {
            locator,
            hasher: StreamHasher::new(),
            encoded_length: 0,
        };
        std::mem::swap(&mut current, self);
        let mut hasher = current.hasher;
        hasher.update(bytes);
        *self = ImmutableWriter { locator, hasher, encoded_length };
        Ok(())
    }

    pub fn locator(&self) -> (locator: ObjectLocator)
        ensures
            locator == self.name(),
    {
        self.locator
    }

    pub fn digest(&self) -> (digest: Digest)
        ensures
            digest@ == digest_of(self@),
    {
        self.hasher.digest()
    }

    pub fn encoded_length(&self) -> (length: u64)
        ensures
            length == self@.len(),
    {
        proof {
            use_type_invariant(self);
        }
        self.encoded_length
    }

    /// Whether a write whose end was not confirmed went through after all: an object of the
    /// written length stands under the name.
    pub fn published_object_is_visible(&self, stored_length: Option<u64>) -> (result: bool)
        ensures
            result == (stored_length is Some && stored_length->0 == self@.len()),
    {
        proof {
            use_type_invariant(self);
        }
        match stored_length {
            Some(length) => length == self.encoded_length,
            None => false,
        }
    }

    /// The reference of the finished object: what was written is read back under it.
    pub fn reference(&self) -> (reference: ObjectRef)
        ensures
            reference.locator == self.name(),
            is_object(reference, self@),
    {
        proof {
            use_type_invariant(self);
        }
        ObjectRef {
            locator: self.locator,
            encoded_length: self.encoded_length,
            digest: self.hasher.digest(),
        }
    }
}

/// The bytes are those that a reference names.
pub open spec fn is_object(reference: ObjectRef, bytes: Seq<u8>) -> bool {
    bytes.len() == reference.encoded_length && digest_of(bytes) == reference.digest@
}

pub open spec fn object_fault(message: &str) -> Fault {
    corrupt("read Managed object", message)
}

/// The number of bytes to read of an object, if it is within the limit.
pub fn object_length(reference: ObjectRef, maximum_bytes: usize) -> (result: Result<usize, Error>)
    ensures
        match result {
            Ok(length) => length == reference.encoded_length && length <= maximum_bytes,
            Err(error) => reference.encoded_length > maximum_bytes && error.fault()
                == object_fault("object length is invalid"),
        },
{
    if reference.encoded_length > maximum_bytes as u64 {
        return Err(Error::corrupt("read Managed object", "object length is invalid"));
    }
    Ok(reference.encoded_length as usize)
}

/// Check what was read of an object against its reference.
pub fn read_immutable(reference: ObjectRef, read: Option<Vec<u8>>) -> (result: Result<
    Vec<u8>,
    Error,
>)
    ensures
        match result {
            Ok(bytes) => read == Some(bytes) && is_object(reference, bytes@),
            Err(error) => match read {
                None => error.fault() == object_fault("referenced object is missing"),
                Some(bytes) => !is_object(reference, bytes@) && error.fault() == object_fault(
                    "object does not match its reference",
                ),
            },
        },
{
    let bytes = match read {
        Some(bytes) => bytes,
        None => {
            return Err(Error::corrupt("read Managed object", "referenced object is missing"));
        },
    };
    let digest = crate::hash::digest(bytes.as_slice());
    proof {
        Digest::identified(digest, reference.digest);
    }
    if bytes.len() as u64 != reference.encoded_length || digest != reference.digest {
        return Err(Error::corrupt("read Managed object", "object does not match its reference"));
    }
    Ok(bytes)
}

/// What the placement of the next stored bytes needs.
#[derive(Clone, Copy, Debug, PartialEq, Eq, Structural)]
pub enum Placement {
    /// The open segment takes them.
    Current,
    /// There is no open segment: open one.
    Open,
    /// The open segment is full: finish it and open another.
    Rotate,
}

/// Lazy sequence of immutable data segments rotated by payload target.
pub struct DataSegmentWriter {
    gc_epoch: GcEpoch,
    target_bytes: u64,
    current: Option<u64>,
}

impl DataSegmentWriter {
    pub closed spec fn epoch(&self) -> GcEpoch {
        self.gc_epoch
    }

    pub closed spec fn target(&self) -> u64 {
        self.target_bytes
    }

    /// The payload of the open segment.
    pub closed spec fn payload(&self) -> Option<u64> {
        self.current
    }

    /// Start placing without an open segment. The target rotates shared segments and does
    /// not limit what is placed.
    pub fn new(gc_epoch: GcEpoch, target_bytes: u64) -> (writer: Self)
        ensures
            writer.epoch() == gc_epoch,
            writer.target() == target_bytes,
            writer.payload() is None,
    {
        DataSegmentWriter { gc_epoch, target_bytes, current: None }
    }

    /// What is to be done before the next bytes are placed.
    pub fn placement(&self) -> (placement: Placement)
        ensures
            placement == (match self.payload() {
                None => Placement::Open,
                Some(length) => if length >= self.target() {
                    Placement::Rotate
                } else {
                    Placement::Current
                },
            }),
    {
        match self.current {
            None => Placement::Open,
            Some(length) => if length >= self.target_bytes {
                Placement::Rotate
            } else {
                Placement::Current
            },
        }
    }

    /// A segment was opened.
    pub fn opened(&mut self)
        ensures
            final(self).payload() == Some(0u64),
            final(self).epoch() == old(self).epoch(),
            final(self).target() == old(self).target(),
    {
        self.current = Some(0);
    }

    /// So many bytes were appended to the open segment: where they begin.
    pub fn appended(&mut self, length: u64) -> (result: Result<u64, Error>)
        requires
            old(self).payload() is Some,
        ensures
            final(self).epoch() == old(self).epoch(),
            final(self).target() == old(self).target(),
            ({
                let offset = old(self).payload()->0;
                match result {
                    Ok(start) => start == offset && final(self).payload() == Some(
                        (offset + length) as u64,
                    ) && offset + length <= u64::MAX,
                    Err(error) => {
                        &&& offset + length > u64::MAX
                        &&& error.fault() == invalid(
                            "write Managed data segment",
                            "length overflows",
                        )
                        &&& final(self).payload() == old(self).payload()
                    },
                }
            }),
    {
        let offset: u64 = match self.current {
            Some(length) => length,
            None => 0,
        };
        match offset.checked_add(length) {
            Some(total) => {
                self.current = Some(total);
                Ok(offset)
            },
            None => Err(Error::invalid("write Managed data segment", "length overflows")),
        }
    }

    pub fn gc_epoch(&self) -> (epoch: GcEpoch)
        ensures
            epoch == self.epoch(),
    {
        self.gc_epoch
    }

    /// The open segment is finished or given up; its payload, if there was one.
    pub fn finish(&mut self) -> (payload: Option<u64>)
        ensures
            payload == old(self).payload(),
            final(self).payload() is None,
            final(self).epoch() == old(self).epoch(),
            final(self).target() == old(self).target(),
    {
        let payload = self.current;
        self.current = None;
        payload
    }
}

/// The size of the parts that a segment is uploaded in: one part for a payload that is known
/// to fit, else the usual size.
pub fn segment_part_bytes(
    multipart_part_bytes: usize,
    stored_payload_bound: Option<u64>,
    tail_bytes: u64,
) -> (bytes: usize)
    requires
        multipart_part_bytes > 0,
    ensures
        bytes == (match stored_payload_bound {
            Some(bound) if bound + tail_bytes <= u64::MAX && bound + tail_bytes <= usize::MAX
                && bound + tail_bytes > multipart_part_bytes => bound + tail_bytes,
            _ => multipart_part_bytes as int,
        }),
{
    match stored_payload_bound {
        Some(bound) => match bound.checked_add(tail_bytes) {
            Some(total) => if total <= usize::MAX as u64 && total as usize > multipart_part_bytes {
                total as usize
            } else {
                multipart_part_bytes
            },
            None => multipart_part_bytes,
        },
        None => multipart_part_bytes,
    }
}

// What reading and placing promise.

/// A copy out of a range writes what is pending from its front, no more than is left of it, and
/// ends only once nothing is left; more is asked for only where nothing is pending.
pub proof fn a_copy_takes_bytes_in_order(reader: &mut RangeReader, left: u64, step: CopyStep)
    requires
        left <= old(reader).remaining(),
        call_ensures(RangeReader::step, (reader, left), step),
    ensures
        step is Done <==> left == 0,
        step is Refill <==> left > 0 && old(reader).pending().len() == 0,
        step matches CopyStep::Write(bytes) ==> {
            &&& 0 < bytes@.len() <= left
            &&& bytes@ + final(reader).pending() == old(reader).pending()
            &&& bytes@.len() == left || final(reader).pending().len() == 0
            &&& old(reader).remaining() - final(reader).remaining() == bytes@.len()
        },
        !(step is Write) ==> final(reader).pending() == old(reader).pending()
            && final(reader).remaining() == old(reader).remaining(),
{
    if let CopyStep::Write(bytes) = step {
        assert(old(reader).pending().len() == bytes@.len() + final(reader).pending().len());
    }
}

/// Ranges that storage returned are taken exactly if there is one for each that was asked for
/// and all have the asked length; each reader holds its own bytes.
pub proof fn fetched_ranges_are_complete(
    ranges: &[(u64, u64)],
    pieces: Vec<Vec<u8>>,
    result: Result<Vec<RangeReader>, Error>,
    place: int,
)
    requires
        forall|i: int| 0 <= i < ranges@.len() ==> (#[trigger] ranges@[i]).0 <= ranges@[i].1,
        call_ensures(RangeReader::fetched, (ranges, pieces), result),
    ensures
        result is Ok <==> pieces@.len() == ranges@.len() && forall|i: int|
            0 <= i < pieces@.len() ==> ranges@[i].0 + (#[trigger] pieces@[i])@.len()
                == ranges@[i].1,
        result matches Ok(readers) ==> {
            &&& readers@.len() == ranges@.len()
            &&& 0 <= place < readers@.len() ==> {
                &&& readers@[place].pending() == pieces@[place]@
                &&& readers@[place].remaining() == pieces@[place]@.len()
            }
        },
{
    let views = bytes_views(pieces@);
    assert(forall|i: int| 0 <= i < pieces@.len() ==> #[trigger] views[i] == pieces@[i]@);
    assert(forall|i: int| 0 <= i < pieces@.len() ==> views[i] == (#[trigger] pieces@[i])@);
}

/// A range is opened or fetched only from a data segment and only forwards.
pub proof fn ranges_are_read_from_data_segments(
    locator: ObjectLocator,
    start: u64,
    end: u64,
    opened: Result<RangeReader, Error>,
    ranges: &[(u64, u64)],
    checked: Result<(), Error>,
)
    requires
        call_ensures(RangeReader::open, (locator, start, end), opened),
        call_ensures(check_fetch, (locator, ranges), checked),
    ensures
        opened is Ok <==> locator.class == ObjectClass::DataSegment && start <= end,
        opened matches Ok(reader) ==> reader.pending().len() == 0 && start + reader.remaining()
            == end,
        checked is Ok <==> locator.class == ObjectClass::DataSegment && forall|i: int|
            0 <= i < ranges@.len() ==> (#[trigger] ranges@[i]).0 <= ranges@[i].1,
{
}

/// An object that is read is the one that was referred to, by length and digest, or is refused.
pub proof fn objects_are_what_was_referred_to(
    reference: ObjectRef,
    read: Option<Vec<u8>>,
    result: Result<Vec<u8>, Error>,
    maximum_bytes: usize,
    length: Result<usize, Error>,
)
    requires
        call_ensures(read_immutable, (reference, read), result),
        call_ensures(object_length, (reference, maximum_bytes), length),
    ensures
        result is Ok <==> read is Some && read->0@.len() == reference.encoded_length && digest_of(
            read->0@,
        ) == reference.digest@,
        result matches Ok(bytes) ==> bytes@ == read->0@,
        length is Ok <==> reference.encoded_length <= maximum_bytes,
        length matches Ok(length) ==> length == reference.encoded_length,
{
}

/// What is placed in a segment lies behind what was placed before, and a segment is left only
/// once it has reached its target.
pub proof fn placements_follow_each_other(
    segments: &mut DataSegmentWriter,
    length: u64,
    result: Result<u64, Error>,
    placer: &DataSegmentWriter,
    placement: Placement,
)
    requires
        old(segments).payload() is Some,
        call_ensures(DataSegmentWriter::appended, (segments, length), result),
        call_ensures(DataSegmentWriter::placement, (placer,), placement),
    ensures
        result is Ok <==> old(segments).payload()->0 + length <= u64::MAX,
        result matches Ok(start) ==> {
            &&& start == old(segments).payload()->0
            &&& final(segments).payload() is Some
            &&& final(segments).payload()->0 - start == length
        },
        result is Err ==> final(segments).payload() == old(segments).payload(),
        placement is Open <==> placer.payload() is None,
        placement is Rotate <==> placer.payload() is Some && placer.payload()->0
            >= placer.target(),
        placement is Current <==> placer.payload() is Some && placer.payload()->0
            < placer.target(),
{
}

/// A part of an upload is never smaller than what was configured, and takes the whole segment
/// where that is larger and can be counted.
pub proof fn parts_take_a_whole_segment(
    multipart_part_bytes: usize,
    bound: Option<u64>,
    tail_bytes: u64,
    bytes: usize,
)
    requires
        multipart_part_bytes > 0,
        call_ensures(segment_part_bytes, (multipart_part_bytes, bound, tail_bytes), bytes),
    ensures
        bytes >= multipart_part_bytes,
        bytes > multipart_part_bytes ==> bound is Some && bytes == bound->0 + tail_bytes,
        bound is Some && bound->0 + tail_bytes <= u64::MAX && bound->0 + tail_bytes <= usize::MAX
            ==> bytes >= bound->0 + tail_bytes,
{
}

} // verus!
