//! Streams of records: frames of records, a tail, and digests over both.

use vstd::prelude::*;

use crate::error::{corrupt, invalid, Error, Fault};
use crate::hash::{digest_of, StreamHasher};
use crate::identity::{marked_random, Digest, GcEpoch};
use crate::model::{ObjectClass, ObjectLocator, StreamKind, StreamRef};
use crate::segments::ImmutableWriter;

verus! {

pub open spec fn stream_fault(message: &str) -> Fault {
    corrupt("read Managed stream", message)
}

/// What a reader of records does next.
#[derive(Clone, Copy, Debug, PartialEq, Eq, Structural)]
pub enum StreamStep {
    /// Decode the next record of the frame.
    Record,
    /// Read the next frame.
    Frame,
    /// Read the tail.
    Tail,
    /// There is no more record.
    Finished,
}

pub ghost struct ReaderView {
    pub reference: StreamRef,
    /// The bytes of the object that were read.
    pub read: Seq<u8>,
    /// The place in the payload up to which frames were read.
    pub offset: u64,
    /// The length of the current frame, and the place in it of the next record.
    pub frame_length: usize,
    pub record_offset: usize,
    pub records_remaining: u32,
    pub completed: bool,
}

/// Reader of the records of one stream.
pub struct RecordStreamReader {
    reference: StreamRef,
    header_bytes: u64,
    hasher: StreamHasher,
    offset: u64,
    frame_length: usize,
    record_offset: usize,
    records_remaining: u32,
    completed: bool,
}

/// The next step of a reader, or what is wrong with the stream.
pub open spec fn reader_step(view: ReaderView) -> Result<StreamStep, Fault> {
    if view.records_remaining != 0 {
        Ok(StreamStep::Record)
    } else if view.frame_length != 0 && view.record_offset != view.frame_length {
        Err(stream_fault("frame record count does not match its payload"))
    } else if view.completed {
        Ok(StreamStep::Finished)
    } else if view.offset == view.reference.payload_length {
        if digest_of(view.read) != view.reference.payload_digest@ {
            Err(stream_fault("stream payload does not match its reference"))
        } else {
            Ok(StreamStep::Tail)
        }
    } else {
        Ok(StreamStep::Frame)
    }
}

impl RecordStreamReader {
    pub closed spec fn view(&self) -> ReaderView {
        ReaderView {
            reference: self.reference,
            read: self.hasher@,
            offset: self.offset,
            frame_length: self.frame_length,
            record_offset: self.record_offset,
            records_remaining: self.records_remaining,
            completed: self.completed,
        }
    }

    /// The size of the header of a frame.
    pub closed spec fn header(&self) -> u64 {
        self.header_bytes
    }

    /// Start reading a stream, given the sizes of a frame's header and of the tail.
    pub fn open(reference: StreamRef, header_bytes: u64, tail_bytes: u64) -> (result: Result<
        Self,
        Error,
    >)
        ensures
            match result {
                Ok(reader) => {
                    &&& reference.payload_length + tail_bytes == reference.object.encoded_length
                    &&& reader.header() == header_bytes
                    &&& reader@ == (ReaderView {
                        reference,
                        read: Seq::empty(),
                        offset: 0,
                        frame_length: 0,
                        record_offset: 0,
                        records_remaining: 0,
                        completed: false,
                    })
                },
                Err(error) => {
                    &&& reference.payload_length + tail_bytes != reference.object.encoded_length
                    &&& error.fault() == stream_fault("stream length does not match its reference")
                },
            },
    {
        let matches = match reference.payload_length.checked_add(tail_bytes) {
            Some(total) => total == reference.object.encoded_length,
            None => false,
        };
        if !matches {
            return Err(
                Error::corrupt(
                    "read Managed stream",
                    "stream length does not match its reference",
                ),
            );
        }
        Ok(
            RecordStreamReader {
                reference,
                header_bytes,
                hasher: StreamHasher::new(),
                offset: 0,
                frame_length: 0,
                record_offset: 0,
                records_remaining: 0,
                completed: false,
            },
        )
    }

    /// What is to be done to get the next record.
    pub fn step(&self) -> (result: Result<StreamStep, Error>)
        ensures
            match result {
                Ok(step) => reader_step(self@) == Ok::<StreamStep, Fault>(step),
                Err(error) => reader_step(self@) == Err::<StreamStep, Fault>(error.fault()),
            },
    {
        if self.records_remaining != 0 {
            return Ok(StreamStep::Record);
        }
        if self.frame_length != 0 && self.record_offset != self.frame_length {
            return Err(
                Error::corrupt(
                    "read Managed stream",
                    "frame record count does not match its payload",
                ),
            );
        }
        if self.completed {
            return Ok(StreamStep::Finished);
        }
        if self.offset == self.reference.payload_length {
            let digest = self.hasher.digest();
            proof {
                Digest::identified(digest, self.reference.payload_digest);
            }
            if digest != self.reference.payload_digest {
                return Err(
                    Error::corrupt(
                        "read Managed stream",
                        "stream payload does not match its reference",
                    ),
                );
            }
            return Ok(StreamStep::Tail);
        }
        Ok(StreamStep::Frame)
    }

    /// The place in the frame where the next record begins.
    pub fn record_offset(&self) -> (offset: usize)
        ensures
            offset == self@.record_offset,
    {
        self.record_offset
    }

    /// A record was decoded; the next one begins at the given place of the frame.
    pub fn record_read(&mut self, record_offset: usize)
        requires
            old(self)@.records_remaining > 0,
        ensures
            final(self)@ == (ReaderView {
                record_offset,
                records_remaining: (old(self)@.records_remaining - 1) as u32,
                ..old(self)@
            }),
            final(self).header() == old(self).header(),
    {
        self.record_offset = record_offset;
        self.records_remaining = self.records_remaining - 1;
    }

    /// The place behind the header of the next frame.
    pub fn header_end(&self) -> (result: Result<u64, Error>)
        ensures
            ({
                let end = self@.offset + self.header();
                match result {
                    Ok(place) => place == end && end <= self@.reference.payload_length,
                    Err(error) => end > self@.reference.payload_length && error.fault()
                        == stream_fault("frame header is truncated"),
                }
            }),
    {
        match self.offset.checked_add(self.header_bytes) {
            Some(end) => {
                if end <= self.reference.payload_length {
                    return Ok(end);
                }
            },
            None => {},
        }
        Err(Error::corrupt("read Managed stream", "frame header is truncated"))
    }

    /// The place behind the next frame, whose header announces a payload of some length.
    pub fn frame_end(&self, payload_length: usize) -> (result: Result<u64, Error>)
        requires
            self@.offset + self.header() <= self@.reference.payload_length,
        ensures
            ({
                let end = self@.offset + self.header() + payload_length;
                match result {
                    Ok(place) => place == end && end <= self@.reference.payload_length,
                    Err(error) => end > self@.reference.payload_length && error.fault()
                        == stream_fault("frame payload is truncated"),
                }
            }),
    {
        let header_end: u64 = self.offset + self.header_bytes;
        match header_end.checked_add(payload_length as u64) {
            Some(end) => {
                if end <= self.reference.payload_length {
                    return Ok(end);
                }
            },
            None => {},
        }
        Err(Error::corrupt("read Managed stream", "frame payload is truncated"))
    }

    /// A frame was read, with its header: so many records begin behind the header.
    pub fn frame_read(&mut self, frame: &[u8], record_count: u32)
        requires
            old(self)@.offset + frame@.len() <= old(self)@.reference.payload_length,
            old(self).header() <= frame@.len(),
        ensures
            final(self)@ == (ReaderView {
                read: old(self)@.read + frame@,
                offset: (old(self)@.offset + frame@.len()) as u64,
                frame_length: frame@.len() as usize,
                record_offset: old(self).header() as usize,
                records_remaining: record_count,
                ..old(self)@
            }),
            final(self).header() == old(self).header(),
    {
        self.hasher.update(frame);
        self.offset = self.offset + frame.len() as u64;
        self.frame_length = frame.len();
        self.record_offset = self.header_bytes as usize;
        self.records_remaining = record_count;
    }

    /// The tail was read: all bytes of the object are known now.
    pub fn tail_read(&mut self, tail: &[u8]) -> (result: Result<(), Error>)
        ensures
            final(self).header() == old(self).header(),
            ({
                let read = old(self)@.read + tail@;
                let whole = digest_of(read) == old(self)@.reference.object.digest@;
                match result {
                    Ok(()) => whole && final(self)@ == (ReaderView {
                        read,
                        completed: true,
                        ..old(self)@
                    }),
                    Err(error) => {
                        &&& !whole
                        &&& final(self)@ == (ReaderView { read, ..old(self)@ })
                        &&& error.fault() == stream_fault("object does not match its reference")
                    },
                }
            }),
    {
        self.hasher.update(tail);
        let digest = self.hasher.digest();
        proof {
            Digest::identified(digest, self.reference.object.digest);
        }
        if digest != self.reference.object.digest {
            return Err(
                Error::corrupt("read Managed stream", "object does not match its reference"),
            );
        }
        self.completed = true;
        Ok(())
    }
}

/// A frame that is ready to be written.
pub struct Frame {
    pub records: u32,
    pub payload: Vec<u8>,
}

pub ghost struct WriterView {
    /// The bytes of the object that were written.
    pub written: Seq<u8>,
    /// The number of written bytes that are frames.
    pub payload_length: u64,
    /// The records that wait in the frame, and their number.
    pub frame: Seq<u8>,
    pub frame_records: u32,
}

/// Writer of the records of one stream.
pub struct RecordStreamWriter {
    writer: ImmutableWriter,
    kind: StreamKind,
    maximum_frame: usize,
    payload_length: u64,
    frame: Vec<u8>,
    frame_records: u32,
}

/// A record does not fit behind those that wait.
pub open spec fn must_flush(frame: Seq<u8>, record: Seq<u8>, maximum: usize) -> bool {
    frame.len() > 0 && frame.len() + record.len() > maximum
}

impl RecordStreamWriter {
    pub closed spec fn view(&self) -> WriterView {
        WriterView {
            written: self.writer@,
            payload_length: self.payload_length,
            frame: self.frame@,
            frame_records: self.frame_records,
        }
    }

    pub closed spec fn stream_kind(&self) -> StreamKind {
        self.kind
    }

    pub closed spec fn frame_limit(&self) -> usize {
        self.maximum_frame
    }

    /// The name of the object that the stream is written to.
    pub closed spec fn object_name(&self) -> ObjectLocator {
        self.writer.name()
    }

    pub fn open(
        gc_epoch: GcEpoch,
        class: ObjectClass,
        kind: StreamKind,
        maximum_frame: usize,
    ) -> (writer: Self)
        ensures
            writer.stream_kind() == kind,
            writer.frame_limit() == maximum_frame,
            writer.object_name().class == class,
            writer.object_name().gc_epoch == gc_epoch,
            marked_random(writer.object_name().id@),
            writer@ == (WriterView {
                written: Seq::empty(),
                payload_length: 0,
                frame: Seq::empty(),
                frame_records: 0,
            }),
    {
        RecordStreamWriter {
            writer: ImmutableWriter::open(gc_epoch, class),
            kind,
            maximum_frame,
            payload_length: 0,
            frame: Vec::new(),
            frame_records: 0,
        }
    }

    /// Whether the frame has to be flushed before an encoded record is written.
    pub fn must_flush(&self, record: &[u8]) -> (result: bool)
        ensures
            result == must_flush(self@.frame, record@, self.frame_limit()),
    {
        let held: usize = self.frame.len();
        let total: Option<usize> = held.checked_add(record.len());
        match total {
            Some(total) => held > 0 && total > self.maximum_frame,
            None => held > 0,
        }
    }

    /// Put an encoded record behind those that wait.
    pub fn write(&mut self, record: &[u8]) -> (result: Result<(), Error>)
        requires
            !must_flush(old(self)@.frame, record@, old(self).frame_limit()),
        ensures
            final(self).stream_kind() == old(self).stream_kind(),
            final(self).frame_limit() == old(self).frame_limit(),
            final(self).object_name() == old(self).object_name(),
            match result {
                Ok(()) => final(self)@ == (WriterView {
                    frame: old(self)@.frame + record@,
                    frame_records: (old(self)@.frame_records + 1) as u32,
                    ..old(self)@
                }) && old(self)@.frame_records < u32::MAX,
                Err(error) => {
                    &&& old(self)@.frame_records == u32::MAX
                    &&& error.fault() == invalid(
                        "write Managed stream",
                        "frame record count overflows",
                    )
                    &&& final(self)@ == (WriterView {
                        frame: old(self)@.frame + record@,
                        ..old(self)@
                    })
                },
            },
    {
        let mut index: usize = 0;
        while index < record.len()
            invariant
                index <= record@.len(),
                self.frame@ == old(self).frame@ + record@.take(index as int),
                self.writer == old(self).writer,
                self.kind == old(self).kind,
                self.maximum_frame == old(self).maximum_frame,
                self.payload_length == old(self).payload_length,
                self.frame_records == old(self).frame_records,
            decreases record@.len() - index,
        {
            self.frame.push(record[index]);
            index += 1;
            assert(self.frame@ =~= old(self).frame@ + record@.take(index as int));
        }
        assert(record@.take(index as int) =~= record@);
        match self.frame_records.checked_add(1) {
            Some(count) => {
                self.frame_records = count;
                Ok(())
            },
            None => Err(Error::invalid("write Managed stream", "frame record count overflows")),
        }
    }

    /// The records that wait, as a frame to be written; nothing if none waits.
    pub fn take_frame(&mut self) -> (frame: Option<Frame>)
        ensures
            final(self).stream_kind() == old(self).stream_kind(),
            final(self).frame_limit() == old(self).frame_limit(),
            final(self).object_name() == old(self).object_name(),
            match frame {
                None => old(self)@.frame_records == 0 && final(self)@ == old(self)@,
                Some(frame) => {
                    &&& old(self)@.frame_records > 0
                    &&& frame.records == old(self)@.frame_records
                    &&& frame.payload@ == old(self)@.frame
                    &&& final(self)@ == (WriterView {
                        frame: Seq::empty(),
                        frame_records: 0,
                        ..old(self)@
                    })
                },
            },
    {
        if self.frame_records == 0 {
            return None;
        }
        let records: u32 = self.frame_records;
        let mut payload: Vec<u8> = Vec::new();
        std::mem::swap(&mut payload, &mut self.frame);
        self.frame_records = 0;
        Some(Frame { records, payload })
    }

    /// Count a frame, header and payload, that is written to the object.
    pub fn frame_written(&mut self, header: &[u8], payload: &[u8]) -> (result: Result<(), Error>)
        ensures
            final(self).stream_kind() == old(self).stream_kind(),
            final(self).frame_limit() == old(self).frame_limit(),
            final(self).object_name() == old(self).object_name(),
            match result {
                Ok(()) => final(self)@ == (WriterView {
                    written: old(self)@.written + (header@ + payload@),
                    payload_length: (old(self)@.payload_length + header@.len()
                        + payload@.len()) as u64,
                    ..old(self)@
                }) && old(self)@.payload_length + header@.len() + payload@.len() <= u64::MAX
                    && old(self)@.written.len() + header@.len() + payload@.len() <= u64::MAX,
                Err(error) => if old(self)@.payload_length + header@.len() + payload@.len()
                    > u64::MAX {
                    error.fault() == invalid("write Managed stream", "payload length overflows")
                } else {
                    &&& old(self)@.written.len() + header@.len() + payload@.len() > u64::MAX
                    &&& error.fault() == invalid("write Managed object", "object length overflows")
                },
            },
    {
        let ghost before = self@;
        let with_header: u64 = match self.payload_length.checked_add(header.len() as u64) {
            Some(total) => total,
            None => {
                return Err(Error::invalid("write Managed stream", "payload length overflows"));
            },
        };
        let total: u64 = match with_header.checked_add(payload.len() as u64) {
            Some(total) => total,
            None => {
                return Err(Error::invalid("write Managed stream", "payload length overflows"));
            },
        };
        self.payload_length = total;
        match self.writer.write(header) {
            Ok(()) => {},
            Err(error) => {
                return Err(error);
            },
        }
        match self.writer.write(payload) {
            Ok(()) => {},
            Err(error) => {
                return Err(error);
            },
        }
        assert(self.writer@ =~= before.written + (header@ + payload@));
        Ok(())
    }

    /// The digest of the frames that were written, and their number of bytes.
    pub fn payload(&self) -> (payload: (u64, Digest))
        ensures
            payload.0 == self@.payload_length,
            payload.1@ == digest_of(self@.written),
    {
        (self.payload_length, self.writer.digest())
    }

    pub fn kind(&self) -> (kind: StreamKind)
        ensures
            kind == self.stream_kind(),
    {
        self.kind
    }

    /// The object that the stream is written to.
    pub fn object(&self) -> (object: &ImmutableWriter)
        ensures
            object@ == self@.written,
            object.name() == self.object_name(),
    {
        &self.writer
    }

    /// Count the tail, which ends the object: the reference of the stream.
    pub fn finish(&mut self, tail: &[u8]) -> (result: Result<StreamRef, Error>)
        ensures
            final(self).stream_kind() == old(self).stream_kind(),
            final(self).frame_limit() == old(self).frame_limit(),
            final(self).object_name() == old(self).object_name(),
            match result {
                Ok(reference) => {
                    &&& reference.kind == old(self).stream_kind()
                    &&& reference.payload_length == old(self)@.payload_length
                    &&& reference.payload_digest@ == digest_of(old(self)@.written)
                    &&& reference.object.locator == old(self).object_name()
                    &&& reference.object.encoded_length == old(self)@.written.len() + tail@.len()
                    &&& reference.object.digest@ == digest_of(old(self)@.written + tail@)
                    &&& final(self)@ == (WriterView {
                        written: old(self)@.written + tail@,
                        ..old(self)@
                    })
                },
                Err(error) => old(self)@.written.len() + tail@.len() > u64::MAX && error.fault()
                    == invalid("write Managed object", "object length overflows"),
            },
    {
        let payload_digest = self.writer.digest();
        match self.writer.write(tail) {
            Ok(()) => {},
            Err(error) => {
                return Err(error);
            },
        }
        Ok(
            StreamRef {
                kind: self.kind,
                object: self.writer.reference(),
                payload_length: self.payload_length,
                payload_digest,
            },
        )
    }
}

/// A stream that a writer finished is accepted by a reader that is given the same bytes: its
/// lengths agree, the digest of its frames is met in front of the tail, and that of the whole
/// object behind it.
pub proof fn written_streams_are_accepted(
    reference: StreamRef,
    frames: Seq<u8>,
    tail: Seq<u8>,
    reader: ReaderView,
)
    requires
        reference.payload_length == frames.len(),
        reference.payload_digest@ == digest_of(frames),
        reference.object.encoded_length == frames.len() + tail.len(),
        reference.object.digest@ == digest_of(frames + tail),
        reader.reference == reference,
        reader.read == frames,
        reader.offset == frames.len(),
        reader.records_remaining == 0,
        reader.frame_length == 0 || reader.record_offset == reader.frame_length,
        !reader.completed,
    ensures
        reader_step(reader) == Ok::<StreamStep, Fault>(StreamStep::Tail),
        digest_of(reader.read + tail) == reference.object.digest@,
        reference.payload_length + tail.len() == reference.object.encoded_length,
{
}

// What reading and writing promise.

/// A reader ends only behind a payload and an object whose digests are those of the reference:
/// the tail comes only once the whole payload was read and met its digest, a frame only before
/// that, and no record of a frame is passed over.
pub proof fn a_reader_passes_over_nothing(reader: &RecordStreamReader, result: Result<StreamStep, Error>)
    requires
        call_ensures(RecordStreamReader::step, (reader,), result),
    ensures
        result matches Ok(step) ==> {
            &&& step is Record <==> reader@.records_remaining > 0
            &&& step is Finished ==> reader@.completed
            &&& step is Tail ==> {
                &&& reader@.offset == reader@.reference.payload_length
                &&& digest_of(reader@.read) == reader@.reference.payload_digest@
                &&& !reader@.completed
            }
            &&& step is Frame ==> reader@.offset != reader@.reference.payload_length
                && !reader@.completed
            &&& !(step is Record) && reader@.frame_length > 0 ==> reader@.record_offset
                == reader@.frame_length
        },
{
}

/// The tail completes a reader exactly if the digest of all that was read is that of the object.
pub proof fn the_tail_completes_the_object(
    reader: &mut RecordStreamReader,
    tail: &[u8],
    result: Result<(), Error>,
)
    requires
        call_ensures(RecordStreamReader::tail_read, (reader, tail), result),
    ensures
        result is Ok <==> digest_of(old(reader)@.read + tail@)
            == old(reader)@.reference.object.digest@,
        final(reader)@.read == old(reader)@.read + tail@,
        final(reader)@.reference == old(reader)@.reference,
        result is Ok ==> final(reader)@.completed,
        result is Err ==> final(reader)@.completed == old(reader)@.completed,
{
}

/// A frame that is read moves the reader on by its bytes, and opens its records behind the
/// header; a record that is read leaves one fewer.
pub proof fn frames_move_a_reader_on(
    reader: &mut RecordStreamReader,
    frame: &[u8],
    record_count: u32,
    inside: &mut RecordStreamReader,
    record_offset: usize,
)
    requires
        old(reader)@.offset + frame@.len() <= old(reader)@.reference.payload_length,
        old(reader).header() <= frame@.len(),
        frame@.len() <= usize::MAX,
        call_ensures(RecordStreamReader::frame_read, (reader, frame, record_count), ()),
        old(inside)@.records_remaining > 0,
        call_ensures(RecordStreamReader::record_read, (inside, record_offset), ()),
    ensures
        final(reader)@.offset - old(reader)@.offset == frame@.len(),
        final(reader)@.read == old(reader)@.read + frame@,
        final(reader)@.frame_length == frame@.len(),
        final(reader)@.record_offset == old(reader).header(),
        final(reader)@.records_remaining == record_count,
        final(reader)@.reference == old(reader)@.reference,
        final(reader)@.completed == old(reader)@.completed,
        old(inside)@.records_remaining - final(inside)@.records_remaining == 1,
        final(inside)@.record_offset == record_offset,
        final(inside)@.offset == old(inside)@.offset,
        final(inside)@.read == old(inside)@.read,
        final(inside)@.reference == old(inside)@.reference,
        final(inside)@.frame_length == old(inside)@.frame_length,
        final(inside)@.completed == old(inside)@.completed,
{
}

/// What a writer is given comes out in frames: a record joins the frame behind those before it
/// and counts one, and a frame that is taken holds them all and leaves none.
pub proof fn a_writer_loses_no_record(
    writer: &mut RecordStreamWriter,
    record: &[u8],
    written: Result<(), Error>,
    full: &mut RecordStreamWriter,
    frame: Option<Frame>,
)
    requires
        !must_flush(old(writer)@.frame, record@, old(writer).frame_limit()),
        call_ensures(RecordStreamWriter::write, (writer, record), written),
        call_ensures(RecordStreamWriter::take_frame, (full,), frame),
    ensures
        written is Ok <==> old(writer)@.frame_records < u32::MAX,
        written is Ok ==> {
            &&& final(writer)@.frame == old(writer)@.frame + record@
            &&& final(writer)@.frame_records - old(writer)@.frame_records == 1
            &&& final(writer)@.written == old(writer)@.written
            &&& final(writer)@.payload_length == old(writer)@.payload_length
        },
        frame is Some <==> old(full)@.frame_records > 0,
        frame matches Some(taken) ==> {
            &&& taken.payload@ == old(full)@.frame
            &&& taken.records == old(full)@.frame_records
            &&& final(full)@.frame.len() == 0
            &&& final(full)@.frame_records == 0
        },
        final(full)@.written == old(full)@.written,
        final(full)@.payload_length == old(full)@.payload_length,
{
}

/// The frames of a writer count into its payload, its tail does not, and the reference that it
/// gives tells of both.
pub proof fn a_writer_refers_to_what_it_wrote(
    writer: &mut RecordStreamWriter,
    header: &[u8],
    payload: &[u8],
    framed: Result<(), Error>,
    whole: &mut RecordStreamWriter,
    tail: &[u8],
    result: Result<StreamRef, Error>,
)
    requires
        call_ensures(RecordStreamWriter::frame_written, (writer, header, payload), framed),
        call_ensures(RecordStreamWriter::finish, (whole, tail), result),
    ensures
        framed is Ok ==> {
            &&& final(writer)@.written == old(writer)@.written + header@ + payload@
            &&& final(writer)@.payload_length - old(writer)@.payload_length == header@.len()
                + payload@.len()
        },
        result is Ok <==> old(whole)@.written.len() + tail@.len() <= u64::MAX,
        result matches Ok(reference) ==> {
            &&& reference.kind == old(whole).stream_kind()
            &&& reference.payload_length == old(whole)@.payload_length
            &&& reference.payload_digest@ == digest_of(old(whole)@.written)
            &&& reference.object.encoded_length == old(whole)@.written.len() + tail@.len()
            &&& reference.object.digest@ == digest_of(old(whole)@.written + tail@)
            &&& reference.object.locator == old(whole).object_name()
        },
{
    if framed is Ok {
        assert(old(writer)@.written + (header@ + payload@) =~= old(writer)@.written + header@
            + payload@);
    }
}

/// A stream is opened exactly if its payload and a tail make up its object, and a header or a
/// frame is read only within the payload.
pub proof fn a_reader_stays_within_the_payload(
    reference: StreamRef,
    header_bytes: u64,
    tail_bytes: u64,
    opened: Result<RecordStreamReader, Error>,
    reader: &RecordStreamReader,
    header_end: Result<u64, Error>,
    length: usize,
    frame_end: Result<u64, Error>,
)
    requires
        call_ensures(RecordStreamReader::open, (reference, header_bytes, tail_bytes), opened),
        call_ensures(RecordStreamReader::header_end, (reader,), header_end),
        reader@.offset + reader.header() <= reader@.reference.payload_length,
        call_ensures(RecordStreamReader::frame_end, (reader, length), frame_end),
    ensures
        opened is Ok <==> reference.object.encoded_length - tail_bytes
            == reference.payload_length,
        opened matches Ok(fresh) ==> {
            &&& fresh@.reference == reference
            &&& fresh@.read.len() == 0
            &&& fresh@.offset == 0
            &&& fresh@.records_remaining == 0
            &&& fresh@.frame_length == 0
            &&& !fresh@.completed
            &&& fresh.header() == header_bytes
        },
        header_end matches Ok(end) ==> end - reader@.offset == reader.header(),
        header_end is Ok,
        frame_end is Ok <==> reader@.offset + reader.header() + length
            <= reader@.reference.payload_length,
        frame_end matches Ok(end) ==> end == reader@.offset + reader.header() + length,
{
}

} // verus!
