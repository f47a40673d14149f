//! Frames of local record streams: the length of a record in four bytes, then the record.

use vstd::bytes::{spec_u32_from_le_bytes, spec_u32_to_le_bytes, u32_from_le_bytes, u32_to_le_bytes};
use vstd::prelude::*;

use crate::error::{corrupt, invalid, Error};

verus! {

/// The bytes in front of each record.
pub const LENGTH_BYTES: usize = 4;

/// A record with its length in front.
pub open spec fn frame_of(record: Seq<u8>) -> Seq<u8> {
    spec_u32_to_le_bytes(record.len() as u32) + record
}

/// Records as frames, one after the other.
pub open spec fn frames_of(records: Seq<Seq<u8>>) -> Seq<u8>
    decreases records.len(),
{
    if records.len() == 0 {
        Seq::empty()
    } else {
        frame_of(records[0]) + frames_of(records.skip(1))
    }
}

/// The bytes of one frame.
pub fn frame(record: &[u8]) -> (result: Result<Vec<u8>, Error>)
    ensures
        match result {
            Ok(bytes) => record@.len() <= u32::MAX && bytes@ == frame_of(record@),
            Err(error) => record@.len() > u32::MAX && error.fault() == invalid(
                "write Sync record stream",
                "record is too large",
            ),
        },
{
    let length: u64 = record.len() as u64;
    if length > 0xffff_ffffu64 {
        return Err(Error::invalid("write Sync record stream", "record is too large"));
    }
    let mut bytes = u32_to_le_bytes(length as u32);
    let ghost header = bytes@;
    let mut index: usize = 0;
    while index < record.len()
        invariant
            index <= record@.len(),
            bytes@ == header + record@.take(index as int),
        decreases record@.len() - index,
    {
        bytes.push(record[index]);
        index += 1;
        assert(bytes@ =~= header + record@.take(index as int));
    }
    assert(record@.take(index as int) =~= record@);
    Ok(bytes)
}

/// The length of a record, from the bytes in front of it.
pub fn record_length(header: &[u8]) -> (length: usize)
    requires
        header@.len() == LENGTH_BYTES,
    ensures
        length == spec_u32_from_le_bytes(header@),
{
    u32_from_le_bytes(header) as usize
}

/// The bytes of a frame around a record of some length.
pub fn frame_bytes(length: usize) -> (result: Result<usize, Error>)
    ensures
        match result {
            Ok(bytes) => bytes == length + LENGTH_BYTES,
            Err(error) => length + LENGTH_BYTES > usize::MAX && error.fault() == corrupt(
                "read Sync record stream",
                "record length overflows",
            ),
        },
{
    match length.checked_add(LENGTH_BYTES) {
        Some(bytes) => Ok(bytes),
        None => Err(Error::corrupt("read Sync record stream", "record length overflows")),
    }
}

/// The first record of a stream of frames and what follows it; nothing at the end of the
/// stream, or where it breaks off.
pub open spec fn first_record(stream: Seq<u8>) -> Option<(Seq<u8>, Seq<u8>)> {
    if stream.len() < LENGTH_BYTES {
        None
    } else {
        let length = spec_u32_from_le_bytes(stream.take(LENGTH_BYTES as int)) as int;
        if LENGTH_BYTES + length > stream.len() {
            None
        } else {
            Some(
                (
                    stream.subrange(LENGTH_BYTES as int, LENGTH_BYTES + length),
                    stream.skip(LENGTH_BYTES + length),
                ),
            )
        }
    }
}

/// Take the first record of a stream of frames.
pub fn take_record(stream: Vec<u8>) -> (result: Option<(Vec<u8>, Vec<u8>)>)
    ensures
        match result {
            Some((record, rest)) => first_record(stream@) == Some((record@, rest@)),
            None => first_record(stream@) is None,
        },
{
    let ghost given = stream@;
    if stream.len() < LENGTH_BYTES {
        return None;
    }
    let mut header = stream;
    let mut body = header.split_off(LENGTH_BYTES);
    assert(header@ =~= given.take(LENGTH_BYTES as int));
    let length: usize = record_length(header.as_slice());
    if length > body.len() {
        return None;
    }
    let rest = body.split_off(length);
    assert(body@ =~= given.subrange(LENGTH_BYTES as int, LENGTH_BYTES + length));
    assert(rest@ =~= given.skip(LENGTH_BYTES + length));
    Some((body, rest))
}

/// Records that were framed are read back, one after the other.
pub proof fn framed_records_are_read_back(records: Seq<Seq<u8>>)
    requires
        records.len() > 0,
        records[0].len() <= u32::MAX,
    ensures
        first_record(frames_of(records)) == Some((records[0], frames_of(records.skip(1)))),
{
    let record = records[0];
    let rest = frames_of(records.skip(1));
    let stream = frames_of(records);
    let header = spec_u32_to_le_bytes(record.len() as u32);
    vstd::bytes::lemma_auto_spec_u32_to_from_le_bytes();
    assert(header.len() == 4);
    assert(stream.take(4) =~= header);
    assert(spec_u32_from_le_bytes(header) == record.len());
    assert(stream.subrange(4, 4 + record.len() as int) =~= record);
    assert(stream.skip(4 + record.len() as int) =~= rest);
}

/// A record that was framed is taken back as it was, with whatever came behind it.
pub proof fn a_framed_record_is_taken_back(
    record: &[u8],
    framed: Result<Vec<u8>, Error>,
    stream: Vec<u8>,
    behind: Seq<u8>,
    taken: Option<(Vec<u8>, Vec<u8>)>,
)
    requires
        call_ensures(frame, (record,), framed),
        framed is Ok,
        stream@ == framed->Ok_0@ + behind,
        call_ensures(take_record, (stream,), taken),
    ensures
        framed->Ok_0@.len() == record@.len() + 4,
        taken is Some,
        ({
            let (found, rest) = taken->0;
            found@ == record@ && rest@ == behind
        }),
{
    let header = spec_u32_to_le_bytes(record@.len() as u32);
    vstd::bytes::lemma_auto_spec_u32_to_from_le_bytes();
    assert(header.len() == 4);
    assert(stream@.take(4) =~= header);
    assert(stream@.subrange(4, 4 + record@.len() as int) =~= record@);
    assert(stream@.skip(4 + record@.len() as int) =~= behind);
}

/// A record is taken only where all of it is there: what is taken and what is left make up the
/// stream behind the four bytes of its length.
pub proof fn a_taken_record_is_complete(stream: Vec<u8>, taken: Option<(Vec<u8>, Vec<u8>)>)
    requires
        call_ensures(take_record, (stream,), taken),
    ensures
        taken matches Some((record, rest)) ==> {
            &&& stream@.len() == 4 + record@.len() + rest@.len()
            &&& stream@.skip(4) == record@ + rest@
        },
        stream@.len() < 4 ==> taken is None,
{
    if let Some((record, rest)) = taken {
        assert(stream@.skip(4) =~= record@ + rest@);
    }
}

} // verus!
