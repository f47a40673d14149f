//! Restoring the bytes of a file: which stored bytes, or bytes of a local copy, make up a range.

use vstd::prelude::*;

use crate::error::{conflict, corrupt, Error, Fault};
use crate::extents::{
    disjoint, mappings_view, resolve, run_at, run_at_mapping, run_covers, runs_sound, runs_view,
    ExtentMapping, ExtentRef, ExtentView, MappingView,
};
use crate::filesystem::{ContentId, FileRange};
use crate::layers::{map_fault, validate_file_map, FileExtentMap};
use crate::model::ObjectClass;
use crate::runs::{canonical, canonical_extents};

verus! {

/// What is wrong with an extent under a chain of that many decodings.
pub open spec fn extent_fault(extent: ExtentView, decodings: usize) -> Option<Fault> {
    let stored = extent.stored_range.stored_content.length;
    if extent.stored_range.segment.class != ObjectClass::DataSegment || stored == 0
        || extent.content().length == 0 || extent.decoding_outputs.len() != decodings {
        Some(corrupt("read Managed file", "file extent does not match the access chain"))
    } else if extent.stored_range.offset + stored > u64::MAX {
        Some(corrupt("read Managed file", "stored extent range overflows"))
    } else {
        None
    }
}

/// Physical-to-logical extent encoding.
pub trait ExtentCodec {
    /// The number of decodings that the encoding adds.
    spec fn decodings(&self) -> usize;

    /// The greatest number of bytes that so many logical bytes are stored in.
    spec fn size_bound(&self, logical_bytes: u64) -> Option<u64>;

    /// The stored bytes, counted from the start of the extent, that a range of its content
    /// is decoded from.
    spec fn stored(&self, extent: ExtentView, start: u64, end: u64) -> Result<(u64, u64), Fault>;

    fn decoding_count(&self) -> (count: usize)
        ensures
            count == self.decodings(),
    ;

    fn stored_size_bound(&self, logical_bytes: u64) -> (bound: Option<u64>)
        ensures
            bound == self.size_bound(logical_bytes),
    ;

    fn stored_range(&self, reference: &ExtentRef, start: u64, end: u64) -> (result: Result<
        (u64, u64),
        Error,
    >)
        ensures
            match result {
                Ok(range) => self.stored(reference@, start, end) == Ok::<(u64, u64), Fault>(range),
                Err(error) => self.stored(reference@, start, end) == Err::<(u64, u64), Fault>(
                    error.fault(),
                ),
            },
    ;

    /// Check that an extent can be read through the encoding.
    fn validate(&self, reference: &ExtentRef) -> (result: Result<(), Error>)
        ensures
            match result {
                Ok(()) => extent_fault(reference@, self.decodings()) is None,
                Err(error) => extent_fault(reference@, self.decodings()) == Some(error.fault()),
            },
    {
        let stored: u64 = reference.stored_range.stored_content.length();
        if reference.stored_range.segment.class != ObjectClass::DataSegment || stored == 0
            || reference.content().length() == 0 || reference.decoding_outputs.len()
            != self.decoding_count() {
            return Err(
                Error::corrupt("read Managed file", "file extent does not match the access chain"),
            );
        }
        if reference.stored_range.offset.checked_add(stored).is_none() {
            return Err(Error::corrupt("read Managed file", "stored extent range overflows"));
        }
        Ok(())
    }
}

/// Identity extent encoding: the stored bytes are the content.
#[derive(Clone, Copy, Debug)]
pub struct IdentityCodec;

/// The stored range of an extent that is not encoded.
pub open spec fn identity_stored(extent: ExtentView, start: u64, end: u64) -> Result<
    (u64, u64),
    Fault,
> {
    if extent.decoding_outputs.len() != 0 || extent.stored_range.segment.class
        != ObjectClass::DataSegment || start > end || end
        > extent.stored_range.stored_content.length {
        Err(corrupt("read Managed extent", "extent reference does not use identity encoding"))
    } else {
        Ok((start, end))
    }
}

/// The range of the stored bytes of an extent that is not encoded.
pub fn identity_range(reference: &ExtentRef, start: u64, end: u64) -> (result: Result<
    (u64, u64),
    Error,
>)
    ensures
        match result {
            Ok(range) => identity_stored(reference@, start, end) == Ok::<(u64, u64), Fault>(range),
            Err(error) => identity_stored(reference@, start, end) == Err::<(u64, u64), Fault>(
                error.fault(),
            ),
        },
{
    if reference.decoding_outputs.len() != 0 || reference.stored_range.segment.class
        != ObjectClass::DataSegment || start > end || end
        > reference.stored_range.stored_content.length() {
        return Err(
            Error::corrupt("read Managed extent", "extent reference does not use identity encoding"),
        );
    }
    Ok((start, end))
}

/// How a range of an extent that is not encoded is read.
#[derive(Clone, Copy, Debug)]
pub enum IdentityCopy {
    Nothing,
    /// All stored bytes, which are verified against their identity.
    Whole(ContentId),
    /// So many of the stored bytes.
    Part(u64),
}

/// Decide how a range of an extent that is not encoded is read.
pub fn identity_copy(reference: &ExtentRef, start: u64, end: u64) -> (result: Result<
    IdentityCopy,
    Error,
>)
    ensures
        ({
            let stored = reference@.stored_range.stored_content;
            match result {
                Ok(copy) => {
                    &&& identity_stored(reference@, start, end) is Ok
                    &&& copy == (if start == end {
                        IdentityCopy::Nothing
                    } else if start == 0 && end == stored.length {
                        IdentityCopy::Whole(stored)
                    } else {
                        IdentityCopy::Part((end - start) as u64)
                    })
                },
                Err(error) => identity_stored(reference@, start, end) == Err::<(u64, u64), Fault>(
                    error.fault(),
                ),
            }
        }),
{
    match identity_range(reference, start, end) {
        Ok(_) => {},
        Err(error) => {
            return Err(error);
        },
    }
    let stored = reference.stored_range.stored_content;
    if start == end {
        Ok(IdentityCopy::Nothing)
    } else if start == 0 && end == stored.length() {
        Ok(IdentityCopy::Whole(stored))
    } else {
        Ok(IdentityCopy::Part(end - start))
    }
}

/// Check that a piece of a local file was copied whole.
pub fn check_reused(copied: u64, length: u64) -> (result: Result<(), Error>)
    ensures
        match result {
            Ok(()) => copied == length,
            Err(error) => copied != length && error.fault() == conflict(
                "copy reusable Managed file",
                "verified local file changed during installation",
            ),
        },
{
    if copied != length {
        return Err(
            Error::conflict(
                "copy reusable Managed file",
                "verified local file changed during installation",
            ),
        );
    }
    Ok(())
}

impl ExtentCodec for IdentityCodec {
    open spec fn decodings(&self) -> usize {
        0
    }

    open spec fn size_bound(&self, logical_bytes: u64) -> Option<u64> {
        Some(logical_bytes)
    }

    open spec fn stored(&self, extent: ExtentView, start: u64, end: u64) -> Result<
        (u64, u64),
        Fault,
    > {
        identity_stored(extent, start, end)
    }

    fn decoding_count(&self) -> (count: usize) {
        0
    }

    fn stored_size_bound(&self, logical_bytes: u64) -> (bound: Option<u64>) {
        Some(logical_bytes)
    }

    fn stored_range(&self, reference: &ExtentRef, start: u64, end: u64) -> (result: Result<
        (u64, u64),
        Error,
    >) {
        identity_range(reference, start, end)
    }
}

pub ghost enum PieceView {
    /// Bytes of an extent's content, decoded from bytes of its segment.
    Remote { extent: ExtentView, start: u64, end: u64, stored_start: u64, stored_end: u64 },
    /// Bytes of the local copy.
    Local { offset: u64, length: u64 },
}

impl PieceView {
    /// The number of bytes that the piece gives.
    pub open spec fn size(self) -> int {
        match self {
            PieceView::Remote { extent, start, end, stored_start, stored_end } => end - start,
            PieceView::Local { offset, length } => length as int,
        }
    }
}

/// One piece of a restored range.
pub enum RestorePiece {
    Remote { reference: ExtentRef, start: u64, end: u64, stored_start: u64, stored_end: u64 },
    Local { offset: u64, length: u64 },
}

impl RestorePiece {
    pub open spec fn view(&self) -> PieceView {
        match *self {
            RestorePiece::Remote {
                reference,
                start,
                end,
                stored_start,
                stored_end,
            } => PieceView::Remote { extent: reference@, start, end, stored_start, stored_end },
            RestorePiece::Local { offset, length } => PieceView::Local { offset, length },
        }
    }
}

pub open spec fn pieces_view(pieces: Seq<RestorePiece>) -> Seq<PieceView> {
    Seq::new(pieces.len(), |i: int| pieces[i]@)
}

/// Where the local copy holds the bytes of a mapping: there, a mapping to the same extent
/// includes it.
pub open spec fn reusable(mapping: MappingView, existing: Option<MappingView>) -> Option<int> {
    match existing {
        Some(local) => {
            let delta = mapping.extent_offset - local.extent_offset;
            if local.extent == mapping.extent && delta >= 0 && delta + mapping.length
                <= local.length {
                Some(local.offset + delta)
            } else {
                None
            }
        },
        None => None,
    }
}

/// The piece that a mapping gives of the range, if it gives any.
pub open spec fn piece_of<C: ExtentCodec>(
    codec: &C,
    mapping: MappingView,
    existing: Option<MappingView>,
    range_start: u64,
    range_end: u64,
) -> Result<Option<PieceView>, Fault> {
    if mapping.offset >= range_end || range_start >= mapping.end() {
        Ok(None)
    } else {
        let first = if range_start > mapping.offset {
            range_start as int
        } else {
            mapping.offset as int
        };
        let last = if range_end < mapping.end() {
            range_end as int
        } else {
            mapping.end()
        };
        let start = mapping.extent_offset + (first - mapping.offset);
        let end = start + (last - first);
        match reusable(mapping, existing) {
            Some(offset) => Ok(
                Some(
                    PieceView::Local {
                        offset: (offset + (first - mapping.offset)) as u64,
                        length: (last - first) as u64,
                    },
                ),
            ),
            None => {
                let base = mapping.extent.stored_range.offset;
                match codec.stored(mapping.extent, start as u64, end as u64) {
                    Err(fault) => Err(fault),
                    Ok((from, to)) => if base + from > u64::MAX {
                        Err(corrupt("read Managed file", "stored range start overflows"))
                    } else if base + to > u64::MAX {
                        Err(corrupt("read Managed file", "stored range end overflows"))
                    } else if from >= to {
                        Err(corrupt("read Managed file", "stored range is empty"))
                    } else {
                        Ok(
                            Some(
                                PieceView::Remote {
                                    extent: mapping.extent,
                                    start: start as u64,
                                    end: end as u64,
                                    stored_start: (base + from) as u64,
                                    stored_end: (base + to) as u64,
                                },
                            ),
                        )
                    },
                }
            },
        }
    }
}

/// The first mapping of the local copy that ends behind a place.
pub open spec fn candidate(existing: Seq<MappingView>, place: u64) -> Option<MappingView>
    decreases existing.len(),
{
    if existing.len() == 0 {
        None
    } else if existing[0].end() > place {
        Some(existing[0])
    } else {
        candidate(existing.skip(1), place)
    }
}

/// What is wrong with the extents of the local copy up to that mapping.
pub open spec fn candidate_fault(
    existing: Seq<MappingView>,
    place: u64,
    decodings: usize,
) -> Option<Fault>
    decreases existing.len(),
{
    if existing.len() == 0 {
        None
    } else if extent_fault(existing[0].extent, decodings) is Some {
        extent_fault(existing[0].extent, decodings)
    } else if existing[0].end() > place {
        None
    } else {
        candidate_fault(existing.skip(1), place, decodings)
    }
}

pub open spec fn after_piece(
    piece: Option<PieceView>,
    rest: Result<Seq<PieceView>, Fault>,
) -> Result<Seq<PieceView>, Fault> {
    match (piece, rest) {
        (Some(piece), Ok(pieces)) => Ok(seq![piece] + pieces),
        _ => rest,
    }
}

/// The pieces of a range of a file whose mappings continue at a place, or what is wrong.
pub open spec fn restore_plan<C: ExtentCodec>(
    codec: &C,
    mappings: Seq<MappingView>,
    existing: Seq<MappingView>,
    expected: int,
    range_start: u64,
    range_end: u64,
    content_length: u64,
) -> Result<Seq<PieceView>, Fault>
    decreases mappings.len(),
{
    if mappings.len() == 0 {
        if expected != range_end {
            Err(corrupt("read Managed file", "file extents do not cover the logical file"))
        } else {
            Ok(Seq::empty())
        }
    } else {
        let mapping = mappings[0];
        if extent_fault(mapping.extent, codec.decodings()) is Some {
            Err(extent_fault(mapping.extent, codec.decodings())->0)
        } else if mapping.offset != expected {
            Err(corrupt("read Managed file", "file extents contain a gap or overlap"))
        } else if candidate_fault(existing, mapping.offset, codec.decodings()) is Some {
            Err(candidate_fault(existing, mapping.offset, codec.decodings())->0)
        } else {
            match piece_of(
                codec,
                mapping,
                candidate(existing, mapping.offset),
                range_start,
                range_end,
            ) {
                Err(fault) => Err(fault),
                Ok(piece) => after_piece(
                    piece,
                    if mapping.end() >= range_end && range_end < content_length {
                        Ok(Seq::empty())
                    } else {
                        restore_plan(
                            codec,
                            mappings.skip(1),
                            existing,
                            mapping.end(),
                            range_start,
                            range_end,
                            content_length,
                        )
                    },
                ),
            }
        }
    }
}

proof fn candidate_from(existing: Seq<MappingView>, cursor: int, place: u64, decodings: usize)
    requires
        0 <= cursor <= existing.len(),
        forall|i: int| 0 <= i < cursor ==> (#[trigger] existing[i]).end() <= place,
        forall|i: int|
            0 <= i < cursor ==> extent_fault((#[trigger] existing[i]).extent, decodings) is None,
    ensures
        candidate(existing, place) == candidate(existing.skip(cursor), place),
        candidate_fault(existing, place, decodings) == candidate_fault(
            existing.skip(cursor),
            place,
            decodings,
        ),
    decreases cursor,
{
    if cursor == 0 {
        assert(existing.skip(0) =~= existing);
    } else {
        let rest = existing.skip(1);
        assert forall|i: int| 0 <= i < cursor - 1 implies (#[trigger] rest[i]).end() <= place
            && extent_fault(rest[i].extent, decodings) is None by {
            assert(rest[i] == existing[i + 1]);
        }
        candidate_from(rest, cursor - 1, place, decodings);
        assert(rest.skip(cursor - 1) =~= existing.skip(cursor));
        assert(existing[0].end() <= place);
    }
}

/// Step to the first mapping of the local copy that ends behind a place.
fn next_candidate<C: ExtentCodec>(
    codec: &C,
    existing: &Vec<ExtentMapping>,
    cursor: usize,
    place: u64,
) -> (result: Result<usize, Error>)
    requires
        cursor <= existing@.len(),
        forall|i: int| 0 <= i < cursor ==> (#[trigger] existing@[i])@.end() <= place,
        forall|i: int|
            0 <= i < cursor ==> extent_fault(
                (#[trigger] existing@[i])@.extent,
                codec.decodings(),
            ) is None,
    ensures
        ({
            let views = mappings_view(existing@);
            match result {
                Ok(next) => {
                    &&& cursor <= next <= existing@.len()
                    &&& candidate_fault(views, place, codec.decodings()) is None
                    &&& candidate(views, place) == (if next < existing@.len() {
                        Some(existing@[next as int]@)
                    } else {
                        None
                    })
                    &&& forall|i: int|
                        0 <= i < next ==> (#[trigger] existing@[i])@.end() <= place
                    &&& forall|i: int|
                        0 <= i < next ==> extent_fault(
                            (#[trigger] existing@[i])@.extent,
                            codec.decodings(),
                        ) is None
                },
                Err(error) => candidate_fault(views, place, codec.decodings()) == Some(
                    error.fault(),
                ),
            }
        }),
{
    let ghost views = mappings_view(existing@);
    let mut next: usize = cursor;
    while next < existing.len()
        invariant
            views == mappings_view(existing@),
            cursor <= next <= existing@.len(),
            forall|i: int| 0 <= i < next ==> (#[trigger] existing@[i])@.end() <= place,
            forall|i: int|
                0 <= i < next ==> extent_fault(
                    (#[trigger] existing@[i])@.extent,
                    codec.decodings(),
                ) is None,
        decreases existing@.len() - next,
    {
        proof {
            assert forall|i: int| 0 <= i < next implies (#[trigger] views[i]).end() <= place
                && extent_fault(views[i].extent, codec.decodings()) is None by {
                assert(views[i] == existing@[i]@);
            }
            candidate_from(views, next as int, place, codec.decodings());
            assert(views.skip(next as int)[0] == existing@[next as int]@);
        }
        match codec.validate(existing[next].extent()) {
            Ok(()) => {},
            Err(error) => {
                return Err(error);
            },
        }
        if existing[next].end() > place {
            return Ok(next);
        }
        next += 1;
    }
    proof {
        assert forall|i: int| 0 <= i < next implies (#[trigger] views[i]).end() <= place
            && extent_fault(views[i].extent, codec.decodings()) is None by {
            assert(views[i] == existing@[i]@);
        }
        candidate_from(views, next as int, place, codec.decodings());
        assert(views.skip(next as int).len() == 0);
    }
    Ok(next)
}

/// The place of the local copy that holds the bytes of a mapping.
fn reusable_offset(mapping: &ExtentMapping, local: &ExtentMapping) -> (result: Option<u64>)
    ensures
        match result {
            Some(offset) => reusable(mapping@, Some(local@)) == Some(offset as int),
            None => reusable(mapping@, Some(local@)) is None,
        },
        mapping@.fits(),
        local@.fits(),
{
    let mapping_end: u64 = mapping.end();
    let local_end: u64 = local.end();
    if mapping.extent_offset() < local.extent_offset() {
        return None;
    }
    let delta: u64 = mapping.extent_offset() - local.extent_offset();
    match delta.checked_add(mapping.length()) {
        None => None,
        Some(end) => if local.extent().same(mapping.extent()) && end <= local.length() {
            Some(local.offset() + delta)
        } else {
            None
        },
    }
}

/// The piece that a mapping gives of a range.
fn plan_piece<C: ExtentCodec>(
    codec: &C,
    mapping: &ExtentMapping,
    existing: Option<&ExtentMapping>,
    range_start: u64,
    range_end: u64,
) -> (result: Result<Option<RestorePiece>, Error>)
    requires
        range_start < range_end,
    ensures
        ({
            let local = match existing {
                Some(local) => Some(local@),
                None => None,
            };
            match result {
                Ok(None) => piece_of(codec, mapping@, local, range_start, range_end) == Ok::<
                    Option<PieceView>,
                    Fault,
                >(None),
                Ok(Some(piece)) => piece_of(codec, mapping@, local, range_start, range_end)
                    == Ok::<Option<PieceView>, Fault>(Some(piece@)),
                Err(error) => piece_of(codec, mapping@, local, range_start, range_end) == Err::<
                    Option<PieceView>,
                    Fault,
                >(error.fault()),
            }
        }),
{
    let mapping_end: u64 = mapping.end();
    if mapping.offset() >= range_end || range_start >= mapping_end {
        return Ok(None);
    }
    let first: u64 = if range_start > mapping.offset() {
        range_start
    } else {
        mapping.offset()
    };
    let last: u64 = if range_end < mapping_end {
        range_end
    } else {
        mapping_end
    };
    let start: u64 = mapping.extent_offset() + (first - mapping.offset());
    let end: u64 = start + (last - first);
    let local = match existing {
        Some(local) => reusable_offset(mapping, local),
        None => None,
    };
    if let Some(offset) = local {
        proof {
            let held = existing->0@;
            assert(reusable(mapping@, Some(held)) is Some);
            assert(held.fits());
        }
        return Ok(
            Some(
                RestorePiece::Local {
                    offset: offset + (first - mapping.offset()),
                    length: last - first,
                },
            ),
        );
    }
    let (from, to): (u64, u64) = match codec.stored_range(mapping.extent(), start, end) {
        Ok(range) => range,
        Err(error) => {
            return Err(error);
        },
    };
    let base: u64 = mapping.extent().stored_range.offset;
    let stored_start: u64 = match base.checked_add(from) {
        Some(place) => place,
        None => {
            return Err(Error::corrupt("read Managed file", "stored range start overflows"));
        },
    };
    let stored_end: u64 = match base.checked_add(to) {
        Some(place) => place,
        None => {
            return Err(Error::corrupt("read Managed file", "stored range end overflows"));
        },
    };
    if stored_start >= stored_end {
        return Err(Error::corrupt("read Managed file", "stored range is empty"));
    }
    Ok(
        Some(
            RestorePiece::Remote {
                reference: mapping.extent().clone(),
                start,
                end,
                stored_start,
                stored_end,
            },
        ),
    )
}

/// The pieces so far in front of those of the rest.
spec fn continued(
    pieces: Seq<PieceView>,
    rest: Result<Seq<PieceView>, Fault>,
) -> Result<Seq<PieceView>, Fault> {
    match rest {
        Ok(more) => Ok(pieces + more),
        Err(fault) => Err(fault),
    }
}

/// Plan the pieces of a range of a file.
pub fn plan_restore<C: ExtentCodec>(
    codec: &C,
    mappings: &Vec<ExtentMapping>,
    existing: &Vec<ExtentMapping>,
    range_start: u64,
    range_end: u64,
    content_length: u64,
) -> (result: Result<Vec<RestorePiece>, Error>)
    requires
        disjoint(mappings_view(mappings@)),
        range_start < range_end,
    ensures
        ({
            let plan = restore_plan(
                codec,
                mappings_view(mappings@),
                mappings_view(existing@),
                range_start as int,
                range_start,
                range_end,
                content_length,
            );
            match result {
                Ok(pieces) => plan == Ok::<Seq<PieceView>, Fault>(pieces_view(pieces@)),
                Err(error) => plan == Err::<Seq<PieceView>, Fault>(error.fault()),
            }
        }),
{
    let ghost views = mappings_view(mappings@);
    let ghost local = mappings_view(existing@);
    let ghost plan = restore_plan(
        codec,
        views,
        local,
        range_start as int,
        range_start,
        range_end,
        content_length,
    );
    let mut pieces: Vec<RestorePiece> = Vec::new();
    let mut expected: u64 = range_start;
    let mut cursor: usize = 0;
    let mut index: usize = 0;
    proof {
        assert(views.skip(0) =~= views);
        assert(forall|tail: Seq<PieceView>| pieces_view(pieces@) + tail =~= tail);
    }
    while index < mappings.len()
        invariant
            views == mappings_view(mappings@),
            local == mappings_view(existing@),
            disjoint(views),
            range_start < range_end,
            plan == restore_plan(
                codec,
                views,
                local,
                range_start as int,
                range_start,
                range_end,
                content_length,
            ),
            index <= mappings@.len(),
            cursor <= existing@.len(),
            index == 0 ==> cursor == 0,
            index > 0 ==> forall|i: int|
                0 <= i < cursor ==> (#[trigger] existing@[i])@.end() <= views[index - 1].end(),
            forall|i: int|
                0 <= i < cursor ==> extent_fault(
                    (#[trigger] existing@[i])@.extent,
                    codec.decodings(),
                ) is None,
            plan == continued(
                pieces_view(pieces@),
                restore_plan(
                    codec,
                    views.skip(index as int),
                    local,
                    expected as int,
                    range_start,
                    range_end,
                    content_length,
                ),
            ),
        decreases mappings@.len() - index,
    {
        let mapping = &mappings[index];
        let mapping_end: u64 = mapping.end();
        let ghost tail = views.skip(index as int);
        proof {
            assert(tail[0] == mapping@);
            assert(tail.skip(1) =~= views.skip(index + 1));
        }
        match codec.validate(mapping.extent()) {
            Ok(()) => {},
            Err(error) => {
                return Err(error);
            },
        }
        if mapping.offset() != expected {
            return Err(
                Error::corrupt("read Managed file", "file extents contain a gap or overlap"),
            );
        }
        proof {
            if index > 0 {
                let prior = index - 1;
                assert(views[prior].end() <= views[index as int].offset);
            }
        }
        cursor =
        match next_candidate(codec, existing, cursor, mapping.offset()) {
            Ok(next) => next,
            Err(error) => {
                return Err(error);
            },
        };
        let held: Option<&ExtentMapping> = if cursor < existing.len() {
            Some(&existing[cursor])
        } else {
            None
        };
        let ghost so_far = pieces_view(pieces@);
        let ghost rest = if mapping_end >= range_end && range_end < content_length {
            Ok::<Seq<PieceView>, Fault>(Seq::empty())
        } else {
            restore_plan(
                codec,
                tail.skip(1),
                local,
                mapping_end as int,
                range_start,
                range_end,
                content_length,
            )
        };
        match plan_piece(codec, mapping, held, range_start, range_end) {
            Err(error) => {
                return Err(error);
            },
            Ok(None) => {
                assert(plan == continued(so_far, rest));
            },
            Ok(Some(piece)) => {
                let ghost view = piece@;
                pieces.push(piece);
                proof {
                    assert(pieces_view(pieces@) =~= so_far.push(view));
                    if rest is Ok {
                        assert(so_far + (seq![view] + rest->Ok_0) =~= so_far.push(view)
                            + rest->Ok_0);
                    }
                    assert(plan == continued(pieces_view(pieces@), rest));
                }
            },
        }
        expected = mapping_end;
        if expected >= range_end && range_end < content_length {
            assert(pieces_view(pieces@) + Seq::<PieceView>::empty() =~= pieces_view(pieces@));
            return Ok(pieces);
        }
        index += 1;
    }
    assert(views.skip(index as int).len() == 0);
    if expected != range_end {
        return Err(
            Error::corrupt("read Managed file", "file extents do not cover the logical file"),
        );
    }
    assert(pieces_view(pieces@) + Seq::<PieceView>::empty() =~= pieces_view(pieces@));
    Ok(pieces)
}

/// Each piece, in turn, holds the bytes that the runs of the file say stand at its places,
/// and together they make up all places up to the end.
pub open spec fn pieces_tell(
    pieces: Seq<PieceView>,
    runs: Seq<Seq<MappingView>>,
    existing: Seq<Seq<MappingView>>,
    start: int,
    end: int,
) -> bool
    decreases pieces.len(),
{
    if pieces.len() == 0 {
        start == end
    } else {
        let piece = pieces[0];
        &&& piece.size() > 0
        &&& forall|place: int|
            start <= place < start + piece.size() ==> (match piece {
                PieceView::Remote {
                    extent,
                    start: first,
                    end: last,
                    stored_start,
                    stored_end,
                } => #[trigger] resolve(runs, place) == Some((extent, first + (place - start))),
                PieceView::Local { offset, length } => {
                    &&& #[trigger] resolve(runs, place) is Some
                    &&& resolve(existing, offset + (place - start)) == resolve(runs, place)
                },
            })
        &&& pieces_tell(pieces.skip(1), runs, existing, start + piece.size(), end)
    }
}

proof fn past_the_end<C: ExtentCodec>(
    codec: &C,
    mappings: Seq<MappingView>,
    existing: Seq<MappingView>,
    expected: int,
    range_start: u64,
    range_end: u64,
    content_length: u64,
)
    requires
        expected > range_end,
        range_end >= content_length,
        forall|i: int| 0 <= i < mappings.len() ==> (#[trigger] mappings[i]).fits(),
    ensures
        restore_plan(
            codec,
            mappings,
            existing,
            expected,
            range_start,
            range_end,
            content_length,
        ) is Err,
    decreases mappings.len(),
{
    if mappings.len() > 0 {
        let rest = mappings.skip(1);
        assert forall|i: int| 0 <= i < rest.len() implies (#[trigger] rest[i]).fits() by {
            assert(rest[i] == mappings[i + 1]);
        }
        assert(mappings[0].fits());
        if mappings[0].offset == expected {
            past_the_end(
                codec,
                rest,
                existing,
                mappings[0].end(),
                range_start,
                range_end,
                content_length,
            );
        }
    }
}

proof fn candidate_is_member(existing: Seq<MappingView>, place: u64)
    ensures
        candidate(existing, place) is Some ==> existing.contains(candidate(existing, place)->0),
    decreases existing.len(),
{
    if existing.len() > 0 && existing[0].end() <= place {
        candidate_is_member(existing.skip(1), place);
        if candidate(existing, place) is Some {
            let found = candidate(existing, place)->0;
            let i = choose|i: int|
                0 <= i < existing.skip(1).len() && existing.skip(1)[i] == found;
            assert(existing[i + 1] == found);
        }
    } else if existing.len() > 0 {
        assert(existing[0] == candidate(existing, place)->0);
    }
}

/// The piece of a mapping holds the bytes of its places.
proof fn piece_tells<C: ExtentCodec>(
    codec: &C,
    mappings: Seq<MappingView>,
    index: int,
    existing: Seq<MappingView>,
    runs: Seq<Seq<MappingView>>,
    existing_runs: Seq<Seq<MappingView>>,
    range_start: u64,
    range_end: u64,
)
    requires
        0 <= index < mappings.len(),
        canonical(mappings, runs, range_start as int, u64::MAX + 1),
        canonical(existing, existing_runs, range_start as int, u64::MAX + 1),
        mappings[index].offset < range_end,
        piece_of(
            codec,
            mappings[index],
            candidate(existing, mappings[index].offset),
            range_start,
            range_end,
        ) is Ok,
    ensures
        ({
            let mapping = mappings[index];
            let piece = piece_of(
                codec,
                mapping,
                candidate(existing, mapping.offset),
                range_start,
                range_end,
            )->Ok_0;
            let last = if range_end < mapping.end() {
                range_end as int
            } else {
                mapping.end()
            };
            &&& piece is Some
            &&& piece->0.size() == last - mapping.offset
            &&& pieces_tell(
                seq![piece->0],
                runs,
                existing_runs,
                mapping.offset as int,
                last,
            )
        }),
{
    let mapping = mappings[index];
    let held = candidate(existing, mapping.offset);
    let piece = piece_of(codec, mapping, held, range_start, range_end)->Ok_0->0;
    let last = if range_end < mapping.end() {
        range_end as int
    } else {
        mapping.end()
    };
    assert(mapping.fits());
    assert(range_start <= mapping.offset);
    candidate_is_member(existing, mapping.offset);
    assert forall|place: int| mapping.offset <= place < last implies #[trigger] resolve(
        runs,
        place,
    ) == Some(mapping.at(place)) by {
        assert(mappings[index].covers(place));
        run_at_mapping(mappings, index, place);
    }
    match reusable(mapping, held) {
        Some(offset) => {
            let local = held->0;
            let k = choose|k: int| 0 <= k < existing.len() && existing[k] == local;
            assert(existing[k].fits());
            assert(piece == PieceView::Local {
                offset: offset as u64,
                length: (last - mapping.offset) as u64,
            });
            assert forall|place: int| mapping.offset <= place < last implies resolve(
                existing_runs,
                offset + (place - mapping.offset),
            ) == #[trigger] resolve(runs, place) by {
                let there = offset + (place - mapping.offset);
                assert(existing[k].covers(there));
                run_at_mapping(existing, k, there);
                assert(resolve(existing_runs, there) == (if run_covers(existing, there) {
                    run_at(existing, there)
                } else {
                    None
                }));
            }
        },
        None => {},
    }
    assert(seq![piece].skip(1) =~= Seq::empty());
    assert(pieces_tell(seq![piece].skip(1), runs, existing_runs, last, last));
}

proof fn pieces_tell_joined(
    piece: PieceView,
    rest: Seq<PieceView>,
    runs: Seq<Seq<MappingView>>,
    existing: Seq<Seq<MappingView>>,
    start: int,
    middle: int,
    end: int,
)
    requires
        pieces_tell(seq![piece], runs, existing, start, middle),
        pieces_tell(rest, runs, existing, middle, end),
    ensures
        pieces_tell(seq![piece] + rest, runs, existing, start, end),
{
    reveal_with_fuel(pieces_tell, 2);
    let one = seq![piece];
    assert(one.skip(1) =~= Seq::empty());
    assert(one[0] == piece);
    assert(start + piece.size() == middle);
    let all = one + rest;
    assert(all.skip(1) =~= rest);
    assert(all[0] == piece);
}

proof fn plan_tells<C: ExtentCodec>(
    codec: &C,
    mappings: Seq<MappingView>,
    index: int,
    existing: Seq<MappingView>,
    runs: Seq<Seq<MappingView>>,
    existing_runs: Seq<Seq<MappingView>>,
    expected: int,
    range_start: u64,
    range_end: u64,
    content_length: u64,
)
    requires
        0 <= index <= mappings.len(),
        canonical(mappings, runs, range_start as int, u64::MAX + 1),
        canonical(existing, existing_runs, range_start as int, u64::MAX + 1),
        restore_plan(
            codec,
            mappings.skip(index),
            existing,
            expected,
            range_start,
            range_end,
            content_length,
        ) is Ok,
        expected <= range_end,
        expected == range_end ==> range_end >= content_length,
    ensures
        pieces_tell(
            restore_plan(
                codec,
                mappings.skip(index),
                existing,
                expected,
                range_start,
                range_end,
                content_length,
            )->Ok_0,
            runs,
            existing_runs,
            expected,
            range_end as int,
        ),
    decreases mappings.len() - index,
{
    let tail = mappings.skip(index);
    if index < mappings.len() {
        let mapping = mappings[index];
        assert(tail[0] == mapping);
        assert(tail.skip(1) =~= mappings.skip(index + 1));
        assert(mapping.fits());
        assert forall|i: int| 0 <= i < tail.skip(1).len() implies (
        #[trigger] tail.skip(1)[i]).fits() by {
            assert(mappings[index + 1 + i].fits());
        }
        if mapping.end() > range_end && range_end >= content_length {
            past_the_end(
                codec,
                tail.skip(1),
                existing,
                mapping.end(),
                range_start,
                range_end,
                content_length,
            );
        } else {
            piece_tells(
                codec,
                mappings,
                index,
                existing,
                runs,
                existing_runs,
                range_start,
                range_end,
            );
            let piece = piece_of(
                codec,
                mapping,
                candidate(existing, mapping.offset),
                range_start,
                range_end,
            )->Ok_0->0;
            if mapping.end() >= range_end && range_end < content_length {
                assert(seq![piece] + Seq::<PieceView>::empty() =~= seq![piece]);
            } else {
                plan_tells(
                    codec,
                    mappings,
                    index + 1,
                    existing,
                    runs,
                    existing_runs,
                    mapping.end(),
                    range_start,
                    range_end,
                    content_length,
                );
                let rest = restore_plan(
                    codec,
                    tail.skip(1),
                    existing,
                    mapping.end(),
                    range_start,
                    range_end,
                    content_length,
                )->Ok_0;
                pieces_tell_joined(
                    piece,
                    rest,
                    runs,
                    existing_runs,
                    expected,
                    mapping.end(),
                    range_end as int,
                );
            }
        }
    }
}

/// A range that is planned without fault is made up of exactly its bytes: every place of the
/// range, in turn, gets the bytes that the file's runs say stand there, from an extent or
/// from the place of the local copy that holds the same bytes.
pub proof fn restored_range_is_the_files<C: ExtentCodec>(
    codec: &C,
    mappings: Seq<MappingView>,
    existing: Seq<MappingView>,
    runs: Seq<Seq<MappingView>>,
    existing_runs: Seq<Seq<MappingView>>,
    range_start: u64,
    range_end: u64,
    content_length: u64,
)
    requires
        canonical(mappings, runs, range_start as int, u64::MAX + 1),
        canonical(existing, existing_runs, range_start as int, u64::MAX + 1),
        range_start < range_end,
        restore_plan(
            codec,
            mappings,
            existing,
            range_start as int,
            range_start,
            range_end,
            content_length,
        ) is Ok,
    ensures
        pieces_tell(
            restore_plan(
                codec,
                mappings,
                existing,
                range_start as int,
                range_start,
                range_end,
                content_length,
            )->Ok_0,
            runs,
            existing_runs,
            range_start as int,
            range_end as int,
        ),
{
    assert(mappings.skip(0) =~= mappings);
    plan_tells(
        codec,
        mappings,
        0,
        existing,
        runs,
        existing_runs,
        range_start as int,
        range_start,
        range_end,
        content_length,
    );
}

/// The range of the file that a restore reads the runs of; nothing for an empty range.
pub fn begin_restore<C: ExtentCodec>(
    codec: &C,
    map: &FileExtentMap,
    content: ContentId,
    range_start: u64,
    range_end: u64,
) -> (result: Result<Option<FileRange>, Error>)
    ensures
        match result {
            Ok(None) => map_fault(map@, content, codec.decodings()) is None && range_start
                >= range_end,
            Ok(Some(range)) => {
                &&& map_fault(map@, content, codec.decodings()) is None
                &&& range_start < range_end
                &&& range.start() == range_start
                &&& range.size() == range_end - range_start
            },
            Err(error) => map_fault(map@, content, codec.decodings()) == Some(error.fault()),
        },
{
    match validate_file_map(map, content, codec.decoding_count()) {
        Ok(()) => {},
        Err(error) => {
            return Err(error);
        },
    }
    if range_start >= range_end {
        return Ok(None);
    }
    match FileRange::new(range_start, range_end - range_start) {
        Ok(range) => Ok(Some(range)),
        Err(error) => Err(error),
    }
}

/// The pieces of a range of a file, from the records of its runs and of the runs of a local
/// copy, newest first.
pub fn restore_file<C: ExtentCodec>(
    codec: &C,
    runs: Vec<Vec<ExtentMapping>>,
    existing_runs: Vec<Vec<ExtentMapping>>,
    content: ContentId,
    range_start: u64,
    range_end: u64,
) -> (result: Result<Vec<RestorePiece>, Error>)
    requires
        runs_sound(runs_view(runs@)),
        runs_sound(runs_view(existing_runs@)),
        range_start < range_end,
    ensures
        result is Ok ==> pieces_tell(
            pieces_view(result->Ok_0@),
            runs_view(runs@),
            runs_view(existing_runs@),
            range_start as int,
            range_end as int,
        ),
        exists|mappings: Seq<MappingView>, existing: Seq<MappingView>|
            {
                &&& #[trigger] canonical(
                    mappings,
                    runs_view(runs@),
                    range_start as int,
                    u64::MAX + 1,
                )
                &&& #[trigger] canonical(
                    existing,
                    runs_view(existing_runs@),
                    range_start as int,
                    u64::MAX + 1,
                )
                &&& restore_plan(
                    codec,
                    mappings,
                    existing,
                    range_start as int,
                    range_start,
                    range_end,
                    content.length,
                ) == (match result {
                    Ok(pieces) => Ok::<Seq<PieceView>, Fault>(pieces_view(pieces@)),
                    Err(error) => Err::<Seq<PieceView>, Fault>(error.fault()),
                })
            },
{
    let ghost layers = runs_view(runs@);
    let ghost local = runs_view(existing_runs@);
    let mappings = canonical_extents(runs, range_start);
    let existing = canonical_extents(existing_runs, range_start);
    let ghost first = mappings_view(mappings@);
    let ghost second = mappings_view(existing@);
    assert(canonical(first, layers, range_start as int, u64::MAX + 1));
    assert(canonical(second, local, range_start as int, u64::MAX + 1));
    let result = plan_restore(
        codec,
        &mappings,
        &existing,
        range_start,
        range_end,
        content.length(),
    );
    proof {
        if result is Ok {
            restored_range_is_the_files(
                codec,
                first,
                second,
                layers,
                local,
                range_start,
                range_end,
                content.length,
            );
        }
    }
    result
}

/// Where a range of places begins or ends.
#[derive(Clone, Copy, Debug)]
pub enum RangeBound {
    Included(u64),
    Excluded(u64),
    Unbounded,
}

pub open spec fn first_place(bound: RangeBound) -> int {
    match bound {
        RangeBound::Included(offset) => offset as int,
        RangeBound::Excluded(offset) => offset + 1,
        RangeBound::Unbounded => 0,
    }
}

pub open spec fn place_behind(bound: RangeBound, file_size: u64) -> int {
    match bound {
        RangeBound::Included(offset) => offset + 1,
        RangeBound::Excluded(offset) => offset as int,
        RangeBound::Unbounded => file_size as int,
    }
}

pub open spec fn logical_fault(message: &str) -> Fault {
    crate::error::invalid("read Managed file range", message)
}

/// The places of a file between two bounds.
pub fn logical_range(file_size: u64, start: RangeBound, end: RangeBound) -> (result: Result<
    (u64, u64),
    Error,
>)
    ensures
        ({
            let first = first_place(start);
            let behind = place_behind(end, file_size);
            match result {
                Ok((from, to)) => from == first && to == behind && first <= behind && behind
                    <= file_size,
                Err(error) => if first > u64::MAX {
                    error.fault() == logical_fault("range start overflows")
                } else if behind > u64::MAX {
                    error.fault() == logical_fault("range end overflows")
                } else {
                    (first > behind || behind > file_size) && error.fault() == logical_fault(
                        "logical byte range is invalid",
                    )
                },
            }
        }),
{
    let first: u64 = match start {
        RangeBound::Included(offset) => offset,
        RangeBound::Excluded(offset) => match offset.checked_add(1) {
            Some(place) => place,
            None => {
                return Err(Error::invalid("read Managed file range", "range start overflows"));
            },
        },
        RangeBound::Unbounded => 0,
    };
    let behind: u64 = match end {
        RangeBound::Included(offset) => match offset.checked_add(1) {
            Some(place) => place,
            None => {
                return Err(Error::invalid("read Managed file range", "range end overflows"));
            },
        },
        RangeBound::Excluded(offset) => offset,
        RangeBound::Unbounded => file_size,
    };
    if first > behind || behind > file_size {
        return Err(Error::invalid("read Managed file range", "logical byte range is invalid"));
    }
    Ok((first, behind))
}

// What restoring promises beyond the bytes.

/// A range of an extent that is stored as it is lies at the same places in the stored bytes, and
/// is given out exactly if it lies within them and nothing has to be decoded.
pub proof fn identical_bytes_keep_their_places(
    reference: &ExtentRef,
    start: u64,
    end: u64,
    range: Result<(u64, u64), Error>,
    copy: Result<IdentityCopy, Error>,
)
    requires
        call_ensures(identity_range, (reference, start, end), range),
        call_ensures(identity_copy, (reference, start, end), copy),
    ensures
        range is Ok <==> {
            &&& reference@.decoding_outputs.len() == 0
            &&& reference@.stored_range.segment.class == ObjectClass::DataSegment
            &&& start <= end <= reference@.stored_range.stored_content.length
        },
        range matches Ok((from, to)) ==> from == start && to == end,
        copy is Ok <==> range is Ok,
        copy matches Ok(IdentityCopy::Nothing) ==> start == end,
        copy matches Ok(IdentityCopy::Whole(content)) ==> content
            == reference@.stored_range.stored_content && start == 0 && end == content.length,
        copy matches Ok(IdentityCopy::Part(length)) ==> start + length == end && length > 0,
        copy is Ok && start < end ==> !(copy->Ok_0 is Nothing),
        copy is Ok && start == 0 && 0 < end && end == reference@.stored_range.stored_content.length
            ==> copy->Ok_0 is Whole,
{
}

/// An extent can be read exactly if it is stored in a data segment, neither it nor its stored
/// bytes are empty, it is decoded as often as the volume asks, and its stored range can be
/// counted.
pub proof fn readable_extents_fit_the_access(extent: ExtentView, decodings: usize)
    ensures
        extent_fault(extent, decodings) is None <==> {
            let stored = extent.stored_range;
            &&& stored.segment.class == ObjectClass::DataSegment
            &&& stored.stored_content.length > 0
            &&& extent.content().length > 0
            &&& extent.decoding_outputs.len() == decodings
            &&& stored.offset + stored.stored_content.length <= u64::MAX
        },
{
}

/// Bytes that the local file has are not read from storage: where the candidate maps the same
/// extent and has all bytes of the mapping, the piece is local.
pub proof fn local_bytes_are_reused<C: ExtentCodec>(
    codec: &C,
    mapping: MappingView,
    local: MappingView,
    range_start: u64,
    range_end: u64,
)
    requires
        mapping.offset < range_end,
        range_start < mapping.offset + mapping.length,
        local.extent == mapping.extent,
        local.extent_offset <= mapping.extent_offset,
        mapping.extent_offset + mapping.length <= local.extent_offset + local.length,
    ensures
        ({
            let piece = piece_of(codec, mapping, Some(local), range_start, range_end);
            piece is Ok && piece->Ok_0 is Some && piece->Ok_0->0 is Local
        }),
{
}

/// A mapping that misses the range gives no piece, and one that meets it gives a piece of the
/// bytes in common.
pub proof fn pieces_are_the_bytes_in_common<C: ExtentCodec>(
    codec: &C,
    mapping: MappingView,
    existing: Option<MappingView>,
    range_start: u64,
    range_end: u64,
)
    requires
        mapping.fits(),
        range_start < range_end,
    ensures
        ({
            let piece = piece_of(codec, mapping, existing, range_start, range_end);
            let first = if range_start < mapping.offset {
                mapping.offset
            } else {
                range_start
            };
            let last = if mapping.offset + mapping.length < range_end {
                mapping.offset + mapping.length
            } else {
                range_end as int
            };
            piece matches Ok(found) ==> {
                &&& found is Some <==> first < last
                &&& found matches Some(found) ==> found.size() == last - first
            }
        }),
{
}

/// The candidate for reuse at a place is the first mapping of the local file that ends behind it.
pub proof fn candidates_end_behind_the_place(existing: Seq<MappingView>, place: u64) -> (index: int)
    ensures
        match candidate(existing, place) {
            Some(mapping) => {
                &&& 0 <= index < existing.len()
                &&& existing[index] == mapping
                &&& mapping.offset + mapping.length > place
                &&& forall|i: int|
                    0 <= i < index ==> (#[trigger] existing[i]).offset + existing[i].length <= place
            },
            None => forall|i: int|
                0 <= i < existing.len() ==> (#[trigger] existing[i]).offset + existing[i].length
                    <= place,
        },
    decreases existing.len(),
{
    if existing.len() == 0 || existing[0].end() > place {
        0
    } else {
        let rest = existing.skip(1);
        let index = candidates_end_behind_the_place(rest, place);
        assert forall|i: int| 0 < i < existing.len() implies rest[i - 1] == #[trigger] existing[i] by {}
        index + 1
    }
}

/// A range of a file is the asked one, from its first place to the one behind its last, and is
/// given out exactly if it lies within the file.
pub proof fn logical_ranges_lie_within_the_file(
    file_size: u64,
    first: u64,
    behind: u64,
    full: Result<(u64, u64), Error>,
    half_open: Result<(u64, u64), Error>,
    closed: Result<(u64, u64), Error>,
    open: Result<(u64, u64), Error>,
)
    requires
        call_ensures(logical_range, (file_size, RangeBound::Unbounded, RangeBound::Unbounded), full),
        call_ensures(
            logical_range,
            (file_size, RangeBound::Included(first), RangeBound::Excluded(behind)),
            half_open,
        ),
        call_ensures(
            logical_range,
            (file_size, RangeBound::Included(first), RangeBound::Included(behind)),
            closed,
        ),
        call_ensures(
            logical_range,
            (file_size, RangeBound::Excluded(first), RangeBound::Excluded(behind)),
            open,
        ),
    ensures
        full == Ok::<(u64, u64), Error>((0, file_size)),
        half_open is Ok <==> first <= behind <= file_size,
        half_open matches Ok((from, to)) ==> from == first && to == behind,
        closed is Ok <==> first <= behind + 1 <= file_size,
        closed matches Ok((from, to)) ==> from == first && to == behind + 1,
        open is Ok <==> first + 1 <= behind <= file_size,
        open matches Ok((from, to)) ==> from == first + 1 && to == behind,
{
}

/// A copy of local bytes is complete or refused.
pub proof fn reused_bytes_are_complete(copied: u64, length: u64, result: Result<(), Error>)
    requires
        call_ensures(check_reused, (copied, length), result),
    ensures
        result is Ok <==> copied == length,
{
}

/// A restore of a range begins exactly if the map fits the content, with the range that was
/// asked for; an empty one needs nothing.
pub proof fn a_restore_begins_with_the_asked_range<C: ExtentCodec>(
    codec: &C,
    map: &FileExtentMap,
    content: ContentId,
    range_start: u64,
    range_end: u64,
    result: Result<Option<FileRange>, Error>,
)
    requires
        call_ensures(begin_restore::<C>, (codec, map, content, range_start, range_end), result),
    ensures
        result is Ok <==> map_fault(map@, content, codec.decodings()) is None,
        result matches Ok(None) ==> range_end <= range_start,
        result matches Ok(Some(range)) ==> range.start() == range_start && range.start()
            + range.size() == range_end && range.size() > 0,
{
}

} // verus!
