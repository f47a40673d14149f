//! Batches of ranges of one segment, and the requests that restore a file.

use vstd::prelude::*;

use crate::error::{corrupt, Error, Fault};
use crate::extents::{ExtentRef, ExtentView};
use crate::model::ObjectLocator;
use crate::restore::{pieces_view, PieceView, RestorePiece};

verus! {

pub ghost struct ItemView<T> {
    pub value: T,
    pub start: u64,
    pub end: u64,
}

/// One item in a bounded range batch.
pub struct RangeBatchItem<T> {
    pub value: T,
    pub start: u64,
    pub end: u64,
}

pub open spec fn items_view<T>(items: Seq<RangeBatchItem<T>>) -> Seq<ItemView<T>> {
    Seq::new(
        items.len(),
        |i: int| ItemView { value: items[i].value, start: items[i].start, end: items[i].end },
    )
}

/// The number of bytes in the ranges.
pub open spec fn range_total<T>(items: Seq<ItemView<T>>) -> int
    decreases items.len(),
{
    if items.len() == 0 {
        0
    } else {
        range_total(items.drop_last()) + (items.last().end - items.last().start)
    }
}

/// Each range begins where the one before it ends.
pub open spec fn consecutive<T>(items: Seq<ItemView<T>>) -> bool
    decreases items.len(),
{
    items.len() <= 1 || (consecutive(items.drop_last()) && items[items.len() - 2].end
        == items.last().start)
}

pub ghost struct BatchView<T> {
    pub locator: ObjectLocator,
    pub items: Seq<ItemView<T>>,
    pub metadata_bytes: int,
}

/// One storage request plan for ranges from the same immutable segment.
pub struct RangeBatch<T> {
    locator: ObjectLocator,
    items: Vec<RangeBatchItem<T>>,
    metadata_bytes: u64,
    range_bytes: u64,
    contiguous: bool,
    last_end: u64,
}

/// The bytes that a batch holds with one range more: only the metadata where the ranges can
/// be streamed, else also all the ranges and the gaps that a fetch may read between them.
pub open spec fn projected<T>(
    batch: BatchView<T>,
    start: u64,
    end: u64,
    metadata_bytes: u64,
    gap_bytes: u64,
) -> int {
    let metadata = batch.metadata_bytes + metadata_bytes;
    if consecutive(batch.items) && batch.items.last().end == start {
        metadata
    } else {
        metadata + (range_total(batch.items) + (end - start)) + gap_bytes * batch.items.len()
    }
}

pub open spec fn overflow_fault() -> Fault {
    corrupt("plan Managed segment ranges", "byte count overflows")
}

impl<T> RangeBatch<T> {
    pub closed spec fn view(&self) -> BatchView<T> {
        BatchView {
            locator: self.locator,
            items: items_view(self.items@),
            metadata_bytes: self.metadata_bytes as int,
        }
    }

    #[verifier::type_invariant]
    spec fn is_batch(self) -> bool {
        &&& self.items@.len() > 0
        &&& self.contiguous == consecutive(self@.items)
        &&& self.last_end == self@.items.last().end
        &&& self.range_bytes == range_total(self@.items)
    }

    pub fn new(locator: ObjectLocator, start: u64, end: u64, metadata_bytes: u64, value: T) -> (
    batch: Self)
        requires
            start < end,
        ensures
            batch@ == (BatchView {
                locator,
                items: seq![ItemView { value, start, end }],
                metadata_bytes: metadata_bytes as int,
            }),
    {
        let mut items: Vec<RangeBatchItem<T>> = Vec::new();
        items.push(RangeBatchItem { value, start, end });
        proof {
            let views = items_view(items@);
            assert(views =~= seq![ItemView { value, start, end }]);
            assert(views.drop_last() =~= Seq::empty());
            assert(range_total(views.drop_last()) == 0);
        }
        RangeBatch {
            locator,
            items,
            metadata_bytes,
            range_bytes: end - start,
            contiguous: true,
            last_end: end,
        }
    }

    pub fn locator(&self) -> (locator: ObjectLocator)
        ensures
            locator == self@.locator,
    {
        self.locator
    }

    /// Whether a further range keeps the batch within a number of bytes.
    fn fits(&self, start: u64, end: u64, metadata_bytes: u64, gap_bytes: u64, maximum_bytes: u64) -> (
    result: bool)
        requires
            start < end,
        ensures
            result == (projected(self@, start, end, metadata_bytes, gap_bytes) <= maximum_bytes),
    {
        proof {
            use_type_invariant(self);
        }
        let ghost goal = projected(self@, start, end, metadata_bytes, gap_bytes);
        let count: u64 = self.items.len() as u64;
        assert(gap_bytes * count >= 0) by (nonlinear_arith);
        let metadata: u64 = match self.metadata_bytes.checked_add(metadata_bytes) {
            Some(bytes) => bytes,
            None => {
                return false;
            },
        };
        if self.contiguous && self.last_end == start {
            return metadata <= maximum_bytes;
        }
        let ranges: u64 = match self.range_bytes.checked_add(end - start) {
            Some(bytes) => bytes,
            None => {
                return false;
            },
        };
        let gaps: u64 = match gap_bytes.checked_mul(count) {
            Some(bytes) => bytes,
            None => {
                return false;
            },
        };
        let held: u64 = match metadata.checked_add(ranges) {
            Some(bytes) => bytes,
            None => {
                return false;
            },
        };
        match held.checked_add(gaps) {
            Some(bytes) => bytes <= maximum_bytes,
            None => false,
        }
    }

    /// Add a range, unless the byte counts of the batch would overflow.
    fn push(self, start: u64, end: u64, metadata_bytes: u64, value: T) -> (result: Result<
        Self,
        Error,
    >)
        requires
            start < end,
        ensures
            ({
                let metadata = self@.metadata_bytes + metadata_bytes;
                let ranges = range_total(self@.items) + (end - start);
                match result {
                    Ok(batch) => {
                        &&& metadata <= u64::MAX
                        &&& ranges <= u64::MAX
                        &&& batch@ == (BatchView {
                            locator: self@.locator,
                            items: self@.items.push(ItemView { value, start, end }),
                            metadata_bytes: metadata,
                        })
                    },
                    Err(error) => (metadata > u64::MAX || ranges > u64::MAX) && error.fault()
                        == overflow_fault(),
                }
            }),
    {
        proof {
            use_type_invariant(&self);
        }
        let metadata: u64 = match self.metadata_bytes.checked_add(metadata_bytes) {
            Some(bytes) => bytes,
            None => {
                return Err(Error::corrupt("plan Managed segment ranges", "byte count overflows"));
            },
        };
        let ranges: u64 = match self.range_bytes.checked_add(end - start) {
            Some(bytes) => bytes,
            None => {
                return Err(Error::corrupt("plan Managed segment ranges", "byte count overflows"));
            },
        };
        let ghost before = self@.items;
        let contiguous = self.contiguous && self.last_end == start;
        let mut items = self.items;
        items.push(RangeBatchItem { value, start, end });
        proof {
            let after = items_view(items@);
            assert(after =~= before.push(ItemView { value, start, end }));
            assert(after.drop_last() =~= before);
            assert(after[after.len() - 2] == before.last());
        }
        Ok(
            RangeBatch {
                locator: self.locator,
                items,
                metadata_bytes: metadata,
                range_bytes: ranges,
                contiguous,
                last_end: end,
            },
        )
    }

    /// The one range that all ranges of the batch can be streamed from.
    pub fn stream_range(&self) -> (range: Option<(u64, u64)>)
        ensures
            match range {
                Some((start, end)) => consecutive(self@.items) && start == self@.items[0].start
                    && end == self@.items.last().end,
                None => !consecutive(self@.items),
            },
    {
        proof {
            use_type_invariant(self);
        }
        if self.contiguous {
            Some((self.items[0].start, self.last_end))
        } else {
            None
        }
    }

    pub fn into_items(self) -> (items: Vec<RangeBatchItem<T>>)
        ensures
            items_view(items@) == self@.items,
    {
        self.items
    }
}

/// Ranges that follow each other make up the range from the first to the last.
pub proof fn consecutive_ranges_make_up_one<T>(items: Seq<ItemView<T>>)
    requires
        items.len() > 0,
        consecutive(items),
    ensures
        range_total(items) == items.last().end - items[0].start,
    decreases items.len(),
{
    if items.len() == 1 {
        assert(range_total(items.drop_last()) == 0);
    } else {
        consecutive_ranges_make_up_one(items.drop_last());
        assert(items.drop_last().last() == items[items.len() - 2]);
    }
}

pub open spec fn batch_view<T>(batch: Option<RangeBatch<T>>) -> Option<BatchView<T>> {
    match batch {
        Some(batch) => Some(batch@),
        None => None,
    }
}

/// The range stands in the batch that is being built.
pub open spec fn joins<T>(
    current: Option<BatchView<T>>,
    locator: ObjectLocator,
    projected_bytes: int,
    maximum_bytes: u64,
) -> bool {
    current is Some && current->0.locator == locator && projected_bytes <= maximum_bytes
}

/// The sum of the weights of items.
pub open spec fn weight_of<T>(items: Seq<ItemView<T>>, weight: spec_fn(T) -> int) -> int
    decreases items.len(),
{
    if items.len() == 0 {
        0
    } else {
        weight_of(items.drop_last(), weight) + weight(items.last().value)
    }
}

/// The batch as it was when it held its first items.
pub open spec fn first_items<T>(
    batch: BatchView<T>,
    count: int,
    weight: spec_fn(T) -> int,
) -> BatchView<T> {
    BatchView {
        locator: batch.locator,
        items: batch.items.take(count),
        metadata_bytes: weight_of(batch.items.take(count), weight),
    }
}

/// The bytes that are held once an item stands behind the items of a batch.
pub open spec fn bytes_with<T>(
    batch: BatchView<T>,
    item: ItemView<T>,
    weight: spec_fn(T) -> int,
    gap_bytes: u64,
) -> int {
    projected(batch, item.start, item.end, weight(item.value) as u64, gap_bytes)
}

/// Each range that was added to the batch kept it within the bytes that may be held.
pub open spec fn well_packed<T>(
    batch: BatchView<T>,
    weight: spec_fn(T) -> int,
    maximum_bytes: u64,
    gap_bytes: u64,
) -> bool {
    &&& batch.items.len() > 0
    &&& batch.metadata_bytes == weight_of(batch.items, weight)
    &&& forall|count: int|
        1 <= count < batch.items.len() ==> bytes_with(
            #[trigger] first_items(batch, count, weight),
            batch.items[count],
            weight,
            gap_bytes,
        ) <= maximum_bytes
}

/// A batch ends where the next one begins because the next range does not fit it.
pub open spec fn must_part<T>(
    batch: BatchView<T>,
    next: BatchView<T>,
    weight: spec_fn(T) -> int,
    maximum_bytes: u64,
    gap_bytes: u64,
) -> bool {
    !joins(
        Some(batch),
        next.locator,
        bytes_with(batch, next.items[0], weight, gap_bytes),
        maximum_bytes,
    )
}

/// A range that fits keeps a batch packed.
pub proof fn packed_grows<T>(
    batch: BatchView<T>,
    item: ItemView<T>,
    weight: spec_fn(T) -> int,
    maximum_bytes: u64,
    gap_bytes: u64,
)
    requires
        well_packed(batch, weight, maximum_bytes, gap_bytes),
        bytes_with(batch, item, weight, gap_bytes) <= maximum_bytes,
    ensures
        well_packed(
            (BatchView {
                locator: batch.locator,
                items: batch.items.push(item),
                metadata_bytes: batch.metadata_bytes + weight(item.value),
            }),
            weight,
            maximum_bytes,
            gap_bytes,
        ),
{
    let grown = BatchView {
        locator: batch.locator,
        items: batch.items.push(item),
        metadata_bytes: batch.metadata_bytes + weight(item.value),
    };
    assert(grown.items.drop_last() =~= batch.items);
    assert forall|count: int| 1 <= count < grown.items.len() implies bytes_with(
        #[trigger] first_items(grown, count, weight),
        grown.items[count],
        weight,
        gap_bytes,
    ) <= maximum_bytes by {
        assert(grown.items.take(count) =~= batch.items.take(count));
        if count == batch.items.len() {
            assert(batch.items.take(count) =~= batch.items);
            assert(first_items(grown, count, weight) == batch);
        } else {
            assert(first_items(grown, count, weight) == first_items(batch, count, weight));
        }
    }
}

/// A batch of one range is packed.
pub proof fn packed_alone<T>(
    locator: ObjectLocator,
    item: ItemView<T>,
    weight: spec_fn(T) -> int,
    maximum_bytes: u64,
    gap_bytes: u64,
)
    ensures
        well_packed(
            (BatchView { locator, items: seq![item], metadata_bytes: weight(item.value) }),
            weight,
            maximum_bytes,
            gap_bytes,
        ),
{
    assert(seq![item].drop_last() =~= Seq::empty());
    assert(weight_of(seq![item].drop_last(), weight) == 0);
}

/// Build range batches whose retained bytes fit one transfer lane.
pub struct RangeBatcher<T> {
    maximum_bytes: u64,
    gap_bytes: u64,
    current: Option<RangeBatch<T>>,
}

pub open spec fn empty_range_fault() -> Fault {
    corrupt("plan Managed segment ranges", "data segment range is empty or reversed")
}

/// What a plan comes to next: a range of a segment and the bytes that it takes up, something
/// that ends the batch that is being built, or something that cannot be planned.
pub ghost enum Wanted {
    Range { locator: ObjectLocator, start: u64, end: u64, weight: int },
    Pause,
    Wrong { fault: Fault },
}

/// A batch without the values of its items.
pub open spec fn bare<T>(batch: BatchView<T>) -> BatchView<()> {
    BatchView {
        locator: batch.locator,
        items: Seq::new(
            batch.items.len(),
            |i: int| ItemView { value: (), start: batch.items[i].start, end: batch.items[i].end },
        ),
        metadata_bytes: batch.metadata_bytes,
    }
}

pub open spec fn bare_building<T>(building: Option<BatchView<T>>) -> Option<BatchView<()>> {
    match building {
        Some(batch) => Some(bare(batch)),
        None => None,
    }
}

/// The batch that is being built behind one more thing, or why there is none.
pub open spec fn packed_next(
    building: Option<BatchView<()>>,
    wanted: Wanted,
    maximum_bytes: u64,
    gap_bytes: u64,
) -> Result<Option<BatchView<()>>, Fault> {
    match wanted {
        Wanted::Pause => Ok(None),
        Wanted::Wrong { fault } => Err(fault),
        Wanted::Range { locator, start, end, weight } => {
            let item = ItemView { value: (), start, end };
            if start >= end {
                Err(empty_range_fault())
            } else if !joins(
                building,
                locator,
                projected(building->0, start, end, weight as u64, gap_bytes),
                maximum_bytes,
            ) {
                Ok(Some(BatchView { locator, items: seq![item], metadata_bytes: weight }))
            } else if range_total(building->0.items) + (end - start) > u64::MAX {
                Err(overflow_fault())
            } else {
                Ok(
                    Some(
                        BatchView {
                            locator,
                            items: building->0.items.push(item),
                            metadata_bytes: building->0.metadata_bytes + weight,
                        },
                    ),
                )
            }
        },
    }
}

/// The batch that is being built behind all that is wanted, or the first thing that is wrong:
/// a range that is empty, or one with which the bytes of its batch cannot be counted.
pub open spec fn packing(wanted: Seq<Wanted>, maximum_bytes: u64, gap_bytes: u64) -> Result<
    Option<BatchView<()>>,
    Fault,
>
    decreases wanted.len(),
{
    if wanted.len() == 0 {
        Ok(None)
    } else {
        match packing(wanted.drop_last(), maximum_bytes, gap_bytes) {
            Ok(building) => packed_next(building, wanted.last(), maximum_bytes, gap_bytes),
            Err(fault) => Err(fault),
        }
    }
}

/// What is wrong with the first things wanted is wrong with all.
pub proof fn first_wrong_stays(wanted: Seq<Wanted>, count: int, maximum_bytes: u64, gap_bytes: u64)
    requires
        0 <= count <= wanted.len(),
        packing(wanted.take(count), maximum_bytes, gap_bytes) is Err,
    ensures
        packing(wanted, maximum_bytes, gap_bytes) == packing(
            wanted.take(count),
            maximum_bytes,
            gap_bytes,
        ),
    decreases wanted.len() - count,
{
    if count == wanted.len() {
        assert(wanted.take(count) =~= wanted);
    } else {
        assert(wanted.take(count + 1).drop_last() =~= wanted.take(count));
        first_wrong_stays(wanted, count + 1, maximum_bytes, gap_bytes);
    }
}

/// The values of items do not matter for the bytes that a batch holds.
pub proof fn bare_holds_the_same<T>(batch: BatchView<T>)
    ensures
        range_total(bare(batch).items) == range_total(batch.items),
        consecutive(bare(batch).items) == consecutive(batch.items),
        forall|start: u64, end: u64, weight: u64, gap_bytes: u64|
            batch.items.len() > 0 ==> #[trigger] projected(
                bare(batch),
                start,
                end,
                weight,
                gap_bytes,
            ) == projected(batch, start, end, weight, gap_bytes),
    decreases batch.items.len(),
{
    if batch.items.len() > 0 {
        let fewer = BatchView { items: batch.items.drop_last(), ..batch };
        bare_holds_the_same(fewer);
        assert(bare(fewer).items =~= bare(batch).items.drop_last());
    }
}

impl<T> RangeBatcher<T> {
    pub closed spec fn maximum(&self) -> u64 {
        self.maximum_bytes
    }

    pub closed spec fn gap(&self) -> u64 {
        self.gap_bytes
    }

    /// The batch that is being built.
    pub closed spec fn building(&self) -> Option<BatchView<T>> {
        batch_view(self.current)
    }

    pub fn new(maximum_bytes: usize, gap_bytes: usize) -> (batcher: Self)
        ensures
            batcher.maximum() == maximum_bytes,
            batcher.gap() == gap_bytes,
            batcher.building() is None,
    {
        RangeBatcher {
            maximum_bytes: maximum_bytes as u64,
            gap_bytes: gap_bytes as u64,
            current: None,
        }
    }

    /// Plan one range. A batch that it does not fit is handed out.
    pub fn push(
        &mut self,
        locator: ObjectLocator,
        start: u64,
        end: u64,
        metadata_bytes: u64,
        value: T,
    ) -> (result: Result<Option<RangeBatch<T>>, Error>)
        ensures
            final(self).maximum() == old(self).maximum(),
            final(self).gap() == old(self).gap(),
            ({
                let current = old(self).building();
                let item = ItemView { value, start, end };
                let joined = joins(
                    current,
                    locator,
                    projected(current->0, start, end, metadata_bytes, old(self).gap()),
                    old(self).maximum(),
                );
                match result {
                    Ok(ready) => {
                        &&& start < end
                        &&& joined ==> ready is None && final(self).building() == Some(
                            (BatchView {
                                locator,
                                items: current->0.items.push(item),
                                metadata_bytes: current->0.metadata_bytes + metadata_bytes,
                            }),
                        ) && range_total(current->0.items) + (end - start) <= u64::MAX
                        &&& !joined ==> batch_view(ready) == current && final(self).building()
                            == Some(
                            (BatchView {
                                locator,
                                items: seq![item],
                                metadata_bytes: metadata_bytes as int,
                            }),
                        )
                    },
                    Err(error) => if start >= end {
                        error.fault() == empty_range_fault() && final(self).building() == current
                    } else {
                        &&& joined
                        &&& range_total(current->0.items) + (end - start) > u64::MAX
                        &&& error.fault() == overflow_fault()
                        &&& final(self).building() is None
                    },
                }
            }),
    {
        if start >= end {
            return Err(
                Error::corrupt(
                    "plan Managed segment ranges",
                    "data segment range is empty or reversed",
                ),
            );
        }
        let mut current: Option<RangeBatch<T>> = None;
        std::mem::swap(&mut current, &mut self.current);
        match current {
            None => {
                self.current = Some(RangeBatch::new(locator, start, end, metadata_bytes, value));
                Ok(None)
            },
            Some(batch) => {
                let fits = batch.locator() == locator && batch.fits(
                    start,
                    end,
                    metadata_bytes,
                    self.gap_bytes,
                    self.maximum_bytes,
                );
                if fits {
                    proof {
                        let count = batch@.items.len() as int;
                        let gap = self.gap_bytes as int;
                        use_type_invariant(&batch);
                        assert(gap * count >= 0) by (nonlinear_arith)
                            requires
                                gap >= 0,
                                count >= 0,
                        ;
                    }
                    match batch.push(start, end, metadata_bytes, value) {
                        Ok(batch) => {
                            self.current = Some(batch);
                            Ok(None)
                        },
                        Err(error) => Err(error),
                    }
                } else {
                    self.current =
                    Some(RangeBatch::new(locator, start, end, metadata_bytes, value));
                    Ok(Some(batch))
                }
            },
        }
    }

    /// Take the batch that is being built.
    pub fn take(&mut self) -> (batch: Option<RangeBatch<T>>)
        ensures
            batch_view(batch) == old(self).building(),
            final(self).building() is None,
            final(self).maximum() == old(self).maximum(),
            final(self).gap() == old(self).gap(),
    {
        let mut current: Option<RangeBatch<T>> = None;
        std::mem::swap(&mut current, &mut self.current);
        current
    }
}

/// One encoded extent in a batch, and the part of its content that is wanted.
pub struct RemoteExtent {
    pub reference: ExtentRef,
    pub start: u64,
    pub end: u64,
}

/// A count of bytes that stops at the largest number.
pub open spec fn capped(value: int, limit: int) -> int {
    if value > limit {
        limit
    } else {
        value
    }
}

/// The bytes that an extent takes up in a batch.
pub open spec fn extent_weight(extent: ExtentView, item_bytes: usize, output_bytes: usize) -> int {
    capped(
        item_bytes + capped(extent.decoding_outputs.len() * output_bytes, usize::MAX as int),
        usize::MAX as int,
    )
}

pub open spec fn remote_weight(item_bytes: usize, output_bytes: usize) -> spec_fn(
    RemoteExtent,
) -> int {
    |remote: RemoteExtent| extent_weight(remote.reference@, item_bytes, output_bytes)
}

impl RemoteExtent {
    /// The bytes that the extent takes up in a batch, given the sizes of an item and of one
    /// decoding output.
    pub fn metadata_bytes(&self, item_bytes: usize, output_bytes: usize) -> (bytes: u64)
        ensures
            bytes == extent_weight(self.reference@, item_bytes, output_bytes),
    {
        let count: usize = self.reference.decoding_outputs.len();
        assert(count * output_bytes >= 0) by (nonlinear_arith);
        let outputs: usize = match count.checked_mul(output_bytes) {
            Some(bytes) => bytes,
            None => usize::MAX,
        };
        let total: usize = match item_bytes.checked_add(outputs) {
            Some(bytes) => bytes,
            None => usize::MAX,
        };
        total as u64
    }
}

/// One request of a restore.
pub enum RestoreStep {
    /// Read and decode the extents of a batch.
    Fetch(RangeBatch<RemoteExtent>),
    /// Copy bytes of the local copy.
    Copy { offset: u64, length: u64 },
}

pub open spec fn item_piece(item: ItemView<RemoteExtent>) -> PieceView {
    PieceView::Remote {
        extent: item.value.reference@,
        start: item.value.start,
        end: item.value.end,
        stored_start: item.start,
        stored_end: item.end,
    }
}

pub open spec fn item_pieces(items: Seq<ItemView<RemoteExtent>>) -> Seq<PieceView> {
    Seq::new(items.len(), |i: int| item_piece(items[i]))
}

/// The pieces that a request gives.
pub open spec fn step_pieces(step: RestoreStep) -> Seq<PieceView> {
    match step {
        RestoreStep::Fetch(batch) => item_pieces(batch@.items),
        RestoreStep::Copy { offset, length } => seq![PieceView::Local { offset, length }],
    }
}

/// The pieces that requests give, one after the other.
pub open spec fn steps_pieces(steps: Seq<RestoreStep>) -> Seq<PieceView>
    decreases steps.len(),
{
    if steps.len() == 0 {
        Seq::empty()
    } else {
        steps_pieces(steps.drop_last()) + step_pieces(steps.last())
    }
}

/// The ranges of a batch lie in its segment.
pub open spec fn in_segment(batch: BatchView<RemoteExtent>) -> bool {
    forall|i: int|
        0 <= i < batch.items.len() ==> (
        #[trigger] batch.items[i]).value.reference@.stored_range.segment == batch.locator
}

/// Each fetch stays within the bytes that may be held, and is as large as that allows.
pub open spec fn packed_steps(
    steps: Seq<RestoreStep>,
    weight: spec_fn(RemoteExtent) -> int,
    maximum_bytes: u64,
    gap_bytes: u64,
) -> bool {
    &&& forall|i: int|
        0 <= i < steps.len() ==> ((#[trigger] steps[i]) matches RestoreStep::Fetch(batch)
            ==> well_packed(batch@, weight, maximum_bytes, gap_bytes) && in_segment(batch@))
    &&& forall|i: int, j: int|
        0 <= i && j == i + 1 && j < steps.len() ==> ((#[trigger] steps[i]) matches RestoreStep::Fetch(
            batch,
        ) ==> ((#[trigger] steps[j]) matches RestoreStep::Fetch(next) ==> must_part(
            batch@,
            next@,
            weight,
            maximum_bytes,
            gap_bytes,
        )))
}

/// The batch that is being built can stand behind the requests so far.
spec fn packed_with(
    steps: Seq<RestoreStep>,
    building: Option<BatchView<RemoteExtent>>,
    weight: spec_fn(RemoteExtent) -> int,
    maximum_bytes: u64,
    gap_bytes: u64,
) -> bool {
    &&& packed_steps(steps, weight, maximum_bytes, gap_bytes)
    &&& building matches Some(next) ==> {
        &&& well_packed(next, weight, maximum_bytes, gap_bytes)
        &&& in_segment(next)
        &&& steps.len() > 0 ==> (steps.last() matches RestoreStep::Fetch(batch) ==> must_part(
            batch@,
            next,
            weight,
            maximum_bytes,
            gap_bytes,
        ))
    }
}

/// All that was planned: the requests and the batch that is being built.
spec fn planned(steps: Seq<RestoreStep>, building: Option<BatchView<RemoteExtent>>) -> Seq<
    PieceView,
> {
    steps_pieces(steps) + (match building {
        Some(batch) => item_pieces(batch.items),
        None => Seq::empty(),
    })
}

/// What a piece wants of a plan.
pub open spec fn piece_wanted(piece: PieceView, item_bytes: usize, output_bytes: usize) -> Wanted {
    match piece {
        PieceView::Local { offset, length } => Wanted::Pause,
        PieceView::Remote { extent, start, end, stored_start, stored_end } => Wanted::Range {
            locator: extent.stored_range.segment,
            start: stored_start,
            end: stored_end,
            weight: extent_weight(extent, item_bytes, output_bytes),
        },
    }
}

pub open spec fn pieces_wanted(
    pieces: Seq<PieceView>,
    item_bytes: usize,
    output_bytes: usize,
) -> Seq<Wanted> {
    Seq::new(pieces.len(), |i: int| piece_wanted(pieces[i], item_bytes, output_bytes))
}

fn add_batch(
    steps: &mut Vec<RestoreStep>,
    batch: Option<RangeBatch<RemoteExtent>>,
    Ghost(weight): Ghost<spec_fn(RemoteExtent) -> int>,
    Ghost(maximum_bytes): Ghost<u64>,
    Ghost(gap_bytes): Ghost<u64>,
)
    requires
        packed_with(old(steps)@, batch_view(batch), weight, maximum_bytes, gap_bytes),
    ensures
        final(steps)@.len() >= old(steps)@.len(),
        steps_pieces(final(steps)@) == planned(old(steps)@, batch_view(batch)),
        packed_steps(final(steps)@, weight, maximum_bytes, gap_bytes),
        match batch {
            Some(batch) => final(steps)@ == old(steps)@.push(RestoreStep::Fetch(batch)),
            None => final(steps)@ == old(steps)@,
        },
{
    match batch {
        Some(batch) => {
            steps.push(RestoreStep::Fetch(batch));
            proof {
                let earlier = old(steps)@;
                assert(steps@.drop_last() =~= earlier);
                assert forall|i: int, j: int| 0 <= i && j == i + 1 && j < steps@.len() implies ((
                #[trigger] steps@[i]) matches RestoreStep::Fetch(first) ==> ((
                #[trigger] steps@[j]) matches RestoreStep::Fetch(next) ==> must_part(
                    first@,
                    next@,
                    weight,
                    maximum_bytes,
                    gap_bytes,
                ))) by {
                    if j < earlier.len() {
                        assert(earlier[i] == steps@[i] && earlier[j] == steps@[j]);
                    } else {
                        assert(earlier.last() == steps@[i]);
                    }
                }
            }
        },
        None => {
            assert(steps_pieces(steps@) + Seq::<PieceView>::empty() =~= steps_pieces(steps@));
        },
    }
}

/// Turn the pieces of a range into requests of bounded size, in the order of the pieces.
pub fn batch_pieces(
    pieces: Vec<RestorePiece>,
    window_bytes: usize,
    gap_bytes: usize,
    item_bytes: usize,
    output_bytes: usize,
) -> (result: Result<Vec<RestoreStep>, Error>)
    ensures
        match result {
            Ok(steps) => {
                &&& packing(
                    pieces_wanted(pieces_view(pieces@), item_bytes, output_bytes),
                    window_bytes as u64,
                    gap_bytes as u64,
                ) is Ok
                &&& steps_pieces(steps@) == pieces_view(pieces@)
                &&& packed_steps(
                    steps@,
                    remote_weight(item_bytes, output_bytes),
                    window_bytes as u64,
                    gap_bytes as u64,
                )
            },
            Err(error) => packing(
                pieces_wanted(pieces_view(pieces@), item_bytes, output_bytes),
                window_bytes as u64,
                gap_bytes as u64,
            ) == Err::<Option<BatchView<()>>, Fault>(error.fault()),
        },
{
    let ghost views = pieces_view(pieces@);
    let ghost given = pieces@;
    let ghost weight = remote_weight(item_bytes, output_bytes);
    let ghost maximum = window_bytes as u64;
    let ghost gap = gap_bytes as u64;
    let ghost wanted = pieces_wanted(views, item_bytes, output_bytes);
    let mut batcher: RangeBatcher<RemoteExtent> = RangeBatcher::new(window_bytes, gap_bytes);
    let mut steps: Vec<RestoreStep> = Vec::new();
    let mut remaining = crate::order::reversed(pieces);
    let ghost backward = remaining@;
    let ghost mut index: int = 0;
    assert(planned(steps@, batcher.building()) =~= views.take(0));
    while remaining.len() > 0
        invariant
            given == pieces@,
            views == pieces_view(given),
            backward.len() == given.len(),
            forall|i: int|
                0 <= i < given.len() ==> #[trigger] backward[given.len() - 1 - i] == given[i],
            0 <= index <= given.len(),
            remaining@ == backward.take(given.len() - index),
            planned(steps@, batcher.building()) == views.take(index),
            weight == remote_weight(item_bytes, output_bytes),
            maximum == window_bytes as u64,
            gap == gap_bytes as u64,
            maximum == batcher.maximum(),
            gap == batcher.gap(),
            packed_with(steps@, batcher.building(), weight, maximum, gap),
            batcher.building() is None && steps@.len() > 0 ==> steps@.last() is Copy,
            wanted == pieces_wanted(views, item_bytes, output_bytes),
            packing(wanted.take(index), maximum, gap) == Ok::<Option<BatchView<()>>, Fault>(
                bare_building(batcher.building()),
            ),
        decreases remaining@.len(),
    {
        let ghost done = views.take(index);
        let ghost building = batcher.building();
        let ghost steps_before = steps@;
        let piece = remaining.pop().unwrap();
        proof {
            assert(piece == backward[given.len() - 1 - index]);
            assert(piece == given[index]);
            assert(views[index] == piece@);
            assert(views.take(index + 1) =~= done.push(piece@));
            assert(wanted.take(index + 1).drop_last() =~= wanted.take(index));
            assert(wanted.take(index + 1).last() == piece_wanted(
                piece@,
                item_bytes,
                output_bytes,
            ));
            if building is Some {
                bare_holds_the_same(building->0);
            }
            assert(remaining@ =~= backward.take(given.len() - (index + 1)));
        }
        let ghost view = piece@;
        match piece {
            RestorePiece::Local { offset, length } => {
                let batch = batcher.take();
                add_batch(&mut steps, batch, Ghost(weight), Ghost(maximum), Ghost(gap));
                let ghost flushed = steps@;
                steps.push(RestoreStep::Copy { offset, length });
                proof {
                    assert(steps@.drop_last() =~= flushed);
                    assert(steps_pieces(steps@) =~= done.push(view));
                    assert(planned(steps@, None) =~= done.push(view));
                    assert forall|i: int, j: int| 0 <= i && j == i + 1 && j
                        < steps@.len() implies ((#[trigger] steps@[i]) matches RestoreStep::Fetch(
                        first,
                    ) ==> ((#[trigger] steps@[j]) matches RestoreStep::Fetch(next) ==> must_part(
                        first@,
                        next@,
                        weight,
                        maximum,
                        gap,
                    ))) by {
                        if j < flushed.len() {
                            assert(flushed[i] == steps@[i] && flushed[j] == steps@[j]);
                        }
                    }
                    assert(packed_steps(steps@, weight, maximum, gap));
                }
            },
            RestorePiece::Remote { reference, start, end, stored_start, stored_end } => {
                let locator = reference.stored_range.segment;
                let remote = RemoteExtent { reference, start, end };
                let bytes: u64 = remote.metadata_bytes(item_bytes, output_bytes);
                let ghost item = ItemView { value: remote, start: stored_start, end: stored_end };
                assert(item_piece(item) == view);
                match batcher.push(locator, stored_start, stored_end, bytes, remote) {
                    Err(error) => {
                        proof {
                            first_wrong_stays(wanted, index + 1, maximum, gap);
                        }
                        return Err(error);
                    },
                    Ok(ready) => {
                        let ghost handed = batch_view(ready);
                        proof {
                            let now = batcher.building()->0;
                            assert(weight(remote) == bytes);
                            let next = packed_next(
                                bare_building(building),
                                wanted[index],
                                maximum,
                                gap,
                            );
                            assert(next->Ok_0->0.items =~= bare(now).items);
                            assert(next->Ok_0->0 == bare(now));
                            if joins(
                                building,
                                locator,
                                projected(building->0, stored_start, stored_end, bytes, gap),
                                maximum,
                            ) {
                                packed_grows(building->0, item, weight, maximum, gap);
                            } else {
                                packed_alone(locator, item, weight, maximum, gap);
                            }
                        }
                        add_batch(&mut steps, ready, Ghost(weight), Ghost(maximum), Ghost(gap));
                        proof {
                            let now = batcher.building()->0;
                            if now.items =~= seq![item] && handed == building {
                                assert(item_pieces(now.items) =~= seq![view]);
                                assert(planned(steps@, Some(now)) =~= done.push(view));
                                assert(now.items[0] == item);
                                if handed is Some {
                                    assert(steps@.last() matches RestoreStep::Fetch(last)
                                        && last@ == building->0);
                                }
                                assert(packed_with(steps@, Some(now), weight, maximum, gap));
                            } else {
                                assert(handed is None);
                                assert(now.items[0] == building->0.items[0]);
                                assert(now.items =~= building->0.items.push(item));
                                assert(item_pieces(now.items) =~= item_pieces(
                                    building->0.items,
                                ).push(view));
                                assert(steps_pieces(steps@) =~= steps_pieces(steps_before));
                                assert(planned(steps@, Some(now)) =~= done.push(view));
                            }
                        }
                    },
                }
            },
        }
        proof {
            index = index + 1;
        }
    }
    let batch = batcher.take();
    add_batch(&mut steps, batch, Ghost(weight), Ghost(maximum), Ghost(gap));
    proof {
        assert(index == given.len());
        assert(views.take(index) =~= views);
        assert(wanted.take(index) =~= wanted);
    }
    Ok(steps)
}

// What batching promises.

/// A range that is pushed is never lost: it ends the batch that is built, behind what was there,
/// or begins the next one, and then the batch before it is handed out as it was. An empty range
/// is refused and changes nothing.
pub proof fn a_pushed_range_is_batched_once<T>(
    batcher: &mut RangeBatcher<T>,
    locator: ObjectLocator,
    start: u64,
    end: u64,
    metadata_bytes: u64,
    value: T,
    result: Result<Option<RangeBatch<T>>, Error>,
)
    requires
        call_ensures(
            RangeBatcher::<T>::push,
            (batcher, locator, start, end, metadata_bytes, value),
            result,
        ),
    ensures
        start >= end ==> result is Err && final(batcher).building() == old(batcher).building(),
        result matches Ok(ready) ==> {
            let item = ItemView { value, start, end };
            &&& final(batcher).building() matches Some(after)
            &&& after.locator == locator
            &&& after.items.len() > 0
            &&& after.items.last() == item
            &&& match old(batcher).building() {
                None => ready is None && after.items.len() == 1 && after.metadata_bytes
                    == metadata_bytes,
                Some(before) => match ready {
                    None => {
                        &&& before.locator == locator
                        &&& after.items.drop_last() == before.items
                        &&& after.metadata_bytes == before.metadata_bytes + metadata_bytes
                    },
                    Some(done) => {
                        &&& done@ == before
                        &&& after.items.len() == 1
                        &&& after.metadata_bytes == metadata_bytes
                    },
                },
            }
        },
{
    if result is Ok {
        let item = ItemView { value, start, end };
        if let Some(before) = old(batcher).building() {
            assert(before.items.push(item).drop_last() =~= before.items);
        }
    }
}

/// A range joins a batch of its segment exactly if what has to be held then stays within the
/// limit: what is known of all ranges, and, unless they follow each other without a gap, their
/// bytes and a gap between each two.
pub proof fn batches_stay_within_the_limit<T>(
    batcher: &mut RangeBatcher<T>,
    locator: ObjectLocator,
    start: u64,
    end: u64,
    metadata_bytes: u64,
    value: T,
    result: Result<Option<RangeBatch<T>>, Error>,
)
    requires
        call_ensures(
            RangeBatcher::<T>::push,
            (batcher, locator, start, end, metadata_bytes, value),
            result,
        ),
        old(batcher).building() is Some,
        result is Ok,
    ensures
        ({
            let before = old(batcher).building()->0;
            let metadata = before.metadata_bytes + metadata_bytes;
            let streams = consecutive(before.items) && before.items.last().end == start;
            let held = if streams {
                metadata
            } else {
                metadata + range_total(before.items) + (end - start) + old(batcher).gap()
                    * before.items.len()
            };
            result->Ok_0 is None <==> before.locator == locator && held
                <= old(batcher).maximum()
        }),
{
}

/// What is taken is the batch that was built, and none is left.
pub proof fn a_taken_batch_is_the_built_one<T>(
    batcher: &mut RangeBatcher<T>,
    batch: Option<RangeBatch<T>>,
)
    requires
        call_ensures(RangeBatcher::<T>::take, (batcher,), batch),
    ensures
        batch_view(batch) == old(batcher).building(),
        final(batcher).building() is None,
{
}

/// The steps of a restore do its pieces, all of them and in their order, and fetch each from the
/// segment that it is stored in.
pub proof fn steps_do_every_piece(
    pieces: Vec<RestorePiece>,
    window_bytes: usize,
    gap_bytes: usize,
    item_bytes: usize,
    output_bytes: usize,
    result: Result<Vec<RestoreStep>, Error>,
    step: int,
    item: int,
)
    requires
        call_ensures(
            batch_pieces,
            (pieces, window_bytes, gap_bytes, item_bytes, output_bytes),
            result,
        ),
        result is Ok,
    ensures
        steps_pieces(result->Ok_0@) == pieces_view(pieces@),
        0 <= step < result->Ok_0@.len() ==> (result->Ok_0@[step] matches RestoreStep::Fetch(batch)
            ==> {
            &&& batch@.items.len() > 0
            &&& 0 <= item < batch@.items.len() ==> {
                let remote = batch@.items[item].value;
                remote.reference@.stored_range.segment == batch@.locator
            }
        }),
{
    if 0 <= step < result->Ok_0@.len() {
        if let RestoreStep::Fetch(batch) = result->Ok_0@[step] {
            assert(well_packed(
                batch@,
                remote_weight(item_bytes, output_bytes),
                window_bytes as u64,
                gap_bytes as u64,
            ));
            assert(in_segment(batch@));
        }
    }
}

/// What is held of an extent that is fetched is what an item takes and what each of its
/// decodings takes, as far as that can be counted.
pub proof fn an_extent_weighs_what_is_held_of_it(
    extent: ExtentView,
    item_bytes: usize,
    output_bytes: usize,
)
    ensures
        ({
            let held = item_bytes + extent.decoding_outputs.len() * output_bytes;
            extent_weight(extent, item_bytes, output_bytes) == if held <= usize::MAX {
                held
            } else {
                usize::MAX as int
            }
        }),
{
    assert(extent.decoding_outputs.len() * output_bytes >= 0) by (nonlinear_arith);
}

} // verus!
