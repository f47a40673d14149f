//! Extents of files: runs of mappings, of which newer ones win.

use vstd::prelude::*;

use crate::error::{corrupt, Error, Fault};
use crate::filesystem::{same_contents, ContentId, FileRange};
use crate::model::ObjectLocator;

verus! {

/// A range of a data segment and the identity of its bytes.
#[derive(Clone, Copy, Debug)]
pub struct SegmentRangeRef {
    pub segment: ObjectLocator,
    pub offset: u64,
    pub stored_content: ContentId,
}

impl PartialEq for SegmentRangeRef {
    fn eq(&self, other: &Self) -> (result: bool) {
        self.segment == other.segment && self.offset == other.offset && self.stored_content
            == other.stored_content
    }
}

impl vstd::std_specs::cmp::PartialEqSpecImpl for SegmentRangeRef {
    open spec fn obeys_eq_spec() -> bool {
        true
    }

    open spec fn eq_spec(&self, other: &Self) -> bool {
        *self == *other
    }
}

impl Eq for SegmentRangeRef {

}

#[verifier::ext_equal]
pub ghost struct ExtentView {
    pub stored_range: SegmentRangeRef,
    pub decoding_outputs: Seq<ContentId>,
}

impl ExtentView {
    /// The content behind the last decoding, or the stored bytes themselves.
    pub open spec fn content(self) -> ContentId {
        if self.decoding_outputs.len() > 0 {
            self.decoding_outputs.last()
        } else {
            self.stored_range.stored_content
        }
    }
}

/// Independently stored bytes and the contents that their decodings yield.
#[derive(Debug)]
pub struct ExtentRef {
    pub stored_range: SegmentRangeRef,
    pub decoding_outputs: Vec<ContentId>,
}

impl ExtentRef {
    pub open spec fn view(&self) -> ExtentView {
        ExtentView {
            stored_range: self.stored_range,
            decoding_outputs: self.decoding_outputs@,
        }
    }

    pub fn content(&self) -> (content: ContentId)
        ensures
            content == self@.content(),
    {
        let count: usize = self.decoding_outputs.len();
        if count > 0 {
            self.decoding_outputs[count - 1]
        } else {
            self.stored_range.stored_content
        }
    }

    pub fn same(&self, other: &Self) -> (result: bool)
        ensures
            result == (self@ == other@),
    {
        self.stored_range == other.stored_range && same_contents(
            self.decoding_outputs.as_slice(),
            other.decoding_outputs.as_slice(),
        )
    }
}

impl Clone for ExtentRef {
    fn clone(&self) -> (result: Self)
        ensures
            result@ == self@,
    {
        let mut decoding_outputs: Vec<ContentId> = Vec::new();
        let mut index: usize = 0;
        while index < self.decoding_outputs.len()
            invariant
                index <= self.decoding_outputs@.len(),
                decoding_outputs@ == self.decoding_outputs@.take(index as int),
            decreases self.decoding_outputs@.len() - index,
        {
            decoding_outputs.push(self.decoding_outputs[index]);
            index += 1;
        }
        assert(decoding_outputs@ =~= self.decoding_outputs@);
        ExtentRef { stored_range: self.stored_range, decoding_outputs }
    }
}

#[verifier::ext_equal]
pub ghost struct MappingView {
    pub offset: u64,
    pub length: u64,
    pub extent_offset: u64,
    pub extent: ExtentView,
}

impl MappingView {
    /// The first place of the file behind the mapping.
    pub open spec fn end(self) -> int {
        self.offset + self.length
    }

    /// The mapping says where the byte at a place of the file is stored.
    pub open spec fn covers(self, place: int) -> bool {
        self.offset <= place < self.end()
    }

    /// The extent and the place in its content that the byte at a place of the file has.
    pub open spec fn at(self, place: int) -> (ExtentView, int) {
        (self.extent, self.extent_offset + (place - self.offset))
    }

    /// The mapping is not empty and lies within its extent.
    pub open spec fn fits(self) -> bool {
        &&& self.length > 0
        &&& self.offset + self.length <= u64::MAX
        &&& self.extent_offset + self.length <= self.extent.content().length
    }
}

pub open spec fn mapping_fault() -> Fault {
    corrupt("read Managed file extent", "extent mapping exceeds its extent")
}

/// Mapping from one logical file range into the content of an extent.
#[derive(Debug)]
pub struct ExtentMapping {
    range: FileRange,
    extent_offset: u64,
    extent: ExtentRef,
}

impl ExtentMapping {
    pub closed spec fn view(&self) -> MappingView {
        MappingView {
            offset: self.range.start(),
            length: self.range.size(),
            extent_offset: self.extent_offset,
            extent: self.extent@,
        }
    }

    #[verifier::type_invariant]
    spec fn is_within_extent(self) -> bool {
        self@.fits()
    }

    /// The mapping of a range to the bytes of an extent from an offset on.
    pub fn new(range: FileRange, extent_offset: u64, extent: ExtentRef) -> (result: Result<
        Self,
        Error,
    >)
        ensures
            ({
                let view = MappingView {
                    offset: range.start(),
                    length: range.size(),
                    extent_offset,
                    extent: extent@,
                };
                match result {
                    Ok(mapping) => view.fits() && mapping@ == view,
                    Err(error) => !view.fits() && error.fault() == mapping_fault(),
                }
            }),
    {
        let fits = match extent_offset.checked_add(range.length()) {
            Some(end) => end <= extent.content().length(),
            None => false,
        };
        let end = range.end();
        if !fits {
            return Err(
                Error::corrupt("read Managed file extent", "extent mapping exceeds its extent"),
            );
        }
        let ghost end_value = end->Ok_0;
        assert(end_value <= u64::MAX);
        Ok(ExtentMapping { range, extent_offset, extent })
    }

    /// The mapping of a whole extent to the place of the file that it starts at.
    pub fn complete(file_offset: u64, extent: ExtentRef) -> (result: Result<Self, Error>)
        ensures
            ({
                let length = extent@.content().length;
                let possible = length > 0 && file_offset + length <= u64::MAX;
                match result {
                    Ok(mapping) => possible && mapping@ == (MappingView {
                        offset: file_offset,
                        length,
                        extent_offset: 0,
                        extent: extent@,
                    }),
                    Err(error) => !possible && error.fault() == crate::filesystem::range_fault(),
                }
            }),
    {
        let range = match FileRange::new(file_offset, extent.content().length()) {
            Ok(range) => range,
            Err(error) => {
                return Err(error);
            },
        };
        Self::new(range, 0, extent)
    }

    pub fn range(&self) -> (range: FileRange)
        ensures
            range.start() == self@.offset,
            range.size() == self@.length,
            self@.fits(),
    {
        proof {
            use_type_invariant(self);
        }
        self.range
    }

    pub fn offset(&self) -> (offset: u64)
        ensures
            offset == self@.offset,
            self@.fits(),
    {
        proof {
            use_type_invariant(self);
        }
        self.range.offset()
    }

    pub fn length(&self) -> (length: u64)
        ensures
            length == self@.length,
            self@.fits(),
    {
        proof {
            use_type_invariant(self);
        }
        self.range.length()
    }

    pub fn end(&self) -> (end: u64)
        ensures
            end == self@.end(),
            self@.fits(),
    {
        proof {
            use_type_invariant(self);
        }
        self.range.offset() + self.range.length()
    }

    pub fn extent_offset(&self) -> (offset: u64)
        ensures
            offset == self@.extent_offset,
    {
        self.extent_offset
    }

    pub fn extent(&self) -> (extent: &ExtentRef)
        ensures
            extent@ == self@.extent,
    {
        &self.extent
    }

    /// The part of the mapping between two places of the file.
    pub fn slice(&self, start: u64, end: u64) -> (result: Self)
        requires
            self@.offset <= start < end <= self@.end(),
        ensures
            result@ == (MappingView {
                offset: start,
                length: (end - start) as u64,
                extent_offset: (self@.extent_offset + (start - self@.offset)) as u64,
                extent: self@.extent,
            }),
            self@.fits(),
            result@.fits(),
    {
        proof {
            use_type_invariant(self);
        }
        let offset: u64 = self.range.offset();
        let extent_offset: u64 = self.extent_offset + (start - offset);
        let range = match FileRange::new(start, end - start) {
            Ok(range) => range,
            Err(_) => self.range,
        };
        ExtentMapping { range, extent_offset, extent: self.extent.clone() }
    }

    pub fn same(&self, other: &Self) -> (result: bool)
        ensures
            result == (self@ == other@),
    {
        self.range.offset() == other.range.offset() && self.range.length() == other.range.length()
            && self.extent_offset == other.extent_offset && self.extent.same(&other.extent)
    }
}

impl Clone for ExtentMapping {
    fn clone(&self) -> (result: Self)
        ensures
            result@ == self@,
            self@.fits(),
    {
        proof {
            use_type_invariant(self);
        }
        ExtentMapping {
            range: self.range,
            extent_offset: self.extent_offset,
            extent: self.extent.clone(),
        }
    }
}

/// The second mapping continues the first one in the file and in the extent.
pub open spec fn continues(left: MappingView, right: MappingView) -> bool {
    &&& left.end() == right.offset
    &&& left.extent_offset + left.length == right.extent_offset
    &&& left.extent == right.extent
}

/// Two mappings, of which the second continues the first, as one.
pub open spec fn combined(left: MappingView, right: MappingView) -> MappingView {
    MappingView {
        offset: left.offset,
        length: (left.length + right.length) as u64,
        extent_offset: left.extent_offset,
        extent: left.extent,
    }
}

/// Join two mappings if the second continues the first.
pub fn coalesce_file_extents(left: ExtentMapping, right: ExtentMapping) -> (result: Result<
    ExtentMapping,
    (ExtentMapping, ExtentMapping),
>)
    ensures
        match result {
            Ok(joined) => continues(left@, right@) && joined@ == combined(left@, right@),
            Err(pair) => !continues(left@, right@) && pair.0 == left && pair.1 == right,
        },
        left@.fits(),
        right@.fits(),
{
    proof {
        use_type_invariant(&left);
        use_type_invariant(&right);
    }
    let left_extent_end: u64 = left.extent_offset + left.range.length();
    if left.end() == right.offset() && left_extent_end == right.extent_offset && left.extent.same(
        &right.extent,
    ) {
        let total: u64 = left.range.length() + right.range.length();
        let range = match FileRange::new(left.range.offset(), total) {
            Ok(range) => range,
            Err(_) => left.range,
        };
        Ok(ExtentMapping { range, extent_offset: left.extent_offset, extent: left.extent })
    } else {
        Err((left, right))
    }
}

pub open spec fn mappings_view(mappings: Seq<ExtentMapping>) -> Seq<MappingView> {
    Seq::new(mappings.len(), |i: int| mappings[i]@)
}

/// The mappings stand in the order of the file and do not overlap.
pub open spec fn disjoint(run: Seq<MappingView>) -> bool {
    forall|i: int, j: int|
        0 <= i < j < run.len() ==> (#[trigger] run[i]).end() <= (#[trigger] run[j]).offset
}

pub open spec fn all_fit(run: Seq<MappingView>) -> bool {
    forall|i: int| 0 <= i < run.len() ==> (#[trigger] run[i]).fits()
}

pub open spec fn run_covers(run: Seq<MappingView>, place: int) -> bool {
    exists|i: int| 0 <= i < run.len() && (#[trigger] run[i]).covers(place)
}

/// Where a run says that the byte at a place of the file is stored.
pub open spec fn run_at(run: Seq<MappingView>, place: int) -> Option<(ExtentView, int)> {
    if run_covers(run, place) {
        let i = choose|i: int| 0 <= i < run.len() && (#[trigger] run[i]).covers(place);
        Some(run[i].at(place))
    } else {
        None
    }
}

/// In a disjoint run one mapping covers a place.
pub proof fn run_at_mapping(run: Seq<MappingView>, index: int, place: int)
    requires
        disjoint(run),
        0 <= index < run.len(),
        run[index].covers(place),
    ensures
        run_at(run, place) == Some(run[index].at(place)),
{
    let i = choose|i: int| 0 <= i < run.len() && (#[trigger] run[i]).covers(place);
    assert(run[index].covers(place));
    assert(run[i].covers(place));
    if i < index {
        assert(run[i].end() <= run[index].offset);
    } else if index < i {
        assert(run[index].end() <= run[i].offset);
    }
}

/// Where the byte at a place of the file is stored: the first run that covers it says so.
pub open spec fn resolve(runs: Seq<Seq<MappingView>>, place: int) -> Option<(ExtentView, int)>
    decreases runs.len(),
{
    if runs.len() == 0 {
        None
    } else if run_covers(runs[0], place) {
        run_at(runs[0], place)
    } else {
        resolve(runs.skip(1), place)
    }
}

/// The first run that covers a place decides.
pub proof fn resolve_first(runs: Seq<Seq<MappingView>>, index: int, place: int)
    requires
        0 <= index < runs.len(),
        forall|i: int| 0 <= i < index ==> !run_covers(#[trigger] runs[i], place),
        run_covers(runs[index], place),
    ensures
        resolve(runs, place) == run_at(runs[index], place),
    decreases index,
{
    if index > 0 {
        assert(!run_covers(runs[0], place));
        let rest = runs.skip(1);
        assert forall|i: int| 0 <= i < index - 1 implies !run_covers(#[trigger] rest[i], place) by {
            assert(rest[i] == runs[i + 1]);
        }
        resolve_first(rest, index - 1, place);
    }
}

/// A place that no run covers is not stored.
pub proof fn resolve_none(runs: Seq<Seq<MappingView>>, place: int)
    requires
        forall|i: int| 0 <= i < runs.len() ==> !run_covers(#[trigger] runs[i], place),
    ensures
        resolve(runs, place) is None,
    decreases runs.len(),
{
    if runs.len() > 0 {
        assert(!run_covers(runs[0], place));
        let rest = runs.skip(1);
        assert forall|i: int| 0 <= i < rest.len() implies !run_covers(
            #[trigger] rest[i],
            place,
        ) by {
            assert(rest[i] == runs[i + 1]);
        }
        resolve_none(rest, place);
    }
}

pub open spec fn runs_view(runs: Seq<Vec<ExtentMapping>>) -> Seq<Seq<MappingView>> {
    Seq::new(runs.len(), |i: int| mappings_view(runs[i]@))
}

pub open spec fn runs_sound(runs: Seq<Seq<MappingView>>) -> bool {
    forall|i: int| 0 <= i < runs.len() ==> disjoint(#[trigger] runs[i]) && all_fit(runs[i])
}

/// What a mapping stores from one place of the file up to another one.
pub open spec fn piece(mapping: MappingView, start: int, end: int) -> MappingView {
    MappingView {
        offset: start as u64,
        length: (end - start) as u64,
        extent_offset: (mapping.extent_offset + (start - mapping.offset)) as u64,
        extent: mapping.extent,
    }
}

/// Some mapping of the runs starts at a place.
pub open spec fn starts_at(runs: Seq<Seq<MappingView>>, place: int) -> bool {
    exists|i: int, k: int|
        0 <= i < runs.len() && 0 <= k < runs[i].len() && (#[trigger] runs[i][k]).offset == place
}

/// The first place behind a start where a mapping of the newer runs starts, or the limit if
/// that comes first.
pub open spec fn is_cut(newer: Seq<Seq<MappingView>>, start: int, limit: int, end: int) -> bool {
    &&& start < end <= limit
    &&& forall|i: int, k: int|
        0 <= i < newer.len() && 0 <= k < newer[i].len() && (#[trigger] newer[i][k]).offset > start
            ==> end <= newer[i][k].offset
    &&& end == limit || starts_at(newer, end)
}

/// The mapping is what the newest run that covers its first place has stored from there on, as
/// far as no newer run cuts in: a run by its number, and the number of its mapping.
pub open spec fn is_selected(
    runs: Seq<Seq<MappingView>>,
    mapping: MappingView,
    run: int,
    index: int,
) -> bool {
    &&& 0 <= run < runs.len()
    &&& 0 <= index < runs[run].len()
    &&& runs[run][index].covers(mapping.offset as int)
    &&& forall|i: int| 0 <= i < run ==> !run_covers(#[trigger] runs[i], mapping.offset as int)
    &&& is_cut(
        runs.take(run),
        mapping.offset as int,
        runs[run][index].end(),
        mapping.end(),
    )
    &&& mapping == piece(runs[run][index], mapping.offset as int, mapping.end())
}

/// What is read of runs at a place is one mapping.
pub proof fn selected_is_one(
    runs: Seq<Seq<MappingView>>,
    left: MappingView,
    left_run: int,
    left_index: int,
    right: MappingView,
    right_run: int,
    right_index: int,
)
    requires
        runs_sound(runs),
        is_selected(runs, left, left_run, left_index),
        is_selected(runs, right, right_run, right_index),
        left.offset == right.offset,
    ensures
        left == right,
{
    let place = left.offset as int;
    assert(run_covers(runs[left_run], place));
    assert(run_covers(runs[right_run], place));
    if left_run < right_run {
        assert(!run_covers(runs[left_run], place));
    } else if right_run < left_run {
        assert(!run_covers(runs[right_run], place));
    }
    let run = runs[left_run];
    assert(disjoint(run));
    if left_index < right_index {
        assert(run[left_index].end() <= run[right_index].offset);
    } else if right_index < left_index {
        assert(run[right_index].end() <= run[left_index].offset);
    }
    let newer = runs.take(left_run);
    if left.end() < right.end() {
        let (i, k) = choose|i: int, k: int|
            0 <= i < newer.len() && 0 <= k < newer[i].len() && (#[trigger] newer[i][k]).offset
                == left.end();
        assert(right.end() <= newer[i][k].offset);
    } else if right.end() < left.end() {
        let (i, k) = choose|i: int, k: int|
            0 <= i < newer.len() && 0 <= k < newer[i].len() && (#[trigger] newer[i][k]).offset
                == right.end();
        assert(left.end() <= newer[i][k].offset);
    }
}

/// Single-pass view over all extent runs of one file, newest first.
pub struct FileExtentReader {
    runs: Vec<Vec<ExtentMapping>>,
    // The place of the first mapping of each run that may still matter.
    heads: Vec<usize>,
    position: u64,
}

impl FileExtentReader {
    /// The runs, newest first.
    pub closed spec fn runs(&self) -> Seq<Seq<MappingView>> {
        runs_view(self.runs@)
    }

    /// The place of the file up to which was read.
    pub closed spec fn floor(&self) -> u64 {
        self.position
    }

    /// Each head stands behind the mappings that end at or before the floor.
    pub closed spec fn wf(&self) -> bool {
        &&& runs_sound(self.runs())
        &&& self.heads@.len() == self.runs@.len()
        &&& forall|i: int|
            0 <= i < self.runs@.len() ==> #[trigger] self.heads@[i] <= self.runs@[i]@.len()
        &&& forall|i: int, k: int|
            0 <= i < self.runs@.len() && 0 <= k < self.heads@[i] ==> (
            #[trigger] self.runs()[i][k]).end() <= self.position
    }

    /// Read runs, newest first, from a place of the file on.
    pub fn new(runs: Vec<Vec<ExtentMapping>>, start: u64) -> (reader: Self)
        requires
            runs_sound(runs_view(runs@)),
        ensures
            reader.wf(),
            reader.runs() == runs_view(runs@),
            reader.floor() == start,
    {
        let mut heads: Vec<usize> = Vec::new();
        let mut index: usize = 0;
        while index < runs.len()
            invariant
                index <= runs@.len(),
                heads@.len() == index,
                forall|i: int| 0 <= i < index ==> #[trigger] heads@[i] == 0,
            decreases runs@.len() - index,
        {
            heads.push(0);
            index += 1;
        }
        FileExtentReader { runs, heads, position: start }
    }

    /// Move the head of each run behind what ends at or before the floor.
    fn skip_past(&mut self)
        requires
            old(self).wf(),
        ensures
            final(self).wf(),
            final(self).runs() == old(self).runs(),
            final(self).floor() == old(self).floor(),
            final(self).passed(),
    {
        let mut index: usize = 0;
        while index < self.runs.len()
            invariant
                index <= self.runs@.len(),
                self.wf(),
                self.runs() == old(self).runs(),
                self.position == old(self).position,
                forall|i: int|
                    0 <= i < index && self.heads@[i] < self.runs@[i]@.len() ==> (
                    #[trigger] self.runs()[i])[self.heads@[i] as int].end() > self.position,
            decreases self.runs@.len() - index,
        {
            let mut head: usize = self.heads[index];
            let ghost run = self.runs()[index as int];
            assert(run == mappings_view(self.runs@[index as int]@));
            while head < self.runs[index].len() && self.runs[index][head].end() <= self.position
                invariant
                    index < self.runs@.len(),
                    run == mappings_view(self.runs@[index as int]@),
                    self.heads@[index as int] <= head <= self.runs@[index as int]@.len(),
                    forall|k: int| 0 <= k < head ==> (#[trigger] run[k]).end() <= self.position,
                decreases self.runs@[index as int]@.len() - head,
            {
                head += 1;
            }
            let ghost before_set = *self;
            self.heads.set(index, head);
            assert(self.runs() == before_set.runs());
            assert(self.wf()) by {
                assert forall|i: int, k: int|
                    0 <= i < self.runs@.len() && 0 <= k < self.heads@[i] implies (
                #[trigger] self.runs()[i][k]).end() <= self.position by {
                    if i != index {
                        assert(before_set.runs()[i][k].end() <= before_set.position);
                    }
                }
            }
            index += 1;
        }
    }

    /// What is left of each run ends behind the floor.
    closed spec fn passed(&self) -> bool {
        forall|i: int|
            0 <= i < self.runs@.len() && self.heads@[i] < self.runs@[i]@.len() ==> (
            #[trigger] self.runs()[i])[self.heads@[i] as int].end() > self.position
    }

    /// The head of a run, where something is left of the run.
    closed spec fn head(&self, run: int) -> Option<MappingView> {
        if self.heads@[run] < self.runs@[run]@.len() {
            Some(self.runs()[run][self.heads@[run] as int])
        } else {
            None
        }
    }

    /// What a run covers from the floor on starts no earlier than its head.
    proof fn head_bounds(&self, run: int, place: int)
        requires
            self.wf(),
            0 <= run < self.runs@.len(),
            self.position <= place,
            run_covers(self.runs()[run], place),
        ensures
            self.head(run) is Some,
            self.head(run)->0.offset <= place,
    {
        let mappings = self.runs()[run];
        let k = choose|k: int| 0 <= k < mappings.len() && (#[trigger] mappings[k]).covers(place);
        let head = self.heads@[run] as int;
        if k < head {
            assert(self.runs()[run][k].end() <= self.position);
        } else if head < k {
            assert(disjoint(mappings));
            assert(mappings[head].end() <= mappings[k].offset);
            assert(mappings[head].fits());
        }
    }

    /// The heads of the newer runs tell where the first of their mappings behind a place starts.
    proof fn newer_cut(&self, priority: int, start: int, limit: int, end: int)
        requires
            self.wf(),
            0 <= priority <= self.runs@.len(),
            self.position <= start < end <= limit,
            forall|i: int|
                0 <= i < priority && #[trigger] self.head(i) is Some ==> end <= self.head(
                    i,
                )->0.offset,
            end == limit || exists|i: int|
                0 <= i < priority && #[trigger] self.head(i) is Some && self.head(i)->0.offset
                    == end,
        ensures
            is_cut(self.runs().take(priority), start, limit, end),
    {
        let newer = self.runs().take(priority);
        assert forall|i: int, k: int|
            0 <= i < newer.len() && 0 <= k < newer[i].len() && (#[trigger] newer[i][k]).offset
                > start implies end <= newer[i][k].offset by {
            let head = self.heads@[i] as int;
            assert(newer[i] == self.runs()[i]);
            assert(self.runs()[i][k].fits());
            if k < head {
                assert(self.runs()[i][k].end() <= self.position);
            } else {
                assert(self.head(i) is Some);
                if head < k {
                    assert(self.runs()[i][head].end() <= self.runs()[i][k].offset);
                    assert(self.runs()[i][head].fits());
                }
            }
        }
        if end != limit {
            let i = choose|i: int|
                0 <= i < priority && #[trigger] self.head(i) is Some && self.head(i)->0.offset
                    == end;
            assert(newer[i][self.heads@[i] as int].offset == end);
        }
    }

    /// Read the next mapping: the one that the newest run has for the first place that is
    /// stored, as far as no newer run cuts in.
    pub fn next_raw(&mut self) -> (result: Option<ExtentMapping>)
        requires
            old(self).wf(),
        ensures
            final(self).wf(),
            final(self).runs() == old(self).runs(),
            match result {
                None => forall|place: int|
                    old(self).floor() <= place ==> #[trigger] resolve(
                        old(self).runs(),
                        place,
                    ) is None,
                Some(mapping) => {
                    &&& mapping@.fits()
                    &&& old(self).floor() <= mapping@.offset
                    &&& final(self).floor() == mapping@.end()
                    &&& forall|place: int|
                        old(self).floor() <= place < mapping@.offset ==> #[trigger] resolve(
                            old(self).runs(),
                            place,
                        ) is None
                    &&& forall|place: int|
                        mapping@.covers(place) ==> #[trigger] resolve(old(self).runs(), place)
                            == Some(mapping@.at(place))
                    &&& exists|run: int, index: int| #[trigger]
                        is_selected(old(self).runs(), mapping@, run, index)
                },
            },
    {
        self.skip_past();
        let ghost runs = self.runs();
        let ghost floor = self.position;
        // The first place that is stored, and the newest run that stores it.
        let mut found = false;
        let mut start: u64 = 0;
        let mut index: usize = 0;
        while index < self.runs.len()
            invariant
                index <= self.runs@.len(),
                self.wf(),
                self.passed(),
                runs == self.runs(),
                floor == self.position,
                found ==> start >= floor,
                found ==> exists|i: int|
                    0 <= i < index && #[trigger] self.head(i) is Some && self.head(i)->0.offset
                        <= start && (start == floor || self.head(i)->0.offset == start),
                forall|i: int|
                    0 <= i < index && #[trigger] self.head(i) is Some ==> found && (start == floor
                        || start <= self.head(i)->0.offset),
            decreases self.runs@.len() - index,
        {
            let head: usize = self.heads[index];
            if head < self.runs[index].len() {
                let offset: u64 = self.runs[index][head].offset();
                let candidate: u64 = if offset < self.position {
                    self.position
                } else {
                    offset
                };
                assert(runs[index as int] == mappings_view(self.runs@[index as int]@));
                assert(self.head(index as int) is Some);
                if !found || candidate < start {
                    start = candidate;
                    found = true;
                }
            }
            index += 1;
        }
        if !found {
            proof {
                assert forall|place: int| floor <= place implies #[trigger] resolve(
                    runs,
                    place,
                ) is None by {
                    assert forall|i: int| 0 <= i < runs.len() implies !run_covers(
                        #[trigger] runs[i],
                        place,
                    ) by {
                        if run_covers(runs[i], place) {
                            self.head_bounds(i, place);
                        }
                    }
                    resolve_none(runs, place);
                }
            }
            return None;
        }
        // No run stores anything between the floor and the start.
        proof {
            assert forall|place: int| floor <= place < start implies #[trigger] resolve(
                runs,
                place,
            ) is None by {
                assert forall|i: int| 0 <= i < runs.len() implies !run_covers(
                    #[trigger] runs[i],
                    place,
                ) by {
                    if run_covers(runs[i], place) {
                        self.head_bounds(i, place);
                    }
                }
                resolve_none(runs, place);
            }
        }
        let mut end: u64 = u64::MAX;
        let mut priority: usize = 0;
        while priority < self.runs.len() && !self.stores(priority, start)
            invariant
                priority <= self.runs@.len(),
                self.wf(),
                self.passed(),
                runs == self.runs(),
                floor == self.position,
                start >= floor,
                start < end,
                exists|i: int|
                    priority <= i < self.runs@.len() && #[trigger] self.head(i) is Some
                        && self.head(i)->0.offset <= start && (start == floor || self.head(
                        i,
                    )->0.offset == start),
                forall|i: int|
                    0 <= i < self.runs@.len() && #[trigger] self.head(i) is Some ==> (start == floor
                        || start <= self.head(i)->0.offset),
                forall|i: int|
                    0 <= i < priority && #[trigger] self.head(i) is Some ==> end <= self.head(
                        i,
                    )->0.offset,
                end < u64::MAX ==> exists|i: int|
                    0 <= i < priority && #[trigger] self.head(i) is Some && self.head(i)->0.offset
                        == end,
                forall|i: int| 0 <= i < priority ==> !run_covers(#[trigger] runs[i], start as int),
            decreases self.runs@.len() - priority,
        {
            let head: usize = self.heads[priority];
            assert(runs[priority as int] == mappings_view(self.runs@[priority as int]@));
            proof {
                if run_covers(runs[priority as int], start as int) {
                    self.head_bounds(priority as int, start as int);
                }
            }
            if head < self.runs[priority].len() {
                let offset: u64 = self.runs[priority][head].offset();
                assert(self.head(priority as int) is Some);
                assert(runs[priority as int][head as int].fits());
                if offset < end {
                    end = offset;
                }
            }
            priority += 1;
        }
        let head: usize = self.heads[priority];
        assert(runs[priority as int] == mappings_view(self.runs@[priority as int]@));
        let ghost chosen = runs[priority as int][head as int];
        let chosen_end: u64 = self.runs[priority][head].end();
        if chosen_end < end {
            end = chosen_end;
        }
        let mapping = self.runs[priority][head].slice(start, end);
        proof {
            self.newer_cut(priority as int, start as int, chosen.end(), end as int);
            assert(is_selected(runs, mapping@, priority as int, head as int));
        }
        let ghost before_move = *self;
        self.position = end;
        proof {
            assert forall|place: int| mapping@.covers(place) implies #[trigger] resolve(runs, place)
                == Some(mapping@.at(place)) by {
                assert forall|i: int| 0 <= i < priority implies !run_covers(
                    #[trigger] runs[i],
                    place,
                ) by {
                    if run_covers(runs[i], place) {
                        before_move.head_bounds(i, place);
                    }
                }
                assert(chosen.covers(place));
                run_at_mapping(runs[priority as int], head as int, place);
                resolve_first(runs, priority as int, place);
            }
            assert(self.runs() == before_move.runs());
            assert(self.wf()) by {
                assert forall|i: int, k: int|
                    0 <= i < self.runs@.len() && 0 <= k < self.heads@[i] implies (
                #[trigger] self.runs()[i][k]).end() <= self.position by {
                    assert(before_move.runs()[i][k].end() <= before_move.position);
                }
            }
        }
        Some(mapping)
    }

    /// Whether the head of a run covers a place.
    fn stores(&self, run: usize, place: u64) -> (result: bool)
        requires
            self.wf(),
            self.passed(),
            run < self.runs@.len(),
            place >= self.position,
        ensures
            result == (self.head(run as int) is Some && self.head(run as int)->0.covers(
                place as int,
            )),
    {
        let head: usize = self.heads[run];
        assert(self.runs()[run as int] == mappings_view(self.runs@[run as int]@));
        if head < self.runs[run].len() {
            let mapping = &self.runs[run][head];
            mapping.offset() <= place && place < mapping.end()
        } else {
            false
        }
    }
}

// What mappings promise.

/// A mapping is accepted exactly if it is not empty and its bytes lie within its extent; it maps
/// the given range from the given offset on, byte by byte.
pub proof fn a_mapping_lies_within_its_extent(
    range: FileRange,
    extent_offset: u64,
    extent: ExtentRef,
    result: Result<ExtentMapping, Error>,
    place: int,
)
    requires
        call_ensures(ExtentMapping::new, (range, extent_offset, extent), result),
        range.size() > 0,
        range.start() + range.size() <= u64::MAX,
    ensures
        result is Ok <==> extent_offset + range.size() <= extent@.content().length,
        result matches Ok(mapping) ==> {
            &&& mapping@.covers(place) <==> range.start() <= place < range.start() + range.size()
            &&& mapping@.at(place) == (extent@, extent_offset + (place - range.start()))
        },
{
}

/// The mapping of a whole extent stands for its first byte where it begins, and for its last
/// one where it ends.
pub proof fn a_complete_mapping_is_the_whole_extent(
    file_offset: u64,
    extent: ExtentRef,
    result: Result<ExtentMapping, Error>,
)
    requires
        call_ensures(ExtentMapping::complete, (file_offset, extent), result),
    ensures
        result is Ok <==> extent@.content().length > 0 && file_offset + extent@.content().length
            <= u64::MAX,
        result matches Ok(mapping) ==> {
            let length = extent@.content().length as int;
            &&& mapping@.at(file_offset as int) == (extent@, 0int)
            &&& mapping@.at(file_offset + length - 1) == (extent@, length - 1)
            &&& mapping@.covers(file_offset as int)
            &&& mapping@.covers(file_offset + length - 1)
            &&& !mapping@.covers(file_offset - 1)
            &&& !mapping@.covers(file_offset + length)
        },
{
}

/// A part of a mapping says of its places what the mapping says of them, and of no other.
pub proof fn a_slice_keeps_its_bytes(
    mapping: &ExtentMapping,
    start: u64,
    end: u64,
    part: ExtentMapping,
    place: int,
)
    requires
        mapping@.offset <= start < end <= mapping@.end(),
        mapping@.fits(),
        call_ensures(ExtentMapping::slice, (mapping, start, end), part),
    ensures
        part@.covers(place) <==> start <= place < end,
        part@.at(place) == mapping@.at(place),
{
}

/// Two mappings that are joined say of every place what they said apart, and they are joined
/// exactly if the bytes go on in the file and in the same extent; otherwise they come back as
/// they were.
pub proof fn joined_mappings_keep_their_bytes(
    left: ExtentMapping,
    right: ExtentMapping,
    result: Result<ExtentMapping, (ExtentMapping, ExtentMapping)>,
    place: int,
)
    requires
        call_ensures(coalesce_file_extents, (left, right), result),
        left@.fits(),
        right@.fits(),
    ensures
        result is Ok <==> right@.offset == left@.offset + left@.length && right@.at(
            right@.offset as int,
        ) == left@.at(right@.offset as int),
        result matches Ok(joined) ==> {
            &&& joined@.covers(place) <==> left@.covers(place) || right@.covers(place)
            &&& left@.covers(place) ==> joined@.at(place) == left@.at(place)
            &&& right@.covers(place) ==> joined@.at(place) == right@.at(place)
        },
        result matches Err((first, second)) ==> first@ == left@ && second@ == right@,
{
}

/// The bytes of a mapping stand in its extent as they do in the file, one behind the other.
pub proof fn mapped_bytes_stand_in_a_row(mapping: MappingView, place: int)
    requires
        mapping.fits(),
        mapping.covers(place),
    ensures
        ({
            let (extent, here) = mapping.at(place);
            let (next_extent, next) = mapping.at(place + 1);
            &&& extent == mapping.extent
            &&& next_extent == extent
            &&& next == here + 1
            &&& 0 <= here < mapping.extent.content().length
            &&& mapping.at(mapping.offset as int) == (extent, mapping.extent_offset as int)
        }),
{
}

} // verus!
