//! Namespaces: path-ordered records of nodes, and the changes between two of them.

use vstd::prelude::*;

use crate::error::{corrupt, Error, Fault};
use crate::filesystem::ContentId;
use crate::identity::{FileVersionId, NodeId, VolumeId};
use crate::layers::{FileExtentMap, MapView};
use crate::model::ChangeCursor;
use crate::order::{before, before_irreflexive, Ranked};
use crate::ordered::{
    item_key, item_keys, join_from, join_is_complete, join_keys_increase, joins, keys_increase,
    keys_ordered, ordered_join, ranks, JoinItem,
};
use crate::path::{path_fault, validate_portable_path};
use crate::text::{same_text, text_precedes, text_rank, text_rank_is_injective};

verus! {

#[derive(Clone, Copy, Debug, PartialEq, Eq, Structural)]
pub enum NodeKind {
    Directory,
    RegularFile,
}

#[derive(Clone, Copy, Debug, PartialEq, Eq, Structural)]
pub struct NodeAttributes {
    pub executable: bool,
}

#[verifier::ext_equal]
pub ghost enum ValueView {
    Directory { generation: u64 },
    RegularFile { version: FileVersionId, content: ContentId, data: MapView },
}

#[verifier::ext_equal]
pub ghost struct MemberView {
    pub node_id: NodeId,
    pub generation: u64,
    pub attributes: NodeAttributes,
    pub value: ValueView,
}

impl MemberView {
    pub open spec fn kind(self) -> NodeKind {
        match self.value {
            ValueView::Directory { generation } => NodeKind::Directory,
            ValueView::RegularFile { version, content, data } => NodeKind::RegularFile,
        }
    }

    /// The version of a file.
    pub open spec fn version(self) -> Option<FileVersionId> {
        match self.value {
            ValueView::Directory { generation } => None,
            ValueView::RegularFile { version, content, data } => Some(version),
        }
    }
}

/// What a node is.
#[derive(Debug)]
pub enum NamespaceValue {
    Directory { generation: u64 },
    RegularFile { version: FileVersionId, content: ContentId, data: FileExtentMap },
}

impl NamespaceValue {
    pub open spec fn view(&self) -> ValueView {
        match *self {
            NamespaceValue::Directory { generation } => ValueView::Directory { generation },
            NamespaceValue::RegularFile { version, content, data } => ValueView::RegularFile {
                version,
                content,
                data: data@,
            },
        }
    }

    pub fn same(&self, other: &Self) -> (result: bool)
        ensures
            result == (self@ == other@),
    {
        match (self, other) {
            (
                NamespaceValue::Directory { generation: left },
                NamespaceValue::Directory { generation: right },
            ) => *left == *right,
            (
                NamespaceValue::RegularFile { version: v1, content: c1, data: d1 },
                NamespaceValue::RegularFile { version: v2, content: c2, data: d2 },
            ) => *v1 == *v2 && *c1 == *c2 && d1.same(d2),
            _ => false,
        }
    }
}

impl Clone for NamespaceValue {
    fn clone(&self) -> (result: Self)
        ensures
            result@ == self@,
    {
        match self {
            NamespaceValue::Directory { generation } => NamespaceValue::Directory {
                generation: *generation,
            },
            NamespaceValue::RegularFile {
                version,
                content,
                data,
            } => NamespaceValue::RegularFile {
                version: *version,
                content: *content,
                data: data.clone(),
            },
        }
    }
}

/// One node of a namespace.
#[derive(Debug)]
pub struct NamespaceNode {
    pub node_id: NodeId,
    pub generation: u64,
    pub attributes: NodeAttributes,
    pub value: NamespaceValue,
}

impl NamespaceNode {
    pub open spec fn view(&self) -> MemberView {
        MemberView {
            node_id: self.node_id,
            generation: self.generation,
            attributes: self.attributes,
            value: self.value@,
        }
    }

    pub fn kind(&self) -> (kind: NodeKind)
        ensures
            kind == self@.kind(),
    {
        match &self.value {
            NamespaceValue::Directory { .. } => NodeKind::Directory,
            NamespaceValue::RegularFile { .. } => NodeKind::RegularFile,
        }
    }

    /// The version, content and data of a file.
    pub fn file(&self) -> (file: Option<(FileVersionId, ContentId, &FileExtentMap)>)
        ensures
            match file {
                Some((version, content, data)) => self@.value == (ValueView::RegularFile {
                    version,
                    content,
                    data: data@,
                }),
                None => self@.value is Directory,
            },
    {
        match &self.value {
            NamespaceValue::Directory { .. } => None,
            NamespaceValue::RegularFile { version, content, data } => Some(
                (*version, *content, data),
            ),
        }
    }

    pub fn same(&self, other: &Self) -> (result: bool)
        ensures
            result == (self@ == other@),
    {
        self.node_id == other.node_id && self.generation == other.generation && self.attributes
            == other.attributes && self.value.same(&other.value)
    }
}

impl Clone for NamespaceNode {
    fn clone(&self) -> (result: Self)
        ensures
            result@ == self@,
    {
        NamespaceNode {
            node_id: self.node_id,
            generation: self.generation,
            attributes: self.attributes,
            value: self.value.clone(),
        }
    }
}

pub open spec fn member_view(node: Option<NamespaceNode>) -> Option<MemberView> {
    match node {
        Some(node) => Some(node@),
        None => None,
    }
}

pub fn same_member(left: &Option<NamespaceNode>, right: &Option<NamespaceNode>) -> (result: bool)
    ensures
        result == (member_view(*left) == member_view(*right)),
{
    match (left, right) {
        (Some(left), Some(right)) => left.same(right),
        (None, None) => true,
        _ => false,
    }
}

pub fn clone_member(node: &Option<NamespaceNode>) -> (result: Option<NamespaceNode>)
    ensures
        member_view(result) == member_view(*node),
{
    match node {
        Some(node) => Some(node.clone()),
        None => None,
    }
}

#[verifier::ext_equal]
pub ghost struct RecordView {
    pub path: Seq<char>,
    pub value: Option<MemberView>,
}

/// What stands at a path; no value stands for a deletion.
#[derive(Debug)]
pub struct NamespaceRecord {
    pub path: String,
    pub value: Option<NamespaceNode>,
}

impl NamespaceRecord {
    pub open spec fn view(&self) -> RecordView {
        RecordView { path: self.path@, value: member_view(self.value) }
    }
}

impl Clone for NamespaceRecord {
    fn clone(&self) -> (result: Self)
        ensures
            result@ == self@,
    {
        NamespaceRecord { path: self.path.clone(), value: clone_member(&self.value) }
    }
}

impl Ranked for NamespaceRecord {
    open spec fn rank(&self) -> Seq<int> {
        text_rank(self@.path)
    }

    fn precedes(&self, other: &Self) -> (result: bool) {
        text_precedes(self.path.as_str(), other.path.as_str())
    }
}

pub open spec fn records_view(records: Seq<NamespaceRecord>) -> Seq<RecordView> {
    Seq::new(records.len(), |i: int| records[i]@)
}

pub open spec fn path_ranks(records: Seq<RecordView>) -> Seq<Seq<int>> {
    Seq::new(records.len(), |i: int| text_rank(records[i].path))
}

/// The records stand in the order of their paths, and no path occurs twice.
pub open spec fn increasing(records: Seq<RecordView>) -> bool {
    forall|i: int, j: int|
        0 <= i < j < records.len() ==> before(
            text_rank((#[trigger] records[i]).path),
            text_rank((#[trigger] records[j]).path),
        )
}

pub open spec fn has_path(records: Seq<RecordView>, path: Seq<char>) -> bool {
    exists|i: int| 0 <= i < records.len() && (#[trigger] records[i]).path == path
}

/// The record of a path.
pub open spec fn find(records: Seq<RecordView>, path: Seq<char>) -> Option<RecordView> {
    if has_path(records, path) {
        Some(records[choose|i: int| 0 <= i < records.len() && (#[trigger] records[i]).path == path])
    } else {
        None
    }
}

/// The node at a path.
pub open spec fn value_at(records: Seq<RecordView>, path: Seq<char>) -> Option<MemberView> {
    match find(records, path) {
        Some(record) => record.value,
        None => None,
    }
}

/// Where paths increase, a path has one record.
pub proof fn find_at(records: Seq<RecordView>, place: int)
    requires
        increasing(records),
        0 <= place < records.len(),
    ensures
        find(records, records[place].path) == Some(records[place]),
{
    let path = records[place].path;
    let found = choose|i: int| 0 <= i < records.len() && (#[trigger] records[i]).path == path;
    before_irreflexive(text_rank(path));
    if found < place {
        assert(before(text_rank(records[found].path), text_rank(records[place].path)));
    } else if place < found {
        assert(before(text_rank(records[place].path), text_rank(records[found].path)));
    }
}

/// The place of a record that was found.
pub proof fn found_at(records: Seq<RecordView>, path: Seq<char>) -> (place: int)
    requires
        has_path(records, path),
    ensures
        0 <= place < records.len(),
        records[place].path == path,
        find(records, path) == Some(records[place]),
{
    choose|i: int| 0 <= i < records.len() && (#[trigger] records[i]).path == path
}

/// The record with the path of a given one, among records in path order.
pub fn find_record<'a>(records: &'a Vec<NamespaceRecord>, probe: &NamespaceRecord) -> (found:
    Option<&'a NamespaceRecord>)
    requires
        increasing(records_view(records@)),
    ensures
        match found {
            Some(record) => find(records_view(records@), probe@.path) == Some(record@),
            None => find(records_view(records@), probe@.path) is None,
        },
{
    let ghost views = records_view(records@);
    proof {
        assert forall|i: int, j: int| 0 <= i < j < records@.len() implies #[trigger]
            crate::order::not_after(records@[i].rank(), #[trigger] records@[j].rank()) by {
            assert(before(text_rank(views[i].path), text_rank(views[j].path)));
            crate::order::before_asymmetric(records@[i].rank(), records@[j].rank());
        }
    }
    let place: usize = crate::order::lower_bound(records, probe);
    if place < records.len() && same_text(
        records[place].path.as_str(),
        probe.path.as_str(),
    ) {
        proof {
            assert(views[place as int] == records@[place as int]@);
            find_at(views, place as int);
        }
        return Some(&records[place]);
    }
    proof {
        if has_path(views, probe@.path) {
            let k = found_at(views, probe@.path);
            assert(views[k] == records@[k]@);
            before_irreflexive(probe.rank());
            assert(records@[k].rank() == probe.rank());
            assert(place <= k);
            if place < k {
                assert(before(text_rank(views[place as int].path), text_rank(views[k].path)));
                assert(!before(records@[place as int].rank(), probe.rank()));
            }
        }
    }
    None
}

/// What is wrong with the records of a namespace that are read in order.
pub open spec fn records_fault(records: Seq<RecordView>) -> Option<Fault>
    decreases records.len(),
{
    if records.len() == 0 {
        None
    } else if records_fault(records.drop_last()) is Some {
        records_fault(records.drop_last())
    } else if path_fault(records.last().path) is Some {
        path_fault(records.last().path)
    } else if records.len() > 1 && !before(
        text_rank(records[records.len() - 2].path),
        text_rank(records.last().path),
    ) {
        Some(corrupt("read filesystem namespace", "namespace paths are not strictly ordered"))
    } else {
        None
    }
}

/// Records without a fault increase and have portable paths.
pub proof fn sound_records(records: Seq<RecordView>)
    requires
        records_fault(records) is None,
    ensures
        increasing(records),
        forall|i: int| 0 <= i < records.len() ==> path_fault((#[trigger] records[i]).path) is None,
    decreases records.len(),
{
    if records.len() > 0 {
        let front = records.drop_last();
        sound_records(front);
        let last = records.len() - 1;
        assert forall|i: int, j: int| 0 <= i < j < records.len() implies before(
            text_rank((#[trigger] records[i]).path),
            text_rank((#[trigger] records[j]).path),
        ) by {
            if j < last {
                assert(before(text_rank(front[i].path), text_rank(front[j].path)));
            } else if i < last - 1 {
                let prior = last - 1;
                assert(before(text_rank(front[i].path), text_rank(front[prior].path)));
                crate::order::before_transitive(
                    text_rank(records[i].path),
                    text_rank(records[prior].path),
                    text_rank(records[last].path),
                );
            }
        }
        assert forall|i: int| 0 <= i < records.len() implies path_fault(
            (#[trigger] records[i]).path,
        ) is None by {
            if i < last {
                assert(front[i] == records[i]);
            }
        }
    }
}

/// Check the records of a namespace.
pub fn check_records(records: &Vec<NamespaceRecord>) -> (result: Result<(), Error>)
    ensures
        match result {
            Ok(()) => records_fault(records_view(records@)) is None,
            Err(error) => records_fault(records_view(records@)) == Some(error.fault()),
        },
{
    let ghost views = records_view(records@);
    let mut index: usize = 0;
    while index < records.len()
        invariant
            views == records_view(records@),
            index <= records@.len(),
            records_fault(views.take(index as int)) is None,
        decreases records@.len() - index,
    {
        let ghost now = views.take(index + 1);
        proof {
            assert(now.drop_last() =~= views.take(index as int));
            assert(now.last() == records@[index as int]@);
            if index > 0 {
                assert(now[now.len() - 2] == records@[index - 1]@);
            }
        }
        match validate_portable_path(records[index].path.as_str()) {
            Ok(()) => {},
            Err(error) => {
                proof {
                    first_fault(views, index + 1);
                }
                return Err(error);
            },
        }
        if index > 0 && !records[index - 1].precedes(&records[index]) {
            proof {
                first_fault(views, index + 1);
            }
            return Err(
                Error::corrupt(
                    "read filesystem namespace",
                    "namespace paths are not strictly ordered",
                ),
            );
        }
        index += 1;
    }
    assert(views.take(index as int) =~= views);
    Ok(())
}

/// The first fault is the fault of all.
proof fn first_fault(records: Seq<RecordView>, count: int)
    requires
        0 <= count <= records.len(),
        records_fault(records.take(count)) is Some,
    ensures
        records_fault(records) == records_fault(records.take(count)),
    decreases records.len() - count,
{
    if count == records.len() {
        assert(records.take(count) =~= records);
    } else {
        assert(records.take(count + 1).drop_last() =~= records.take(count));
        first_fault(records, count + 1);
    }
}

pub ghost struct NamespaceView {
    pub volume_id: VolumeId,
    pub cursor: ChangeCursor,
    pub root: NodeId,
    pub records: Seq<RecordView>,
}

/// Ordered namespace projection shared by an authority and its replicas.
#[derive(Debug)]
pub struct Namespace {
    volume_id: VolumeId,
    cursor: ChangeCursor,
    root: NodeId,
    entries: Vec<NamespaceRecord>,
}

impl Namespace {
    pub closed spec fn view(&self) -> NamespaceView {
        NamespaceView {
            volume_id: self.volume_id,
            cursor: self.cursor,
            root: self.root,
            records: records_view(self.entries@),
        }
    }

    #[verifier::type_invariant]
    spec fn is_sound(self) -> bool {
        records_fault(self@.records) is None
    }

    pub fn new(
        volume_id: VolumeId,
        cursor: ChangeCursor,
        root: NodeId,
        entries: Vec<NamespaceRecord>,
    ) -> (result: Result<Self, Error>)
        ensures
            match result {
                Ok(namespace) => {
                    &&& records_fault(records_view(entries@)) is None
                    &&& namespace@ == (NamespaceView {
                        volume_id,
                        cursor,
                        root,
                        records: records_view(entries@),
                    })
                },
                Err(error) => records_fault(records_view(entries@)) == Some(error.fault()),
            },
    {
        match check_records(&entries) {
            Ok(()) => Ok(Namespace { volume_id, cursor, root, entries }),
            Err(error) => Err(error),
        }
    }

    pub fn volume_id(&self) -> (volume_id: VolumeId)
        ensures
            volume_id == self@.volume_id,
    {
        self.volume_id
    }

    pub fn cursor(&self) -> (cursor: ChangeCursor)
        ensures
            cursor == self@.cursor,
    {
        self.cursor
    }

    pub fn root(&self) -> (root: NodeId)
        ensures
            root == self@.root,
    {
        self.root
    }

    /// The records, in the order of their paths.
    pub fn records(&self) -> (records: &Vec<NamespaceRecord>)
        ensures
            records_view(records@) == self@.records,
            records_fault(self@.records) is None,
            increasing(self@.records),
    {
        proof {
            use_type_invariant(self);
            sound_records(self@.records);
        }
        &self.entries
    }
}

impl Clone for Namespace {
    fn clone(&self) -> (result: Self)
        ensures
            result@ == self@,
    {
        proof {
            use_type_invariant(self);
        }
        let mut entries: Vec<NamespaceRecord> = Vec::new();
        let mut index: usize = 0;
        while index < self.entries.len()
            invariant
                index <= self.entries@.len(),
                entries@.len() == index,
                forall|i: int| 0 <= i < index ==> (#[trigger] entries@[i])@ == self.entries@[i]@,
            decreases self.entries@.len() - index,
        {
            entries.push(self.entries[index].clone());
            index += 1;
        }
        assert(records_view(entries@) =~= records_view(self.entries@));
        Namespace { volume_id: self.volume_id, cursor: self.cursor, root: self.root, entries }
    }
}

/// The change that one result of the join of two namespaces stands for.
pub open spec fn change_of(
    previous: Seq<RecordView>,
    target: Seq<RecordView>,
    item: JoinItem,
) -> Option<RecordView> {
    match item {
        JoinItem::Left(i) => Some(RecordView { path: previous[i as int].path, value: None }),
        JoinItem::Right(j) => Some(target[j as int]),
        JoinItem::Match(i, j) => if previous[i as int].value == target[j as int].value {
            None
        } else {
            Some(target[j as int])
        },
    }
}

pub open spec fn changes_of(
    previous: Seq<RecordView>,
    target: Seq<RecordView>,
    items: Seq<JoinItem>,
) -> Seq<RecordView>
    decreases items.len(),
{
    if items.len() == 0 {
        Seq::empty()
    } else {
        let rest = changes_of(previous, target, items.drop_last());
        match change_of(previous, target, items.last()) {
            Some(record) => rest.push(record),
            None => rest,
        }
    }
}

/// The changes that lead from one namespace to another: a deletion for each path that is
/// gone, and the record of each path that is new or has another node.
pub open spec fn delta_of(previous: Seq<RecordView>, target: Seq<RecordView>) -> Seq<RecordView> {
    changes_of(
        previous,
        target,
        join_from(path_ranks(previous), path_ranks(target), 0, 0, false),
    )
}

/// Plan the changes that lead from one namespace to another; nothing if there is none.
pub fn plan_delta(previous: &Namespace, target: &Namespace) -> (result: Option<
    Vec<NamespaceRecord>,
>)
    ensures
        ({
            let delta = delta_of(previous@.records, target@.records);
            match result {
                Some(records) => delta.len() > 0 && records_view(records@) == delta,
                None => delta.len() == 0,
            }
        }),
{
    let old_records = previous.records();
    let new_records = target.records();
    let ghost left = previous@.records;
    let ghost right = target@.records;
    let items = ordered_join(old_records, new_records);
    let old_count: usize = old_records.len();
    let new_count: usize = new_records.len();
    proof {
        assert(ranks(old_records@) =~= path_ranks(left));
        assert(ranks(new_records@) =~= path_ranks(right));
    }
    let mut records: Vec<NamespaceRecord> = Vec::new();
    let mut index: usize = 0;
    assert(items@.take(0) =~= Seq::empty());
    assert(records_view(records@) =~= changes_of(left, right, items@.take(0)));
    while index < items.len()
        invariant
            left == records_view(old_records@),
            right == records_view(new_records@),
            left.len() == old_count,
            right.len() == new_count,
            increasing(left),
            increasing(right),
            items@ == join_from(path_ranks(left), path_ranks(right), 0, 0, false),
            index <= items@.len(),
            records_view(records@) == changes_of(left, right, items@.take(index as int)),
        decreases items@.len() - index,
    {
        let ghost so_far = records_view(records@);
        proof {
            assert(items@.take(index + 1).drop_last() =~= items@.take(index as int));
            ranks_increase(left);
            ranks_increase(right);
            assert(items@.contains(items@[index as int]));
            join_is_complete(path_ranks(left), path_ranks(right), items@[index as int]);
        }
        match items[index] {
            JoinItem::Left(i) => {
                records.push(NamespaceRecord { path: old_records[i].path.clone(), value: None });
            },
            JoinItem::Right(j) => {
                records.push(new_records[j].clone());
            },
            JoinItem::Match(i, j) => {
                if !same_member(&old_records[i].value, &new_records[j].value) {
                    records.push(new_records[j].clone());
                }
            },
        }
        proof {
            match change_of(left, right, items@[index as int]) {
                Some(record) => {
                    assert(records_view(records@) =~= so_far.push(record));
                },
                None => {
                    assert(records_view(records@) =~= so_far);
                },
            }
        }
        index += 1;
    }
    assert(items@.take(index as int) =~= items@);
    if records.len() == 0 {
        None
    } else {
        Some(records)
    }
}

pub proof fn ranks_increase(records: Seq<RecordView>)
    requires
        increasing(records),
    ensures
        keys_increase(path_ranks(records)),
        keys_ordered(path_ranks(records)),
{
    let keys = path_ranks(records);
    assert forall|i: int, j: int| 0 <= i < j < keys.len() implies #[trigger] before(
        keys[i],
        #[trigger] keys[j],
    ) by {
        assert(before(text_rank(records[i].path), text_rank(records[j].path)));
    }
    assert forall|i: int, j: int| 0 <= i < j < keys.len() implies #[trigger] crate::order::not_after(
        keys[i],
        #[trigger] keys[j],
    ) by {
        assert(before(keys[i], keys[j]));
        crate::order::before_asymmetric(keys[i], keys[j]);
    }
}

/// What the changes of a list of join results hold.
proof fn changes_hold(
    previous: Seq<RecordView>,
    target: Seq<RecordView>,
    items: Seq<JoinItem>,
    record: RecordView,
)
    ensures
        changes_of(previous, target, items).contains(record) <==> exists|n: int|
            0 <= n < items.len() && change_of(previous, target, #[trigger] items[n]) == Some(
                record,
            ),
    decreases items.len(),
{
    if items.len() > 0 {
        let front = items.drop_last();
        changes_hold(previous, target, front, record);
        let rest = changes_of(previous, target, front);
        let all = changes_of(previous, target, items);
        let last = items.len() - 1;
        match change_of(previous, target, items.last()) {
            Some(change) => {
                assert(all == rest.push(change));
                if rest.contains(record) {
                    let k = choose|k: int| 0 <= k < rest.len() && rest[k] == record;
                    assert(all[k] == record);
                    let n = choose|n: int|
                        0 <= n < front.len() && change_of(previous, target, #[trigger] front[n])
                            == Some(record);
                    assert(items[n] == front[n]);
                }
                if change == record {
                    assert(all[rest.len() as int] == record);
                    assert(change_of(previous, target, items[last]) == Some(record));
                }
                if all.contains(record) {
                    let k = choose|k: int| 0 <= k < all.len() && all[k] == record;
                    if k < rest.len() {
                        assert(rest[k] == record);
                    }
                }
            },
            None => {},
        }
        if exists|n: int|
            0 <= n < items.len() && change_of(previous, target, #[trigger] items[n]) == Some(
                record,
            ) {
            let n = choose|n: int|
                0 <= n < items.len() && change_of(previous, target, #[trigger] items[n]) == Some(
                    record,
                );
            if n < last {
                assert(front[n] == items[n]);
            }
        }
        if rest.contains(record) {
            let n = choose|n: int|
                0 <= n < front.len() && change_of(previous, target, #[trigger] front[n]) == Some(
                    record,
                );
            assert(items[n] == front[n]);
        }
    }
}

/// The path of a change is that of its join result.
proof fn change_path(previous: Seq<RecordView>, target: Seq<RecordView>, item: JoinItem)
    requires
        joins(path_ranks(previous), path_ranks(target), 0, 0, false, item),
        change_of(previous, target, item) is Some,
    ensures
        text_rank(change_of(previous, target, item)->0.path) == item_key(
            path_ranks(previous),
            path_ranks(target),
            item,
        ),
{
}

proof fn changes_increase(previous: Seq<RecordView>, target: Seq<RecordView>, items: Seq<JoinItem>)
    requires
        keys_increase(item_keys(path_ranks(previous), path_ranks(target), items)),
        forall|n: int|
            0 <= n < items.len() ==> joins(
                path_ranks(previous),
                path_ranks(target),
                0,
                0,
                false,
                #[trigger] items[n],
            ),
    ensures
        increasing(changes_of(previous, target, items)),
        items.len() > 0 && changes_of(previous, target, items).len() > 0 ==> {
            let keys = item_keys(path_ranks(previous), path_ranks(target), items);
            let last = text_rank(changes_of(previous, target, items).last().path);
            last == keys.last() || before(last, keys.last())
        },
        items.len() == 0 ==> changes_of(previous, target, items).len() == 0,
    decreases items.len(),
{
    let keys = item_keys(path_ranks(previous), path_ranks(target), items);
    if items.len() > 0 {
        let front = items.drop_last();
        let fewer = item_keys(path_ranks(previous), path_ranks(target), front);
        assert forall|i: int, j: int| 0 <= i < j < fewer.len() implies #[trigger] before(
            fewer[i],
            #[trigger] fewer[j],
        ) by {
            assert(before(keys[i], keys[j]));
        }
        assert forall|n: int| 0 <= n < front.len() implies joins(
            path_ranks(previous),
            path_ranks(target),
            0,
            0,
            false,
            #[trigger] front[n],
        ) by {
            assert(items[n] == front[n]);
        }
        changes_increase(previous, target, front);
        let rest = changes_of(previous, target, front);
        let last = items.len() - 1;
        if rest.len() > 0 {
            let prior = front.len() - 1;
            assert(before(keys[prior], keys[last]));
            assert(fewer[prior] == keys[prior]);
            let tip = text_rank(rest.last().path);
            if tip != keys[prior] {
                crate::order::before_transitive(tip, keys[prior], keys[last]);
            }
            assert(before(tip, keys[last]));
        }
        match change_of(previous, target, items.last()) {
            Some(change) => {
                assert(items[last] == items.last());
                change_path(previous, target, items.last());
                let all = rest.push(change);
                assert forall|i: int, j: int| 0 <= i < j < all.len() implies before(
                    text_rank((#[trigger] all[i]).path),
                    text_rank((#[trigger] all[j]).path),
                ) by {
                    if j < rest.len() {
                        assert(before(text_rank(rest[i].path), text_rank(rest[j].path)));
                    } else if i < rest.len() - 1 {
                        let tip = rest.len() - 1;
                        assert(before(text_rank(rest[i].path), text_rank(rest[tip].path)));
                        crate::order::before_transitive(
                            text_rank(rest[i].path),
                            text_rank(rest[tip].path),
                            keys[last],
                        );
                    }
                }
            },
            None => {},
        }
    }
}

/// The changes between two namespaces, laid over the first, give the second: a path has the
/// node of its change where there is one, and else the node that it had. The changes stand
/// in the order of their paths.
pub proof fn delta_leads_to_target(
    previous: Seq<RecordView>,
    target: Seq<RecordView>,
    path: Seq<char>,
)
    requires
        increasing(previous),
        increasing(target),
        previous.len() <= usize::MAX,
        target.len() <= usize::MAX,
    ensures
        increasing(delta_of(previous, target)),
        value_at(target, path) == (match find(delta_of(previous, target), path) {
            Some(change) => change.value,
            None => value_at(previous, path),
        }),
{
    let left = path_ranks(previous);
    let right = path_ranks(target);
    let items = join_from(left, right, 0, 0, false);
    let delta = delta_of(previous, target);
    ranks_increase(previous);
    ranks_increase(target);
    join_keys_increase(left, right);
    assert forall|n: int| 0 <= n < items.len() implies joins(
        left,
        right,
        0,
        0,
        false,
        #[trigger] items[n],
    ) by {
        assert(items.contains(items[n]));
        join_is_complete(left, right, items[n]);
    }
    changes_increase(previous, target, items);
    if has_path(delta, path) {
        let place = found_at(delta, path);
        let change = delta[place];
        assert(delta.contains(change));
        changes_hold(previous, target, items, change);
        let n = choose|n: int|
            0 <= n < items.len() && change_of(previous, target, #[trigger] items[n]) == Some(
                change,
            );
        match items[n] {
            JoinItem::Left(a) => {
                if has_path(target, path) {
                    let b = found_at(target, path);
                    assert(right[b] == left[a as int]);
                    assert(crate::ordered::has_key_from(right, left[a as int], 0));
                }
            },
            JoinItem::Right(b) => {
                find_at(target, b as int);
            },
            JoinItem::Match(a, b) => {
                find_at(target, b as int);
            },
        }
    } else if has_path(target, path) {
        let b = found_at(target, path);
        if has_path(previous, path) {
            let a = found_at(previous, path);
            let item = JoinItem::Match(a as usize, b as usize);
            join_is_complete(left, right, item);
            if previous[a].value != target[b].value {
                let n = choose|n: int| 0 <= n < items.len() && items[n] == item;
                assert(change_of(previous, target, items[n]) == Some(target[b]));
                changes_hold(previous, target, items, target[b]);
                let k = choose|k: int| 0 <= k < delta.len() && delta[k] == target[b];
                assert(delta[k].path == path);
            }
        } else {
            let item = JoinItem::Right(b as usize);
            if crate::ordered::has_key_from(left, right[b], 0) {
                let a = choose|a: int| 0 <= a < left.len() && #[trigger] left[a] == right[b];
                text_rank_is_injective(previous[a].path, target[b].path);
                assert(previous[a].path == path);
            }
            join_is_complete(left, right, item);
            let n = choose|n: int| 0 <= n < items.len() && items[n] == item;
            assert(change_of(previous, target, items[n]) == Some(target[b]));
            changes_hold(previous, target, items, target[b]);
            let k = choose|k: int| 0 <= k < delta.len() && delta[k] == target[b];
            assert(delta[k].path == path);
        }
    } else if has_path(previous, path) {
        let a = found_at(previous, path);
        let item = JoinItem::Left(a as usize);
        if crate::ordered::has_key_from(right, left[a], 0) {
            let b = choose|b: int| 0 <= b < right.len() && #[trigger] right[b] == left[a];
            text_rank_is_injective(previous[a].path, target[b].path);
            assert(target[b].path == path);
        }
        join_is_complete(left, right, item);
        let n = choose|n: int| 0 <= n < items.len() && items[n] == item;
        let gone = RecordView { path, value: None };
        assert(change_of(previous, target, items[n]) == Some(gone));
        changes_hold(previous, target, items, gone);
        let k = choose|k: int| 0 <= k < delta.len() && delta[k] == gone;
        assert(delta[k].path == path);
    }
}

/// The records of the root alone, with which a volume begins.
pub fn genesis_records(root: NodeId) -> (records: Vec<NamespaceRecord>)
    ensures
        records_view(records@) == seq![
            RecordView {
                path: Seq::empty(),
                value: Some(
                    MemberView {
                        node_id: root,
                        generation: 1,
                        attributes: NodeAttributes { executable: false },
                        value: ValueView::Directory { generation: 1 },
                    },
                ),
            },
        ],
{
    let mut records: Vec<NamespaceRecord> = Vec::new();
    let path = String::new();
    assert(path@ =~= Seq::empty());
    records.push(
        NamespaceRecord {
            path,
            value: Some(
                NamespaceNode {
                    node_id: root,
                    generation: 1,
                    attributes: NodeAttributes { executable: false },
                    value: NamespaceValue::Directory { generation: 1 },
                },
            ),
        },
    );
    assert(records_view(records@) =~= seq![records@[0]@]);
    records
}

/// Records are those of a namespace exactly if their paths are portable and increase.
pub proof fn namespaces_have_portable_paths_in_order(
    records: &Vec<NamespaceRecord>,
    result: Result<(), Error>,
)
    requires
        call_ensures(check_records, (records,), result),
    ensures
        result is Ok <==> {
            let views = records_view(records@);
            &&& increasing(views)
            &&& forall|i: int| 0 <= i < views.len() ==> path_fault((#[trigger] views[i]).path) is None
        },
{
    let views = records_view(records@);
    if records_fault(views) is None {
        sound_records(views);
    } else if increasing(views) && (forall|i: int|
        0 <= i < views.len() ==> path_fault((#[trigger] views[i]).path) is None) {
        ordered_paths_are_sound(views);
    }
}

proof fn ordered_paths_are_sound(records: Seq<RecordView>)
    requires
        increasing(records),
        forall|i: int| 0 <= i < records.len() ==> path_fault((#[trigger] records[i]).path) is None,
    ensures
        records_fault(records) is None,
    decreases records.len(),
{
    if records.len() > 0 {
        let front = records.drop_last();
        assert forall|i: int, j: int| 0 <= i < j < front.len() implies before(
            text_rank((#[trigger] front[i]).path),
            text_rank((#[trigger] front[j]).path),
        ) by {
            assert(before(text_rank(records[i].path), text_rank(records[j].path)));
        }
        assert forall|i: int| 0 <= i < front.len() implies path_fault(
            (#[trigger] front[i]).path,
        ) is None by {
            assert(records[i] == front[i]);
        }
        ordered_paths_are_sound(front);
        let last = records.len() - 1;
        assert(path_fault(records[last].path) is None);
        if last > 0 {
            let prior = last - 1;
            assert(before(text_rank(records[prior].path), text_rank(records[last].path)));
        }
    }
}

/// Only paths at which two namespaces differ are among the changes, as what the target has
/// there; nothing is planned exactly if they differ nowhere.
pub proof fn only_differing_paths_change(
    previous: &Namespace,
    target: &Namespace,
    result: Option<Vec<NamespaceRecord>>,
    path: Seq<char>,
)
    requires
        call_ensures(plan_delta, (previous, target), result),
        increasing(previous@.records),
        increasing(target@.records),
        previous@.records.len() <= usize::MAX,
        target@.records.len() <= usize::MAX,
        forall|i: int|
            0 <= i < previous@.records.len() ==> (#[trigger] previous@.records[i]).value is Some,
        forall|i: int|
            0 <= i < target@.records.len() ==> (#[trigger] target@.records[i]).value is Some,
    ensures
        ({
            let differ = value_at(previous@.records, path) != value_at(target@.records, path);
            &&& result is None ==> !differ
            &&& result matches Some(changes) ==> {
                &&& changes@.len() > 0
                &&& has_path(records_view(changes@), path) <==> differ
                &&& differ ==> value_at(records_view(changes@), path) == value_at(
                    target@.records,
                    path,
                )
            }
        }),
{
    let old_records = previous@.records;
    let new_records = target@.records;
    let delta = delta_of(old_records, new_records);
    delta_leads_to_target(old_records, new_records, path);
    if has_path(delta, path) {
        let left = path_ranks(old_records);
        let right = path_ranks(new_records);
        let items = join_from(left, right, 0, 0, false);
        ranks_increase(old_records);
        ranks_increase(new_records);
        join_keys_increase(left, right);
        let place = found_at(delta, path);
        let change = delta[place];
        assert(delta.contains(change));
        changes_hold(old_records, new_records, items, change);
        let n = choose|n: int|
            0 <= n < items.len() && change_of(old_records, new_records, #[trigger] items[n])
                == Some(change);
        assert(items.contains(items[n]));
        join_is_complete(left, right, items[n]);
        match items[n] {
            JoinItem::Left(a) => {
                find_at(old_records, a as int);
                assert(old_records[a as int].value is Some);
                find_at(delta, place);
            },
            JoinItem::Right(b) => {
                find_at(new_records, b as int);
                assert(new_records[b as int].value is Some);
                if has_path(old_records, path) {
                    let a = found_at(old_records, path);
                    assert(left[a] == right[b as int]);
                    assert(crate::ordered::has_key_from(left, right[b as int], 0));
                }
            },
            JoinItem::Match(a, b) => {
                find_at(new_records, b as int);
                find_at(old_records, a as int);
                text_rank_is_injective(old_records[a as int].path, new_records[b as int].path);
            },
        }
    }
}

} // verus!
