//! Files that moved: new paths whose content a removed path had, and no other.

use vstd::prelude::*;

use crate::error::{corrupt, Error, Fault};
use crate::filesystem::ContentId;
use crate::identity::{marked_random, Digest, FileVersionId, NodeId};
use crate::layers::FileExtentMap;
use crate::namespace::{
    MemberView, NamespaceNode, NamespaceRecord, NamespaceValue, NodeAttributes, NodeKind, RecordView,
    ValueView,
};
use crate::order::{
    before_irreflexive, before_of_pairs, bounds_delimit_key, same_by_key, same_by_key_same_items,
    sort, sorted, upper_bound, with_key, Ranked,
};
use crate::text::{bytes_rank, bytes_rank_is_injective};

verus! {

/// The published content of a local file.
#[derive(Debug)]
pub struct LocalFile {
    pub content: ContentId,
    pub data: FileExtentMap,
}

/// One path of a replica, with its content if it is a file.
#[derive(Debug)]
pub struct LocalRecord {
    pub path: String,
    pub kind: NodeKind,
    pub executable: bool,
    pub file: Option<LocalFile>,
}

/// A path that may be one end of a move.
#[derive(Debug)]
pub enum RenameCandidate {
    Local { path: String, executable: bool, fingerprint: ContentId, data: FileExtentMap },
    Base { path: String, fingerprint: ContentId, node: NamespaceNode },
}

impl RenameCandidate {
    pub open spec fn content(self) -> ContentId {
        match self {
            RenameCandidate::Local { path, executable, fingerprint, data } => fingerprint,
            RenameCandidate::Base { path, fingerprint, node } => fingerprint,
        }
    }

    pub fn fingerprint(&self) -> (fingerprint: ContentId)
        ensures
            fingerprint == self.content(),
    {
        match self {
            RenameCandidate::Local { fingerprint, .. } => *fingerprint,
            RenameCandidate::Base { fingerprint, .. } => *fingerprint,
        }
    }
}

/// The key of a content.
pub open spec fn content_key(content: ContentId) -> Seq<int> {
    bytes_rank(content.digest@) + seq![content.length as int]
}

proof fn contents_compare(a: ContentId, b: ContentId)
    ensures
        crate::order::before(content_key(a), content_key(b)) == (crate::order::before(
            bytes_rank(a.digest@),
            bytes_rank(b.digest@),
        ) || (a.digest == b.digest && a.length < b.length)),
        content_key(a) == content_key(b) <==> a == b,
{
    reveal_with_fuel(crate::order::before, 2);
    Digest::identified(a.digest, b.digest);
    Digest::identified(b.digest, a.digest);
    bytes_rank_is_injective(a.digest@, b.digest@);
    let x = seq![a.length as int];
    let y = seq![b.length as int];
    before_of_pairs(bytes_rank(a.digest@), x, bytes_rank(b.digest@), y);
    assert(x[0] == a.length && y[0] == b.length);
    before_irreflexive(bytes_rank(a.digest@));
    if content_key(a) == content_key(b) {
        let place = bytes_rank(a.digest@).len() as int;
        assert(content_key(a).take(place) =~= bytes_rank(a.digest@));
        assert(content_key(b).take(place) =~= bytes_rank(b.digest@));
        assert(content_key(a)[place] == a.length);
        assert(content_key(b)[place] == b.length);
    }
}

impl Ranked for RenameCandidate {
    open spec fn rank(&self) -> Seq<int> {
        content_key(self.content())
    }

    fn precedes(&self, other: &Self) -> (result: bool) {
        let left = self.fingerprint();
        let right = other.fingerprint();
        proof {
            contents_compare(left, right);
            before_irreflexive(bytes_rank(left.digest@));
        }
        if left.digest() == right.digest() {
            left.length() < right.length()
        } else {
            left.digest().precedes(&right.digest())
        }
    }
}

pub open spec fn is_local() -> spec_fn(RenameCandidate) -> bool {
    |candidate: RenameCandidate| candidate is Local
}

pub open spec fn is_base() -> spec_fn(RenameCandidate) -> bool {
    |candidate: RenameCandidate| candidate is Base
}

/// The new paths among candidates.
pub open spec fn locals_of(candidates: Seq<RenameCandidate>) -> Seq<RenameCandidate> {
    candidates.filter(is_local())
}

/// The removed paths among candidates.
pub open spec fn bases_of(candidates: Seq<RenameCandidate>) -> Seq<RenameCandidate> {
    candidates.filter(is_base())
}

/// The candidates with the content of one of them.
pub open spec fn alike(candidates: Seq<RenameCandidate>, candidate: RenameCandidate) -> Seq<
    RenameCandidate,
> {
    with_key(candidates, candidate.rank())
}

/// A new path has the content of exactly one removed path, and no other new path has it.
pub open spec fn is_moved(group: Seq<RenameCandidate>) -> bool {
    locals_of(group).len() == 1 && bases_of(group).len() == 1
}

/// The node that a removed path had, with the attributes of the new one.
pub open spec fn moved_node(executable: bool, node: MemberView) -> MemberView {
    MemberView {
        generation: if node.attributes.executable == executable {
            node.generation
        } else {
            (node.generation + 1) as u64
        },
        attributes: NodeAttributes { executable },
        ..node
    }
}

/// The new path is a file of its own, with an identity and a version of its own.
pub open spec fn is_new_file(record: RecordView, candidate: RenameCandidate) -> bool {
    &&& candidate matches RenameCandidate::Local { path, executable, fingerprint, data }
    &&& record.path == path@
    &&& record.value matches Some(node)
    &&& marked_random(node.node_id@)
    &&& node.generation == 1
    &&& node.attributes == (NodeAttributes { executable })
    &&& node.value matches ValueView::RegularFile { version, content, data: stored }
    &&& marked_random(version@)
    &&& content == fingerprint
    &&& stored == data@
}

/// The new path is where the file of a removed path went.
pub open spec fn is_moved_file(
    record: RecordView,
    candidate: RenameCandidate,
    base: RenameCandidate,
) -> bool {
    &&& candidate matches RenameCandidate::Local { path, executable, fingerprint, data }
    &&& base matches RenameCandidate::Base { path: from, fingerprint: content, node }
    &&& record == (RecordView { path: path@, value: Some(moved_node(executable, node@)) })
}

/// The record says what became of a new path, given the candidates with its content.
pub open spec fn resolves(
    record: RecordView,
    candidate: RenameCandidate,
    group: Seq<RenameCandidate>,
) -> bool {
    if is_moved(group) {
        is_moved_file(record, candidate, bases_of(group)[0])
    } else {
        is_new_file(record, candidate)
    }
}

/// The move of a file would count its generations past what can be counted.
pub open spec fn counts_over(candidate: RenameCandidate, group: Seq<RenameCandidate>) -> bool {
    &&& is_moved(group)
    &&& candidate matches RenameCandidate::Local { path, executable, fingerprint, data }
    &&& bases_of(group)[0] matches RenameCandidate::Base { path: from, fingerprint: content, node }
    &&& node@.attributes.executable != executable
    &&& node@.generation == u64::MAX
}

pub open spec fn generation_fault() -> Fault {
    corrupt("scan replica", "node generation overflows")
}

/// The records say what became of every new path, in path order.
pub open spec fn resolution(
    candidates: Seq<RenameCandidate>,
    order: Seq<RenameCandidate>,
    written: Seq<NamespaceRecord>,
    records: Seq<NamespaceRecord>,
) -> bool {
    &&& same_by_key(candidates, order)
    &&& locals_of(order).len() == written.len()
    &&& forall|i: int|
        0 <= i < written.len() ==> resolves(
            (#[trigger] written[i])@,
            locals_of(order)[i],
            alike(candidates, locals_of(order)[i]),
        )
    &&& sorted(records)
    &&& same_by_key(written, records)
}

pub open spec fn is_resolution(
    candidates: Seq<RenameCandidate>,
    records: Seq<NamespaceRecord>,
) -> bool {
    exists|order: Seq<RenameCandidate>, written: Seq<NamespaceRecord>| #[trigger]
        resolution(candidates, order, written, records)
}

/// The paths of a scan that are new, and those that are gone.
#[derive(Debug)]
pub struct RenameCandidates {
    records: Vec<RenameCandidate>,
}

/// The generation after one.
pub fn next_generation(generation: u64) -> (result: Result<u64, Error>)
    ensures
        match result {
            Ok(next) => next == generation + 1,
            Err(error) => generation == u64::MAX && error.fault() == generation_fault(),
        },
{
    match generation.checked_add(1) {
        Some(next) => Ok(next),
        None => Err(Error::corrupt("scan replica", "node generation overflows")),
    }
}

/// How many candidates are new, how many are gone, and the place of the last that is gone.
fn count_group(order: &Vec<RenameCandidate>, low: usize, high: usize) -> (counts: (
    usize,
    usize,
    usize,
))
    requires
        low <= high <= order@.len(),
    ensures
        ({
            let (locals, bases, place) = counts;
            let group = order@.subrange(low as int, high as int);
            &&& locals == locals_of(group).len()
            &&& bases == bases_of(group).len()
            &&& bases > 0 ==> low <= place < high && order@[place as int] == bases_of(group).last()
        }),
{
    let mut locals: usize = 0;
    let mut bases: usize = 0;
    let mut place: usize = low;
    let mut index: usize = low;
    proof {
        reveal(Seq::filter);
        assert(order@.subrange(low as int, low as int) =~= Seq::<RenameCandidate>::empty());
        assert(locals_of(Seq::<RenameCandidate>::empty()).len() == 0);
        assert(bases_of(Seq::<RenameCandidate>::empty()).len() == 0);
    }
    while index < high
        invariant
            low <= index <= high <= order@.len(),
            locals <= index - low,
            bases <= index - low,
            locals == locals_of(order@.subrange(low as int, index as int)).len(),
            bases == bases_of(order@.subrange(low as int, index as int)).len(),
            bases > 0 ==> low <= place < index && order@[place as int] == bases_of(
                order@.subrange(low as int, index as int),
            ).last(),
        decreases high - index,
    {
        proof {
            reveal(Seq::filter);
            let now = order@.subrange(low as int, index + 1);
            assert(now.drop_last() =~= order@.subrange(low as int, index as int));
            assert(now.last() == order@[index as int]);
        }
        match &order[index] {
            RenameCandidate::Local { .. } => {
                locals += 1;
            },
            RenameCandidate::Base { .. } => {
                bases += 1;
                place = index;
            },
        }
        index += 1;
    }
    (locals, bases, place)
}

/// The record of a new path that is a file of its own.
fn new_file(path: &String, executable: bool, fingerprint: ContentId, data: &FileExtentMap) -> (record:
    NamespaceRecord)
    ensures
        record@.path == path@,
        record@.value matches Some(node) && {
            &&& marked_random(node.node_id@)
            &&& node.generation == 1
            &&& node.attributes == (NodeAttributes { executable })
            &&& node.value matches ValueView::RegularFile { version, content, data: stored }
            &&& marked_random(version@)
            &&& content == fingerprint
            &&& stored == data@
        },
{
    NamespaceRecord {
        path: path.clone(),
        value: Some(
            NamespaceNode {
                node_id: NodeId::generate(),
                generation: 1,
                attributes: NodeAttributes { executable },
                value: NamespaceValue::RegularFile {
                    version: FileVersionId::generate(),
                    content: fingerprint,
                    data: data.clone(),
                },
            },
        ),
    }
}

/// The record of a new path that a file moved to.
fn moved_file(path: &String, executable: bool, node: &NamespaceNode) -> (result: Result<
    NamespaceRecord,
    Error,
>)
    ensures
        match result {
            Ok(record) => {
                &&& node@.attributes.executable == executable || node@.generation < u64::MAX
                &&& record@ == (RecordView {
                    path: path@,
                    value: Some(moved_node(executable, node@)),
                })
            },
            Err(error) => node@.attributes.executable != executable && node@.generation == u64::MAX
                && error.fault() == generation_fault(),
        },
{
    let attributes = NodeAttributes { executable };
    let generation: u64 = if attributes == node.attributes {
        node.generation
    } else {
        match next_generation(node.generation) {
            Ok(next) => next,
            Err(error) => {
                return Err(error);
            },
        }
    };
    Ok(
        NamespaceRecord {
            path: path.clone(),
            value: Some(
                NamespaceNode {
                    node_id: node.node_id,
                    generation,
                    attributes,
                    value: node.value.clone(),
                },
            ),
        },
    )
}

proof fn next_candidate(order: Seq<RenameCandidate>, index: int)
    requires
        0 <= index < order.len(),
    ensures
        locals_of(order.take(index + 1)) == (if order[index] is Local {
            locals_of(order.take(index)).push(order[index])
        } else {
            locals_of(order.take(index))
        }),
{
    reveal(Seq::filter);
    assert(order.take(index + 1).drop_last() =~= order.take(index));
    assert(order.take(index + 1).last() == order[index]);
}

/// What was written up to a place says what became of the new paths up to there.
#[verifier::opaque]
spec fn written_up_to(
    given: Seq<RenameCandidate>,
    order: Seq<RenameCandidate>,
    index: int,
    written: Seq<NamespaceRecord>,
) -> bool {
    let locals = locals_of(order.take(index));
    &&& written.len() == locals.len()
    &&& forall|n: int|
        0 <= n < written.len() ==> resolves(
            (#[trigger] written[n])@,
            locals[n],
            alike(given, locals[n]),
        )
}

proof fn write_next(
    given: Seq<RenameCandidate>,
    order: Seq<RenameCandidate>,
    index: int,
    written: Seq<NamespaceRecord>,
    record: NamespaceRecord,
)
    requires
        0 <= index < order.len(),
        written_up_to(given, order, index, written),
        order[index] is Local,
        resolves(record@, order[index], alike(given, order[index])),
    ensures
        written_up_to(given, order, index + 1, written.push(record)),
{
    reveal(written_up_to);
    next_candidate(order, index);
    let before = locals_of(order.take(index));
    let after = locals_of(order.take(index + 1));
    let now = written.push(record);
    assert forall|n: int| 0 <= n < now.len() implies resolves(
        (#[trigger] now[n])@,
        after[n],
        alike(given, after[n]),
    ) by {
        if n < written.len() {
            assert(now[n] == written[n]);
            assert(after[n] == before[n]);
        }
    }
}

/// Write what became of the new paths of one content.
fn resolve_group(
    order: &Vec<RenameCandidate>,
    low: usize,
    high: usize,
    written: &mut Vec<NamespaceRecord>,
    Ghost(given): Ghost<Seq<RenameCandidate>>,
) -> (result: Result<(), Error>)
    requires
        low < high <= order@.len(),
        forall|i: int|
            low <= i < high ==> alike(given, #[trigger] order@[i]) == order@.subrange(
                low as int,
                high as int,
            ),
        written_up_to(given, order@, low as int, old(written)@),
    ensures
        match result {
            Ok(()) => {
                &&& written_up_to(given, order@, high as int, final(written)@)
                &&& forall|i: int|
                    low <= i < high ==> !counts_over(
                        #[trigger] order@[i],
                        alike(given, order@[i]),
                    )
            },
            Err(error) => {
                &&& exists|i: int|
                    low <= i < high && counts_over(#[trigger] order@[i], alike(given, order@[i]))
                &&& error.fault() == generation_fault()
            },
        },
{
    let (locals, bases, place) = count_group(order, low, high);
    let ghost group = order@.subrange(low as int, high as int);
    proof {
        if bases > 0 {
            let last = bases_of(group).len() - 1;
            group.lemma_filter_pred(is_base(), last);
            assert(order@[place as int] is Base);
        }
    }
    let mut index: usize = low;
    while index < high
        invariant
            low <= index <= high <= order@.len(),
            group == order@.subrange(low as int, high as int),
            locals == locals_of(group).len(),
            bases == bases_of(group).len(),
            bases > 0 ==> low <= place < high && order@[place as int] == bases_of(group).last()
                && order@[place as int] is Base,
            forall|i: int| low <= i < high ==> alike(given, #[trigger] order@[i]) == group,
            written_up_to(given, order@, index as int, written@),
            forall|i: int|
                low <= i < index ==> !counts_over(#[trigger] order@[i], alike(given, order@[i])),
        decreases high - index,
    {
        let ghost so_far = written@;
        assert(alike(given, order@[index as int]) == group);
        match &order[index] {
            RenameCandidate::Base { .. } => {
                proof {
                    reveal(written_up_to);
                    next_candidate(order@, index as int);
                }
            },
            RenameCandidate::Local { path, executable, fingerprint, data } => {
                let record = if locals == 1 && bases == 1 {
                    match &order[place] {
                        RenameCandidate::Base { node, .. } => match moved_file(
                            path,
                            *executable,
                            node,
                        ) {
                            Ok(record) => record,
                            Err(error) => {
                                assert(counts_over(
                                    order@[index as int],
                                    alike(given, order@[index as int]),
                                ));
                                return Err(error);
                            },
                        },
                        RenameCandidate::Local { .. } => new_file(
                            path,
                            *executable,
                            *fingerprint,
                            data,
                        ),
                    }
                } else {
                    new_file(path, *executable, *fingerprint, data)
                };
                proof {
                    write_next(given, order@, index as int, so_far, record);
                }
                written.push(record);
            },
        }
        index += 1;
    }
    Ok(())
}

impl RenameCandidates {
    pub closed spec fn view(&self) -> Seq<RenameCandidate> {
        self.records@
    }

    pub fn new() -> (candidates: Self)
        ensures
            candidates@ == Seq::<RenameCandidate>::empty(),
    {
        RenameCandidates { records: Vec::new() }
    }

    /// A new path with a file.
    pub fn local(&mut self, local: LocalRecord)
        requires
            local.file is Some,
        ensures
            final(self)@ == old(self)@.push(
                RenameCandidate::Local {
                    path: local.path,
                    executable: local.executable,
                    fingerprint: local.file->0.content,
                    data: local.file->0.data,
                },
            ),
    {
        let file = local.file.unwrap();
        self.records.push(
            RenameCandidate::Local {
                path: local.path,
                executable: local.executable,
                fingerprint: file.content,
                data: file.data,
            },
        );
    }

    /// A record of the base namespace whose path is gone.
    pub fn removed_record(&mut self, record: NamespaceRecord) -> (result: Result<(), Error>)
        ensures
            match record.value {
                Some(node) => result is Ok && final(self)@ == (match node.value {
                    NamespaceValue::Directory { generation } => old(self)@,
                    NamespaceValue::RegularFile { version, content, data } => old(self)@.push(
                        RenameCandidate::Base { path: record.path, fingerprint: content, node },
                    ),
                }),
                None => {
                    &&& result matches Err(error)
                    &&& error.fault() == corrupt(
                        "scan replica",
                        "base namespace contains a deletion",
                    )
                    &&& final(self)@ == old(self)@
                },
            },
    {
        match record.value {
            Some(node) => {
                self.removed_node(record.path, node);
                Ok(())
            },
            None => Err(Error::corrupt("scan replica", "base namespace contains a deletion")),
        }
    }

    /// A node whose path is gone; only files can have moved.
    pub fn removed_node(&mut self, path: String, node: NamespaceNode)
        ensures
            final(self)@ == (match node.value {
                NamespaceValue::Directory { generation } => old(self)@,
                NamespaceValue::RegularFile { version, content, data } => old(self)@.push(
                    RenameCandidate::Base { path, fingerprint: content, node },
                ),
            }),
    {
        let fingerprint = match &node.value {
            NamespaceValue::Directory { .. } => {
                return ;
            },
            NamespaceValue::RegularFile { content, .. } => *content,
        };
        self.records.push(RenameCandidate::Base { path, fingerprint, node });
    }

    /// What became of every new path.
    pub fn resolve(self) -> (result: Result<Vec<NamespaceRecord>, Error>)
        ensures
            match result {
                Ok(records) => {
                    &&& forall|i: int|
                        0 <= i < self@.len() ==> !counts_over(
                            #[trigger] self@[i],
                            alike(self@, self@[i]),
                        )
                    &&& is_resolution(self@, records@)
                },
                Err(error) => {
                    &&& exists|i: int|
                        0 <= i < self@.len() && counts_over(
                            #[trigger] self@[i],
                            alike(self@, self@[i]),
                        )
                    &&& error.fault() == generation_fault()
                },
            },
    {
        let ghost given = self.records@;
        let order = sort(self.records);
        proof {
            same_by_key_same_items(given, order@);
        }
        let mut written: Vec<NamespaceRecord> = Vec::new();
        let mut low: usize = 0;
        proof {
            reveal(written_up_to);
            reveal(Seq::filter);
            assert(locals_of(order@.take(0)) =~= Seq::<RenameCandidate>::empty());
        }
        while low < order.len()
            invariant
                low <= order@.len(),
                sorted(order@),
                given == self@,
                same_by_key(given, order@),
                forall|item: RenameCandidate|
                    #[trigger] given.contains(item) <==> order@.contains(item),
                forall|i: int, j: int|
                    0 <= i < low <= j < order@.len() ==> crate::order::before(
                        (#[trigger] order@[i]).rank(),
                        (#[trigger] order@[j]).rank(),
                    ),
                written_up_to(given, order@, low as int, written@),
                forall|i: int|
                    0 <= i < low ==> !counts_over(#[trigger] order@[i], alike(given, order@[i])),
            decreases order@.len() - low,
        {
            let high: usize = upper_bound(&order, &order[low]);
            let ghost key = order@[low as int].rank();
            proof {
                before_irreflexive(key);
                if high <= low {
                    assert(crate::order::before(key, order@[low as int].rank()));
                }
                assert forall|i: int| 0 <= i < low implies crate::order::before(
                    #[trigger] order@[i].rank(),
                    key,
                ) by {}
                assert forall|i: int| low <= i < order@.len() implies !crate::order::before(
                    #[trigger] order@[i].rank(),
                    key,
                ) by {
                    if i > low {
                        assert(crate::order::not_after(key, order@[i].rank()));
                    }
                }
                bounds_delimit_key(order@, key, low as int, high as int);
                assert(with_key(given, key) == with_key(order@, key));
                assert(with_key(given, key) == order@.subrange(low as int, high as int));
                assert forall|i: int| low <= i < high implies alike(given, #[trigger] order@[i])
                    == order@.subrange(low as int, high as int) by {
                    let block = order@.subrange(low as int, high as int);
                    assert(block[i - low] == order@[i]);
                    assert(with_key(order@, key).contains(order@[i]));
                    crate::order::with_key_selects(order@, key, order@[i]);
                }
            }
            match resolve_group(&order, low, high, &mut written, Ghost(given)) {
                Ok(()) => {},
                Err(error) => {
                    proof {
                        let i = choose|i: int|
                            low <= i < high && counts_over(
                                #[trigger] order@[i],
                                alike(given, order@[i]),
                            );
                        assert(order@.contains(order@[i]));
                        assert(given.contains(order@[i]));
                        let k = choose|k: int| 0 <= k < given.len() && given[k] == order@[i];
                        assert(counts_over(given[k], alike(given, given[k])));
                    }
                    return Err(error);
                },
            }
            proof {
                assert forall|i: int, j: int| 0 <= i < high <= j < order@.len() implies
                    crate::order::before(
                    (#[trigger] order@[i]).rank(),
                    (#[trigger] order@[j]).rank(),
                ) by {
                    if i < low {
                    } else {
                        assert(order@.subrange(low as int, high as int)[i - low] == order@[i]);
                    }
                }
            }
            low = high;
        }
        proof {
            assert(order@.take(low as int) =~= order@);
            assert forall|i: int| 0 <= i < given.len() implies !counts_over(
                #[trigger] given[i],
                alike(given, given[i]),
            ) by {
                assert(given.contains(given[i]));
                assert(order@.contains(given[i]));
                let k = choose|k: int| 0 <= k < order@.len() && order@[k] == given[i];
                assert(!counts_over(order@[k], alike(given, order@[k])));
            }
        }
        let ghost as_written = written@;
        let records = sort(written);
        proof {
            reveal(written_up_to);
            assert(resolution(given, order@, as_written, records@));
            assert(is_resolution(given, records@));
        }
        Ok(records)
    }
}

/// A file that moved stays the node and the version that it was, and keeps its content; its
/// generation goes up by one if the executable attribute changed, and stays otherwise.
pub proof fn moved_files_keep_their_identity(executable: bool, node: MemberView)
    requires
        node.generation < u64::MAX,
    ensures
        moved_node(executable, node).node_id == node.node_id,
        moved_node(executable, node).value == node.value,
        moved_node(executable, node).version() == node.version(),
        moved_node(executable, node).generation == node.generation + (if executable
            == node.attributes.executable {
            0int
        } else {
            1int
        }),
{
}

// What becomes of new paths.

/// The new paths with a content.
spec fn local_with(key: Seq<int>) -> spec_fn(RenameCandidate) -> bool {
    |candidate: RenameCandidate| candidate is Local && candidate.rank() == key
}

/// The removed paths with a content.
spec fn base_with(key: Seq<int>) -> spec_fn(RenameCandidate) -> bool {
    |candidate: RenameCandidate| candidate is Base && candidate.rank() == key
}

proof fn group_parts(candidates: Seq<RenameCandidate>, key: Seq<int>)
    ensures
        locals_of(with_key(candidates, key)) == candidates.filter(local_with(key)),
        bases_of(with_key(candidates, key)) == candidates.filter(base_with(key)),
    decreases candidates.len(),
{
    reveal(Seq::filter);
    if candidates.len() > 0 {
        let rest = candidates.drop_last();
        group_parts(rest, key);
        let last = candidates.last();
        let group = with_key(rest, key);
        if last.rank() == key {
            assert(with_key(candidates, key) == group.push(last));
            assert(group.push(last).drop_last() =~= group);
        } else {
            assert(with_key(candidates, key) == group);
        }
    }
}

proof fn one_of_a_kind(
    items: Seq<RenameCandidate>,
    test: spec_fn(RenameCandidate) -> bool,
    place: int,
)
    requires
        0 <= place < items.len(),
        test(items[place]),
        forall|k: int| 0 <= k < items.len() && k != place ==> !test(#[trigger] items[k]),
    ensures
        items.filter(test).len() == 1,
        items.filter(test)[0] == items[place],
    decreases items.len(),
{
    reveal(Seq::filter);
    let rest = items.drop_last();
    if place < rest.len() {
        assert forall|k: int| 0 <= k < rest.len() && k != place implies !test(
            #[trigger] rest[k],
        ) by {
            assert(rest[k] == items[k]);
        }
        one_of_a_kind(rest, test, place);
        assert(!test(items[items.len() - 1]));
    } else {
        none_of_a_kind(rest, test, items);
    }
}

proof fn none_of_a_kind(
    items: Seq<RenameCandidate>,
    test: spec_fn(RenameCandidate) -> bool,
    all: Seq<RenameCandidate>,
)
    requires
        items.len() <= all.len(),
        forall|k: int| 0 <= k < items.len() ==> items[k] == #[trigger] all[k] && !test(all[k]),
    ensures
        items.filter(test).len() == 0,
    decreases items.len(),
{
    reveal(Seq::filter);
    if items.len() > 0 {
        let last = items.len() - 1;
        assert(items[last] == all[last]);
        none_of_a_kind(items.drop_last(), test, all);
    }
}

proof fn more_of_a_kind(
    items: Seq<RenameCandidate>,
    test: spec_fn(RenameCandidate) -> bool,
    first: int,
    second: int,
)
    requires
        0 <= first < second < items.len(),
        test(items[first]),
        test(items[second]),
    ensures
        items.filter(test).len() >= 2,
    decreases items.len(),
{
    reveal(Seq::filter);
    let rest = items.drop_last();
    if second < rest.len() {
        more_of_a_kind(rest, test, first, second);
    } else {
        rest.lemma_filter_contains(test, first);
        assert(rest.filter(test).contains(rest[first]));
    }
}

/// The candidate at one place is the only other one with the content of the candidate at another.
pub open spec fn is_only_other(candidates: Seq<RenameCandidate>, place: int, other: int) -> bool {
    &&& place != other
    &&& candidates[other].content() == candidates[place].content()
    &&& forall|k: int|
        0 <= k < candidates.len() && k != place && k != other ==> (
        #[trigger] candidates[k]).content() != candidates[place].content()
}

proof fn moved_if_paired(candidates: Seq<RenameCandidate>, place: int)
    requires
        0 <= place < candidates.len(),
        candidates[place] is Local,
    ensures
        ({
            let group = alike(candidates, candidates[place]);
            &&& is_moved(group) <==> exists|other: int|
                0 <= other < candidates.len() && #[trigger] is_only_other(candidates, place, other)
                    && candidates[other] is Base
            &&& forall|other: int|
                0 <= other < candidates.len() && #[trigger] is_only_other(candidates, place, other)
                    && candidates[other] is Base ==> bases_of(group)[0] == candidates[other]
        }),
{
    let key = candidates[place].rank();
    let group = alike(candidates, candidates[place]);
    group_parts(candidates, key);
    assert forall|k: int| 0 <= k < candidates.len() implies ((#[trigger] candidates[k]).rank()
        == key <==> candidates[k].content() == candidates[place].content()) by {
        contents_compare(candidates[k].content(), candidates[place].content());
    }
    assert forall|other: int|
        0 <= other < candidates.len() && #[trigger] is_only_other(candidates, place, other)
            && candidates[other] is Base implies is_moved(group) && bases_of(group)[0]
        == candidates[other] by {
        one_of_a_kind(candidates, local_with(key), place);
        one_of_a_kind(candidates, base_with(key), other);
    }
    if is_moved(group) {
        let bases = candidates.filter(base_with(key));
        candidates.lemma_filter_pred(base_with(key), 0);
        assert(bases.contains(bases[0]));
        candidates.lemma_filter_contains_rev(base_with(key), bases[0]);
        let other = choose|other: int|
            0 <= other < candidates.len() && candidates[other] == bases[0];
        assert(candidates[other] == bases[0]);
        assert forall|k: int| 0 <= k < candidates.len() && k != place && k != other implies (
        #[trigger] candidates[k]).content() != candidates[place].content() by {
            if candidates[k].content() == candidates[place].content() {
                if candidates[k] is Local {
                    if k < place {
                        more_of_a_kind(candidates, local_with(key), k, place);
                    } else {
                        more_of_a_kind(candidates, local_with(key), place, k);
                    }
                } else {
                    if k < other {
                        more_of_a_kind(candidates, base_with(key), k, other);
                    } else {
                        more_of_a_kind(candidates, base_with(key), other, k);
                    }
                }
            }
        }
        assert(is_only_other(candidates, place, other));
    }
}

/// Every new path gets a record. It is the file of a removed path, by its node and its version,
/// exactly if that removed path is the only other candidate with its content; its generation
/// then counts one if it is executable where the removed path was not, or the other way. A path
/// that has no such partner is a new file with its own data, at the first generation.
pub proof fn a_new_path_is_moved_or_new(
    candidates: RenameCandidates,
    result: Result<Vec<NamespaceRecord>, Error>,
    place: int,
)
    requires
        call_ensures(RenameCandidates::resolve, (candidates,), result),
        result is Ok,
        0 <= place < candidates@.len(),
        candidates@[place] is Local,
    ensures
        exists|n: int|
            0 <= n < result->Ok_0@.len() && #[trigger] is_record_of(
                result->Ok_0@[n]@,
                candidates@,
                place,
            ),
{
    let given = candidates@;
    let records = result->Ok_0@;
    let (order, written) = choose|order: Seq<RenameCandidate>, written: Seq<NamespaceRecord>|
        #[trigger] resolution(given, order, written, records);
    same_by_key_same_items(given, order);
    same_by_key_same_items(written, records);
    assert(given.contains(given[place]));
    assert(order.contains(given[place]));
    let k = choose|k: int| 0 <= k < order.len() && order[k] == given[place];
    order.lemma_filter_contains(is_local(), k);
    let locals = locals_of(order);
    let i = choose|i: int| 0 <= i < locals.len() && locals[i] == given[place];
    assert(resolves(written[i]@, given[place], alike(given, given[place])));
    assert(written.contains(written[i]));
    assert(records.contains(written[i]));
    let n = choose|n: int| 0 <= n < records.len() && records[n] == written[i];
    moved_if_paired(given, place);
    assert(!counts_over(given[place], alike(given, given[place])));
    assert forall|other: int|
        0 <= other < given.len() && #[trigger] is_only_other(given, place, other)
            && given[other] is Base implies is_taken_from(
        records[n]@.value->0,
        given[place]->Local_executable,
        given[other]->node@,
    ) by {}
    assert(is_record_of(records[n]@, given, place));
}

/// The node is the one that a removed path had, with an executable attribute of its own.
pub open spec fn is_taken_from(node: MemberView, executable: bool, from: MemberView) -> bool {
    &&& node.node_id == from.node_id
    &&& node.value == from.value
    &&& node.attributes.executable == executable
    &&& node.generation == from.generation + if from.attributes.executable == executable {
        0int
    } else {
        1int
    }
}

/// The record says where the file at a new path came from.
pub open spec fn is_record_of(
    record: RecordView,
    candidates: Seq<RenameCandidate>,
    place: int,
) -> bool {
    let candidate = candidates[place];
    let partnered = exists|other: int|
        0 <= other < candidates.len() && #[trigger] is_only_other(candidates, place, other)
            && candidates[other] is Base;
    &&& record.path == candidate->Local_path@
    &&& record.value is Some
    &&& forall|other: int|
        0 <= other < candidates.len() && #[trigger] is_only_other(candidates, place, other)
            && candidates[other] is Base ==> is_taken_from(
            record.value->0,
            candidate->Local_executable,
            candidates[other]->node@,
        )
    &&& !partnered ==> {
        let node = record.value->0;
        &&& node.generation == 1
        &&& node.attributes.executable == candidate->Local_executable
        &&& node.value is RegularFile
        &&& node.value->content == candidate->Local_fingerprint
        &&& node.value->data == candidate->data@
    }
}

} // verus!
