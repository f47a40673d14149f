//! The authority over a namespace: its head, and the control objects that hold such values.

use vstd::prelude::*;

use crate::error::{
    conflict, corrupt, not_found, storage_kind, Error, ErrorKind, Fault, StorageFailure,
};
use crate::identity::{AuthorityId, GcEpoch};
use crate::model::{ChangeCursor, NamespaceRevision};
use crate::text::{decode_text, same_text};

verus! {

/// The name of the authority that every volume has.
pub const DEFAULT_AUTHORITY: &'static str = "main";

/// The current commit of an authority, and what it still keeps.
#[derive(Clone, Copy, Debug)]
pub struct AuthorityHead {
    pub current_commit: NamespaceRevision,
    pub gc_epoch: GcEpoch,
    pub minimum_retained_cursor: ChangeCursor,
}

impl PartialEq for AuthorityHead {
    fn eq(&self, other: &Self) -> (result: bool) {
        self.current_commit == other.current_commit && self.gc_epoch == other.gc_epoch
            && self.minimum_retained_cursor == other.minimum_retained_cursor
    }
}

impl vstd::std_specs::cmp::PartialEqSpecImpl for AuthorityHead {
    open spec fn obeys_eq_spec() -> bool {
        true
    }

    open spec fn eq_spec(&self, other: &Self) -> bool {
        *self == *other
    }
}

impl Eq for AuthorityHead {

}

/// One observed authority position and its opaque conditional revision.
#[derive(Debug)]
pub struct AuthorityObservation {
    pub id: AuthorityId,
    pub head: AuthorityHead,
    pub revision: Vec<u8>,
}

/// One live root consumed and replaced during collection.
#[derive(Debug)]
pub struct AuthorityRoot {
    pub id: AuthorityId,
    pub name: String,
    pub head: AuthorityHead,
}

/// Opaque fence established before collection roots are read.
#[derive(Debug)]
pub struct CollectionFence {
    pub epoch: GcEpoch,
    pub revision: Vec<u8>,
}

/// A control value and the revision of the object that it was read from.
pub struct ObservedControl<T> {
    pub value: T,
    pub revision: Option<String>,
}

pub open spec fn unknown_authority() -> Fault {
    not_found("open Managed authority", "the selected authority does not exist")
}

/// Check that a name is that of the default authority.
pub fn require_default(name: &str) -> (result: Result<(), Error>)
    ensures
        match result {
            Ok(()) => name@ == DEFAULT_AUTHORITY@,
            Err(error) => name@ != DEFAULT_AUTHORITY@ && error.fault() == unknown_authority(),
        },
{
    if same_text(name, DEFAULT_AUTHORITY) {
        Ok(())
    } else {
        Err(Error::not_found("open Managed authority", "the selected authority does not exist"))
    }
}

/// The bytes of a revision; a revision that is not known has none.
pub open spec fn revision_bytes(revision: Option<String>) -> Seq<u8> {
    match revision {
        Some(text) => vstd::utf8::encode_utf8(text@),
        None => Seq::empty(),
    }
}

/// Why an observed head is no position of an authority.
pub open spec fn observe_fault(name: Seq<char>, head: Option<AuthorityHead>) -> Option<Fault> {
    if name != DEFAULT_AUTHORITY@ {
        Some(unknown_authority())
    } else {
        match head {
            None => Some(not_found("open Managed volume", "namespace head is missing")),
            Some(head) => if head.minimum_retained_cursor.sequence
                > head.current_commit.change_cursor.sequence {
                Some(corrupt("read Managed authority", "authority position is invalid"))
            } else {
                None
            },
        }
    }
}

pub open spec fn control_value<T>(control: Option<ObservedControl<T>>) -> Option<T> {
    match control {
        Some(control) => Some(control.value),
        None => None,
    }
}

/// Core single-authority implementation.
#[derive(Clone, Copy, Debug)]
pub struct DefaultAuthorityAccess;

impl DefaultAuthorityAccess {
    /// The position of the authority with a name, from the head that was read.
    pub fn observe(name: &str, control: Option<ObservedControl<AuthorityHead>>) -> (result: Result<
        AuthorityObservation,
        Error,
    >)
        ensures
            match result {
                Ok(observation) => {
                    &&& observe_fault(name@, control_value(control)) is None
                    &&& observation.head == control->0.value
                    &&& observation.revision@ == revision_bytes(control->0.revision)
                    &&& observation.id@ == Seq::new(16, |i: int| 0u8)
                },
                Err(error) => observe_fault(name@, control_value(control)) == Some(error.fault()),
            },
    {
        match require_default(name) {
            Ok(()) => {},
            Err(error) => {
                return Err(error);
            },
        }
        match control {
            None => Err(Error::not_found("open Managed volume", "namespace head is missing")),
            Some(control) => {
                let head = control.value;
                if head.minimum_retained_cursor.sequence()
                    > head.current_commit.change_cursor.sequence() {
                    return Err(
                        Error::corrupt("read Managed authority", "authority position is invalid"),
                    );
                }
                let revision: Vec<u8> = match control.revision {
                    Some(text) => text_bytes(text.as_str()),
                    None => Vec::new(),
                };
                let id = AuthorityId::from_bytes([0u8; 16]);
                assert(id@ =~= Seq::new(16, |i: int| 0u8));
                Ok(AuthorityObservation { id, head, revision })
            },
        }
    }

    /// The condition under which the head of an authority is replaced: that its object has
    /// the revision, or that there is no object yet.
    pub fn exchange_condition(name: &str, observed: &AuthorityObservation) -> (result: Result<
        Option<String>,
        Error,
    >)
        ensures
            match result {
                Ok(condition) => {
                    &&& name@ == DEFAULT_AUTHORITY@
                    &&& revision_bytes(condition) == observed.revision@
                    &&& condition is None <==> observed.revision@.len() == 0
                },
                Err(error) => if name@ != DEFAULT_AUTHORITY@ {
                    error.fault() == unknown_authority()
                } else {
                    &&& forall|chars: Seq<char>| #[trigger]
                        vstd::utf8::encode_utf8(chars) != observed.revision@
                    &&& error.fault() == corrupt(
                        "publish Managed namespace",
                        "head revision is invalid",
                    )
                },
            },
    {
        match require_default(name) {
            Ok(()) => {},
            Err(error) => {
                return Err(error);
            },
        }
        match decode_text(observed.revision.as_slice()) {
            None => Err(Error::corrupt("publish Managed namespace", "head revision is invalid")),
            Some(text) => {
                if observed.revision.len() == 0 {
                    assert(observed.revision@ =~= Seq::empty());
                    Ok(None)
                } else {
                    Ok(Some(text))
                }
            },
        }
    }

    /// The head with which a collection begins: that of the next epoch.
    pub fn rotated(head: AuthorityHead) -> (result: Result<AuthorityHead, Error>)
        ensures
            match result {
                Ok(next) => {
                    &&& next.gc_epoch@ == head.gc_epoch@ + 1
                    &&& next.current_commit == head.current_commit
                    &&& next.minimum_retained_cursor == head.minimum_retained_cursor
                },
                Err(error) => head.gc_epoch@ == u64::MAX && error.fault()
                    == crate::identity::counter_overflow(),
            },
    {
        match head.gc_epoch.next() {
            Ok(gc_epoch) => Ok(
                AuthorityHead {
                    current_commit: head.current_commit,
                    gc_epoch,
                    minimum_retained_cursor: head.minimum_retained_cursor,
                },
            ),
            Err(error) => Err(error),
        }
    }

    /// The fence and the root of a collection whose epoch was published and read again.
    pub fn begin_collection(
        exchanged: bool,
        rotated: AuthorityHead,
        current: AuthorityObservation,
    ) -> (result: Result<(CollectionFence, AuthorityRoot), Error>)
        ensures
            match result {
                Ok((fence, root)) => {
                    &&& exchanged
                    &&& fence.epoch == rotated.gc_epoch
                    &&& fence.revision@ == current.revision@
                    &&& root.id == current.id
                    &&& root.name@ == DEFAULT_AUTHORITY@
                    &&& root.head == current.head
                },
                Err(error) => !exchanged && error.fault() == conflict(
                    "collect Managed objects",
                    "namespace authority changed while rotating the GC epoch",
                ),
            },
    {
        if !exchanged {
            return Err(
                Error::conflict(
                    "collect Managed objects",
                    "namespace authority changed while rotating the GC epoch",
                ),
            );
        }
        Ok(
            (
                CollectionFence { epoch: rotated.gc_epoch, revision: current.revision },
                AuthorityRoot {
                    id: current.id,
                    name: DEFAULT_AUTHORITY.to_owned(),
                    head: current.head,
                },
            ),
        )
    }

    /// What replaces the head when a collection ends: the observation to be replaced, and
    /// the compacted head.
    pub fn finish_collection(fence: CollectionFence, roots: Vec<AuthorityRoot>) -> (result: Result<
        (AuthorityObservation, AuthorityHead),
        Error,
    >)
        ensures
            match result {
                Ok((observed, head)) => {
                    &&& roots@.len() == 1
                    &&& roots@[0].name@ == DEFAULT_AUTHORITY@
                    &&& observed.id == roots@[0].id
                    &&& observed.head == roots@[0].head
                    &&& observed.revision@ == fence.revision@
                    &&& head == roots@[0].head
                },
                Err(error) => if roots@.len() == 0 {
                    error.fault() == corrupt(
                        "collect Managed objects",
                        "compacted authority root is missing",
                    )
                } else {
                    (roots@.len() > 1 || roots@[0].name@ != DEFAULT_AUTHORITY@) && error.fault()
                        == corrupt(
                        "collect Managed objects",
                        "compacted authority root set is invalid",
                    )
                },
            },
    {
        if roots.len() == 0 {
            return Err(
                Error::corrupt("collect Managed objects", "compacted authority root is missing"),
            );
        }
        if roots.len() > 1 || !same_text(roots[0].name.as_str(), DEFAULT_AUTHORITY) {
            return Err(
                Error::corrupt(
                    "collect Managed objects",
                    "compacted authority root set is invalid",
                ),
            );
        }
        let head = roots[0].head;
        Ok((AuthorityObservation { id: roots[0].id, head, revision: fence.revision }, head))
    }
}

/// The bytes of a text.
fn text_bytes(text: &str) -> (bytes: Vec<u8>)
    ensures
        bytes@ == vstd::utf8::encode_utf8(text@),
{
    let source = text.as_bytes();
    let mut bytes: Vec<u8> = Vec::new();
    let mut index: usize = 0;
    while index < source.len()
        invariant
            index <= source@.len(),
            bytes@ == source@.take(index as int),
        decreases source@.len() - index,
    {
        bytes.push(source[index]);
        index += 1;
    }
    assert(bytes@ =~= source@);
    bytes
}

/// The revision of an observation is the condition of the exchange that follows it.
pub proof fn observed_revision_is_the_condition(revision: Option<String>, condition: Option<String>)
    requires
        revision_bytes(condition) == revision_bytes(revision),
        condition is None <==> revision_bytes(revision).len() == 0,
    ensures
        match condition {
            Some(text) => revision is Some && text@ == revision->0@,
            None => revision is None || revision->0@.len() == 0,
        },
{
    if condition is Some && revision is Some {
        crate::text::encoding_is_injective(condition->0@, revision->0@);
    }
    if condition is None && revision is Some {
        let chars = revision->0@;
        if chars.len() > 0 {
            crate::text::encoding_is_injective(chars, Seq::empty());
            assert(vstd::utf8::encode_utf8(chars) =~= vstd::utf8::encode_utf8(Seq::empty()));
        }
    }
}

pub open spec fn too_large(operation: &str) -> Fault {
    corrupt(operation, "object exceeds its size limit")
}

/// The bytes of an object that is read in pieces, up to a limit.
pub struct BoundedBuffer {
    maximum_bytes: usize,
    bytes: Vec<u8>,
}

impl BoundedBuffer {
    pub closed spec fn view(&self) -> Seq<u8> {
        self.bytes@
    }

    pub closed spec fn limit(&self) -> usize {
        self.maximum_bytes
    }

    #[verifier::type_invariant]
    spec fn is_bounded(self) -> bool {
        self.bytes@.len() <= self.maximum_bytes
    }

    /// Start reading an object whose length storage may have told.
    pub fn new(operation: &str, reported: Option<u64>, maximum_bytes: usize) -> (result: Result<
        Self,
        Error,
    >)
        ensures
            match result {
                Ok(buffer) => {
                    &&& reported is Some ==> reported->0 <= maximum_bytes
                    &&& buffer@ == Seq::<u8>::empty()
                    &&& buffer.limit() == maximum_bytes
                },
                Err(error) => reported is Some && reported->0 > maximum_bytes && error.fault()
                    == too_large(operation),
            },
    {
        if let Some(length) = reported {
            if length > maximum_bytes as u64 {
                return Err(Error::corrupt(operation, "object exceeds its size limit"));
            }
        }
        Ok(BoundedBuffer { maximum_bytes, bytes: Vec::new() })
    }

    /// Take in the next piece.
    pub fn push(self, operation: &str, chunk: Vec<u8>) -> (result: Result<Self, Error>)
        ensures
            match result {
                Ok(buffer) => {
                    &&& buffer@ == self@ + chunk@
                    &&& buffer@.len() <= self.limit()
                    &&& buffer.limit() == self.limit()
                },
                Err(error) => self@.len() + chunk@.len() > self.limit() && error.fault()
                    == too_large(operation),
            },
    {
        proof {
            use_type_invariant(&self);
        }
        if chunk.len() > self.maximum_bytes - self.bytes.len() {
            return Err(Error::corrupt(operation, "object exceeds its size limit"));
        }
        let maximum_bytes: usize = self.maximum_bytes;
        let mut bytes = self.bytes;
        let mut chunk = chunk;
        bytes.append(&mut chunk);
        Ok(BoundedBuffer { maximum_bytes, bytes })
    }

    pub fn into_bytes(self) -> (bytes: Vec<u8>)
        ensures
            bytes@ == self@,
            bytes@.len() <= self.limit(),
    {
        proof {
            use_type_invariant(&self);
        }
        self.bytes
    }
}

/// How a conditional write ended.
#[derive(Clone, Copy, Debug, PartialEq, Eq, Structural)]
pub enum WriteEnd {
    Written,
    Failed(StorageFailure),
}

/// Whether a conditional write replaced the object; a failure that is no lost race stays one.
pub fn exchanged(end: WriteEnd) -> (result: Result<bool, StorageFailure>)
    ensures
        result == (match end {
            WriteEnd::Written => Ok(true),
            WriteEnd::Failed(failure) => if storage_kind(failure) == ErrorKind::Conflict {
                Ok(false)
            } else {
                Err(failure)
            },
        }),
{
    match end {
        WriteEnd::Written => Ok(true),
        WriteEnd::Failed(failure) => match failure {
            StorageFailure::AlreadyExists | StorageFailure::ConditionNotMatch => Ok(false),
            _ => Err(failure),
        },
    }
}

// What an authority promises.

/// What is observed of an authority is the head that was read, where it keeps no cursor that it
/// has not reached; the condition of the exchange that follows is the revision that was read,
/// and no revision asks that there is no object yet.
pub proof fn an_exchange_replaces_what_was_observed(
    name: &str,
    control: ObservedControl<AuthorityHead>,
    observed: Result<AuthorityObservation, Error>,
    condition: Result<Option<String>, Error>,
)
    requires
        call_ensures(DefaultAuthorityAccess::observe, (name, Some(control)), observed),
        observed is Ok ==> call_ensures(
            DefaultAuthorityAccess::exchange_condition,
            (name, &observed->Ok_0),
            condition,
        ),
    ensures
        observed is Ok <==> name@ == DEFAULT_AUTHORITY@
            && control.value.minimum_retained_cursor.sequence
            <= control.value.current_commit.change_cursor.sequence,
        observed is Ok ==> {
            &&& observed->Ok_0.head == control.value
            &&& condition is Ok
            &&& match condition->Ok_0 {
                Some(text) => control.revision is Some && text@ == control.revision->0@,
                None => control.revision is None || control.revision->0@.len() == 0,
            }
        },
{
    if observed is Ok {
        let revision = control.revision;
        if condition is Err {
            if revision is Some {
                assert(vstd::utf8::encode_utf8(revision->0@) == observed->Ok_0.revision@);
            } else {
                assert(vstd::utf8::encode_utf8(Seq::<char>::empty()) =~= Seq::<u8>::empty());
            }
        } else {
            observed_revision_is_the_condition(revision, condition->Ok_0);
        }
    }
}

/// A missing head is no position of any authority.
pub proof fn a_missing_head_is_not_observed(
    name: &str,
    observed: Result<AuthorityObservation, Error>,
)
    requires
        call_ensures(DefaultAuthorityAccess::observe, (name, None), observed),
    ensures
        observed is Err,
{
}

/// A collection begins an epoch that no publication was made in, and moves nothing else.
pub proof fn a_collection_begins_a_new_epoch(
    head: AuthorityHead,
    rotated: Result<AuthorityHead, Error>,
)
    requires
        call_ensures(DefaultAuthorityAccess::rotated, (head,), rotated),
    ensures
        rotated is Ok <==> head.gc_epoch@ < u64::MAX,
        rotated matches Ok(next) ==> {
            &&& next.gc_epoch@ > head.gc_epoch@
            &&& next.gc_epoch@ - head.gc_epoch@ == 1
            &&& next.gc_epoch != head.gc_epoch
            &&& next.current_commit == head.current_commit
            &&& next.minimum_retained_cursor == head.minimum_retained_cursor
        },
{
}

/// What ends a collection replaces the head at the revision that the collection began with, by
/// the only root that it was handed; a lost race begins none.
pub proof fn a_collection_replaces_the_head_it_began_with(
    exchanged: bool,
    rotated: AuthorityHead,
    current: AuthorityObservation,
    begun: Result<(CollectionFence, AuthorityRoot), Error>,
    roots: Vec<AuthorityRoot>,
    finished: Result<(AuthorityObservation, AuthorityHead), Error>,
)
    requires
        call_ensures(
            DefaultAuthorityAccess::begin_collection,
            (exchanged, rotated, current),
            begun,
        ),
        begun is Ok ==> call_ensures(
            DefaultAuthorityAccess::finish_collection,
            (begun->Ok_0.0, roots),
            finished,
        ),
    ensures
        begun is Ok <==> exchanged,
        begun matches Ok((fence, root)) ==> {
            &&& fence.epoch == rotated.gc_epoch
            &&& root.head == current.head
            &&& root.id == current.id
            &&& root.name@ == DEFAULT_AUTHORITY@
            &&& finished is Ok <==> roots@.len() == 1 && roots@[0].name@ == DEFAULT_AUTHORITY@
            &&& finished matches Ok((observed, head)) ==> {
                &&& observed.revision@ == current.revision@
                &&& observed.head == roots@[0].head
                &&& observed.id == roots@[0].id
                &&& head == roots@[0].head
            }
        },
{
}

/// An object that is read in pieces is their sequence, and never longer than the limit; a piece
/// is refused only where it would be.
pub proof fn pieces_make_up_a_bounded_object(
    operation: &str,
    buffer: BoundedBuffer,
    chunk: Vec<u8>,
    pushed: Result<BoundedBuffer, Error>,
    bytes: Vec<u8>,
)
    requires
        call_ensures(BoundedBuffer::push, (buffer, operation, chunk), pushed),
        pushed is Ok ==> call_ensures(BoundedBuffer::into_bytes, (pushed->Ok_0,), bytes),
    ensures
        pushed is Ok <==> buffer@.len() + chunk@.len() <= buffer.limit(),
        pushed is Ok ==> bytes@ == buffer@ + chunk@ && bytes@.len() <= buffer.limit(),
{
}

/// A conditional write that lost its race is told apart from one that failed.
pub proof fn a_lost_race_is_no_failure(end: WriteEnd, result: Result<bool, StorageFailure>)
    requires
        call_ensures(exchanged, (end,), result),
    ensures
        result == Ok::<bool, StorageFailure>(true) <==> end is Written,
        result == Ok::<bool, StorageFailure>(false) <==> end == WriteEnd::Failed(
            StorageFailure::AlreadyExists,
        ) || end == WriteEnd::Failed(StorageFailure::ConditionNotMatch),
        result matches Err(failure) ==> end == WriteEnd::Failed(failure),
{
}

} // verus!
