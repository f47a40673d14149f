//! The objects of a filesystem: where they stand, and how reads and writes of them end.

use vstd::prelude::*;
use vstd::utf8::encode_utf8;

use crate::authority::WriteEnd;
use crate::error::{corrupt, unsupported, Error, Fault, StorageFailure};
use crate::filesystem::{BlobRefView, ContentId};
use crate::hash::{content_id, content_is_unique, is_content_of};
use crate::persistence::{
    decode_head, decode_version, head_bytes_fault, holds_entries, stores_head, stores_version,
    version_bytes_fault, wire_blob, wire_ordered, Snapshot, StoredRef, MAX_VERSION_BYTES,
};
use crate::text::{hex_of, same_bytes, to_hex};
use crate::volume::Capabilities;
use crate::wire::WireVersionView;

verus! {

/// Where the head of a filesystem stands.
pub const HEAD_PATH: &'static str = ".yinyang/head";

/// What the paths of versions begin with.
pub const VERSION_PREFIX: &'static str = ".yinyang/versions/";

/// Check that versions can be created once and that the head can be exchanged.
pub fn validate_operator(capability: Capabilities) -> (result: Result<(), Error>)
    ensures
        ({
            let able = capability.read && capability.write && capability.write_with_if_match
                && capability.write_with_if_not_exists;
            match result {
                Ok(()) => able,
                Err(error) => !able && error.fault() == unsupported(
                    "use YinYang filesystem",
                    "OpenDAL backend must support read, write, create-if-absent, and ETag if-match",
                ),
            }
        }),
{
    if !capability.read || !capability.write || !capability.write_with_if_match
        || !capability.write_with_if_not_exists {
        return Err(
            Error::unsupported(
                "use YinYang filesystem",
                "OpenDAL backend must support read, write, create-if-absent, and ETag if-match",
            ),
        );
    }
    Ok(())
}

/// The path of a version: a prefix and the digest of its bytes.
pub open spec fn version_path_of(content: ContentId) -> Seq<char> {
    VERSION_PREFIX@ + hex_of(content.digest@)
}

pub fn version_path(content: ContentId) -> (path: String)
    ensures
        path@ == version_path_of(content),
{
    let mut path = VERSION_PREFIX.to_owned();
    let digest = to_hex(content.digest().as_bytes().as_slice());
    path.append(digest.as_str());
    path
}

/// The reference to a version.
pub open spec fn version_reference_of(content: ContentId) -> BlobRefView {
    BlobRefView { reference: encode_utf8(version_path_of(content)), content }
}

/// The reference to a version of some content.
pub fn version_reference(content: ContentId) -> (reference: StoredRef)
    ensures
        reference@ == version_reference_of(content),
{
    let path = version_path(content);
    let source = path.as_str().as_bytes();
    let mut bytes: Vec<u8> = Vec::new();
    let mut index: usize = 0;
    while index < source.len()
        invariant
            index <= source@.len(),
            bytes@ == source@.take(index as int),
        decreases source@.len() - index,
    {
        bytes.push(source[index]);
        index += 1;
    }
    assert(source@.take(index as int) =~= source@);
    StoredRef::new(bytes, content)
}

/// Whether an object that is created once was there already; a failure that is no lost race
/// stays one.
pub fn existed(end: WriteEnd) -> (result: Result<bool, StorageFailure>)
    ensures
        result == (match end {
            WriteEnd::Written => Ok(false),
            WriteEnd::Failed(StorageFailure::AlreadyExists) => Ok(true),
            WriteEnd::Failed(StorageFailure::ConditionNotMatch) => Ok(true),
            WriteEnd::Failed(failure) => Err(failure),
        }),
{
    match end {
        WriteEnd::Written => Ok(false),
        WriteEnd::Failed(StorageFailure::AlreadyExists) => Ok(true),
        WriteEnd::Failed(StorageFailure::ConditionNotMatch) => Ok(true),
        WriteEnd::Failed(failure) => Err(failure),
    }
}

/// Whether the head was replaced; it was not where it had changed or had gone.
pub fn replaced(end: WriteEnd) -> (result: Result<bool, StorageFailure>)
    ensures
        result == (match end {
            WriteEnd::Written => Ok(true),
            WriteEnd::Failed(StorageFailure::ConditionNotMatch) => Ok(false),
            WriteEnd::Failed(StorageFailure::NotFound) => Ok(false),
            WriteEnd::Failed(failure) => Err(failure),
        }),
{
    match end {
        WriteEnd::Written => Ok(true),
        WriteEnd::Failed(StorageFailure::ConditionNotMatch) => Ok(false),
        WriteEnd::Failed(StorageFailure::NotFound) => Ok(false),
        WriteEnd::Failed(failure) => Err(failure),
    }
}

/// The reference names the path of its content, and a version of that length is possible.
pub open spec fn names_version(reference: BlobRefView) -> bool {
    reference == version_reference_of(reference.content) && reference.content.length
        <= MAX_VERSION_BYTES
}

pub open spec fn version_fault(message: &str) -> Fault {
    corrupt("read YinYang version", message)
}

/// The path to read a version from.
pub fn check_version_reference(reference: &StoredRef) -> (result: Result<String, Error>)
    ensures
        match result {
            Ok(path) => names_version(reference@) && path@ == version_path_of(reference@.content),
            Err(error) => !names_version(reference@) && error.fault() == version_fault(
                "version reference is invalid",
            ),
        },
{
    let path = version_path(reference.content());
    if !same_bytes(reference.as_bytes(), path.as_str().as_bytes()) || reference.content().length()
        > MAX_VERSION_BYTES as u64 {
        return Err(Error::corrupt("read YinYang version", "version reference is invalid"));
    }
    Ok(path)
}

/// Why the object that was read does not hold the version of a content.
pub open spec fn read_version_fault(content: ContentId, bytes: Option<Seq<u8>>) -> Option<Fault> {
    match bytes {
        None => Some(version_fault("referenced version is missing")),
        Some(bytes) => if !is_content_of(content, bytes) {
            Some(version_fault("version does not match its reference"))
        } else {
            version_bytes_fault(bytes)
        },
    }
}

pub open spec fn bytes_view(bytes: Option<Vec<u8>>) -> Option<Seq<u8>> {
    match bytes {
        Some(bytes) => Some(bytes@),
        None => None,
    }
}

/// The version that was read for a reference.
pub fn read_version(reference: &StoredRef, object: Option<Vec<u8>>) -> (result: Result<
    Snapshot,
    Error,
>)
    ensures
        match result {
            Ok(snapshot) => {
                &&& read_version_fault(reference@.content, bytes_view(object)) is None
                &&& wire_ordered(snapshot@.entries)
                &&& exists|version: WireVersionView| #[trigger]
                    stores_version(object->0@, version) && holds_entries(
                        snapshot@.entries,
                        version.entries,
                    ) && snapshot@.commits == version.commits
            },
            Err(error) => read_version_fault(reference@.content, bytes_view(object)) == Some(
                error.fault(),
            ),
        },
{
    let bytes = match object {
        Some(bytes) => bytes,
        None => {
            return Err(Error::corrupt("read YinYang version", "referenced version is missing"));
        },
    };
    let content = content_id(bytes.as_slice());
    if content != reference.content() {
        proof {
            if is_content_of(reference@.content, bytes@) {
                content_is_unique(content, reference@.content, bytes@);
            }
        }
        return Err(
            Error::corrupt("read YinYang version", "version does not match its reference"),
        );
    }
    decode_version(bytes.as_slice())
}

/// A version that was written is read back: the reference to the content of bytes that store
/// a version names them, and reading them finds no fault.
pub proof fn written_versions_are_readable(
    bytes: Seq<u8>,
    content: ContentId,
    version: WireVersionView,
)
    requires
        is_content_of(content, bytes),
        stores_version(bytes, version),
        version_bytes_fault(bytes) is None,
    ensures
        names_version(version_reference_of(content)),
        read_version_fault(content, Some(bytes)) is None,
{
}

/// The head that was read, with the revision of its object.
#[derive(Debug)]
pub struct ObservedHead {
    pub version: StoredRef,
    pub etag: String,
}

pub open spec fn observed_head_fault(bytes: Seq<u8>, has_etag: bool) -> Option<Fault> {
    if !has_etag {
        Some(
            unsupported(
                "observe YinYang head",
                "OpenDAL backend did not return an ETag with the head read",
            ),
        )
    } else {
        head_bytes_fault(bytes)
    }
}

/// The head that was read, if there is one.
pub fn observe_head(object: Option<(Vec<u8>, Option<String>)>) -> (result: Result<
    Option<ObservedHead>,
    Error,
>)
    ensures
        match object {
            None => result matches Ok(None),
            Some((bytes, etag)) => match result {
                Ok(Some(head)) => {
                    &&& observed_head_fault(bytes@, etag is Some) is None
                    &&& stores_head(bytes@, wire_blob(head.version@))
                    &&& etag matches Some(revision)
                    &&& head.etag@ == revision@
                },
                Ok(None) => false,
                Err(error) => observed_head_fault(bytes@, etag is Some) == Some(error.fault()),
            },
        },
{
    let (bytes, etag) = match object {
        Some(object) => object,
        None => {
            return Ok(None);
        },
    };
    let etag = match etag {
        Some(etag) => etag,
        None => {
            return Err(
                Error::unsupported(
                    "observe YinYang head",
                    "OpenDAL backend did not return an ETag with the head read",
                ),
            );
        },
    };
    match decode_head(bytes.as_slice()) {
        Ok(version) => Ok(Some(ObservedHead { version, etag })),
        Err(error) => Err(error),
    }
}

// What reads and writes promise.

/// Versions stand at the path of their content, and different digests have different paths; a
/// reference is followed exactly if it names the path of its own content, to which it leads.
pub proof fn references_lead_to_their_content(reference: &StoredRef, result: Result<String, Error>)
    requires
        call_ensures(check_version_reference, (reference,), result),
    ensures
        result is Ok <==> reference@.reference == encode_utf8(
            VERSION_PREFIX@ + hex_of(reference@.content.digest@),
        ) && reference@.content.length <= MAX_VERSION_BYTES,
        result matches Ok(path) ==> encode_utf8(path@) == reference@.reference,
{
}

/// A version is read only from the bytes of its content.
pub proof fn versions_are_read_from_their_bytes(
    reference: &StoredRef,
    object: Option<Vec<u8>>,
    result: Result<Snapshot, Error>,
)
    requires
        call_ensures(read_version, (reference, object), result),
    ensures
        result is Ok ==> {
            &&& object is Some
            &&& object->0@.len() == reference@.content.length
            &&& crate::hash::digest_of(object->0@) == reference@.content.digest@
        },
{
}

/// A version that is already there need not be written again, and a head that has changed or
/// gone is not replaced; any other failure stays one. A storage is used only if it can read,
/// write, create once and exchange.
pub proof fn lost_races_are_told_from_failures(
    end: WriteEnd,
    created: Result<bool, StorageFailure>,
    exchanged: Result<bool, StorageFailure>,
    capability: Capabilities,
    usable: Result<(), Error>,
)
    requires
        call_ensures(existed, (end,), created),
        call_ensures(replaced, (end,), exchanged),
        call_ensures(validate_operator, (capability,), usable),
    ensures
        end is Written <==> created == Ok::<bool, StorageFailure>(false),
        end is Written <==> exchanged == Ok::<bool, StorageFailure>(true),
        created == Ok::<bool, StorageFailure>(true) <==> end == WriteEnd::Failed(
            StorageFailure::AlreadyExists,
        ) || end == WriteEnd::Failed(StorageFailure::ConditionNotMatch),
        exchanged == Ok::<bool, StorageFailure>(false) <==> end == WriteEnd::Failed(
            StorageFailure::ConditionNotMatch,
        ) || end == WriteEnd::Failed(StorageFailure::NotFound),
        created matches Err(failure) ==> end == WriteEnd::Failed(failure),
        exchanged matches Err(failure) ==> end == WriteEnd::Failed(failure),
        usable is Ok <==> capability.read && capability.write && capability.write_with_if_match
            && capability.write_with_if_not_exists,
{
}

/// A head is observed only with the revision of its object, and none where there is no object.
pub proof fn heads_come_with_their_revision(
    object: Option<(Vec<u8>, Option<String>)>,
    result: Result<Option<ObservedHead>, Error>,
)
    requires
        call_ensures(observe_head, (object,), result),
    ensures
        object is None ==> result matches Ok(None),
        object matches Some((bytes, etag)) ==> {
            &&& etag is None ==> result is Err
            &&& result is Ok ==> result->Ok_0 is Some && etag is Some && result->Ok_0->0.etag@
                == etag->0@
        },
{
}

} // verus!
