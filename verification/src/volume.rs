//! Volumes: what is stored of their layout, how they are opened, and what is observed of them.

use vstd::prelude::*;

use crate::authority::{AuthorityHead, AuthorityObservation};
use crate::error::{conflict, invalid, not_found, unsupported, Error, ErrorKind, Fault};
use crate::identity::{AuthorityId, GcEpoch, NodeId, VolumeId};
use crate::model::{ChangeCursor, NamespaceCommit, NamespaceRevision};
use crate::namespace::Namespace;
use crate::text::{same_bytes, same_text};
use crate::work::WorkBudget;

verus! {

/// What a storage can do.
#[derive(Clone, Copy, Debug)]
pub struct Capabilities {
    pub read: bool,
    pub write: bool,
    pub write_with_if_not_exists: bool,
    pub write_with_if_match: bool,
}

/// Check that control records can be read, created and exchanged.
pub fn require_control_capabilities(capability: Capabilities) -> (result: Result<(), Error>)
    ensures
        ({
            let able = capability.read && capability.write && capability.write_with_if_not_exists
                && capability.write_with_if_match;
            match result {
                Ok(()) => able,
                Err(error) => !able && error.fault() == unsupported(
                    "open Managed volume",
                    "storage lacks conditional Managed control operations",
                ),
            }
        }),
{
    if capability.read && capability.write && capability.write_with_if_not_exists
        && capability.write_with_if_match {
        return Ok(());
    }
    Err(
        Error::unsupported(
            "open Managed volume",
            "storage lacks conditional Managed control operations",
        ),
    )
}

#[verifier::ext_equal]
pub ghost struct DescriptorView {
    pub name: Seq<char>,
    pub configuration: Seq<u8>,
}

/// The name of an extension and its configuration.
#[derive(Debug)]
pub struct ExtensionDescriptor {
    pub name: String,
    pub configuration: Vec<u8>,
}

impl ExtensionDescriptor {
    pub open spec fn view(&self) -> DescriptorView {
        DescriptorView { name: self.name@, configuration: self.configuration@ }
    }

    pub fn same(&self, other: &Self) -> (result: bool)
        ensures
            result == (self@ == other@),
    {
        same_text(self.name.as_str(), other.name.as_str()) && same_bytes(
            self.configuration.as_slice(),
            other.configuration.as_slice(),
        )
    }
}

pub open spec fn descriptor_view(descriptor: Option<ExtensionDescriptor>) -> Option<
    DescriptorView,
> {
    match descriptor {
        Some(descriptor) => Some(descriptor@),
        None => None,
    }
}

pub open spec fn descriptors_view(descriptors: Seq<ExtensionDescriptor>) -> Seq<DescriptorView> {
    Seq::new(descriptors.len(), |i: int| descriptors[i]@)
}

fn same_descriptor(
    left: &Option<ExtensionDescriptor>,
    right: &Option<ExtensionDescriptor>,
) -> (result: bool)
    ensures
        result == (descriptor_view(*left) == descriptor_view(*right)),
{
    match (left, right) {
        (Some(left), Some(right)) => left.same(right),
        (None, None) => true,
        _ => false,
    }
}

fn same_descriptors(left: &Vec<ExtensionDescriptor>, right: &Vec<ExtensionDescriptor>) -> (result:
    bool)
    ensures
        result == (descriptors_view(left@) == descriptors_view(right@)),
{
    let ghost l = descriptors_view(left@);
    let ghost r = descriptors_view(right@);
    if left.len() != right.len() {
        assert(l.len() != r.len());
        return false;
    }
    let mut index: usize = 0;
    while index < left.len()
        invariant
            index <= left@.len(),
            left@.len() == right@.len(),
            l == descriptors_view(left@),
            r == descriptors_view(right@),
            forall|i: int| 0 <= i < index ==> l[i] == #[trigger] r[i],
        decreases left@.len() - index,
    {
        if !left[index].same(&right[index]) {
            assert(l[index as int] != r[index as int]);
            return false;
        }
        index += 1;
    }
    assert(l =~= r);
    true
}

#[verifier::ext_equal]
pub ghost struct LayoutView {
    pub partitioning: Option<DescriptorView>,
    pub decodings: Seq<DescriptorView>,
    pub segment_target_bytes: u64,
}

/// How the bytes of files are cut, encoded and placed.
#[derive(Debug)]
pub struct FileDataLayout {
    pub partitioning: Option<ExtensionDescriptor>,
    pub decodings: Vec<ExtensionDescriptor>,
    pub segment_target_bytes: u64,
}

impl FileDataLayout {
    pub open spec fn view(&self) -> LayoutView {
        LayoutView {
            partitioning: descriptor_view(self.partitioning),
            decodings: descriptors_view(self.decodings@),
            segment_target_bytes: self.segment_target_bytes,
        }
    }

    /// Whole files, stored as they are.
    pub fn whole_identity(segment_target_bytes: u64) -> (layout: Self)
        ensures
            layout@ == (LayoutView {
                partitioning: None,
                decodings: Seq::empty(),
                segment_target_bytes,
            }),
    {
        let layout = FileDataLayout {
            partitioning: None,
            decodings: Vec::new(),
            segment_target_bytes,
        };
        assert(layout@.decodings =~= Seq::empty());
        layout
    }

    pub fn same(&self, other: &Self) -> (result: bool)
        ensures
            result == (self@ == other@),
    {
        same_descriptor(&self.partitioning, &other.partitioning) && same_descriptors(
            &self.decodings,
            &other.decodings,
        ) && self.segment_target_bytes == other.segment_target_bytes
    }
}

pub ghost struct FormatView {
    pub volume_id: VolumeId,
    pub root: NodeId,
    pub file_data_layout: LayoutView,
    pub authority: Option<DescriptorView>,
}

/// What is stored of a volume once and for all.
#[derive(Debug)]
pub struct VolumeFormat {
    pub volume_id: VolumeId,
    pub root_node_id: NodeId,
    pub file_data_layout: FileDataLayout,
    pub authority: Option<ExtensionDescriptor>,
}

impl VolumeFormat {
    pub open spec fn view(&self) -> FormatView {
        FormatView {
            volume_id: self.volume_id,
            root: self.root_node_id,
            file_data_layout: self.file_data_layout@,
            authority: descriptor_view(self.authority),
        }
    }
}

/// User choices that become a persisted volume format.
#[derive(Debug)]
pub struct CreateOptions {
    file_data_layout: FileDataLayout,
    authority: Option<ExtensionDescriptor>,
}

impl CreateOptions {
    pub closed spec fn layout(&self) -> LayoutView {
        self.file_data_layout@
    }

    pub closed spec fn chosen_authority(&self) -> Option<DescriptorView> {
        descriptor_view(self.authority)
    }

    pub fn new(file_data_layout: FileDataLayout) -> (options: Self)
        ensures
            options.layout() == file_data_layout@,
            options.chosen_authority() is None,
    {
        CreateOptions { file_data_layout, authority: None }
    }

    pub fn with_authority(self, authority: ExtensionDescriptor) -> (options: Self)
        ensures
            options.layout() == self.layout(),
            options.chosen_authority() == Some(authority@),
    {
        CreateOptions { file_data_layout: self.file_data_layout, authority: Some(authority) }
    }

    pub fn file_data_layout(&self) -> (layout: &FileDataLayout)
        ensures
            layout@ == self.layout(),
    {
        &self.file_data_layout
    }

    pub fn authority(&self) -> (authority: Option<&ExtensionDescriptor>)
        ensures
            match authority {
                Some(authority) => self.chosen_authority() == Some(authority@),
                None => self.chosen_authority() is None,
            },
    {
        match &self.authority {
            Some(authority) => Some(authority),
            None => None,
        }
    }

    /// The format of a new volume.
    pub fn into_format(self, volume_id: VolumeId, root: NodeId) -> (format: VolumeFormat)
        ensures
            format@ == (FormatView {
                volume_id,
                root,
                file_data_layout: self.layout(),
                authority: self.chosen_authority(),
            }),
    {
        VolumeFormat {
            volume_id,
            root_node_id: root,
            file_data_layout: self.file_data_layout,
            authority: self.authority,
        }
    }
}

pub ghost struct RuntimeView {
    pub transfer_concurrency: usize,
    pub work_memory_bytes: usize,
    pub read_gap_bytes: usize,
    pub multipart_part_bytes: Option<usize>,
}

/// Runtime transfer and work budgets for one opened volume.
#[derive(Clone, Copy, Debug)]
pub struct VolumeRuntime {
    transfer_concurrency: usize,
    work_memory_bytes: usize,
    read_gap_bytes: usize,
    multipart_part_bytes: Option<usize>,
}

impl VolumeRuntime {
    pub closed spec fn view(&self) -> RuntimeView {
        RuntimeView {
            transfer_concurrency: self.transfer_concurrency,
            work_memory_bytes: self.work_memory_bytes,
            read_gap_bytes: self.read_gap_bytes,
            multipart_part_bytes: self.multipart_part_bytes,
        }
    }

    #[verifier::type_invariant]
    spec fn is_positive(self) -> bool {
        &&& self.transfer_concurrency > 0
        &&& self.work_memory_bytes > 0
        &&& self.multipart_part_bytes matches Some(bytes) ==> bytes > 0
    }

    pub fn new(
        transfer_concurrency: usize,
        work_memory_bytes: usize,
        read_gap_bytes: usize,
        multipart_part_bytes: Option<usize>,
    ) -> (runtime: Self)
        requires
            transfer_concurrency > 0,
            work_memory_bytes > 0,
            multipart_part_bytes matches Some(bytes) ==> bytes > 0,
        ensures
            runtime@ == (RuntimeView {
                transfer_concurrency,
                work_memory_bytes,
                read_gap_bytes,
                multipart_part_bytes,
            }),
    {
        VolumeRuntime {
            transfer_concurrency,
            work_memory_bytes,
            read_gap_bytes,
            multipart_part_bytes,
        }
    }

    /// Four transfers at a time, 256 MiB of memory, and gaps of up to 1 MiB.
    pub fn standard() -> (runtime: Self)
        ensures
            runtime@ == (RuntimeView {
                transfer_concurrency: 4,
                work_memory_bytes: 268435456,
                read_gap_bytes: 1048576,
                multipart_part_bytes: None,
            }),
    {
        VolumeRuntime::new(4, 268435456, 1048576, None)
    }
}

/// What the running access to a volume says of itself.
#[derive(Debug)]
pub struct AccessDescription {
    pub partitioning: Option<ExtensionDescriptor>,
    pub codec: Option<ExtensionDescriptor>,
    pub authority: Option<ExtensionDescriptor>,
}

/// The list of a descriptor, if there is one.
pub open spec fn listed_descriptor(descriptor: Option<DescriptorView>) -> Seq<DescriptorView> {
    match descriptor {
        Some(descriptor) => seq![descriptor],
        None => Seq::empty(),
    }
}

/// The access cuts, encodes and publishes as the format says.
pub open spec fn access_fits(format: FormatView, access: &AccessDescription) -> bool {
    &&& format.file_data_layout.partitioning == descriptor_view(access.partitioning)
    &&& format.file_data_layout.decodings == listed_descriptor(descriptor_view(access.codec))
    &&& format.authority == descriptor_view(access.authority)
}

pub open spec fn access_fault() -> Fault {
    unsupported("open Managed volume", "runtime access does not match the persisted format")
}

/// Check that the running access is the one that the format names.
pub fn validate_access(format: &VolumeFormat, access: &AccessDescription) -> (result: Result<
    (),
    Error,
>)
    ensures
        match result {
            Ok(()) => access_fits(format@, access),
            Err(error) => !access_fits(format@, access) && error.fault() == access_fault(),
        },
{
    let layout = &format.file_data_layout;
    let decodings_fit = match &access.codec {
        Some(codec) => layout.decodings.len() == 1 && layout.decodings[0].same(codec),
        None => layout.decodings.len() == 0,
    };
    proof {
        let stored = descriptors_view(layout.decodings@);
        let wanted = listed_descriptor(descriptor_view(access.codec));
        assert(stored.len() == layout.decodings@.len());
        if decodings_fit {
            assert(stored =~= wanted);
        } else if stored == wanted {
            if access.codec is Some {
                assert(stored.len() == 1);
                assert(stored[0] == wanted[0]);
                assert(stored[0] == layout.decodings@[0]@);
            } else {
                assert(stored.len() == 0);
            }
        }
    }
    if !same_descriptor(&layout.partitioning, &access.partitioning) || !decodings_fit
        || !same_descriptor(&format.authority, &access.authority) {
        return Err(
            Error::unsupported(
                "open Managed volume",
                "runtime access does not match the persisted format",
            ),
        );
    }
    Ok(())
}

/// Check that a volume which is already there has the wanted layout.
pub fn adopt_layout(existing: &VolumeFormat, wanted: &VolumeFormat) -> (result: Result<(), Error>)
    ensures
        ({
            let fits = existing@.file_data_layout == wanted@.file_data_layout && existing@.authority
                == wanted@.authority;
            match result {
                Ok(()) => fits,
                Err(error) => !fits && error.fault() == conflict(
                    "create Managed volume",
                    "storage already contains a different volume layout",
                ),
            }
        }),
{
    if !existing.file_data_layout.same(&wanted.file_data_layout) || !same_descriptor(
        &existing.authority,
        &wanted.authority,
    ) {
        return Err(
            Error::conflict(
                "create Managed volume",
                "storage already contains a different volume layout",
            ),
        );
    }
    Ok(())
}

/// The format of a volume that is to be opened must be there.
pub fn require_volume_format(format: Option<VolumeFormat>) -> (result: Result<VolumeFormat, Error>)
    ensures
        match result {
            Ok(found) => format == Some(found),
            Err(error) => format is None && error.fault() == not_found(
                "open Managed volume",
                "volume format is missing",
            ),
        },
{
    match format {
        Some(format) => Ok(format),
        None => Err(
            Error::new(ErrorKind::NotFound, "open Managed volume", "volume format is missing"),
        ),
    }
}

/// The head of a volume that nothing was published in.
pub fn genesis_head(commit: NamespaceRevision) -> (head: AuthorityHead)
    ensures
        head.current_commit == commit,
        head.gc_epoch@ == 0,
        head.minimum_retained_cursor.sequence == 0,
{
    AuthorityHead {
        current_commit: commit,
        gc_epoch: GcEpoch::zero(),
        minimum_retained_cursor: ChangeCursor::genesis(),
    }
}

/// The share of the work memory that one of several transfers has: at least a byte.
pub open spec fn share(memory_bytes: usize, transfers: usize) -> int {
    if memory_bytes / transfers > 0 {
        (memory_bytes / transfers) as int
    } else {
        1
    }
}

fn one_share(memory_bytes: usize, transfers: usize) -> (bytes: usize)
    requires
        transfers > 0,
    ensures
        bytes == share(memory_bytes, transfers),
{
    let bytes: usize = memory_bytes / transfers;
    if bytes > 0 {
        bytes
    } else {
        1
    }
}

pub ghost struct VolumeView {
    pub format: FormatView,
    pub memory_bytes: usize,
    pub stream_concurrency: usize,
    pub read_gap_bytes: usize,
    pub multipart_part_bytes: usize,
    pub authority_name: Seq<char>,
}

/// Opened Managed volume, apart from the storage behind it.
#[derive(Debug)]
pub struct ManagedVolume {
    format: VolumeFormat,
    multipart_part_bytes: usize,
    work_budget: WorkBudget,
    stream_concurrency: usize,
    read_gap_bytes: usize,
    authority_name: String,
}

impl ManagedVolume {
    pub closed spec fn view(&self) -> VolumeView {
        VolumeView {
            format: self.format@,
            memory_bytes: self.work_budget.run_bytes(),
            stream_concurrency: self.stream_concurrency,
            read_gap_bytes: self.read_gap_bytes,
            multipart_part_bytes: self.multipart_part_bytes,
            authority_name: self.authority_name@,
        }
    }

    #[verifier::type_invariant]
    spec fn is_opened(self) -> bool {
        &&& self.stream_concurrency > 0
        &&& self.multipart_part_bytes > 0
        &&& self.work_budget.width() == self.stream_concurrency + 1
    }

    /// Open a volume of a format with the access and the budgets of a process.
    pub fn from_parts(
        format: VolumeFormat,
        access: &AccessDescription,
        runtime: VolumeRuntime,
        authority_name: String,
    ) -> (result: Result<Self, Error>)
        ensures
            match result {
                Ok(volume) => {
                    &&& runtime@.transfer_concurrency < usize::MAX
                    &&& access_fits(format@, access)
                    &&& volume@ == (VolumeView {
                        format: format@,
                        memory_bytes: runtime@.work_memory_bytes,
                        stream_concurrency: runtime@.transfer_concurrency,
                        read_gap_bytes: runtime@.read_gap_bytes,
                        multipart_part_bytes: match runtime@.multipart_part_bytes {
                            Some(bytes) => bytes,
                            None => share(
                                runtime@.work_memory_bytes,
                                runtime@.transfer_concurrency,
                            ) as usize,
                        },
                        authority_name: authority_name@,
                    })
                },
                Err(error) => if runtime@.transfer_concurrency == usize::MAX {
                    error.fault() == invalid("configure local work", "stream concurrency overflows")
                } else {
                    !access_fits(format@, access) && error.fault() == access_fault()
                },
            },
    {
        proof {
            use_type_invariant(&runtime);
        }
        let work_budget = match WorkBudget::new(
            runtime.work_memory_bytes,
            runtime.transfer_concurrency,
        ) {
            Ok(budget) => budget,
            Err(error) => {
                return Err(error);
            },
        };
        let multipart_part_bytes: usize = match runtime.multipart_part_bytes {
            Some(bytes) => bytes,
            None => one_share(work_budget.memory_target_bytes(), runtime.transfer_concurrency),
        };
        match validate_access(&format, access) {
            Ok(()) => {},
            Err(error) => {
                return Err(error);
            },
        }
        Ok(
            ManagedVolume {
                format,
                multipart_part_bytes,
                work_budget,
                stream_concurrency: runtime.transfer_concurrency,
                read_gap_bytes: runtime.read_gap_bytes,
                authority_name,
            },
        )
    }

    pub fn format(&self) -> (format: &VolumeFormat)
        ensures
            format@ == self@.format,
    {
        &self.format
    }

    pub fn id(&self) -> (id: VolumeId)
        ensures
            id == self@.format.volume_id,
    {
        self.format.volume_id
    }

    pub fn authority_name(&self) -> (name: &str)
        ensures
            name@ == self@.authority_name,
    {
        self.authority_name.as_str()
    }

    pub fn work_budget(&self) -> (budget: WorkBudget)
        ensures
            budget.run_bytes() == self@.memory_bytes,
            budget.width() == self@.stream_concurrency + 1,
    {
        proof {
            use_type_invariant(self);
        }
        self.work_budget
    }

    pub fn stream_concurrency(&self) -> (count: usize)
        ensures
            count == self@.stream_concurrency,
            count > 0,
    {
        proof {
            use_type_invariant(self);
        }
        self.stream_concurrency
    }

    pub fn multipart_part_bytes(&self) -> (bytes: usize)
        ensures
            bytes == self@.multipart_part_bytes,
            bytes > 0,
    {
        proof {
            use_type_invariant(self);
        }
        self.multipart_part_bytes
    }

    pub fn read_gap_bytes(&self) -> (bytes: usize)
        ensures
            bytes == self@.read_gap_bytes,
    {
        self.read_gap_bytes
    }

    /// The bytes that one transfer may hold.
    pub fn transfer_window_bytes(&self) -> (bytes: usize)
        ensures
            bytes == share(self@.memory_bytes, self@.stream_concurrency),
            bytes > 0,
    {
        proof {
            use_type_invariant(self);
        }
        one_share(self.work_budget.memory_target_bytes(), self.stream_concurrency)
    }
}

/// A revision is kept: its sequence number lies between the oldest that is kept and the
/// current one.
pub open spec fn is_kept(head: AuthorityHead, revision: NamespaceRevision) -> bool {
    head.minimum_retained_cursor.sequence <= revision.sequence() <= head.current_commit.sequence()
}

/// The namespace of a volume at one moment.
#[derive(Debug)]
pub struct ManagedObservation {
    pub namespace: Namespace,
    pub authority: AuthorityObservation,
    pub commit: NamespaceCommit,
}

impl ManagedObservation {
    pub fn namespace(&self) -> (namespace: &Namespace)
        ensures
            namespace@ == self.namespace@,
    {
        &self.namespace
    }

    pub fn authority_id(&self) -> (id: AuthorityId)
        ensures
            id == self.authority.id,
    {
        self.authority.id
    }

    pub fn revision(&self) -> (revision: NamespaceRevision)
        ensures
            revision == self.authority.head.current_commit,
    {
        self.authority.head.current_commit
    }

    pub fn can_read_revision(&self, revision: NamespaceRevision) -> (result: bool)
        ensures
            result == is_kept(self.authority.head, revision),
    {
        let sequence: u64 = revision.cursor().sequence();
        let head = self.authority.head;
        sequence >= head.minimum_retained_cursor.sequence() && sequence
            <= head.current_commit.cursor().sequence()
    }

    pub fn gc_epoch(&self) -> (epoch: GcEpoch)
        ensures
            epoch == self.authority.head.gc_epoch,
    {
        self.authority.head.gc_epoch
    }
}

/// The commit through which the namespace of an earlier revision is read.
pub open spec fn base_commit_of(head: AuthorityHead, base: NamespaceRevision) -> NamespaceRevision {
    if base.change_cursor == head.minimum_retained_cursor && base.object.locator.gc_epoch@
        < head.current_commit.object.locator.gc_epoch@ {
        head.current_commit
    } else {
        base
    }
}

/// The commit through which the namespace of a base is read along with the current one, if
/// it can be: it is earlier than the current one and still kept. A base that a collection
/// compacted is read through the current commit.
pub fn base_commit(head: AuthorityHead, base: Option<NamespaceRevision>) -> (result: Option<
    (NamespaceRevision, ChangeCursor),
>)
    ensures
        match base {
            None => result is None,
            Some(base) => if is_kept(head, base) && base.sequence()
                < head.current_commit.sequence() {
                result == Some((base_commit_of(head, base), base.change_cursor))
            } else {
                result is None
            },
        },
{
    let base = match base {
        Some(base) => base,
        None => {
            return None;
        },
    };
    let sequence: u64 = base.cursor().sequence();
    if sequence < head.minimum_retained_cursor.sequence() || sequence
        >= head.current_commit.cursor().sequence() {
        return None;
    }
    if base.cursor() == head.minimum_retained_cursor
        && base.object.locator.gc_epoch.value() < head.current_commit.object.locator.gc_epoch.value() {
        Some((head.current_commit, base.cursor()))
    } else {
        Some((base, base.cursor()))
    }
}

/// What is observed can be read, and so can the base of a compacted head: its own commit.
pub proof fn current_revisions_are_kept(head: AuthorityHead)
    requires
        head.minimum_retained_cursor.sequence <= head.current_commit.sequence(),
    ensures
        is_kept(head, head.current_commit),
        base_commit_of(head, head.current_commit) == head.current_commit,
{
}

// Laws of access.

/// A volume is opened only with the authority, the partitioning and the codec that its format
/// names.
pub proof fn a_volume_opens_with_what_its_format_names(
    format: &VolumeFormat,
    access: &AccessDescription,
    result: Result<(), Error>,
)
    requires
        call_ensures(validate_access, (format, access), result),
        result is Ok,
    ensures
        format.authority is Some == access.authority is Some,
        format.authority is Some ==> {
            &&& format.authority->0.name@ == access.authority->0.name@
            &&& format.authority->0.configuration@ == access.authority->0.configuration@
        },
        format.file_data_layout.partitioning is Some == access.partitioning is Some,
        format.file_data_layout.partitioning is Some ==> {
            &&& format.file_data_layout.partitioning->0.name@ == access.partitioning->0.name@
            &&& format.file_data_layout.partitioning->0.configuration@
                == access.partitioning->0.configuration@
        },
        format.file_data_layout.decodings@.len() == if access.codec is Some {
            1int
        } else {
            0
        },
        access.codec matches Some(codec) ==> {
            &&& format.file_data_layout.decodings@[0].name@ == codec.name@
            &&& format.file_data_layout.decodings@[0].configuration@ == codec.configuration@
        },
{
    let stored = descriptors_view(format.file_data_layout.decodings@);
    assert(stored.len() == format.file_data_layout.decodings@.len());
    if access.codec is Some {
        assert(stored[0] == access.codec->0@);
    }
}

/// An access that names what a format names opens its volume.
pub proof fn what_a_format_names_opens_its_volume(
    format: &VolumeFormat,
    access: &AccessDescription,
    result: Result<(), Error>,
)
    requires
        call_ensures(validate_access, (format, access), result),
        format.authority is Some == access.authority is Some,
        format.authority is Some ==> {
            &&& format.authority->0.name@ == access.authority->0.name@
            &&& format.authority->0.configuration@ == access.authority->0.configuration@
        },
        format.file_data_layout.partitioning is Some == access.partitioning is Some,
        format.file_data_layout.partitioning is Some ==> {
            &&& format.file_data_layout.partitioning->0.name@ == access.partitioning->0.name@
            &&& format.file_data_layout.partitioning->0.configuration@
                == access.partitioning->0.configuration@
        },
        format.file_data_layout.decodings@.len() == if access.codec is Some {
            1int
        } else {
            0
        },
        access.codec matches Some(codec) ==> {
            &&& format.file_data_layout.decodings@[0].name@ == codec.name@
            &&& format.file_data_layout.decodings@[0].configuration@ == codec.configuration@
        },
    ensures
        result is Ok,
{
    let stored = descriptors_view(format.file_data_layout.decodings@);
    let wanted = listed_descriptor(descriptor_view(access.codec));
    assert(stored =~= wanted);
}

/// Formats that one access opens agree in authority, partitioning and decodings: of two that
/// differ in their authority no access opens both.
pub proof fn one_access_opens_formats_that_agree(
    left: VolumeFormat,
    right: VolumeFormat,
    access: &AccessDescription,
    runtime: VolumeRuntime,
    name: String,
    first: Result<ManagedVolume, Error>,
    second: Result<ManagedVolume, Error>,
)
    requires
        call_ensures(ManagedVolume::from_parts, (left, access, runtime, name), first),
        call_ensures(ManagedVolume::from_parts, (right, access, runtime, name), second),
        first is Ok,
        second is Ok,
    ensures
        left@.authority == right@.authority,
        left@.file_data_layout.partitioning == right@.file_data_layout.partitioning,
        left@.file_data_layout.decodings == right@.file_data_layout.decodings,
{
}

/// Accesses that open one format name the same authority, partitioning and codec.
pub proof fn accesses_that_open_one_format_agree(
    format: FormatView,
    left: &AccessDescription,
    right: &AccessDescription,
)
    requires
        access_fits(format, left),
        access_fits(format, right),
    ensures
        descriptor_view(left.authority) == descriptor_view(right.authority),
        descriptor_view(left.partitioning) == descriptor_view(right.partitioning),
        descriptor_view(left.codec) == descriptor_view(right.codec),
{
    let one = listed_descriptor(descriptor_view(left.codec));
    let other = listed_descriptor(descriptor_view(right.codec));
    assert(one.len() == other.len());
    if one.len() > 0 {
        assert(one[0] == other[0]);
    }
}

/// An opened volume is that of the format, under the name and with the budgets that it was
/// opened with; the parts of its uploads take no more than the memory of one transfer where
/// nothing else is asked for.
pub proof fn an_opened_volume_is_that_of_its_format(
    format: VolumeFormat,
    access: &AccessDescription,
    runtime: VolumeRuntime,
    name: String,
    result: Result<ManagedVolume, Error>,
)
    requires
        call_ensures(ManagedVolume::from_parts, (format, access, runtime, name), result),
        runtime@.transfer_concurrency > 0,
    ensures
        result matches Ok(volume) ==> {
            &&& volume@.format == format@
            &&& volume@.authority_name == name@
            &&& volume@.memory_bytes == runtime@.work_memory_bytes
            &&& volume@.stream_concurrency == runtime@.transfer_concurrency
            &&& volume@.read_gap_bytes == runtime@.read_gap_bytes
            &&& runtime@.multipart_part_bytes matches Some(bytes) ==> volume@.multipart_part_bytes
                == bytes
            &&& runtime@.multipart_part_bytes is None ==> volume@.multipart_part_bytes >= 1 && (
            volume@.multipart_part_bytes * runtime@.transfer_concurrency
                <= runtime@.work_memory_bytes || volume@.multipart_part_bytes == 1) && (
            volume@.multipart_part_bytes + 1) * runtime@.transfer_concurrency
                > runtime@.work_memory_bytes
        },
{
    shares_are_equal(runtime@.work_memory_bytes, runtime@.transfer_concurrency);
}

/// A volume that is already there is adopted exactly if it cuts, encodes and places files as
/// wanted and has the wanted authority; its identity and its root may be others.
pub proof fn a_volume_is_adopted_by_its_layout(
    existing: &VolumeFormat,
    wanted: &VolumeFormat,
    result: Result<(), Error>,
)
    requires
        call_ensures(adopt_layout, (existing, wanted), result),
    ensures
        result is Ok <==> {
            let old_layout = existing.file_data_layout;
            let layout = wanted.file_data_layout;
            &&& descriptor_view(old_layout.partitioning) == descriptor_view(layout.partitioning)
            &&& descriptors_view(old_layout.decodings@) == descriptors_view(layout.decodings@)
            &&& old_layout.segment_target_bytes == layout.segment_target_bytes
            &&& descriptor_view(existing.authority) == descriptor_view(wanted.authority)
        },
{
}

/// An observed volume reads exactly the revisions from the oldest that is kept up to the
/// current one.
pub proof fn kept_revisions_are_readable(
    observation: &ManagedObservation,
    revision: NamespaceRevision,
    result: bool,
)
    requires
        call_ensures(ManagedObservation::can_read_revision, (observation, revision), result),
    ensures
        result <==> {
            let head = observation.authority.head;
            &&& head.minimum_retained_cursor.sequence <= revision.change_cursor.sequence
            &&& revision.change_cursor.sequence <= head.current_commit.change_cursor.sequence
        },
{
}

/// A base is read at its own cursor, through its own commit or the current one, exactly if it is
/// kept and older than the current one. The current commit stands in only for the oldest that is
/// kept, and only if that was written in an earlier epoch.
pub proof fn a_base_is_read_at_its_cursor(
    head: AuthorityHead,
    base: NamespaceRevision,
    result: Option<(NamespaceRevision, ChangeCursor)>,
)
    requires
        call_ensures(base_commit, (head, Some(base)), result),
    ensures
        result is Some <==> head.minimum_retained_cursor.sequence <= base.change_cursor.sequence
            < head.current_commit.change_cursor.sequence,
        result matches Some((commit, cursor)) ==> {
            &&& cursor == base.change_cursor
            &&& commit == base || commit == head.current_commit
            &&& commit != base ==> base.change_cursor == head.minimum_retained_cursor
                && base.object.locator.gc_epoch@ < head.current_commit.object.locator.gc_epoch@
            &&& base.change_cursor == head.minimum_retained_cursor && base.object.locator.gc_epoch@
                < head.current_commit.object.locator.gc_epoch@ ==> commit == head.current_commit
        },
{
}

/// One transfer holds an equal share of the work memory: all transfers together stay within it,
/// and one byte more for each would not; at least a byte is held.
pub proof fn transfers_share_the_memory(volume: &ManagedVolume, bytes: usize)
    requires
        call_ensures(ManagedVolume::transfer_window_bytes, (volume,), bytes),
        volume@.stream_concurrency > 0,
    ensures
        bytes >= 1,
        bytes * volume@.stream_concurrency <= volume@.memory_bytes || bytes == 1,
        (bytes + 1) * volume@.stream_concurrency > volume@.memory_bytes,
{
    shares_are_equal(volume@.memory_bytes, volume@.stream_concurrency);
}

proof fn shares_are_equal(memory: usize, transfers: usize)
    requires
        transfers > 0,
    ensures
        1 <= share(memory, transfers) <= usize::MAX,
        share(memory, transfers) * transfers <= memory || share(memory, transfers) == 1,
        (share(memory, transfers) + 1) * transfers > memory,
{
    let m = memory as int;
    let t = transfers as int;
    let q = m / t;
    vstd::arithmetic::div_mod::lemma_fundamental_div_mod(m, t);
    vstd::arithmetic::div_mod::lemma_mod_bound(m, t);
    assert(t * q == q * t) by (nonlinear_arith);
    assert((q + 1) * t == q * t + t) by (nonlinear_arith);
    assert(2 * t >= t && (1 + 1) * t == 2 * t) by (nonlinear_arith)
        requires
            t > 0,
    ;
    assert(0 <= q <= m) by (nonlinear_arith)
        requires
            m >= 0,
            t > 0,
            q == m / t,
    ;
}

} // verus!
