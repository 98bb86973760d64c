//! Firmware interface values: status code classification, memory-descriptor
//! typing, configuration-table lookup, and folding the raw memory map into
//! a `RangeSet` of usable memory.

use crate::mm::{le32, le64};
use crate::rangeset::{self, covered, Range, RangeSet, MAX_ENTRIES};
use vstd::prelude::*;

verus! {

/// Errors from firmware interface handling.
#[derive(Debug)]
pub enum Error {
    /// The firmware system table has not been registered.
    NotRegistered,
    /// Firmware did not report a topology table address.
    AcpiTableNotFound,
    /// The firmware system table was not found.
    EfiSystemTableNotFound,
    /// Getting the memory map from firmware failed.
    MemoryMap(EfiStatus),
    /// The memory map did not fit within the bounds it reported.
    MemoryMapOutOfBounds,
    /// Exiting firmware boot services failed.
    ExitBootServices(EfiStatus),
    /// An integer overflow occurred while processing memory map data.
    MemoryMapIntegerOverflow,
    /// The memory map had more entries than the fixed-size set allows.
    MemoryMapOutOfEntries,
    /// Constructing the memory map `RangeSet` failed.
    MemoryRangeSet(rangeset::Error),
}

/// A firmware handle value.
#[derive(Debug, Clone, Copy)]
pub struct EfiHandle(pub usize);

/// A raw firmware status code.
#[derive(Clone, Copy, Debug)]
pub struct EfiStatusCode(pub usize);

/// A classified firmware status.
#[derive(Debug, Clone, Copy, PartialEq, Eq)]
pub enum EfiStatus {
    /// The operation succeeded.
    Success,
    /// A warning (top bit clear).
    Warning(EfiWarning),
    /// An error (top bit set).
    Error(EfiError),
}

/// Firmware warning codes.
#[derive(Debug, Clone, Copy, PartialEq, Eq)]
pub enum EfiWarning {
    /// The string contained characters the device could not render.
    UnknownGlyph,
    /// The handle was closed, but the file was not deleted.
    DeleteFailure,
    /// The handle was closed, but the data was not flushed properly.
    WriteFailure,
    /// The resulting buffer was too small and the data was truncated.
    BufferTooSmall,
    /// The data has not been updated within the required timeframe.
    StaleData,
    /// The resulting buffer contains a compliant file system.
    FileSystem,
    /// The operation will be processed across a system reset.
    ResetRequired,
    /// An unknown warning.
    Unknown(u64),
}

/// Firmware error codes.
#[derive(Debug, Clone, Copy, PartialEq, Eq)]
pub enum EfiError {
    /// The image failed to load.
    LoadError,
    /// A parameter was incorrect.
    InvalidParameter,
    /// The operation is not supported.
    Unsupported,
    /// The buffer was not the proper size for the request.
    BadBufferSize,
    /// The buffer is not large enough to hold the requested data.
    BufferTooSmall,
    /// There is no data pending upon return.
    NotReady,
    /// The physical device reported an error.
    DeviceError,
    /// The device cannot be written to.
    WriteProtected,
    /// A resource has run out.
    OutOfResources,
    /// An inconsistency was detected on the file system.
    VolumeCorrupted,
    /// There is no more space on the file system.
    VolumeFull,
    /// The device does not contain any medium.
    NoMedia,
    /// The medium in the device has changed since the last access.
    MediaChanged,
    /// The item was not found.
    NotFound,
    /// Access was denied.
    AccessDenied,
    /// The server did not respond to the request.
    NoResponse,
    /// A mapping to a device does not exist.
    NoMapping,
    /// The timeout time expired.
    Timeout,
    /// The protocol has not been started.
    NotStarted,
    /// The protocol has already been started.
    AlreadyStarted,
    /// The operation was aborted.
    Aborted,
    /// An ICMP error occurred during the network operation.
    IcmpError,
    /// A TFTP error occurred during the network operation.
    TftpError,
    /// A protocol error occurred during the network operation.
    ProtocolError,
    /// An internal version was incompatible with the requested one.
    IncompatibleVersion,
    /// The function was not performed due to a security violation.
    SecurityViolation,
    /// A CRC error was detected.
    CrcError,
    /// Beginning or end of media reached.
    EndOfMedia,
    /// The end of the file was reached.
    EndOfFile,
    /// The language specified was invalid.
    InvalidLanguage,
    /// The security status of the data is unknown or compromised.
    CompromisedData,
    /// There is an address conflict in address allocation.
    IpAddressConflict,
    /// An HTTP error occurred during the network operation.
    HttpError,
    /// An unknown error.
    Unknown(u64),
}

/// The low 32 bits of a raw status value, sign-extended to 64 bits, so the
/// classification is not tied to a specific word width.
pub open spec fn spec_sign_extended(v: u64) -> u64 {
    if v & 0x8000_0000 != 0 {
        (v & 0xffff_ffff) | 0xffff_ffff_0000_0000
    } else {
        v & 0xffff_ffff
    }
}

/// The warning named by a status value with the top bit cleared.
pub open spec fn spec_warning(v: u64) -> EfiWarning {
    if v == 1 {
        EfiWarning::UnknownGlyph
    } else if v == 2 {
        EfiWarning::DeleteFailure
    } else if v == 3 {
        EfiWarning::WriteFailure
    } else if v == 4 {
        EfiWarning::BufferTooSmall
    } else if v == 5 {
        EfiWarning::StaleData
    } else if v == 6 {
        EfiWarning::FileSystem
    } else if v == 7 {
        EfiWarning::ResetRequired
    } else {
        EfiWarning::Unknown(v)
    }
}

/// The error named by a status value with the top bit cleared.
pub open spec fn spec_error(v: u64) -> EfiError {
    if v == 1 {
        EfiError::LoadError
    } else if v == 2 {
        EfiError::InvalidParameter
    } else if v == 3 {
        EfiError::Unsupported
    } else if v == 4 {
        EfiError::BadBufferSize
    } else if v == 5 {
        EfiError::BufferTooSmall
    } else if v == 6 {
        EfiError::NotReady
    } else if v == 7 {
        EfiError::DeviceError
    } else if v == 8 {
        EfiError::WriteProtected
    } else if v == 9 {
        EfiError::OutOfResources
    } else if v == 10 {
        EfiError::VolumeCorrupted
    } else if v == 11 {
        EfiError::VolumeFull
    } else if v == 12 {
        EfiError::NoMedia
    } else if v == 13 {
        EfiError::MediaChanged
    } else if v == 14 {
        EfiError::NotFound
    } else if v == 15 {
        EfiError::AccessDenied
    } else if v == 16 {
        EfiError::NoResponse
    } else if v == 17 {
        EfiError::NoMapping
    } else if v == 18 {
        EfiError::Timeout
    } else if v == 19 {
        EfiError::NotStarted
    } else if v == 20 {
        EfiError::AlreadyStarted
    } else if v == 21 {
        EfiError::Aborted
    } else if v == 22 {
        EfiError::IcmpError
    } else if v == 23 {
        EfiError::TftpError
    } else if v == 24 {
        EfiError::ProtocolError
    } else if v == 25 {
        EfiError::IncompatibleVersion
    } else if v == 26 {
        EfiError::SecurityViolation
    } else if v == 27 {
        EfiError::CrcError
    } else if v == 28 {
        EfiError::EndOfMedia
    } else if v == 31 {
        EfiError::EndOfFile
    } else if v == 32 {
        EfiError::InvalidLanguage
    } else if v == 33 {
        EfiError::CompromisedData
    } else if v == 34 {
        EfiError::IpAddressConflict
    } else if v == 35 {
        EfiError::HttpError
    } else {
        EfiError::Unknown(v)
    }
}

/// The classification of a raw status value: zero is success, a clear top
/// bit is a warning, a set top bit is an error; the top bit is stripped
/// from the payload.
pub open spec fn spec_status(v: u64) -> EfiStatus {
    let s = spec_sign_extended(v);
    if s == 0 {
        EfiStatus::Success
    } else if s < 0x8000_0000_0000_0000 {
        EfiStatus::Warning(spec_warning(s))
    } else {
        EfiStatus::Error(spec_error((s - 0x8000_0000_0000_0000) as u64))
    }
}

impl From<EfiStatusCode> for EfiStatus {
    /// Classify a raw firmware status code.
    fn from(val: EfiStatusCode) -> (r: Self) {
        // Sign extend the low 32 bits so the classification is not tied to
        // a specific word width.
        let raw = val.0 as u64;
        let s = if raw & 0x8000_0000 != 0 {
            (raw & 0xffff_ffff) | 0xffff_ffff_0000_0000
        } else {
            raw & 0xffff_ffff
        };

        if s == 0 {
            EfiStatus::Success
        } else if s < 0x8000_0000_0000_0000 {
            let v = s;
            EfiStatus::Warning(
                if v == 1 {
                    EfiWarning::UnknownGlyph
                } else if v == 2 {
                    EfiWarning::DeleteFailure
                } else if v == 3 {
                    EfiWarning::WriteFailure
                } else if v == 4 {
                    EfiWarning::BufferTooSmall
                } else if v == 5 {
                    EfiWarning::StaleData
                } else if v == 6 {
                    EfiWarning::FileSystem
                } else if v == 7 {
                    EfiWarning::ResetRequired
                } else {
                    EfiWarning::Unknown(v)
                },
            )
        } else {
            let v = s - 0x8000_0000_0000_0000;
            EfiStatus::Error(
                if v == 1 {
                    EfiError::LoadError
                } else if v == 2 {
                    EfiError::InvalidParameter
                } else if v == 3 {
                    EfiError::Unsupported
                } else if v == 4 {
                    EfiError::BadBufferSize
                } else if v == 5 {
                    EfiError::BufferTooSmall
                } else if v == 6 {
                    EfiError::NotReady
                } else if v == 7 {
                    EfiError::DeviceError
                } else if v == 8 {
                    EfiError::WriteProtected
                } else if v == 9 {
                    EfiError::OutOfResources
                } else if v == 10 {
                    EfiError::VolumeCorrupted
                } else if v == 11 {
                    EfiError::VolumeFull
                } else if v == 12 {
                    EfiError::NoMedia
                } else if v == 13 {
                    EfiError::MediaChanged
                } else if v == 14 {
                    EfiError::NotFound
                } else if v == 15 {
                    EfiError::AccessDenied
                } else if v == 16 {
                    EfiError::NoResponse
                } else if v == 17 {
                    EfiError::NoMapping
                } else if v == 18 {
                    EfiError::Timeout
                } else if v == 19 {
                    EfiError::NotStarted
                } else if v == 20 {
                    EfiError::AlreadyStarted
                } else if v == 21 {
                    EfiError::Aborted
                } else if v == 22 {
                    EfiError::IcmpError
                } else if v == 23 {
                    EfiError::TftpError
                } else if v == 24 {
                    EfiError::ProtocolError
                } else if v == 25 {
                    EfiError::IncompatibleVersion
                } else if v == 26 {
                    EfiError::SecurityViolation
                } else if v == 27 {
                    EfiError::CrcError
                } else if v == 28 {
                    EfiError::EndOfMedia
                } else if v == 31 {
                    EfiError::EndOfFile
                } else if v == 32 {
                    EfiError::InvalidLanguage
                } else if v == 33 {
                    EfiError::CompromisedData
                } else if v == 34 {
                    EfiError::IpAddressConflict
                } else if v == 35 {
                    EfiError::HttpError
                } else {
                    EfiError::Unknown(v)
                },
            )
        }
    }
}

impl vstd::std_specs::convert::FromSpecImpl<EfiStatusCode> for EfiStatus {
    open spec fn obeys_from_spec() -> bool {
        true
    }

    open spec fn from_spec(val: EfiStatusCode) -> EfiStatus {
        spec_status(val.0 as u64)
    }
}

/// The kinds of memory a firmware memory-map descriptor can name.
#[derive(Clone, Copy, Debug, PartialEq, Eq)]
pub enum EfiMemoryType {
    /// Reserved memory, not to be used.
    ReservedMemoryType,
    /// Loader code.
    LoaderCode,
    /// Loader data.
    LoaderData,
    /// Boot services code.
    BootServiceCode,
    /// Boot services data.
    BootServiceData,
    /// Runtime services code.
    RuntimeServiceCode,
    /// Runtime services data.
    RuntimeServiceData,
    /// Conventional usable memory.
    ConventionalMemory,
    /// Memory with detected errors.
    UnusableMemory,
    /// Memory holding firmware tables that can be reclaimed.
    ACPIReclaimMemory,
    /// Firmware reserved address space.
    ACPIMemoryNVS,
    /// Memory-mapped device registers.
    MemoryMappedIO,
    /// Memory-mapped port space.
    MemoryMappedIOPortSpace,
    /// Processor firmware code.
    PalCode,
    /// Byte-addressable persistent memory.
    PersistentMemory,
    /// Any value out of the defined range.
    Invalid,
}

/// The memory type named by a raw descriptor type value.
#[verifier::opaque]
pub open spec fn spec_memory_type(v: u32) -> EfiMemoryType {
    if v == 0 {
        EfiMemoryType::ReservedMemoryType
    } else if v == 1 {
        EfiMemoryType::LoaderCode
    } else if v == 2 {
        EfiMemoryType::LoaderData
    } else if v == 3 {
        EfiMemoryType::BootServiceCode
    } else if v == 4 {
        EfiMemoryType::BootServiceData
    } else if v == 5 {
        EfiMemoryType::RuntimeServiceCode
    } else if v == 6 {
        EfiMemoryType::RuntimeServiceData
    } else if v == 7 {
        EfiMemoryType::ConventionalMemory
    } else if v == 8 {
        EfiMemoryType::UnusableMemory
    } else if v == 9 {
        EfiMemoryType::ACPIReclaimMemory
    } else if v == 10 {
        EfiMemoryType::ACPIMemoryNVS
    } else if v == 11 {
        EfiMemoryType::MemoryMappedIO
    } else if v == 12 {
        EfiMemoryType::MemoryMappedIOPortSpace
    } else if v == 13 {
        EfiMemoryType::PalCode
    } else if v == 14 {
        EfiMemoryType::PersistentMemory
    } else {
        EfiMemoryType::Invalid
    }
}

/// Memory of this type remains usable after boot services are exited.
pub open spec fn spec_avail_post_exit(t: EfiMemoryType) -> bool {
    ||| t == EfiMemoryType::BootServiceCode
    ||| t == EfiMemoryType::BootServiceData
    ||| t == EfiMemoryType::ConventionalMemory
    ||| t == EfiMemoryType::PersistentMemory
}

impl EfiMemoryType {
    /// Whether this memory remains usable after boot services are exited:
    /// boot services code and data, conventional memory, and persistent
    /// memory.
    pub fn avail_post_exit_boot_service(&self) -> (r: bool)
        ensures
            r == spec_avail_post_exit(*self),
    {
        match self {
            EfiMemoryType::BootServiceCode => true,
            EfiMemoryType::BootServiceData => true,
            EfiMemoryType::ConventionalMemory => true,
            EfiMemoryType::PersistentMemory => true,
            _ => false,
        }
    }
}

impl From<u32> for EfiMemoryType {
    /// Classify a raw descriptor type value.
    fn from(val: u32) -> (r: Self) {
        proof {
            reveal(spec_memory_type);
        }
        if val == 0 {
            EfiMemoryType::ReservedMemoryType
        } else if val == 1 {
            EfiMemoryType::LoaderCode
        } else if val == 2 {
            EfiMemoryType::LoaderData
        } else if val == 3 {
            EfiMemoryType::BootServiceCode
        } else if val == 4 {
            EfiMemoryType::BootServiceData
        } else if val == 5 {
            EfiMemoryType::RuntimeServiceCode
        } else if val == 6 {
            EfiMemoryType::RuntimeServiceData
        } else if val == 7 {
            EfiMemoryType::ConventionalMemory
        } else if val == 8 {
            EfiMemoryType::UnusableMemory
        } else if val == 9 {
            EfiMemoryType::ACPIReclaimMemory
        } else if val == 10 {
            EfiMemoryType::ACPIMemoryNVS
        } else if val == 11 {
            EfiMemoryType::MemoryMappedIO
        } else if val == 12 {
            EfiMemoryType::MemoryMappedIOPortSpace
        } else if val == 13 {
            EfiMemoryType::PalCode
        } else if val == 14 {
            EfiMemoryType::PersistentMemory
        } else {
            EfiMemoryType::Invalid
        }
    }
}

impl vstd::std_specs::convert::FromSpecImpl<u32> for EfiMemoryType {
    open spec fn obeys_from_spec() -> bool {
        true
    }

    open spec fn from_spec(val: u32) -> EfiMemoryType {
        spec_memory_type(val)
    }
}

/// A 128-bit identifier of a firmware configuration table.
#[derive(Debug, Clone, Copy)]
pub struct EfiGuid(pub u32, pub u16, pub u16, pub [u8; 8]);

impl PartialEq for EfiGuid {
    /// Compare two identifiers field by field.
    fn eq(&self, o: &EfiGuid) -> (r: bool) {
        let b = self.0 == o.0 && self.1 == o.1 && self.2 == o.2 && self.3[0] == o.3[0]
            && self.3[1] == o.3[1] && self.3[2] == o.3[2] && self.3[3] == o.3[3] && self.3[4]
            == o.3[4] && self.3[5] == o.3[5] && self.3[6] == o.3[6] && self.3[7] == o.3[7];
        proof {
            if b {
                assert(self.3 =~= o.3);
            }
        }
        b
    }
}

impl vstd::std_specs::cmp::PartialEqSpecImpl for EfiGuid {
    open spec fn obeys_eq_spec() -> bool {
        true
    }

    open spec fn eq_spec(&self, o: &EfiGuid) -> bool {
        self.0 == o.0 && self.1 == o.1 && self.2 == o.2 && self.3 == o.3
    }
}

/// One entry of the firmware configuration table array: an identifier and
/// the physical address of the table it names.
#[derive(Debug, Clone, Copy)]
pub struct EfiConfigurationTable {
    /// The identifier of the table.
    pub guid: EfiGuid,
    /// The physical address of the table.
    pub table: usize,
}

/// The identifier of revision 2 topology tables.
pub fn acpi2_table_guid() -> (g: EfiGuid)
    ensures
        g == spec_acpi2_table_guid(),
{
    EfiGuid(0x8868e871, 0xe4f1, 0x11d3, [0xbc, 0x22, 0x00, 0x80, 0xc7, 0x3c, 0x88, 0x81])
}

/// The identifier of revision 1.0 topology tables.
pub fn acpi_table_guid() -> (g: EfiGuid)
    ensures
        g == spec_acpi_table_guid(),
{
    EfiGuid(0xeb9d2d30, 0x2d88, 0x11d3, [0x9a, 0x16, 0x00, 0x90, 0x27, 0x3f, 0xc1, 0x4d])
}

/// The identifier of revision 2 topology tables.
pub open spec fn spec_acpi2_table_guid() -> EfiGuid {
    EfiGuid(0x8868e871, 0xe4f1, 0x11d3, [0xbc, 0x22, 0x00, 0x80, 0xc7, 0x3c, 0x88, 0x81])
}

/// The identifier of revision 1.0 topology tables.
pub open spec fn spec_acpi_table_guid() -> EfiGuid {
    EfiGuid(0xeb9d2d30, 0x2d88, 0x11d3, [0x9a, 0x16, 0x00, 0x90, 0x27, 0x3f, 0xc1, 0x4d])
}

/// Find the base of the firmware topology pointer among the configuration
/// tables: the first entry with the revision 2 identifier wins; failing
/// that, the first entry with the revision 1.0 identifier; else an error.
pub fn get_acpi_table(tables: &[EfiConfigurationTable]) -> (r: Result<usize, Error>)
    ensures
        match r {
            Ok(t) => {
                ||| exists|i: int|
                    0 <= i < tables@.len() && #[trigger] tables@[i].guid == spec_acpi2_table_guid()
                        && t == tables@[i].table && forall|j: int|
                        0 <= j < i ==> #[trigger] tables@[j].guid != spec_acpi2_table_guid()
                ||| ((forall|j: int|
                    0 <= j < tables@.len() ==> #[trigger] tables@[j].guid
                        != spec_acpi2_table_guid()) && exists|i: int|
                    0 <= i < tables@.len() && #[trigger] tables@[i].guid == spec_acpi_table_guid()
                        && t == tables@[i].table && forall|j: int|
                        0 <= j < i ==> #[trigger] tables@[j].guid != spec_acpi_table_guid())
            },
            Err(e) => e == Error::AcpiTableNotFound && forall|j: int|
                0 <= j < tables@.len() ==> #[trigger] tables@[j].guid != spec_acpi2_table_guid()
                    && tables@[j].guid != spec_acpi_table_guid(),
        },
{
    let acpi2 = acpi2_table_guid();
    let acpi1 = acpi_table_guid();

    // First look for the revision 2 table pointer.
    let n = tables.len();
    let mut i: usize = 0;
    while i < n
        invariant
            i <= n,
            n == tables@.len(),
            acpi2 == spec_acpi2_table_guid(),
            forall|j: int| 0 <= j < i ==> #[trigger] tables@[j].guid != spec_acpi2_table_guid(),
        decreases n - i,
    {
        let ent = &tables[i];
        if ent.guid == acpi2 {
            return Ok(ent.table);
        }
        i += 1;
    }

    // Fall back to the revision 1.0 table pointer.
    let mut i: usize = 0;
    while i < n
        invariant
            i <= n,
            n == tables@.len(),
            acpi1 == spec_acpi_table_guid(),
            forall|j: int| 0 <= j < n ==> #[trigger] tables@[j].guid != spec_acpi2_table_guid(),
            forall|j: int| 0 <= j < i ==> #[trigger] tables@[j].guid != spec_acpi_table_guid(),
        decreases n - i,
    {
        let ent = &tables[i];
        if ent.guid == acpi1 {
            return Ok(ent.table);
        }
        i += 1;
    }

    Err(Error::AcpiTableNotFound)
}

/// Holds a region of usable physical memory.
#[derive(Debug, Clone, Copy)]
pub struct UsableMemory {
    /// Start address (inclusive) of the memory region.
    pub start: u64,
    /// End address (inclusive) of the memory region.
    pub end: u64,
}

/// The byte offset of descriptor `k` in a memory map with descriptor
/// stride `d`.
pub open spec fn desc_off(k: int, d: int) -> int {
    k * d
}

/// The raw type value of the descriptor at offset `off`.
#[verifier::opaque]
pub open spec fn desc_type(m: Seq<u8>, off: int) -> u32 {
    le32(m, off) as u32
}

/// The start address of the descriptor at offset `off`.
#[verifier::opaque]
pub open spec fn desc_start(m: Seq<u8>, off: int) -> int {
    le64(m, off + 8)
}

/// The page count of the descriptor at offset `off`.
#[verifier::opaque]
pub open spec fn desc_pages(m: Seq<u8>, off: int) -> int {
    le64(m, off + 24)
}

/// The descriptor at offset `off` names memory that remains usable after
/// boot services exit, and spans at least one page.
pub open spec fn desc_usable(m: Seq<u8>, off: int) -> bool {
    spec_avail_post_exit(spec_memory_type(desc_type(m, off))) && desc_pages(m, off) > 0
}

/// Address `a` lies in the region of some usable descriptor of the map.
pub open spec fn map_usable_covers(m: Seq<u8>, d: int, a: int) -> bool {
    exists|k: int|
        0 <= k && #[trigger] desc_off(k, d) < m.len() && desc_usable(m, desc_off(k, d))
            && desc_start(m, desc_off(k, d)) <= a <= desc_start(m, desc_off(k, d)) + desc_pages(
            m,
            desc_off(k, d),
        ) * 4096 - 1
}

/// Every descriptor of the map lies whole inside the buffer, and the
/// regions of usable descriptors stay inside the 64-bit address space.
pub open spec fn map_well_shaped(m: Seq<u8>, d: int) -> bool {
    forall|k: int|
        0 <= k && #[trigger] desc_off(k, d) < m.len() ==> {
            &&& desc_off(k, d) + 40 <= m.len()
            &&& desc_usable(m, desc_off(k, d)) ==> desc_pages(m, desc_off(k, d)) * 4096
                <= u64::MAX && desc_start(m, desc_off(k, d)) + desc_pages(m, desc_off(k, d)) * 4096
                - 1 <= u64::MAX
        }
}

/// Read the little-endian 32-bit word at index `i` of a byte slice.
fn slice_le32(s: &[u8], i: usize) -> (r: u32)
    requires
        i + 4 <= s@.len(),
    ensures
        r == le32(s@, i as int),
{
    (s[i] as u32) + (s[i + 1] as u32) * 0x100 + (s[i + 2] as u32) * 0x10000 + (s[i + 3] as u32)
        * 0x1000000
}

/// Read the little-endian 64-bit word at index `i` of a byte slice.
fn slice_le64(s: &[u8], i: usize) -> (r: u64)
    requires
        i + 8 <= s@.len(),
        s@.len() <= usize::MAX,
    ensures
        r == le64(s@, i as int),
{
    (slice_le32(s, i) as u64) + (slice_le32(s, i + 4) as u64) * 0x1_0000_0000
}

/// Handle one memory-map descriptor: when it names memory that stays
/// usable after boot services exit and spans at least one page, insert its
/// region into the set; otherwise leave the set unchanged.
fn fold_desc(usable: &mut RangeSet, map: &[u8], off: usize) -> (r: Result<(), Error>)
    requires
        old(usable).wf(),
        off + 40 <= map@.len(),
        map@.len() <= usize::MAX,
    ensures
        final(usable).wf(),
        match r {
            Ok(()) => {
                &&& final(usable)@.len() <= old(usable)@.len() + 1
                &&& desc_usable(map@, off as int) ==> forall|a: int|
                    #![trigger covered(final(usable)@, a)]
                    #![trigger covered(old(usable)@, a)]
                    covered(final(usable)@, a) <==> covered(old(usable)@, a) || (desc_start(
                        map@,
                        off as int,
                    ) <= a <= desc_start(map@, off as int) + desc_pages(map@, off as int) * 4096
                        - 1)
                &&& !desc_usable(map@, off as int) ==> final(usable)@ == old(usable)@
            },
            Err(e) => {
                ||| (e == Error::MemoryMapIntegerOverflow && desc_usable(map@, off as int) && (
                desc_pages(map@, off as int) * 4096 > u64::MAX || desc_start(map@, off as int)
                    + desc_pages(map@, off as int) * 4096 - 1 > u64::MAX))
                ||| (e matches Error::MemoryRangeSet(re) && re == rangeset::Error::OutOfEntries
                    && old(usable)@.len() == MAX_ENTRIES)
            },
        },
{
    let ghost m = map@;

    // Decode the fields the classification needs.
    let typ_raw = slice_le32(map, off);
    let start = slice_le64(map, off + 8);
    let pages = slice_le64(map, off + 24);
    let typ = EfiMemoryType::from(typ_raw);
    proof {
        reveal(desc_type);
        reveal(desc_start);
        reveal(desc_pages);
        assert(typ_raw == desc_type(m, off as int));
        assert(start == desc_start(m, off as int));
        assert(pages == desc_pages(m, off as int));
    }

    // Check whether this memory is usable after boot services exit.
    if typ.avail_post_exit_boot_service() && pages > 0 {
        // Get the number of bytes of this region.
        let bytes = match pages.checked_mul(4096) {
            Some(b) => b,
            None => {
                return Err(Error::MemoryMapIntegerOverflow);
            },
        };
        // Compute the inclusive end address of this region.
        let end = match start.checked_add(bytes - 1) {
            Some(e) => e,
            None => {
                return Err(Error::MemoryMapIntegerOverflow);
            },
        };
        // Record the usable region.
        match usable.insert(Range { start, end }) {
            Ok(()) => Ok(()),
            Err(e) => Err(Error::MemoryRangeSet(e)),
        }
    } else {
        Ok(())
    }
}

/// Fold a raw firmware memory map into a `RangeSet` of the memory that
/// stays usable after boot services exit. `map` is the filled portion of
/// the buffer the firmware returned and `mdesc_size` the descriptor stride
/// it reported.
#[verifier::rlimit(100)]
pub fn get_memory_map(map: &[u8], mdesc_size: usize) -> (r: Result<RangeSet, Error>)
    requires
        mdesc_size > 0,
    ensures
        match r {
            Ok(rs) => rs.wf() && forall|a: int|
                #[trigger] covered(rs@, a) <==> map_usable_covers(map@, mdesc_size as int, a),
            Err(e) => {
                ||| e == Error::MemoryMapOutOfBounds
                ||| e == Error::MemoryMapIntegerOverflow
                ||| e matches Error::MemoryRangeSet(_)
            },
        },
        // Success is owed for a well-shaped map: whole descriptors, no
        // address arithmetic overflow, and no more descriptors than the
        // range set has slots.
        (map_well_shaped(map@, mdesc_size as int) && map@.len() <= MAX_ENTRIES * mdesc_size)
            ==> r is Ok,
{
    let mut usable = RangeSet::new();
    let ghost m = map@;
    let ghost d = mdesc_size as int;

    let mut off: usize = 0;
    let mut k: usize = 0;
    while off < map.len()
        invariant_except_break
            off == desc_off(k as int, d),
        invariant
            m == map@,
            d == mdesc_size as int,
            d >= 1,
            usable.wf(),
            usable@.len() <= k,
            forall|j: int| 0 <= j < k ==> #[trigger] desc_off(j, d) < m.len(),
            forall|a: int|
                #[trigger] covered(usable@, a) <==> exists|j: int|
                    0 <= j < k && desc_usable(m, #[trigger] desc_off(j, d)) && desc_start(
                        m,
                        desc_off(j, d),
                    ) <= a <= desc_start(m, desc_off(j, d)) + desc_pages(m, desc_off(j, d)) * 4096
                        - 1,
        ensures
            (off == desc_off(k as int, d) && off >= map.len()) || (forall|j: int|
                j >= k ==> #[trigger] desc_off(j, d) >= m.len()),
        decreases map.len() + mdesc_size - off,
    {
        // The whole descriptor must lie inside the reported buffer.
        if map.len() - off < 40 {
            proof {
                // A well-shaped map has no short descriptor.
                assert(desc_off(k as int, d) < m.len() && !(desc_off(k as int, d) + 40
                    <= m.len()));
            }
            return Err(Error::MemoryMapOutOfBounds);
        }

        // Classify this descriptor and record its region when usable.
        let ghost before = usable@;
        match fold_desc(&mut usable, map, off) {
            Ok(()) => {
                proof {
                    lemma_fold_step(m, d, k as int, before, usable@);
                }
            },
            Err(e) => {
                proof {
                    // A well-shaped, small enough map never reaches this:
                    // overflow contradicts the shape, and a full set
                    // contradicts the size bound.
                    if map_well_shaped(m, d) && m.len() <= MAX_ENTRIES * mdesc_size {
                        assert(desc_off(k as int, d) < m.len());
                        assert(before.len() < MAX_ENTRIES) by (nonlinear_arith)
                            requires
                                before.len() <= k,
                                desc_off(k as int, d) == k as int * d,
                                desc_off(k as int, d) < m.len(),
                                m.len() <= MAX_ENTRIES * d,
                                d >= 1,
                        {}
                    }
                }
                return Err(e);
            },
        }

        proof {
            // The offsets visited grow with the index, so the index stays
            // below the buffer length.
            assert(k as int <= desc_off(k as int, d)) by (nonlinear_arith)
                requires
                    d >= 1,
                    desc_off(k as int, d) == k as int * d,
                    k as int >= 0,
            {}
        }
        k += 1;
        match off.checked_add(mdesc_size) {
            Some(next) => {
                proof {
                    assert(desc_off(k as int, d) == (k as int - 1) * d + d) by (nonlinear_arith)
                        requires
                            desc_off(k as int, d) == k as int * d,
                    {}
                }
                off = next;
            },
            None => {
                // The next offset does not even fit in the machine word, so
                // no further descriptor can lie inside the buffer.
                proof {
                    assert(desc_off(k as int, d) == off + d) by (nonlinear_arith)
                        requires
                            off == (k as int - 1) * d,
                            desc_off(k as int, d) == k as int * d,
                    {}
                    assert forall|j: int| j >= k implies #[trigger] desc_off(j, d) >= m.len() by {
                        assert(desc_off(j, d) >= desc_off(k as int, d)) by (nonlinear_arith)
                            requires
                                j >= k as int,
                                d >= 1,
                                desc_off(j, d) == j * d,
                                desc_off(k as int, d) == k as int * d,
                        {}
                    }
                }
                break;
            },
        }
    }

    proof {
        assert forall|j: int| j >= k implies #[trigger] desc_off(j, d) >= m.len() by {
            if off == desc_off(k as int, d) && off >= map.len() {
                assert(desc_off(j, d) >= desc_off(k as int, d)) by (nonlinear_arith)
                    requires
                        j >= k as int,
                        d >= 1,
                        desc_off(j, d) == j * d,
                        desc_off(k as int, d) == k as int * d,
                {}
            }
        }
        assert forall|a: int| #[trigger] covered(usable@, a) implies map_usable_covers(m, d, a) by {
            let j = choose|j: int|
                0 <= j < k && desc_usable(m, #[trigger] desc_off(j, d)) && desc_start(
                    m,
                    desc_off(j, d),
                ) <= a <= desc_start(m, desc_off(j, d)) + desc_pages(m, desc_off(j, d)) * 4096 - 1;
            assert(desc_off(j, d) < m.len());
        }
        assert forall|a: int| map_usable_covers(m, d, a) implies #[trigger] covered(usable@, a) by {
            let j = choose|j: int|
                0 <= j && #[trigger] desc_off(j, d) < m.len() && desc_usable(m, desc_off(j, d))
                    && desc_start(m, desc_off(j, d)) <= a <= desc_start(m, desc_off(j, d))
                    + desc_pages(m, desc_off(j, d)) * 4096 - 1;
            assert(j < k);
        }
    }

    Ok(usable)
}

/// One folding step: after handling descriptor `k` (inserting its region
/// when it is usable, skipping it otherwise), the cover accounts for the
/// first `k + 1` descriptors.
proof fn lemma_fold_step(m: Seq<u8>, d: int, k: int, before: Seq<Range>, after: Seq<Range>)
    requires
        0 <= k,
        forall|a: int|
            #[trigger] covered(before, a) <==> exists|j: int|
                0 <= j < k && desc_usable(m, #[trigger] desc_off(j, d)) && desc_start(
                    m,
                    desc_off(j, d),
                ) <= a <= desc_start(m, desc_off(j, d)) + desc_pages(m, desc_off(j, d)) * 4096 - 1,
        desc_usable(m, desc_off(k, d)) ==> forall|a: int|
            #![trigger covered(after, a)]
            #![trigger covered(before, a)]
            covered(after, a) <==> covered(before, a) || (desc_start(m, desc_off(k, d))
                <= a <= desc_start(m, desc_off(k, d)) + desc_pages(m, desc_off(k, d)) * 4096 - 1),
        !desc_usable(m, desc_off(k, d)) ==> after == before,
    ensures
        forall|a: int|
            #[trigger] covered(after, a) <==> exists|j: int|
                0 <= j < k + 1 && desc_usable(m, #[trigger] desc_off(j, d)) && desc_start(
                    m,
                    desc_off(j, d),
                ) <= a <= desc_start(m, desc_off(j, d)) + desc_pages(m, desc_off(j, d)) * 4096 - 1,
{
    assert forall|a: int| #[trigger] covered(after, a) implies exists|j: int|
        0 <= j < k + 1 && desc_usable(m, #[trigger] desc_off(j, d)) && desc_start(m, desc_off(j, d))
            <= a <= desc_start(m, desc_off(j, d)) + desc_pages(m, desc_off(j, d)) * 4096 - 1 by {
        if desc_usable(m, desc_off(k, d)) && !covered(before, a) {
        } else {
            let j = choose|j: int|
                0 <= j < k && desc_usable(m, #[trigger] desc_off(j, d)) && desc_start(
                    m,
                    desc_off(j, d),
                ) <= a <= desc_start(m, desc_off(j, d)) + desc_pages(m, desc_off(j, d)) * 4096 - 1;
            assert(0 <= j < k + 1);
        }
    }
    assert forall|a: int|
        (exists|j: int|
            0 <= j < k + 1 && desc_usable(m, #[trigger] desc_off(j, d)) && desc_start(
                m,
                desc_off(j, d),
            ) <= a <= desc_start(m, desc_off(j, d)) + desc_pages(m, desc_off(j, d)) * 4096
                - 1) implies #[trigger] covered(after, a) by {
        let j = choose|j: int|
            0 <= j < k + 1 && desc_usable(m, #[trigger] desc_off(j, d)) && desc_start(
                m,
                desc_off(j, d),
            ) <= a <= desc_start(m, desc_off(j, d)) + desc_pages(m, desc_off(j, d)) * 4096 - 1;
        if j < k {
            assert(covered(before, a));
        } else {
            assert(desc_usable(m, desc_off(k, d)));
        }
    }
}

} // verus!
