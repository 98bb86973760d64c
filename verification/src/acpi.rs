//! Validation and traversal of firmware topology tables: RSDP, XSDT, and
//! the MADT and SRAT payloads, with strict bounds and checksum discipline.

use crate::mm::{le32, le64, mem_byte, wrap_add64, PhysAddr, PhysMem, PhysSlice};
use vstd::prelude::*;

verus! {

/// Different types of firmware tables, mainly used for error information.
#[derive(Clone, Copy, Debug, PartialEq, Eq)]
pub enum TableType {
    /// The root system description pointer (revision 1.0 layout).
    Rsdp,
    /// The extended root system description pointer (revision 2 layout).
    RsdpExtended,
    /// Extended System Description Table.
    Xsdt,
    /// Multiple APIC Description Table.
    Madt,
    /// System Resource Affinity Table.
    Srat,
    /// Unknown table type, carrying its raw signature.
    Unknown([u8; 4]),
}

/// The table type named by a 4-byte signature.
pub open spec fn table_type_of(sig: [u8; 4]) -> TableType {
    if sig@[0] == 88 && sig@[1] == 83 && sig@[2] == 68 && sig@[3] == 84 {
        // "XSDT"
        TableType::Xsdt
    } else if sig@[0] == 65 && sig@[1] == 80 && sig@[2] == 73 && sig@[3] == 67 {
        // "APIC"
        TableType::Madt
    } else if sig@[0] == 83 && sig@[1] == 82 && sig@[2] == 65 && sig@[3] == 84 {
        // "SRAT"
        TableType::Srat
    } else {
        TableType::Unknown(sig)
    }
}

impl From<[u8; 4]> for TableType {
    /// Derive the table type from the 4-byte signature.
    fn from(sig: [u8; 4]) -> (t: Self) {
        if sig[0] == 88 && sig[1] == 83 && sig[2] == 68 && sig[3] == 84 {
            // "XSDT"
            TableType::Xsdt
        } else if sig[0] == 65 && sig[1] == 80 && sig[2] == 73 && sig[3] == 67 {
            // "APIC"
            TableType::Madt
        } else if sig[0] == 83 && sig[1] == 82 && sig[2] == 65 && sig[3] == 84 {
            // "SRAT"
            TableType::Srat
        } else {
            TableType::Unknown(sig)
        }
    }
}

impl vstd::std_specs::convert::FromSpecImpl<[u8; 4]> for TableType {
    open spec fn obeys_from_spec() -> bool {
        true
    }

    open spec fn from_spec(sig: [u8; 4]) -> TableType {
        table_type_of(sig)
    }
}

/// Errors from firmware table parsing.
#[derive(Clone, Copy, Debug, PartialEq, Eq)]
pub enum Error {
    /// Firmware did not report an RSDP address.
    RsdpNotFound,
    /// A table had an invalid checksum.
    ChecksumMismatch(TableType),
    /// A table did not match the correct signature.
    SignatureMismatch(TableType),
    /// A table did not match the expected length.
    LengthMismatch(TableType),
    /// The extended RSDP was requested but the firmware revision is older
    /// than 2, which is required for it.
    RevisionTooOld,
    /// The XSDT payload size is not a multiple of its 8-byte entries.
    XsdtBadEntries,
    /// An address computation overflowed the 64-bit address space.
    IntegerOverflow,
}

/// The sum of `n` bytes of `m` starting at address `addr`.
pub open spec fn byte_sum(m: Seq<u8>, addr: int, n: nat) -> int
    decreases n,
{
    if n == 0 {
        0
    } else {
        byte_sum(m, addr, (n - 1) as nat) + mem_byte(m, addr + n - 1)
    }
}

/// The window `[addr, addr + size)` fits in the address space and its bytes
/// sum to zero modulo 256.
pub open spec fn checksum_ok(m: Seq<u8>, addr: int, size: nat) -> bool {
    &&& size > 0 ==> addr + size - 1 <= u64::MAX
    &&& byte_sum(m, addr, size) % 256 == 0
}

/// Compute and validate a firmware checksum over physical memory: the
/// `size` bytes at `addr` must sum to zero as 8-bit values with wraparound.
/// All address arithmetic is overflow-checked.
pub fn checksum(mem: &PhysMem, addr: PhysAddr, size: usize, typ: TableType) -> (r: Result<
    (),
    Error,
>)
    ensures
        r == Ok::<(), Error>(()) <==> checksum_ok(mem@, addr.0 as int, size as nat),
        size > 0 && addr.0 + size - 1 > u64::MAX ==> r == Err::<(), Error>(Error::IntegerOverflow),
        (size == 0 || addr.0 + size - 1 <= u64::MAX) && byte_sum(mem@, addr.0 as int, size as nat)
            % 256 != 0 ==> r == Err::<(), Error>(Error::ChecksumMismatch(typ)),
{
    // Make sure the whole window is addressable.
    if size > 0 {
        if addr.0.checked_add((size - 1) as u64).is_none() {
            return Err(Error::IntegerOverflow);
        }
    }

    let mut chk: u8 = 0;
    let mut i: usize = 0;
    while i < size
        invariant
            i <= size,
            size > 0 ==> addr.0 + size - 1 <= u64::MAX,
            chk as int == byte_sum(mem@, addr.0 as int, i as nat) % 256,
        decreases size - i,
    {
        let b = mem.read_u8(PhysAddr(addr.0 + i as u64));
        proof {
            lemma_byte_sum_step(mem@, addr.0 as int, i as nat);
            vstd::arithmetic::div_mod::lemma_add_mod_noop(
                byte_sum(mem@, addr.0 as int, i as nat),
                b as int,
                256,
            );
            vstd::arithmetic::div_mod::lemma_small_mod(b as nat, 256);
            vstd::arithmetic::div_mod::lemma_small_mod((chk + b) as nat % 256, 256);
        }
        chk = chk.wrapping_add(b);
        i += 1;
    }

    if chk == 0 {
        Ok(())
    } else {
        Err(Error::ChecksumMismatch(typ))
    }
}

/// Unfolding step for `byte_sum`.
proof fn lemma_byte_sum_step(m: Seq<u8>, addr: int, n: nat)
    ensures
        byte_sum(m, addr, n + 1) == byte_sum(m, addr, n) + mem_byte(m, addr + n),
{
}

/// The sums of two snapshots that agree on a window except at one address
/// differ by exactly the difference of the bytes at that address.
proof fn lemma_byte_sum_diff(m1: Seq<u8>, m2: Seq<u8>, addr: int, n: nat, k: int)
    requires
        forall|j: int| addr <= j < addr + n && j != k ==> mem_byte(m1, j) == mem_byte(m2, j),
    ensures
        byte_sum(m2, addr, n) - byte_sum(m1, addr, n) == if addr <= k < addr + n {
            mem_byte(m2, k) - mem_byte(m1, k)
        } else {
            0
        },
    decreases n,
{
    if n > 0 {
        lemma_byte_sum_diff(m1, m2, addr, (n - 1) as nat, k);
    }
}

/// The 8-byte RSDP signature "RSD PTR " stands at address `a`.
pub open spec fn rsdp_sig_ok(m: Seq<u8>, a: int) -> bool {
    &&& mem_byte(m, a) == 82  // 'R'
    &&& mem_byte(m, a + 1) == 83  // 'S'
    &&& mem_byte(m, a + 2) == 68  // 'D'
    &&& mem_byte(m, a + 3) == 32  // ' '
    &&& mem_byte(m, a + 4) == 80  // 'P'
    &&& mem_byte(m, a + 5) == 84  // 'T'
    &&& mem_byte(m, a + 6) == 82  // 'R'
    &&& mem_byte(m, a + 7) == 32  // ' '
}

/// The outcome of validating a revision 1.0 RSDP at address `a`: the
/// 20-byte checksum must pass and the signature must match.
pub open spec fn rsdp_check(m: Seq<u8>, a: int) -> Result<(), Error> {
    if a + 19 > u64::MAX {
        Err(Error::IntegerOverflow)
    } else if byte_sum(m, a, 20) % 256 != 0 {
        Err(Error::ChecksumMismatch(TableType::Rsdp))
    } else if !rsdp_sig_ok(m, a) {
        Err(Error::SignatureMismatch(TableType::Rsdp))
    } else {
        Ok(())
    }
}

/// The outcome of validating an extended RSDP at address `a`: the 1.0
/// fields must validate, the revision must be at least 2, the 36-byte
/// checksum must pass, and the length field must name exactly those 36
/// bytes.
pub open spec fn rsdp_ext_check(m: Seq<u8>, a: int) -> Result<(), Error> {
    match rsdp_check(m, a) {
        Err(e) => Err(e),
        Ok(()) => if mem_byte(m, a + 15) < 2 {
            Err(Error::RevisionTooOld)
        } else if a + 35 > u64::MAX {
            Err(Error::IntegerOverflow)
        } else if byte_sum(m, a, 36) % 256 != 0 {
            Err(Error::ChecksumMismatch(TableType::RsdpExtended))
        } else if le32(m, a + 20) != 36 {
            Err(Error::LengthMismatch(TableType::RsdpExtended))
        } else {
            Ok(())
        },
    }
}

/// In-memory representation of a revision 1.0 RSDP structure.
#[derive(Clone, Copy, Debug, PartialEq, Eq)]
pub struct Rsdp {
    /// "RSD PTR ".
    pub signature: [u8; 8],
    /// Checksum byte: the first 20 bytes of the table must sum to zero.
    pub checksum: u8,
    /// An OEM-supplied string that identifies the OEM.
    pub oem_id: [u8; 6],
    /// The revision of this structure; 2 for the extended layout.
    pub revision: u8,
    /// 32-bit physical address of the RSDT.
    pub rsdt_addr: u32,
}

/// The fields of `r` are the ones decoded at address `a` of `m`.
pub open spec fn rsdp_decoded(r: Rsdp, m: Seq<u8>, a: int) -> bool {
    &&& forall|i: int| 0 <= i < 8 ==> r.signature@[i] == mem_byte(m, a + i)
    &&& r.checksum == mem_byte(m, a + 8)
    &&& forall|i: int| 0 <= i < 6 ==> r.oem_id@[i] == mem_byte(m, a + 9 + i)
    &&& r.revision == mem_byte(m, a + 15)
    &&& r.rsdt_addr == le32(m, a + 16)
}

impl Rsdp {
    /// Validate and load an RSDP structure from `addr`: checksum over the
    /// 20-byte 1.0 layout, then the signature.
    pub fn from_addr(mem: &PhysMem, addr: PhysAddr) -> (r: Result<Rsdp, Error>)
        ensures
            match r {
                Ok(rsdp) => rsdp_check(mem@, addr.0 as int) == Ok::<(), Error>(()) && rsdp_decoded(
                    rsdp,
                    mem@,
                    addr.0 as int,
                ),
                Err(e) => rsdp_check(mem@, addr.0 as int) == Err::<(), Error>(e),
            },
    {
        // Validate the checksum; this also checks that the whole structure
        // is addressable.
        checksum(mem, addr, 20, TableType::Rsdp)?;

        let a = addr.0;
        let rsdp = Rsdp {
            signature: [
                mem.read_u8(PhysAddr(a)),
                mem.read_u8(PhysAddr(a + 1)),
                mem.read_u8(PhysAddr(a + 2)),
                mem.read_u8(PhysAddr(a + 3)),
                mem.read_u8(PhysAddr(a + 4)),
                mem.read_u8(PhysAddr(a + 5)),
                mem.read_u8(PhysAddr(a + 6)),
                mem.read_u8(PhysAddr(a + 7)),
            ],
            checksum: mem.read_u8(PhysAddr(a + 8)),
            oem_id: [
                mem.read_u8(PhysAddr(a + 9)),
                mem.read_u8(PhysAddr(a + 10)),
                mem.read_u8(PhysAddr(a + 11)),
                mem.read_u8(PhysAddr(a + 12)),
                mem.read_u8(PhysAddr(a + 13)),
                mem.read_u8(PhysAddr(a + 14)),
            ],
            revision: mem.read_u8(PhysAddr(a + 15)),
            rsdt_addr: mem.read_u32(PhysAddr(a + 16)),
        };

        // Check the signature.
        if !(rsdp.signature[0] == 82 && rsdp.signature[1] == 83 && rsdp.signature[2] == 68
            && rsdp.signature[3] == 32 && rsdp.signature[4] == 80 && rsdp.signature[5] == 84
            && rsdp.signature[6] == 82 && rsdp.signature[7] == 32) {
            return Err(Error::SignatureMismatch(TableType::Rsdp));
        }

        Ok(rsdp)
    }
}

/// In-memory representation of an extended RSDP structure.
#[derive(Clone, Copy, Debug, PartialEq, Eq)]
pub struct RsdpExtended {
    /// The revision 1.0 fields.
    pub base: Rsdp,
    /// The length of the whole table in bytes, which must be exactly its
    /// 36-byte size.
    pub length: u32,
    /// 64-bit physical address of the XSDT.
    pub xsdt_addr: u64,
    /// Checksum byte over the entire extended table.
    pub extended_checksum: u8,
    /// Reserved bytes.
    pub reserved: [u8; 3],
}

/// The fields of `r` are the ones decoded at address `a` of `m`.
pub open spec fn rsdp_ext_decoded(r: RsdpExtended, m: Seq<u8>, a: int) -> bool {
    &&& rsdp_decoded(r.base, m, a)
    &&& r.length == le32(m, a + 20)
    &&& r.xsdt_addr == le64(m, a + 24)
    &&& r.extended_checksum == mem_byte(m, a + 32)
    &&& forall|i: int| 0 <= i < 3 ==> r.reserved@[i] == mem_byte(m, a + 33 + i)
}

impl RsdpExtended {
    /// Validate and load an extended RSDP from `addr`: the 1.0 fields
    /// first, then the revision, the full checksum, and the length field,
    /// in that order, so an old revision fails before any extended field is
    /// read.
    pub fn from_addr(mem: &PhysMem, addr: PhysAddr) -> (r: Result<RsdpExtended, Error>)
        ensures
            match r {
                Ok(rsdp) => rsdp_ext_check(mem@, addr.0 as int) == Ok::<(), Error>(())
                    && rsdp_ext_decoded(rsdp, mem@, addr.0 as int),
                Err(e) => rsdp_ext_check(mem@, addr.0 as int) == Err::<(), Error>(e),
            },
    {
        // Start by validating the revision 1.0 structure, a subset of all
        // later revisions.
        let rsdp = Rsdp::from_addr(mem, addr)?;

        // The extended RSDP requires revision 2.
        if rsdp.revision < 2 {
            return Err(Error::RevisionTooOld);
        }

        // Validate the checksum over the whole extended structure.
        checksum(mem, addr, 36, TableType::RsdpExtended)?;

        let a = addr.0;
        let ext = RsdpExtended {
            base: rsdp,
            length: mem.read_u32(PhysAddr(a + 20)),
            xsdt_addr: mem.read_u64(PhysAddr(a + 24)),
            extended_checksum: mem.read_u8(PhysAddr(a + 32)),
            reserved: [
                mem.read_u8(PhysAddr(a + 33)),
                mem.read_u8(PhysAddr(a + 34)),
                mem.read_u8(PhysAddr(a + 35)),
            ],
        };

        // Check the size.
        if ext.length != 36 {
            return Err(Error::LengthMismatch(TableType::RsdpExtended));
        }

        Ok(ext)
    }
}

/// The declared length of the table whose header stands at address `a`.
pub open spec fn table_len(m: Seq<u8>, a: int) -> int {
    le32(m, a + 4)
}

/// The 4 bytes at `a` are exactly `b0 b1 b2 b3`.
pub open spec fn sig_match(m: Seq<u8>, a: int, b0: u8, b1: u8, b2: u8, b3: u8) -> bool {
    &&& mem_byte(m, a) == b0
    &&& mem_byte(m, a + 1) == b1
    &&& mem_byte(m, a + 2) == b2
    &&& mem_byte(m, a + 3) == b3
}

/// `t` is the table type derived from the signature at address `a`.
pub open spec fn type_rel(t: TableType, m: Seq<u8>, a: int) -> bool {
    if sig_match(m, a, 88, 83, 68, 84) {
        // "XSDT"
        t == TableType::Xsdt
    } else if sig_match(m, a, 65, 80, 73, 67) {
        // "APIC"
        t == TableType::Madt
    } else if sig_match(m, a, 83, 82, 65, 84) {
        // "SRAT"
        t == TableType::Srat
    } else {
        &&& t matches TableType::Unknown(sig)
        &&& t matches TableType::Unknown(sig) ==> {
            &&& sig@[0] == mem_byte(m, a)
            &&& sig@[1] == mem_byte(m, a + 1)
            &&& sig@[2] == mem_byte(m, a + 2)
            &&& sig@[3] == mem_byte(m, a + 3)
        }
    }
}

/// A table header at `a` validates: the header and the declared length are
/// addressable, the checksum over the declared length passes, and the
/// declared length is at least the 36-byte header.
pub open spec fn table_ok(m: Seq<u8>, a: int) -> bool {
    &&& a + 35 <= u64::MAX
    &&& table_len(m, a) >= 1 ==> a + table_len(m, a) - 1 <= u64::MAX
    &&& byte_sum(m, a, table_len(m, a) as nat) % 256 == 0
    &&& a + 36 <= u64::MAX
    &&& table_len(m, a) >= 36
}

/// In-memory representation of a generic 36-byte table header.
#[derive(Clone, Copy, Debug, PartialEq, Eq)]
pub struct Table {
    /// The ASCII representation of the table identifier.
    pub signature: [u8; 4],
    /// The length of the whole table in bytes, header included.
    pub length: u32,
    /// The revision of the structure named by the signature.
    pub revision: u8,
    /// Checksum byte: the entire table must sum to zero.
    pub checksum: u8,
    /// An OEM-supplied string that identifies the OEM.
    pub oemid: [u8; 6],
    /// An OEM-supplied identifier of the particular table.
    pub oem_table_id: u64,
    /// An OEM-supplied revision number.
    pub oem_revision: u32,
    /// Vendor id of the utility that created the table.
    pub creator_id: u32,
    /// Revision of the utility that created the table.
    pub creator_revision: u32,
}

/// The fields of `t` are the ones decoded at address `a` of `m`.
pub open spec fn table_decoded(t: Table, m: Seq<u8>, a: int) -> bool {
    &&& forall|i: int| 0 <= i < 4 ==> t.signature@[i] == mem_byte(m, a + i)
    &&& t.length == table_len(m, a)
    &&& t.revision == mem_byte(m, a + 8)
    &&& t.checksum == mem_byte(m, a + 9)
    &&& forall|i: int| 0 <= i < 6 ==> t.oemid@[i] == mem_byte(m, a + 10 + i)
    &&& t.oem_table_id == le64(m, a + 16)
    &&& t.oem_revision == le32(m, a + 24)
    &&& t.creator_id == le32(m, a + 28)
    &&& t.creator_revision == le32(m, a + 32)
}

impl Table {
    /// Validate the table header at `addr` and return the header, the table
    /// type derived from its signature, the payload address, and the
    /// payload size in bytes.
    pub fn from_addr(mem: &PhysMem, addr: PhysAddr) -> (r: Result<
        (Table, TableType, PhysAddr, usize),
        Error,
    >)
        ensures
            r matches Ok(_) <==> table_ok(mem@, addr.0 as int),
            match r {
                Ok((tbl, typ, payload, size)) => {
                    &&& table_decoded(tbl, mem@, addr.0 as int)
                    &&& type_rel(typ, mem@, addr.0 as int)
                    &&& payload.0 == addr.0 + 36
                    &&& size == table_len(mem@, addr.0 as int) - 36
                },
                Err(e) => {
                    let m = mem@;
                    let a = addr.0 as int;
                    if a + 35 > u64::MAX {
                        e == Error::IntegerOverflow
                    } else if table_len(m, a) >= 1 && a + table_len(m, a) - 1 > u64::MAX {
                        e == Error::IntegerOverflow
                    } else if byte_sum(m, a, table_len(m, a) as nat) % 256 != 0 {
                        e matches Error::ChecksumMismatch(t) && type_rel(t, m, a)
                    } else if a + 36 > u64::MAX {
                        e == Error::IntegerOverflow
                    } else {
                        e matches Error::LengthMismatch(t) && type_rel(t, m, a)
                    }
                },
            },
    {
        // The header itself must be addressable.
        if addr.0.checked_add(35).is_none() {
            return Err(Error::IntegerOverflow);
        }
        let a = addr.0;

        // Read the header field by field; firmware tables are not
        // guaranteed aligned.
        let table = Table {
            signature: [
                mem.read_u8(PhysAddr(a)),
                mem.read_u8(PhysAddr(a + 1)),
                mem.read_u8(PhysAddr(a + 2)),
                mem.read_u8(PhysAddr(a + 3)),
            ],
            length: mem.read_u32(PhysAddr(a + 4)),
            revision: mem.read_u8(PhysAddr(a + 8)),
            checksum: mem.read_u8(PhysAddr(a + 9)),
            oemid: [
                mem.read_u8(PhysAddr(a + 10)),
                mem.read_u8(PhysAddr(a + 11)),
                mem.read_u8(PhysAddr(a + 12)),
                mem.read_u8(PhysAddr(a + 13)),
                mem.read_u8(PhysAddr(a + 14)),
                mem.read_u8(PhysAddr(a + 15)),
            ],
            oem_table_id: mem.read_u64(PhysAddr(a + 16)),
            oem_revision: mem.read_u32(PhysAddr(a + 24)),
            creator_id: mem.read_u32(PhysAddr(a + 28)),
            creator_revision: mem.read_u32(PhysAddr(a + 32)),
        };

        // Get the type of this table from its signature.
        let typ = TableType::from(table.signature);
        proof {
            assert(type_rel(typ, mem@, a as int));
        }

        // Validate the checksum over the entire declared length.
        checksum(mem, addr, table.length as usize, typ)?;

        // The payload follows the header; make sure its address and size
        // are sane.
        let payload_addr = match a.checked_add(36) {
            Some(x) => PhysAddr(x),
            None => {
                return Err(Error::IntegerOverflow);
            },
        };
        let payload_size = match (table.length as usize).checked_sub(36) {
            Some(s) => s,
            None => {
                return Err(Error::LengthMismatch(typ));
            },
        };

        Ok((table, typ, payload_addr, payload_size))
    }
}

/// A CPU record from the MADT's stream of interrupt controller structures.
#[derive(Clone, Copy, Debug, PartialEq, Eq)]
#[allow(inconsistent_fields)]
pub enum CpuRecord {
    /// Processor local APIC structure.
    LocalApic {
        /// Processor uid the record is associated with.
        uid: u8,
        /// The processor's local APIC id.
        apic_id: u8,
        /// Local APIC flags: bit 0 enabled, bit 1 online capable.
        flags: u32,
    },
    /// Processor local x2APIC structure.
    LocalX2Apic {
        /// The processor's local x2APIC id.
        x2apic_id: u32,
        /// Same bits as the local APIC flags.
        flags: u32,
        /// Processor uid the record is associated with.
        uid: u32,
    },
}

/// The flags mark the processor as enabled or online capable.
pub open spec fn cpu_flags_usable(flags: u32) -> bool {
    flags & 1 != 0 || flags & 2 != 0
}

impl CpuRecord {
    /// The record's flags word.
    pub open spec fn spec_flags(self) -> u32 {
        match self {
            CpuRecord::LocalApic { flags, .. } => flags,
            CpuRecord::LocalX2Apic { flags, .. } => flags,
        }
    }

    /// Whether the record names a usable processor: enabled now, or capable
    /// of being brought online later.
    pub fn enabled(&self) -> (r: bool)
        ensures
            r == cpu_flags_usable(self.spec_flags()),
    {
        let flags = match self {
            CpuRecord::LocalApic { flags, .. } => *flags,
            CpuRecord::LocalX2Apic { flags, .. } => *flags,
        };
        flags & 1 != 0 || flags & 2 != 0
    }
}

/// Parse the MADT's interrupt controller structure stream: a sequence of
/// `[type, length, data]` records. Parsing stops cleanly when fewer than 2
/// bytes remain or a declared length exceeds the remaining bytes; a length
/// below 2 or a wrong size for a known record type is an error.
pub open spec fn parse_ics(m: Seq<u8>, a: int, rem: nat) -> Option<Seq<CpuRecord>>
    decreases rem,
{
    if rem < 2 {
        Some(Seq::empty())
    } else {
        let typ = mem_byte(m, a);
        let len = mem_byte(m, a + 1);
        if len < 2 {
            None
        } else if len > rem {
            // Tolerated truncation: stop without error.
            Some(Seq::empty())
        } else {
            let rest = parse_ics(m, a + len, (rem - len) as nat);
            if typ == 0 {
                if len != 8 {
                    None
                } else {
                    match rest {
                        Some(s) => Some(
                            seq![
                                CpuRecord::LocalApic {
                                    uid: mem_byte(m, a + 2),
                                    apic_id: mem_byte(m, a + 3),
                                    flags: le32(m, a + 4) as u32,
                                },
                            ] + s,
                        ),
                        None => None,
                    }
                }
            } else if typ == 9 {
                if len != 16 {
                    None
                } else {
                    match rest {
                        Some(s) => Some(
                            seq![
                                CpuRecord::LocalX2Apic {
                                    x2apic_id: le32(m, a + 4) as u32,
                                    flags: le32(m, a + 8) as u32,
                                    uid: le32(m, a + 12) as u32,
                                },
                            ] + s,
                        ),
                        None => None,
                    }
                }
            } else {
                rest
            }
        }
    }
}

/// An empty stream parses to no records.
proof fn lemma_parse_ics_zero(m: Seq<u8>, a: int)
    ensures
        parse_ics(m, a, 0) == Some(Seq::<CpuRecord>::empty()),
{
}

/// After consuming one whole record starting at `a0`, the cursor stands at
/// the rest of the stream: its state parses to the same records as the
/// recursive tail.
proof fn lemma_ics_step(m: Seq<u8>, a0: int, rem0: nat, slice: PhysSlice, rest: Option<
    Seq<CpuRecord>,
>)
    requires
        slice.wf(),
        rem0 >= 2,
        mem_byte(m, a0 + 1) >= 2,
        mem_byte(m, a0 + 1) <= rem0,
        slice.spec_len() == rem0 - mem_byte(m, a0 + 1),
        slice.spec_addr() as int == wrap_add64(a0, mem_byte(m, a0 + 1) as int),
        a0 + rem0 <= u64::MAX + 1,
        rest == parse_ics(m, a0 + mem_byte(m, a0 + 1), (rem0 - mem_byte(m, a0 + 1)) as nat),
    ensures
        parse_ics(m, slice.spec_addr() as int, slice.spec_len() as nat) == rest,
{
    let lenx = mem_byte(m, a0 + 1) as int;
    if slice.spec_addr() as int != a0 + lenx {
        // The record ended exactly at the top of the address space, so the
        // remaining stream is empty whatever the wrapped address is.
        assert(slice.spec_len() == 0);
        lemma_parse_ics_zero(m, slice.spec_addr() as int);
        lemma_parse_ics_zero(m, a0 + lenx);
    }
}

/// Parse a MADT payload: the 4-byte local APIC address and 4-byte flags,
/// then the interrupt controller structure stream.
pub open spec fn parse_madt(m: Seq<u8>, a: int, size: nat) -> Option<Seq<CpuRecord>> {
    if size < 8 {
        None
    } else {
        parse_ics(m, a + 8, (size - 8) as nat)
    }
}

/// The CPU records extracted from a MADT payload.
#[derive(Debug, PartialEq, Eq)]
pub struct Madt {
    /// The local APIC and x2APIC records of the stream, in order.
    pub cpus: Vec<CpuRecord>,
}

impl Madt {
    /// Parse the MADT payload at `addr` spanning `size` bytes.
    pub fn from_addr(mem: &PhysMem, addr: PhysAddr, size: usize) -> (r: Result<Madt, Error>)
        requires
            addr.0 + size <= u64::MAX + 1,
        ensures
            match r {
                Ok(madt) => parse_madt(mem@, addr.0 as int, size as nat) == Some(madt.cpus@),
                Err(e) => e == Error::LengthMismatch(TableType::Madt) && parse_madt(
                    mem@,
                    addr.0 as int,
                    size as nat,
                ) is None,
            },
    {
        // Create a cursor over the payload.
        let mut slice = PhysSlice::new(addr, size);
        let ghost m = mem@;

        // Read the local APIC physical address and the APIC flags; neither
        // is used by downstream logic.
        let _local_apic_addr = match slice.consume_u32(mem) {
            Ok(v) => v,
            Err(()) => {
                return Err(Error::LengthMismatch(TableType::Madt));
            },
        };
        let _flags = match slice.consume_u32(mem) {
            Ok(v) => v,
            Err(()) => {
                return Err(Error::LengthMismatch(TableType::Madt));
            },
        };

        let mut cpus: Vec<CpuRecord> = Vec::new();
        proof {
            // Both reads succeeded, so the payload holds the 8-byte prefix
            // and the cursor stands at the start of the record stream.
            assert(size >= 8);
            let sa = slice.spec_addr() as int;
            let sl = slice.spec_len() as nat;
            assert(sl == size - 8);
            if sa != addr.0 + 8 {
                // The payload ends exactly at the top of the address space,
                // so the stream is empty and its start is irrelevant.
                assert(sl == 0);
                lemma_parse_ics_zero(m, sa);
                lemma_parse_ics_zero(m, addr.0 as int + 8);
            }
            match parse_ics(m, sa, sl) {
                Some(s) => {
                    assert(cpus@ + s =~= s);
                },
                None => {},
            }
        }

        // Walk the interrupt controller structures.
        loop
            invariant_except_break
                parse_ics(m, slice.spec_addr() as int, slice.spec_len() as nat) matches Some(s)
                    ==> parse_madt(m, addr.0 as int, size as nat) == Some(cpus@ + s),
                parse_ics(m, slice.spec_addr() as int, slice.spec_len() as nat) is None
                    ==> parse_madt(m, addr.0 as int, size as nat) is None,
            invariant
                m == mem@,
                slice.wf(),
            ensures
                parse_madt(m, addr.0 as int, size as nat) == Some(cpus@),
            decreases slice.spec_len(),
        {
            let ghost a0 = slice.spec_addr() as int;
            let ghost rem0 = slice.spec_len() as nat;
            if slice.len() < 2 {
                // Fewer than 2 bytes remain: the stream ends cleanly.
                proof {
                    assert(parse_ics(m, a0, rem0) == Some(Seq::<CpuRecord>::empty()));
                    assert(cpus@ + Seq::<CpuRecord>::empty() =~= cpus@);
                }
                break;
            }

            // Read the record header.
            let typ = match slice.consume_u8(mem) {
                Ok(v) => v,
                Err(()) => {
                    return Err(Error::LengthMismatch(TableType::Madt));
                },
            };
            let len = match slice.consume_u8(mem) {
                Ok(v) => v,
                Err(()) => {
                    return Err(Error::LengthMismatch(TableType::Madt));
                },
            };
            if len < 2 {
                // A record cannot be shorter than its own header.
                proof {
                    assert(parse_ics(m, a0, rem0) is None);
                }
                return Err(Error::LengthMismatch(TableType::Madt));
            }
            let body = len - 2;
            if body as usize > slice.len() {
                // The declared length exceeds the remaining bytes: a
                // tolerated truncation, not an error.
                proof {
                    assert(parse_ics(m, a0, rem0) == Some(Seq::<CpuRecord>::empty()));
                    assert(cpus@ + Seq::<CpuRecord>::empty() =~= cpus@);
                }
                break;
            }

            let ghost lenx = mem_byte(m, a0 + 1) as int;
            let ghost rest = parse_ics(m, a0 + lenx, (rem0 - lenx) as nat);

            if typ == 0 {
                // Processor local APIC structure.
                if body != 6 {
                    proof {
                        assert(parse_ics(m, a0, rem0) is None);
                    }
                    return Err(Error::LengthMismatch(TableType::Madt));
                }
                let uid = match slice.consume_u8(mem) {
                    Ok(v) => v,
                    Err(()) => {
                        return Err(Error::LengthMismatch(TableType::Madt));
                    },
                };
                let apic_id = match slice.consume_u8(mem) {
                    Ok(v) => v,
                    Err(()) => {
                        return Err(Error::LengthMismatch(TableType::Madt));
                    },
                };
                let flags = match slice.consume_u32(mem) {
                    Ok(v) => v,
                    Err(()) => {
                        return Err(Error::LengthMismatch(TableType::Madt));
                    },
                };
                let ghost before = cpus@;
                cpus.push(CpuRecord::LocalApic { uid, apic_id, flags });
                proof {
                    let rec = CpuRecord::LocalApic {
                        uid: mem_byte(m, a0 + 2),
                        apic_id: mem_byte(m, a0 + 3),
                        flags: le32(m, a0 + 4) as u32,
                    };
                    lemma_ics_step(m, a0, rem0, slice, rest);
                    match rest {
                        Some(s) => {
                            assert(parse_ics(m, a0, rem0) == Some(seq![rec] + s));
                            assert(cpus@ + s =~= before + (seq![rec] + s));
                        },
                        None => {
                            assert(parse_ics(m, a0, rem0) is None);
                        },
                    }
                }
            } else if typ == 9 {
                // Processor local x2APIC structure.
                if body != 14 {
                    proof {
                        assert(parse_ics(m, a0, rem0) is None);
                    }
                    return Err(Error::LengthMismatch(TableType::Madt));
                }
                let _reserved = match slice.consume_u16(mem) {
                    Ok(v) => v,
                    Err(()) => {
                        return Err(Error::LengthMismatch(TableType::Madt));
                    },
                };
                let x2apic_id = match slice.consume_u32(mem) {
                    Ok(v) => v,
                    Err(()) => {
                        return Err(Error::LengthMismatch(TableType::Madt));
                    },
                };
                let flags = match slice.consume_u32(mem) {
                    Ok(v) => v,
                    Err(()) => {
                        return Err(Error::LengthMismatch(TableType::Madt));
                    },
                };
                let uid = match slice.consume_u32(mem) {
                    Ok(v) => v,
                    Err(()) => {
                        return Err(Error::LengthMismatch(TableType::Madt));
                    },
                };
                let ghost before = cpus@;
                cpus.push(CpuRecord::LocalX2Apic { x2apic_id, flags, uid });
                proof {
                    let rec = CpuRecord::LocalX2Apic {
                        x2apic_id: le32(m, a0 + 4) as u32,
                        flags: le32(m, a0 + 8) as u32,
                        uid: le32(m, a0 + 12) as u32,
                    };
                    lemma_ics_step(m, a0, rem0, slice, rest);
                    match rest {
                        Some(s) => {
                            assert(parse_ics(m, a0, rem0) == Some(seq![rec] + s));
                            assert(cpus@ + s =~= before + (seq![rec] + s));
                        },
                        None => {
                            assert(parse_ics(m, a0, rem0) is None);
                        },
                    }
                }
            } else {
                // Unknown record type: discard its data.
                let discarded = slice.discard(body as usize);
                proof {
                    assert(discarded == Ok::<(), ()>(()));
                    lemma_ics_step(m, a0, rem0, slice, rest);
                    assert(parse_ics(m, a0, rem0) == rest);
                }
            }
        }

        Ok(Madt { cpus })
    }
}

/// An affinity fact from the SRAT: it associates an APIC id or a memory
/// region with a NUMA domain.
#[derive(Clone, Copy, Debug, PartialEq, Eq)]
pub enum AffinityRecord {
    /// A processor, named by its local APIC id, belongs to a domain.
    LocalApicAffinity {
        /// The processor's local APIC id.
        apic_id: u8,
        /// The NUMA domain, reassembled from its low byte and high bytes.
        domain: u32,
    },
    /// A memory region belongs to a domain. `base` and `size` are kept as
    /// the raw field values.
    MemoryAffinity {
        /// The NUMA domain.
        domain: u32,
        /// Base physical address of the region.
        base: u64,
        /// Size of the region in bytes; zero-size records are skipped.
        size: u64,
    },
    /// A processor, named by its x2APIC id, belongs to a domain.
    X2ApicAffinity {
        /// The processor's x2APIC id.
        apic_id: u32,
        /// The NUMA domain.
        domain: u32,
    },
}

/// Parse the SRAT's record stream: the same `[type, length, data]` layout
/// and truncation tolerance as the MADT stream. Records whose flags mark
/// them disabled, and memory records of size zero, are skipped rather than
/// reported.
pub open spec fn parse_srat_stream(m: Seq<u8>, a: int, rem: nat) -> Option<Seq<AffinityRecord>>
    decreases rem,
{
    if rem < 2 {
        Some(Seq::empty())
    } else {
        let typ = mem_byte(m, a);
        let len = mem_byte(m, a + 1);
        if len < 2 {
            None
        } else if len > rem {
            // Tolerated truncation: stop without error.
            Some(Seq::empty())
        } else {
            let rest = parse_srat_stream(m, a + len, (rem - len) as nat);
            if typ == 0 {
                if len != 16 {
                    None
                } else {
                    match rest {
                        Some(s) => if le32(m, a + 4) as u32 & 1 != 0 {
                            Some(
                                seq![
                                    AffinityRecord::LocalApicAffinity {
                                        apic_id: mem_byte(m, a + 3),
                                        domain: (mem_byte(m, a + 2) + 0x100 * mem_byte(m, a + 9)
                                            + 0x10000 * mem_byte(m, a + 10) + 0x1000000 * mem_byte(
                                            m,
                                            a + 11,
                                        )) as u32,
                                    },
                                ] + s,
                            )
                        } else {
                            Some(s)
                        },
                        None => None,
                    }
                }
            } else if typ == 1 {
                if len != 40 {
                    None
                } else {
                    match rest {
                        Some(s) => if le64(m, a + 16) != 0 && le32(m, a + 28) as u32 & 1 != 0 {
                            Some(
                                seq![
                                    AffinityRecord::MemoryAffinity {
                                        domain: le32(m, a + 2) as u32,
                                        base: le64(m, a + 8) as u64,
                                        size: le64(m, a + 16) as u64,
                                    },
                                ] + s,
                            )
                        } else {
                            Some(s)
                        },
                        None => None,
                    }
                }
            } else if typ == 2 {
                if len != 24 {
                    None
                } else {
                    match rest {
                        Some(s) => if le32(m, a + 12) as u32 & 1 != 0 {
                            Some(
                                seq![
                                    AffinityRecord::X2ApicAffinity {
                                        apic_id: le32(m, a + 8) as u32,
                                        domain: le32(m, a + 4) as u32,
                                    },
                                ] + s,
                            )
                        } else {
                            Some(s)
                        },
                        None => None,
                    }
                }
            } else {
                rest
            }
        }
    }
}

/// Parse a SRAT payload: a 12-byte reserved prefix, then the record stream.
pub open spec fn parse_srat(m: Seq<u8>, a: int, size: nat) -> Option<Seq<AffinityRecord>> {
    if size < 12 {
        None
    } else {
        parse_srat_stream(m, a + 12, (size - 12) as nat)
    }
}

/// An empty SRAT stream parses to no records.
proof fn lemma_parse_srat_zero(m: Seq<u8>, a: int)
    ensures
        parse_srat_stream(m, a, 0) == Some(Seq::<AffinityRecord>::empty()),
{
}

/// After consuming one whole SRAT record starting at `a0`, the cursor
/// stands at the rest of the stream.
proof fn lemma_srat_step(m: Seq<u8>, a0: int, rem0: nat, slice: PhysSlice, rest: Option<
    Seq<AffinityRecord>,
>)
    requires
        slice.wf(),
        rem0 >= 2,
        mem_byte(m, a0 + 1) >= 2,
        mem_byte(m, a0 + 1) <= rem0,
        slice.spec_len() == rem0 - mem_byte(m, a0 + 1),
        slice.spec_addr() as int == wrap_add64(a0, mem_byte(m, a0 + 1) as int),
        a0 + rem0 <= u64::MAX + 1,
        rest == parse_srat_stream(m, a0 + mem_byte(m, a0 + 1), (rem0 - mem_byte(m, a0 + 1)) as nat),
    ensures
        parse_srat_stream(m, slice.spec_addr() as int, slice.spec_len() as nat) == rest,
{
    let lenx = mem_byte(m, a0 + 1) as int;
    if slice.spec_addr() as int != a0 + lenx {
        // The record ended exactly at the top of the address space, so the
        // remaining stream is empty whatever the wrapped address is.
        assert(slice.spec_len() == 0);
        lemma_parse_srat_zero(m, slice.spec_addr() as int);
        lemma_parse_srat_zero(m, a0 + lenx);
    }
}

/// The affinity facts extracted from a SRAT payload.
#[derive(Debug, PartialEq, Eq)]
pub struct Srat {
    /// The enabled affinity records of the stream, in order.
    pub records: Vec<AffinityRecord>,
}

impl Srat {
    /// Parse the SRAT payload at `addr` spanning `size` bytes.
    pub fn from_addr(mem: &PhysMem, addr: PhysAddr, size: usize) -> (r: Result<Srat, Error>)
        requires
            addr.0 + size <= u64::MAX + 1,
        ensures
            match r {
                Ok(srat) => parse_srat(mem@, addr.0 as int, size as nat) == Some(srat.records@),
                Err(e) => e == Error::LengthMismatch(TableType::Srat) && parse_srat(
                    mem@,
                    addr.0 as int,
                    size as nat,
                ) is None,
            },
    {
        // Create a cursor over the payload and skip the 12 reserved bytes.
        let mut slice = PhysSlice::new(addr, size);
        let ghost m = mem@;
        if slice.discard(12).is_err() {
            return Err(Error::LengthMismatch(TableType::Srat));
        }

        let mut records: Vec<AffinityRecord> = Vec::new();
        proof {
            assert(size >= 12);
            let sa = slice.spec_addr() as int;
            let sl = slice.spec_len() as nat;
            assert(sl == size - 12);
            if sa != addr.0 + 12 {
                // The payload ends exactly at the top of the address space,
                // so the stream is empty and its start is irrelevant.
                assert(sl == 0);
                lemma_parse_srat_zero(m, sa);
                lemma_parse_srat_zero(m, addr.0 as int + 12);
            }
            match parse_srat_stream(m, sa, sl) {
                Some(s) => {
                    assert(records@ + s =~= s);
                },
                None => {},
            }
        }

        // Walk the static resource allocation structures.
        loop
            invariant_except_break
                parse_srat_stream(m, slice.spec_addr() as int, slice.spec_len() as nat)
                    matches Some(s) ==> parse_srat(m, addr.0 as int, size as nat) == Some(
                    records@ + s,
                ),
                parse_srat_stream(m, slice.spec_addr() as int, slice.spec_len() as nat) is None
                    ==> parse_srat(m, addr.0 as int, size as nat) is None,
            invariant
                m == mem@,
                slice.wf(),
            ensures
                parse_srat(m, addr.0 as int, size as nat) == Some(records@),
            decreases slice.spec_len(),
        {
            let ghost a0 = slice.spec_addr() as int;
            let ghost rem0 = slice.spec_len() as nat;
            if slice.len() < 2 {
                // Fewer than 2 bytes remain: the stream ends cleanly.
                proof {
                    assert(parse_srat_stream(m, a0, rem0) == Some(Seq::<AffinityRecord>::empty()));
                    assert(records@ + Seq::<AffinityRecord>::empty() =~= records@);
                }
                break;
            }

            // Read the record header.
            let typ = match slice.consume_u8(mem) {
                Ok(v) => v,
                Err(()) => {
                    return Err(Error::LengthMismatch(TableType::Srat));
                },
            };
            let len = match slice.consume_u8(mem) {
                Ok(v) => v,
                Err(()) => {
                    return Err(Error::LengthMismatch(TableType::Srat));
                },
            };
            if len < 2 {
                // A record cannot be shorter than its own header.
                proof {
                    assert(parse_srat_stream(m, a0, rem0) is None);
                }
                return Err(Error::LengthMismatch(TableType::Srat));
            }
            let body = len - 2;
            if body as usize > slice.len() {
                // The declared length exceeds the remaining bytes: a
                // tolerated truncation, not an error.
                proof {
                    assert(parse_srat_stream(m, a0, rem0) == Some(Seq::<AffinityRecord>::empty()));
                    assert(records@ + Seq::<AffinityRecord>::empty() =~= records@);
                }
                break;
            }

            let ghost lenx = mem_byte(m, a0 + 1) as int;
            let ghost rest = parse_srat_stream(m, a0 + lenx, (rem0 - lenx) as nat);

            if typ == 0 {
                // Processor local APIC affinity structure.
                if body != 14 {
                    proof {
                        assert(parse_srat_stream(m, a0, rem0) is None);
                    }
                    return Err(Error::LengthMismatch(TableType::Srat));
                }
                let domain_lo = match slice.consume_u8(mem) {
                    Ok(v) => v,
                    Err(()) => {
                        return Err(Error::LengthMismatch(TableType::Srat));
                    },
                };
                let apic_id = match slice.consume_u8(mem) {
                    Ok(v) => v,
                    Err(()) => {
                        return Err(Error::LengthMismatch(TableType::Srat));
                    },
                };
                let flags = match slice.consume_u32(mem) {
                    Ok(v) => v,
                    Err(()) => {
                        return Err(Error::LengthMismatch(TableType::Srat));
                    },
                };
                let _sapic_eid = match slice.consume_u8(mem) {
                    Ok(v) => v,
                    Err(()) => {
                        return Err(Error::LengthMismatch(TableType::Srat));
                    },
                };
                let hi0 = match slice.consume_u8(mem) {
                    Ok(v) => v,
                    Err(()) => {
                        return Err(Error::LengthMismatch(TableType::Srat));
                    },
                };
                let hi1 = match slice.consume_u8(mem) {
                    Ok(v) => v,
                    Err(()) => {
                        return Err(Error::LengthMismatch(TableType::Srat));
                    },
                };
                let hi2 = match slice.consume_u8(mem) {
                    Ok(v) => v,
                    Err(()) => {
                        return Err(Error::LengthMismatch(TableType::Srat));
                    },
                };
                let _clock = match slice.consume_u32(mem) {
                    Ok(v) => v,
                    Err(()) => {
                        return Err(Error::LengthMismatch(TableType::Srat));
                    },
                };
                // Reassemble the 32-bit domain from its low and high bytes.
                let domain = (domain_lo as u32) + (hi0 as u32) * 0x100 + (hi1 as u32) * 0x10000 + (
                hi2 as u32) * 0x1000000;
                let ghost before = records@;
                if flags & 1 != 0 {
                    records.push(AffinityRecord::LocalApicAffinity { apic_id, domain });
                }
                proof {
                    let rec = AffinityRecord::LocalApicAffinity {
                        apic_id: mem_byte(m, a0 + 3),
                        domain: (mem_byte(m, a0 + 2) + 0x100 * mem_byte(m, a0 + 9) + 0x10000
                            * mem_byte(m, a0 + 10) + 0x1000000 * mem_byte(m, a0 + 11)) as u32,
                    };
                    lemma_srat_step(m, a0, rem0, slice, rest);
                    match rest {
                        Some(s) => {
                            if le32(m, a0 + 4) as u32 & 1 != 0 {
                                assert(parse_srat_stream(m, a0, rem0) == Some(seq![rec] + s));
                                assert(records@ + s =~= before + (seq![rec] + s));
                            } else {
                                assert(parse_srat_stream(m, a0, rem0) == Some(s));
                            }
                        },
                        None => {
                            assert(parse_srat_stream(m, a0, rem0) is None);
                        },
                    }
                }
            } else if typ == 1 {
                // Memory affinity structure.
                if body != 38 {
                    proof {
                        assert(parse_srat_stream(m, a0, rem0) is None);
                    }
                    return Err(Error::LengthMismatch(TableType::Srat));
                }
                let domain = match slice.consume_u32(mem) {
                    Ok(v) => v,
                    Err(()) => {
                        return Err(Error::LengthMismatch(TableType::Srat));
                    },
                };
                let _reserved = match slice.consume_u16(mem) {
                    Ok(v) => v,
                    Err(()) => {
                        return Err(Error::LengthMismatch(TableType::Srat));
                    },
                };
                let base = match slice.consume_u64(mem) {
                    Ok(v) => v,
                    Err(()) => {
                        return Err(Error::LengthMismatch(TableType::Srat));
                    },
                };
                let region_size = match slice.consume_u64(mem) {
                    Ok(v) => v,
                    Err(()) => {
                        return Err(Error::LengthMismatch(TableType::Srat));
                    },
                };
                let _reserved2 = match slice.consume_u32(mem) {
                    Ok(v) => v,
                    Err(()) => {
                        return Err(Error::LengthMismatch(TableType::Srat));
                    },
                };
                let flags = match slice.consume_u32(mem) {
                    Ok(v) => v,
                    Err(()) => {
                        return Err(Error::LengthMismatch(TableType::Srat));
                    },
                };
                let _reserved3 = match slice.consume_u64(mem) {
                    Ok(v) => v,
                    Err(()) => {
                        return Err(Error::LengthMismatch(TableType::Srat));
                    },
                };
                let ghost before = records@;
                // Zero-size ranges occur on real firmware and are skipped,
                // not errors.
                if region_size != 0 && flags & 1 != 0 {
                    records.push(AffinityRecord::MemoryAffinity { domain, base, size: region_size });
                }
                proof {
                    let rec = AffinityRecord::MemoryAffinity {
                        domain: le32(m, a0 + 2) as u32,
                        base: le64(m, a0 + 8) as u64,
                        size: le64(m, a0 + 16) as u64,
                    };
                    lemma_srat_step(m, a0, rem0, slice, rest);
                    match rest {
                        Some(s) => {
                            if le64(m, a0 + 16) != 0 && le32(m, a0 + 28) as u32 & 1 != 0 {
                                assert(parse_srat_stream(m, a0, rem0) == Some(seq![rec] + s));
                                assert(records@ + s =~= before + (seq![rec] + s));
                            } else {
                                assert(parse_srat_stream(m, a0, rem0) == Some(s));
                            }
                        },
                        None => {
                            assert(parse_srat_stream(m, a0, rem0) is None);
                        },
                    }
                }
            } else if typ == 2 {
                // Processor local x2APIC affinity structure.
                if body != 22 {
                    proof {
                        assert(parse_srat_stream(m, a0, rem0) is None);
                    }
                    return Err(Error::LengthMismatch(TableType::Srat));
                }
                let _reserved = match slice.consume_u16(mem) {
                    Ok(v) => v,
                    Err(()) => {
                        return Err(Error::LengthMismatch(TableType::Srat));
                    },
                };
                let domain = match slice.consume_u32(mem) {
                    Ok(v) => v,
                    Err(()) => {
                        return Err(Error::LengthMismatch(TableType::Srat));
                    },
                };
                let apic_id = match slice.consume_u32(mem) {
                    Ok(v) => v,
                    Err(()) => {
                        return Err(Error::LengthMismatch(TableType::Srat));
                    },
                };
                let flags = match slice.consume_u32(mem) {
                    Ok(v) => v,
                    Err(()) => {
                        return Err(Error::LengthMismatch(TableType::Srat));
                    },
                };
                let _clock = match slice.consume_u32(mem) {
                    Ok(v) => v,
                    Err(()) => {
                        return Err(Error::LengthMismatch(TableType::Srat));
                    },
                };
                let _reserved2 = match slice.consume_u32(mem) {
                    Ok(v) => v,
                    Err(()) => {
                        return Err(Error::LengthMismatch(TableType::Srat));
                    },
                };
                let ghost before = records@;
                if flags & 1 != 0 {
                    records.push(AffinityRecord::X2ApicAffinity { apic_id, domain });
                }
                proof {
                    let rec = AffinityRecord::X2ApicAffinity {
                        apic_id: le32(m, a0 + 8) as u32,
                        domain: le32(m, a0 + 4) as u32,
                    };
                    lemma_srat_step(m, a0, rem0, slice, rest);
                    match rest {
                        Some(s) => {
                            if le32(m, a0 + 12) as u32 & 1 != 0 {
                                assert(parse_srat_stream(m, a0, rem0) == Some(seq![rec] + s));
                                assert(records@ + s =~= before + (seq![rec] + s));
                            } else {
                                assert(parse_srat_stream(m, a0, rem0) == Some(s));
                            }
                        },
                        None => {
                            assert(parse_srat_stream(m, a0, rem0) is None);
                        },
                    }
                }
            } else {
                // Unknown record type: discard its data.
                let discarded = slice.discard(body as usize);
                proof {
                    assert(discarded == Ok::<(), ()>(()));
                    lemma_srat_step(m, a0, rem0, slice, rest);
                    assert(parse_srat_stream(m, a0, rem0) == rest);
                }
            }
        }

        Ok(Srat { records })
    }
}

/// The `k`-th 64-bit entry of the XSDT whose header stands at `xa`: the
/// physical address of another table.
pub open spec fn xsdt_entry(m: Seq<u8>, xa: int, k: int) -> int {
    le64(m, xa + 36 + 8 * k)
}

/// Dispatching the table at `ta` succeeds: its header validates, and a
/// MADT or SRAT payload parses. Any other signature is skipped.
pub open spec fn dispatch_ok(m: Seq<u8>, ta: int) -> bool {
    &&& table_ok(m, ta)
    &&& sig_match(m, ta, 65, 80, 73, 67) ==> parse_madt(
        m,
        ta + 36,
        (table_len(m, ta) - 36) as nat,
    ) is Some
    &&& sig_match(m, ta, 83, 82, 65, 84) ==> parse_srat(
        m,
        ta + 36,
        (table_len(m, ta) - 36) as nat,
    ) is Some
}

/// The whole firmware-table pipeline validates starting from the RSDP at
/// `a`: extended RSDP, the XSDT it names, and every table the XSDT lists.
pub open spec fn acpi_valid(m: Seq<u8>, a: int) -> bool {
    let xa = le64(m, a + 24);
    &&& rsdp_ext_check(m, a) == Ok::<(), Error>(())
    &&& table_ok(m, xa)
    &&& sig_match(m, xa, 88, 83, 68, 84)
    &&& (table_len(m, xa) - 36) % 8 == 0
    &&& forall|k: int|
        0 <= k < (table_len(m, xa) - 36) / 8 ==> dispatch_ok(m, xsdt_entry(m, xa, k))
}

/// Initialize the firmware-table subsystem: locate the RSDP, validate it
/// and the XSDT, and walk every listed table, parsing the MADT and SRAT
/// and skipping unknown signatures. Succeeds exactly when the whole
/// topology validates.
#[verifier::loop_isolation(false)]
pub fn init(mem: &PhysMem, rsdp_addr: Option<PhysAddr>) -> (r: Result<(), Error>)
    ensures
        rsdp_addr is None ==> r == Err::<(), Error>(Error::RsdpNotFound),
        rsdp_addr matches Some(a) ==> (r matches Ok(_) <==> acpi_valid(mem@, a.0 as int)),
{
    // Firmware must have reported an RSDP address.
    let addr = match rsdp_addr {
        Some(a) => a,
        None => {
            return Err(Error::RsdpNotFound);
        },
    };
    let ghost m = mem@;

    // Validate and get the extended RSDP.
    let rsdp = RsdpExtended::from_addr(mem, addr)?;

    // Validate the table it points to, which must be the XSDT.
    let (_table, typ, xsdt, length) = Table::from_addr(mem, PhysAddr(rsdp.xsdt_addr))?;
    let ghost xa = rsdp.xsdt_addr as int;
    match typ {
        TableType::Xsdt => {},
        _ => {
            proof {
                assert(!sig_match(m, xa, 88, 83, 68, 84));
            }
            return Err(Error::SignatureMismatch(typ));
        },
    }

    // The payload is an array of 64-bit table addresses.
    if length % 8 != 0 {
        return Err(Error::XsdtBadEntries);
    }
    let entries = length / 8;

    // Validate and dispatch every listed table.
    let mut idx: usize = 0;
    while idx < entries
        invariant
            forall|k: int| 0 <= k < idx ==> dispatch_ok(m, xsdt_entry(m, xa, k)),
        decreases entries - idx,
    {
        // The address of this XSDT entry; the arithmetic stays inside the
        // validated table, so the checks cannot fail.
        let entry_addr = match (idx as u64).checked_mul(8) {
            Some(x) => match x.checked_add(xsdt.0) {
                Some(y) => y,
                None => {
                    return Err(Error::IntegerOverflow);
                },
            },
            None => {
                return Err(Error::IntegerOverflow);
            },
        };

        // Read the table address from the entry; it may be unaligned.
        let table_addr = mem.read_u64(PhysAddr(entry_addr));
        proof {
            assert(table_addr == xsdt_entry(m, xa, idx as int));
        }

        // Parse and validate the table header, then hand the payload to
        // the matching parser; unknown signatures are skipped.
        match Table::from_addr(mem, PhysAddr(table_addr)) {
            Err(e) => {
                proof {
                    assert(!dispatch_ok(m, xsdt_entry(m, xa, idx as int)));
                }
                return Err(e);
            },
            Ok((_hdr, ttyp, data, tlen)) => {
                match ttyp {
                    TableType::Madt => {
                        match Madt::from_addr(mem, data, tlen) {
                            Ok(_) => {},
                            Err(e) => {
                                proof {
                                    assert(!dispatch_ok(m, xsdt_entry(m, xa, idx as int)));
                                }
                                return Err(e);
                            },
                        }
                    },
                    TableType::Srat => {
                        match Srat::from_addr(mem, data, tlen) {
                            Ok(_) => {},
                            Err(e) => {
                                proof {
                                    assert(!dispatch_ok(m, xsdt_entry(m, xa, idx as int)));
                                }
                                return Err(e);
                            },
                        }
                    },
                    _ => {},
                }
                proof {
                    assert(dispatch_ok(m, xsdt_entry(m, xa, idx as int)));
                }
            },
        }
        idx += 1;
    }

    Ok(())
}

/// Law: flipping any single byte inside a window whose checksum passes
/// makes the checksum fail, since the byte sum changes by a nonzero amount
/// smaller than 256 in magnitude.
pub proof fn lemma_checksum_byte_flip(m1: Seq<u8>, m2: Seq<u8>, addr: int, size: nat, k: int)
    requires
        addr <= k < addr + size,
        forall|j: int| addr <= j < addr + size && j != k ==> mem_byte(m1, j) == mem_byte(m2, j),
        mem_byte(m1, k) != mem_byte(m2, k),
        byte_sum(m1, addr, size) % 256 == 0,
    ensures
        byte_sum(m2, addr, size) % 256 != 0,
{
    lemma_byte_sum_diff(m1, m2, addr, size, k);
    let s1 = byte_sum(m1, addr, size);
    let s2 = byte_sum(m2, addr, size);
    let d = mem_byte(m2, k) - mem_byte(m1, k);
    assert(-256 < d < 256 && d != 0);
    vstd::arithmetic::div_mod::lemma_add_mod_noop(s1, d, 256);
    if d > 0 {
        vstd::arithmetic::div_mod::lemma_small_mod(d as nat, 256);
    } else {
        vstd::arithmetic::div_mod::lemma_mod_multiples_vanish(1, d, 256);
        vstd::arithmetic::div_mod::lemma_small_mod((d + 256) as nat, 256);
    }
}

} // verus!
