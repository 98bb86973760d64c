use bootmem::acpi::{checksum, init, CpuRecord, Error, Madt, Rsdp, RsdpExtended, Srat, Table, TableType};
use bootmem::acpi::AffinityRecord;
use bootmem::mm::{PhysAddr, PhysMem};

fn put_u32(mem: &mut Vec<u8>, off: usize, v: u32) {
    mem[off..off + 4].copy_from_slice(&v.to_le_bytes());
}

fn put_u64(mem: &mut Vec<u8>, off: usize, v: u64) {
    mem[off..off + 8].copy_from_slice(&v.to_le_bytes());
}

/// Set the byte at `fix` so that `len` bytes starting at `off` sum to zero.
fn fix_checksum(mem: &mut Vec<u8>, off: usize, len: usize, fix: usize) {
    mem[fix] = 0;
    let sum: u32 = mem[off..off + len].iter().map(|&b| b as u32).sum();
    mem[fix] = ((256 - (sum % 256)) % 256) as u8;
}

/// Write a valid revision 2 extended RSDP at `off`, naming `xsdt_addr`.
fn put_rsdp(mem: &mut Vec<u8>, off: usize, xsdt_addr: u64) {
    mem[off..off + 8].copy_from_slice(b"RSD PTR ");
    mem[off + 15] = 2; // revision
    put_u32(mem, off + 20, 36); // length
    put_u64(mem, off + 24, xsdt_addr);
    fix_checksum(mem, off, 20, off + 8);
    fix_checksum(mem, off, 36, off + 32);
}

/// Write a table header at `off` with the given signature and total length
/// (header plus payload), and fix its checksum over the whole length. The
/// payload must already be in place.
fn put_header(mem: &mut Vec<u8>, off: usize, sig: &[u8; 4], len: u32) {
    mem[off..off + 4].copy_from_slice(sig);
    put_u32(mem, off + 4, len);
    fix_checksum(mem, off, len as usize, off + 9);
}

#[test]
fn checksum_accepts_zero_sum_and_rejects_any_flip() {
    let mut bytes = vec![1u8, 2, 3, 250];
    let sum: u32 = bytes.iter().map(|&b| b as u32).sum();
    bytes.push(((256 - (sum % 256)) % 256) as u8);
    let n = bytes.len();

    let mem = PhysMem::new(bytes.clone());
    assert_eq!(checksum(&mem, PhysAddr(0), n, TableType::Rsdp), Ok(()));

    // Flipping any single byte must make the checksum fail.
    for i in 0..n {
        let mut flipped = bytes.clone();
        flipped[i] ^= 0x40;
        let mem = PhysMem::new(flipped);
        assert_eq!(
            checksum(&mem, PhysAddr(0), n, TableType::Rsdp),
            Err(Error::ChecksumMismatch(TableType::Rsdp))
        );
    }
}

#[test]
fn checksum_overflow_is_detected() {
    let mem = PhysMem::new(vec![0u8; 16]);
    assert_eq!(checksum(&mem, PhysAddr(u64::MAX - 2), 8, TableType::Xsdt), Err(Error::IntegerOverflow));
    // An empty window always passes.
    assert_eq!(checksum(&mem, PhysAddr(u64::MAX), 0, TableType::Xsdt), Ok(()));
}

#[test]
fn rsdp_parses_valid_structure() {
    let mut v = vec![0u8; 256];
    put_rsdp(&mut v, 64, 0x1234);
    let mem = PhysMem::new(v);
    let rsdp = Rsdp::from_addr(&mem, PhysAddr(64)).unwrap();
    assert_eq!(&rsdp.signature, b"RSD PTR ");
    assert_eq!(rsdp.revision, 2);
}

#[test]
fn rsdp_wrong_signature_fails_even_with_valid_checksum() {
    let mut v = vec![0u8; 256];
    put_rsdp(&mut v, 64, 0);
    v[64] = b'X'; // break the signature
    fix_checksum(&mut v, 64, 20, 64 + 8); // keep the checksum valid
    let mem = PhysMem::new(v);
    assert_eq!(
        Rsdp::from_addr(&mem, PhysAddr(64)),
        Err(Error::SignatureMismatch(TableType::Rsdp))
    );
}

#[test]
fn rsdp_bad_checksum_fails() {
    let mut v = vec![0u8; 256];
    put_rsdp(&mut v, 64, 0);
    v[64 + 16] = v[64 + 16].wrapping_add(1); // corrupt a 1.0 field
    let mem = PhysMem::new(v);
    assert_eq!(
        Rsdp::from_addr(&mem, PhysAddr(64)),
        Err(Error::ChecksumMismatch(TableType::Rsdp))
    );
}

#[test]
fn extended_rsdp_old_revision_fails_before_extended_fields() {
    // The snapshot ends right after the 1.0 fields: a revision 1
    // structure must fail on the revision alone, without the extended
    // fields.
    let mut v = vec![0u8; 52];
    v[32..32 + 8].copy_from_slice(b"RSD PTR ");
    v[32 + 15] = 1; // revision 1
    fix_checksum(&mut v, 32, 20, 32 + 8);
    let mem = PhysMem::new(v);
    assert_eq!(RsdpExtended::from_addr(&mem, PhysAddr(32)), Err(Error::RevisionTooOld));
}

#[test]
fn extended_rsdp_wrong_length_fails() {
    let mut v = vec![0u8; 256];
    put_rsdp(&mut v, 64, 0x1234);
    put_u32(&mut v, 64 + 20, 40); // wrong length field
    fix_checksum(&mut v, 64, 36, 64 + 32);
    let mem = PhysMem::new(v);
    assert_eq!(
        RsdpExtended::from_addr(&mem, PhysAddr(64)),
        Err(Error::LengthMismatch(TableType::RsdpExtended))
    );
}

#[test]
fn extended_rsdp_parses_valid_structure() {
    let mut v = vec![0u8; 256];
    put_rsdp(&mut v, 64, 0xdead_beef);
    let mem = PhysMem::new(v);
    let ext = RsdpExtended::from_addr(&mem, PhysAddr(64)).unwrap();
    assert_eq!(ext.length, 36);
    assert_eq!(ext.xsdt_addr, 0xdead_beef);
}

#[test]
fn table_header_too_short_length_fails() {
    let mut v = vec![0u8; 256];
    // Header with a declared length of 13, smaller than the 36-byte
    // header itself, but a valid checksum over those 13 bytes.
    put_header(&mut v, 32, b"XSDT", 13);
    let mem = PhysMem::new(v);
    match Table::from_addr(&mem, PhysAddr(32)) {
        Err(Error::LengthMismatch(TableType::Xsdt)) => {},
        other => panic!("unexpected result: {:?}", other.map(|_| ())),
    }
}

#[test]
fn table_header_bad_checksum_fails() {
    let mut v = vec![0u8; 256];
    put_header(&mut v, 32, b"APIC", 40);
    v[32 + 38] = v[32 + 38].wrapping_add(1); // corrupt a payload byte
    let mem = PhysMem::new(v);
    match Table::from_addr(&mem, PhysAddr(32)) {
        Err(Error::ChecksumMismatch(TableType::Madt)) => {},
        other => panic!("unexpected result: {:?}", other.map(|_| ())),
    }
}

#[test]
fn table_header_reports_payload() {
    let mut v = vec![0u8; 256];
    put_header(&mut v, 32, b"SRAT", 48);
    let mem = PhysMem::new(v);
    let (tbl, typ, payload, size) = Table::from_addr(&mem, PhysAddr(32)).unwrap();
    assert_eq!(tbl.length, 48);
    assert_eq!(typ, TableType::Srat);
    assert_eq!(payload, PhysAddr(32 + 36));
    assert_eq!(size, 12);
}

#[test]
fn table_header_unknown_signature() {
    let mut v = vec![0u8; 256];
    put_header(&mut v, 32, b"ZZZZ", 36);
    let mem = PhysMem::new(v);
    let (_, typ, _, _) = Table::from_addr(&mem, PhysAddr(32)).unwrap();
    assert_eq!(typ, TableType::Unknown(*b"ZZZZ"));
}

#[test]
fn madt_parses_cpu_records() {
    // Payload: 8-byte prefix, one local APIC record, one local x2APIC
    // record, one unknown record.
    let mut p = vec![0u8; 8];
    p.extend_from_slice(&[0, 8, 7, 42, 1, 0, 0, 0]); // LocalApic uid 7 apic 42 flags 1
    p.extend_from_slice(&[9, 16, 0, 0, 5, 0, 0, 0, 2, 0, 0, 0, 9, 0, 0, 0]); // x2apic 5 flags 2 uid 9
    p.extend_from_slice(&[0x7f, 4, 0xaa, 0xbb]); // unknown type, discarded
    let n = p.len();
    let mem = PhysMem::new(p);
    let madt = Madt::from_addr(&mem, PhysAddr(0), n).unwrap();
    assert_eq!(
        madt.cpus,
        vec![
            CpuRecord::LocalApic { uid: 7, apic_id: 42, flags: 1 },
            CpuRecord::LocalX2Apic { x2apic_id: 5, flags: 2, uid: 9 },
        ]
    );
    assert!(madt.cpus[0].enabled());
    assert!(madt.cpus[1].enabled());
}

#[test]
fn madt_disabled_cpu_fails_enabled_test() {
    let mut p = vec![0u8; 8];
    p.extend_from_slice(&[0, 8, 1, 2, 0, 0, 0, 0]); // flags 0: neither enabled nor online capable
    p.extend_from_slice(&[0, 8, 1, 3, 2, 0, 0, 0]); // flags 2: online capable
    let n = p.len();
    let mem = PhysMem::new(p);
    let madt = Madt::from_addr(&mem, PhysAddr(0), n).unwrap();
    assert_eq!(madt.cpus.len(), 2);
    assert!(!madt.cpus[0].enabled());
    assert!(madt.cpus[1].enabled());
}

#[test]
fn madt_truncated_record_stops_without_error() {
    // The declared record length exceeds the remaining bytes: parsing
    // stops cleanly with the records seen so far.
    let mut p = vec![0u8; 8];
    p.extend_from_slice(&[0, 8, 7, 42, 1, 0, 0, 0]); // one full record
    p.extend_from_slice(&[0x33, 9, 1]); // truncated mid-record
    let n = p.len();
    let mem = PhysMem::new(p);
    let madt = Madt::from_addr(&mem, PhysAddr(0), n).unwrap();
    assert_eq!(madt.cpus, vec![CpuRecord::LocalApic { uid: 7, apic_id: 42, flags: 1 }]);
}

#[test]
fn madt_trailing_byte_stops_without_error() {
    let p = vec![0u8; 9]; // 8-byte prefix and one stray byte
    let mem = PhysMem::new(p);
    let madt = Madt::from_addr(&mem, PhysAddr(0), 9).unwrap();
    assert!(madt.cpus.is_empty());
}

#[test]
fn madt_wrong_record_size_is_an_error() {
    let mut p = vec![0u8; 8];
    p.extend_from_slice(&[0, 9, 7, 42, 1, 0, 0, 0, 0]); // LocalApic with length 9
    let n = p.len();
    let mem = PhysMem::new(p);
    assert_eq!(
        Madt::from_addr(&mem, PhysAddr(0), n),
        Err(Error::LengthMismatch(TableType::Madt))
    );
}

#[test]
fn madt_short_prefix_is_an_error() {
    let mem = PhysMem::new(vec![0u8; 4]);
    assert_eq!(
        Madt::from_addr(&mem, PhysAddr(0), 4),
        Err(Error::LengthMismatch(TableType::Madt))
    );
}

#[test]
fn srat_parses_affinity_records() {
    let mut p = vec![0u8; 12];
    // Local APIC affinity: domain low 0x44, apic 3, flags 1, domain high
    // bytes 0x55 0x66 0x77.
    p.extend_from_slice(&[0, 16, 0x44, 3, 1, 0, 0, 0, 0, 0x55, 0x66, 0x77, 0, 0, 0, 0]);
    // Memory affinity: domain 2, base 0x1000, size 0x2000, flags 1.
    let mut mem_rec = vec![1u8, 40, 2, 0, 0, 0, 0, 0];
    mem_rec.extend_from_slice(&0x1000u64.to_le_bytes());
    mem_rec.extend_from_slice(&0x2000u64.to_le_bytes());
    mem_rec.extend_from_slice(&[0, 0, 0, 0, 1, 0, 0, 0]);
    mem_rec.extend_from_slice(&[0; 8]);
    p.extend_from_slice(&mem_rec);
    // x2APIC affinity: domain 9, apic 0x1234, flags 1.
    let mut x2 = vec![2u8, 24, 0, 0, 9, 0, 0, 0];
    x2.extend_from_slice(&0x1234u32.to_le_bytes());
    x2.extend_from_slice(&[1, 0, 0, 0]);
    x2.extend_from_slice(&[0; 8]);
    p.extend_from_slice(&x2);
    let n = p.len();
    let mem = PhysMem::new(p);
    let srat = Srat::from_addr(&mem, PhysAddr(0), n).unwrap();
    assert_eq!(
        srat.records,
        vec![
            AffinityRecord::LocalApicAffinity { apic_id: 3, domain: 0x7766_5544 },
            AffinityRecord::MemoryAffinity { domain: 2, base: 0x1000, size: 0x2000 },
            AffinityRecord::X2ApicAffinity { apic_id: 0x1234, domain: 9 },
        ]
    );
}

#[test]
fn srat_skips_disabled_and_zero_size_records() {
    let mut p = vec![0u8; 12];
    // Disabled local APIC affinity (flags 0).
    p.extend_from_slice(&[0, 16, 1, 3, 0, 0, 0, 0, 0, 0, 0, 0, 0, 0, 0, 0]);
    // Zero-size memory affinity with flags set: skipped, not an error.
    let mut mem_rec = vec![1u8, 40, 2, 0, 0, 0, 0, 0];
    mem_rec.extend_from_slice(&0x1000u64.to_le_bytes());
    mem_rec.extend_from_slice(&0u64.to_le_bytes());
    mem_rec.extend_from_slice(&[0, 0, 0, 0, 1, 0, 0, 0]);
    mem_rec.extend_from_slice(&[0; 8]);
    p.extend_from_slice(&mem_rec);
    let n = p.len();
    let mem = PhysMem::new(p);
    let srat = Srat::from_addr(&mem, PhysAddr(0), n).unwrap();
    assert!(srat.records.is_empty());
}

#[test]
fn srat_wrong_record_size_is_an_error() {
    let mut p = vec![0u8; 12];
    p.extend_from_slice(&[2, 23, 0, 0, 9, 0, 0, 0, 0, 0, 0, 0, 1, 0, 0, 0, 0, 0, 0, 0, 0, 0, 0]);
    let n = p.len();
    let mem = PhysMem::new(p);
    assert_eq!(
        Srat::from_addr(&mem, PhysAddr(0), n),
        Err(Error::LengthMismatch(TableType::Srat))
    );
}

/// Build a full firmware image: extended RSDP at 512, XSDT at 1024 listing
/// a MADT at 2048 and a SRAT at 2560.
fn build_image() -> Vec<u8> {
    let mut v = vec![0u8; 4096];

    // MADT: 8-byte payload prefix plus one enabled local APIC record.
    let madt_payload: [u8; 16] = [0, 0, 0, 0, 0, 0, 0, 0, 0, 8, 7, 42, 1, 0, 0, 0];
    v[2048 + 36..2048 + 36 + 16].copy_from_slice(&madt_payload);
    put_header(&mut v, 2048, b"APIC", 36 + 16);

    // SRAT: 12-byte reserved prefix plus one enabled x2APIC affinity.
    let srat_x2: [u8; 24] = [2, 24, 0, 0, 9, 0, 0, 0, 0x34, 0x12, 0, 0, 1, 0, 0, 0, 0, 0, 0, 0, 0, 0, 0, 0];
    v[2560 + 36 + 12..2560 + 36 + 12 + 24].copy_from_slice(&srat_x2);
    put_header(&mut v, 2560, b"SRAT", 36 + 12 + 24);

    // XSDT listing both tables.
    put_u64(&mut v, 1024 + 36, 2048);
    put_u64(&mut v, 1024 + 36 + 8, 2560);
    put_header(&mut v, 1024, b"XSDT", 36 + 16);

    put_rsdp(&mut v, 512, 1024);
    v
}

#[test]
fn init_validates_a_full_topology() {
    let mem = PhysMem::new(build_image());
    assert_eq!(init(&mem, Some(PhysAddr(512))), Ok(()));
}

#[test]
fn init_without_rsdp_address_fails() {
    let mem = PhysMem::new(vec![0u8; 64]);
    assert_eq!(init(&mem, None), Err(Error::RsdpNotFound));
}

#[test]
fn init_rejects_non_xsdt_root() {
    let mut v = build_image();
    // Point the RSDP at the MADT instead of the XSDT.
    put_rsdp(&mut v, 512, 2048);
    let mem = PhysMem::new(v);
    assert_eq!(
        init(&mem, Some(PhysAddr(512))),
        Err(Error::SignatureMismatch(TableType::Madt))
    );
}

#[test]
fn init_rejects_xsdt_with_bad_entry_array() {
    let mut v = build_image();
    // An XSDT payload of 13 bytes is not a whole number of 8-byte entries.
    put_header(&mut v, 1024, b"XSDT", 36 + 13);
    let mem = PhysMem::new(v);
    assert_eq!(init(&mem, Some(PhysAddr(512))), Err(Error::XsdtBadEntries));
}

#[test]
fn init_skips_unknown_tables() {
    let mut v = build_image();
    // Replace the SRAT with an unknown signature; init must skip it.
    v[2560..2560 + 4].copy_from_slice(b"ZZZZ");
    fix_checksum(&mut v, 2560, 36 + 12 + 24, 2560 + 9);
    let mem = PhysMem::new(v);
    assert_eq!(init(&mem, Some(PhysAddr(512))), Ok(()));
}

#[test]
fn init_propagates_a_bad_table_checksum() {
    let mut v = build_image();
    v[2048 + 40] ^= 1; // corrupt the MADT payload without fixing its checksum
    let mem = PhysMem::new(v);
    assert_eq!(
        init(&mem, Some(PhysAddr(512))),
        Err(Error::ChecksumMismatch(TableType::Madt))
    );
}

#[test]
fn init_tolerates_truncated_madt_stream() {
    let mut v = build_image();
    // Rewrite the MADT payload: one record claiming more bytes than remain.
    let madt_payload: [u8; 11] = [0, 0, 0, 0, 0, 0, 0, 0, 0x33, 9, 1];
    v[2048 + 36..2048 + 36 + 16].copy_from_slice(&[0; 16]);
    v[2048 + 36..2048 + 36 + 11].copy_from_slice(&madt_payload);
    put_header(&mut v, 2048, b"APIC", 36 + 11);
    let mem = PhysMem::new(v);
    assert_eq!(init(&mem, Some(PhysAddr(512))), Ok(()));
}
