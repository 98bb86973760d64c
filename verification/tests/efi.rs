use bootmem::efi::{
    acpi2_table_guid, acpi_table_guid, get_acpi_table, get_memory_map, EfiConfigurationTable,
    EfiError, EfiGuid, EfiMemoryType, EfiStatus, EfiStatusCode, EfiWarning, Error,
};
use bootmem::rangeset::Range;

#[test]
fn status_zero_is_success() {
    assert_eq!(EfiStatus::from(EfiStatusCode(0)), EfiStatus::Success);
}

#[test]
fn status_small_values_are_warnings() {
    assert_eq!(EfiStatus::from(EfiStatusCode(1)), EfiStatus::Warning(EfiWarning::UnknownGlyph));
    assert_eq!(EfiStatus::from(EfiStatusCode(4)), EfiStatus::Warning(EfiWarning::BufferTooSmall));
    assert_eq!(EfiStatus::from(EfiStatusCode(7)), EfiStatus::Warning(EfiWarning::ResetRequired));
    assert_eq!(EfiStatus::from(EfiStatusCode(8)), EfiStatus::Warning(EfiWarning::Unknown(8)));
}

#[test]
fn status_sign_extends_the_low_word() {
    // A set bit 31 is sign-extended, which lands the value in the error
    // range with the top bit stripped from the payload.
    assert_eq!(
        EfiStatus::from(EfiStatusCode(0x8000_0001)),
        EfiStatus::Error(EfiError::Unknown(0x7fff_ffff_8000_0001))
    );
    // Bits above 31 are discarded before classification.
    assert_eq!(
        EfiStatus::from(EfiStatusCode(0x1_0000_0000_usize.wrapping_add(3))),
        EfiStatus::Warning(EfiWarning::WriteFailure)
    );
}

#[test]
fn memory_type_classification() {
    assert_eq!(EfiMemoryType::from(7u32), EfiMemoryType::ConventionalMemory);
    assert_eq!(EfiMemoryType::from(14u32), EfiMemoryType::PersistentMemory);
    assert_eq!(EfiMemoryType::from(99u32), EfiMemoryType::Invalid);
}

#[test]
fn memory_type_usable_after_boot_services() {
    assert!(EfiMemoryType::from(3u32).avail_post_exit_boot_service());
    assert!(EfiMemoryType::from(4u32).avail_post_exit_boot_service());
    assert!(EfiMemoryType::from(7u32).avail_post_exit_boot_service());
    assert!(EfiMemoryType::from(14u32).avail_post_exit_boot_service());
    assert!(!EfiMemoryType::from(0u32).avail_post_exit_boot_service());
    assert!(!EfiMemoryType::from(8u32).avail_post_exit_boot_service());
    assert!(!EfiMemoryType::from(11u32).avail_post_exit_boot_service());
}

fn other_guid() -> EfiGuid {
    EfiGuid(1, 2, 3, [4, 5, 6, 7, 8, 9, 10, 11])
}

#[test]
fn acpi_table_prefers_revision_2() {
    let tables = [
        EfiConfigurationTable { guid: other_guid(), table: 1 },
        EfiConfigurationTable { guid: acpi_table_guid(), table: 2 },
        EfiConfigurationTable { guid: acpi2_table_guid(), table: 3 },
    ];
    assert!(matches!(get_acpi_table(&tables), Ok(3)));
}

#[test]
fn acpi_table_falls_back_to_revision_1() {
    let tables = [
        EfiConfigurationTable { guid: other_guid(), table: 1 },
        EfiConfigurationTable { guid: acpi_table_guid(), table: 2 },
    ];
    assert!(matches!(get_acpi_table(&tables), Ok(2)));
}

#[test]
fn acpi_table_not_found() {
    let tables = [EfiConfigurationTable { guid: other_guid(), table: 1 }];
    assert!(matches!(get_acpi_table(&tables), Err(Error::AcpiTableNotFound)));
    assert!(matches!(get_acpi_table(&[]), Err(Error::AcpiTableNotFound)));
}

/// Build one 48-byte memory descriptor.
fn descriptor(typ: u32, start: u64, pages: u64) -> Vec<u8> {
    let mut d = vec![0u8; 48];
    d[0..4].copy_from_slice(&typ.to_le_bytes());
    d[8..16].copy_from_slice(&start.to_le_bytes());
    d[24..32].copy_from_slice(&pages.to_le_bytes());
    d
}

#[test]
fn memory_map_keeps_usable_regions() {
    let mut map = Vec::new();
    map.extend(descriptor(7, 0x1000, 2)); // conventional: kept
    map.extend(descriptor(0, 0x100000, 4)); // reserved: dropped
    map.extend(descriptor(4, 0x3000, 1)); // boot services data: kept, merges
    let rs = get_memory_map(&map, 48).unwrap();
    let mut ents: Vec<(u64, u64)> = rs.entries().iter().map(|r| (r.start, r.end)).collect();
    ents.sort();
    assert_eq!(ents, vec![(0x1000, 0x3fff)]);
    assert_eq!(rs.sum(), Some(0x3000));
}

#[test]
fn memory_map_skips_empty_regions() {
    let mut map = Vec::new();
    map.extend(descriptor(7, 0x1000, 0)); // zero pages: dropped
    let rs = get_memory_map(&map, 48).unwrap();
    assert!(rs.entries().is_empty());
}

#[test]
fn memory_map_out_of_bounds_descriptor() {
    let mut map = Vec::new();
    map.extend(descriptor(7, 0x1000, 1));
    map.extend(descriptor(7, 0x2000, 1));
    map.truncate(70); // second descriptor cut short
    assert!(matches!(get_memory_map(&map, 48), Err(Error::MemoryMapOutOfBounds)));
}

#[test]
fn memory_map_detects_overflow() {
    let mut map = Vec::new();
    map.extend(descriptor(7, 0x1000, u64::MAX / 2)); // pages * 4096 overflows
    assert!(matches!(get_memory_map(&map, 48), Err(Error::MemoryMapIntegerOverflow)));
    let mut map = Vec::new();
    map.extend(descriptor(7, u64::MAX - 0xfff, 2)); // end address overflows
    assert!(matches!(get_memory_map(&map, 48), Err(Error::MemoryMapIntegerOverflow)));
}

#[test]
fn memory_map_respects_stride() {
    // A stride larger than the descriptor: the gap bytes are ignored.
    let mut map = Vec::new();
    map.extend(descriptor(7, 0x1000, 1));
    map.extend(vec![0xffu8; 16]); // padding up to a 64-byte stride
    map.extend(descriptor(7, 0x5000, 1));
    map.extend(vec![0xffu8; 16]);
    let rs = get_memory_map(&map, 64).unwrap();
    let mut ents: Vec<(u64, u64)> = rs.entries().iter().map(|r| (r.start, r.end)).collect();
    ents.sort();
    assert_eq!(ents, vec![(0x1000, 0x1fff), (0x5000, 0x5fff)]);
}

#[test]
fn memory_map_with_too_many_fragments_fails() {
    // 257 pairwise non-adjacent usable regions cannot fit in the fixed
    // 256-entry set.
    let mut map = Vec::new();
    for i in 0..257u64 {
        map.extend(descriptor(7, i * 0x10000, 1));
    }
    assert!(matches!(
        get_memory_map(&map, 48),
        Err(Error::MemoryRangeSet(bootmem::rangeset::Error::OutOfEntries))
    ));
}

#[test]
fn guids_compare_by_value() {
    assert!(acpi2_table_guid() == acpi2_table_guid());
    assert!(!(acpi2_table_guid() == acpi_table_guid()));
    assert!(!(acpi2_table_guid() == other_guid()));
}

#[test]
fn usable_memory_allocates_after_fold() {
    let mut map = Vec::new();
    map.extend(descriptor(7, 0x1000, 1));
    let mut rs = get_memory_map(&map, 48).unwrap();
    let base = rs.allocate(0x1000, 0x1000).unwrap();
    assert_eq!(base, 0x1000);
    assert_eq!(rs.sum(), Some(0));
    assert!(matches!(
        rs.allocate(1, 1),
        Err(bootmem::rangeset::Error::OutOfMemory)
    ));
    // Hand the region back.
    rs.insert(Range { start: 0x1000, end: 0x1fff }).unwrap();
    assert_eq!(rs.sum(), Some(0x1000));
}
