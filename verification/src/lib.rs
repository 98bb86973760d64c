//! Boot-time physical-memory discovery and management core.
//!
//! The crate has two tightly coupled halves: validation and traversal of
//! firmware topology tables (RSDP, XSDT, MADT, SRAT), and a fixed-capacity
//! disjoint-interval set that tracks and allocates physical memory.

pub mod acpi;
pub mod efi;
pub mod mm;
pub mod rangeset;
