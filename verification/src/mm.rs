//! Physical memory modelling: a byte snapshot of the physical address space
//! and a bounds-checked sequential cursor over it.

use vstd::prelude::*;

verus! {

/// A 64-bit physical address. Arithmetic on physical addresses must be
/// explicitly overflow-checked: they can wrap near the top of the space.
#[derive(Clone, Copy, Debug, PartialEq, Eq, PartialOrd, Ord)]
pub struct PhysAddr(pub u64);

/// The byte at physical address `a` of snapshot `m`. The snapshot starts at
/// address zero; addresses beyond it read as zero.
pub open spec fn mem_byte(m: Seq<u8>, a: int) -> u8 {
    if 0 <= a < m.len() {
        m[a]
    } else {
        0
    }
}

/// The little-endian 16-bit word at address `a`.
pub open spec fn le16(m: Seq<u8>, a: int) -> int {
    mem_byte(m, a) + 0x100 * mem_byte(m, a + 1)
}

/// The little-endian 32-bit word at address `a`.
pub open spec fn le32(m: Seq<u8>, a: int) -> int {
    le16(m, a) + 0x10000 * le16(m, a + 2)
}

/// The little-endian 64-bit word at address `a`.
pub open spec fn le64(m: Seq<u8>, a: int) -> int {
    le32(m, a) + 0x1_0000_0000 * le32(m, a + 4)
}

/// A snapshot of the physical address space as the boot stage sees it,
/// starting at address zero. Firmware tables are validated against it.
pub struct PhysMem {
    bytes: Vec<u8>,
}

impl View for PhysMem {
    type V = Seq<u8>;

    closed spec fn view(&self) -> Seq<u8> {
        self.bytes@
    }
}

impl PhysMem {
    /// Wrap a byte snapshot of physical memory starting at address zero.
    pub fn new(bytes: Vec<u8>) -> (m: PhysMem)
        ensures
            m@ == bytes@,
    {
        PhysMem { bytes }
    }

    /// Read the byte at `addr`.
    pub fn read_u8(&self, addr: PhysAddr) -> (r: u8)
        ensures
            r == mem_byte(self@, addr.0 as int),
    {
        if addr.0 < self.bytes.len() as u64 {
            self.bytes[addr.0 as usize]
        } else {
            0
        }
    }

    /// Read the little-endian 16-bit word at `addr`.
    pub fn read_u16(&self, addr: PhysAddr) -> (r: u16)
        requires
            addr.0 + 1 <= u64::MAX,
        ensures
            r == le16(self@, addr.0 as int),
    {
        let b0 = self.read_u8(addr);
        let b1 = self.read_u8(PhysAddr(addr.0 + 1));
        (b0 as u16) + (b1 as u16) * 0x100
    }

    /// Read the little-endian 32-bit word at `addr`.
    pub fn read_u32(&self, addr: PhysAddr) -> (r: u32)
        requires
            addr.0 + 3 <= u64::MAX,
        ensures
            r == le32(self@, addr.0 as int),
    {
        let w0 = self.read_u16(addr);
        let w1 = self.read_u16(PhysAddr(addr.0 + 2));
        (w0 as u32) + (w1 as u32) * 0x10000
    }

    /// Read the little-endian 64-bit word at `addr`. Firmware tables are not
    /// guaranteed aligned, so every read is assembled from single bytes.
    pub fn read_u64(&self, addr: PhysAddr) -> (r: u64)
        requires
            addr.0 + 7 <= u64::MAX,
        ensures
            r == le64(self@, addr.0 as int),
    {
        let w0 = self.read_u32(addr);
        let w1 = self.read_u32(PhysAddr(addr.0 + 4));
        (w0 as u64) + (w1 as u64) * 0x1_0000_0000
    }
}

/// 64-bit address addition that wraps at the top of the address space.
pub open spec fn wrap_add64(a: int, b: int) -> int {
    if a + b <= u64::MAX {
        a + b
    } else {
        a + b - 0x1_0000_0000_0000_0000
    }
}

/// A consumable slice of physical memory at `addr` for `len` bytes.
pub struct PhysSlice {
    addr: PhysAddr,
    len: usize,
}

impl PhysSlice {
    /// The current address of the slice.
    pub closed spec fn spec_addr(self) -> u64 {
        self.addr.0
    }

    /// The remaining length of the slice.
    pub closed spec fn spec_len(self) -> usize {
        self.len
    }

    /// The slice stays within the 64-bit address space.
    pub open spec fn wf(self) -> bool {
        self.spec_addr() + self.spec_len() <= u64::MAX + 1
    }

    /// Create a new slice of physical memory. The caller derives the length
    /// from a validated table header, which keeps it inside the address
    /// space.
    pub fn new(addr: PhysAddr, size: usize) -> (s: PhysSlice)
        requires
            addr.0 + size <= u64::MAX + 1,
        ensures
            s.wf(),
            s.spec_addr() == addr.0,
            s.spec_len() == size,
    {
        PhysSlice { addr, len: size }
    }

    /// Get the remaining length of the slice.
    pub fn len(&self) -> (r: usize)
        ensures
            r == self.spec_len(),
    {
        self.len
    }

    /// Discard bytes from the slice by advancing the address and shrinking
    /// the length.
    pub fn discard(&mut self, bytes: usize) -> (r: Result<(), ()>)
        requires
            old(self).wf(),
        ensures
            final(self).wf(),
            bytes <= old(self).spec_len() ==> r == Ok::<(), ()>(())
                && final(self).spec_addr() == wrap_add64(old(self).spec_addr() as int, bytes as int)
                && final(self).spec_len() == old(self).spec_len() - bytes,
            bytes > old(self).spec_len() ==> r == Err::<(), ()>(()) && *final(self) == *old(self),
    {
        if self.len >= bytes {
            self.addr = PhysAddr(self.addr.0.wrapping_add(bytes as u64));
            self.len -= bytes;
            Ok(())
        } else {
            Err(())
        }
    }

    /// Read a byte from the slice, advancing past it.
    pub fn consume_u8(&mut self, mem: &PhysMem) -> (r: Result<u8, ()>)
        requires
            old(self).wf(),
        ensures
            final(self).wf(),
            old(self).spec_len() >= 1 ==> r == Ok::<u8, ()>(
                mem_byte(mem@, old(self).spec_addr() as int),
            ) && final(self).spec_addr() == wrap_add64(old(self).spec_addr() as int, 1)
                && final(self).spec_len() == old(self).spec_len() - 1,
            old(self).spec_len() < 1 ==> r == Err::<u8, ()>(()) && *final(self) == *old(self),
    {
        if self.len < 1 {
            return Err(());
        }
        let b = mem.read_u8(self.addr);
        self.addr = PhysAddr(self.addr.0.wrapping_add(1));
        self.len -= 1;
        Ok(b)
    }

    /// Read a little-endian 16-bit word from the slice, advancing past it.
    pub fn consume_u16(&mut self, mem: &PhysMem) -> (r: Result<u16, ()>)
        requires
            old(self).wf(),
        ensures
            final(self).wf(),
            old(self).spec_len() >= 2 ==> r == Ok::<u16, ()>(
                le16(mem@, old(self).spec_addr() as int) as u16,
            ) && final(self).spec_addr() == wrap_add64(old(self).spec_addr() as int, 2)
                && final(self).spec_len() == old(self).spec_len() - 2,
            old(self).spec_len() < 2 ==> r == Err::<u16, ()>(()) && *final(self) == *old(self),
    {
        if self.len < 2 {
            return Err(());
        }
        let w = mem.read_u16(self.addr);
        self.addr = PhysAddr(self.addr.0.wrapping_add(2));
        self.len -= 2;
        Ok(w)
    }

    /// Read a little-endian 32-bit word from the slice, advancing past it.
    pub fn consume_u32(&mut self, mem: &PhysMem) -> (r: Result<u32, ()>)
        requires
            old(self).wf(),
        ensures
            final(self).wf(),
            old(self).spec_len() >= 4 ==> r == Ok::<u32, ()>(
                le32(mem@, old(self).spec_addr() as int) as u32,
            ) && final(self).spec_addr() == wrap_add64(old(self).spec_addr() as int, 4)
                && final(self).spec_len() == old(self).spec_len() - 4,
            old(self).spec_len() < 4 ==> r == Err::<u32, ()>(()) && *final(self) == *old(self),
    {
        if self.len < 4 {
            return Err(());
        }
        let w = mem.read_u32(self.addr);
        self.addr = PhysAddr(self.addr.0.wrapping_add(4));
        self.len -= 4;
        Ok(w)
    }

    /// Read a little-endian 64-bit word from the slice, advancing past it.
    pub fn consume_u64(&mut self, mem: &PhysMem) -> (r: Result<u64, ()>)
        requires
            old(self).wf(),
        ensures
            final(self).wf(),
            old(self).spec_len() >= 8 ==> r == Ok::<u64, ()>(
                le64(mem@, old(self).spec_addr() as int) as u64,
            ) && final(self).spec_addr() == wrap_add64(old(self).spec_addr() as int, 8)
                && final(self).spec_len() == old(self).spec_len() - 8,
            old(self).spec_len() < 8 ==> r == Err::<u64, ()>(()) && *final(self) == *old(self),
    {
        if self.len < 8 {
            return Err(());
        }
        let w = mem.read_u64(self.addr);
        self.addr = PhysAddr(self.addr.0.wrapping_add(8));
        self.len -= 8;
        Ok(w)
    }
}

} // verus!
