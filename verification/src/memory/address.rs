//! Physical and virtual addresses and page numbers.

use vstd::prelude::*;
use crate::bits::{usize_get_bits, usize_bits_of};

verus! {

/// Size of a page (and of a frame), `2^12` bytes.
pub const PAGE_SIZE: usize = 4096;

/// Offset of the kernel's linear mapping of physical memory (a 64-bit
/// address).
pub const KERNEL_MAP_OFFSET: u64 = 0xffff_ffff_0000_0000;

/// Physical address.
#[derive(Clone, Copy, PartialEq, Eq, Structural)]
pub struct PhysicalAddress(pub usize);

/// Virtual address.
#[derive(Clone, Copy, PartialEq, Eq, Structural)]
pub struct VirtualAddress(pub usize);

/// Physical page number.
#[derive(Clone, Copy, PartialEq, Eq, Structural)]
pub struct PhysicalPageNumber(pub usize);

/// Virtual page number.
#[derive(Clone, Copy, PartialEq, Eq, Structural)]
pub struct VirtualPageNumber(pub usize);

impl PhysicalAddress {
    /// First address of a physical page.
    pub fn from_page_number(ppn: PhysicalPageNumber) -> (r: Self)
        requires
            ppn.0 * PAGE_SIZE <= usize::MAX,
        ensures
            r.0 == ppn.0 * PAGE_SIZE,
    {
        PhysicalAddress(ppn.0 * PAGE_SIZE)
    }
}

impl VirtualAddress {
    /// First address of a virtual page.
    pub fn from_page_number(vpn: VirtualPageNumber) -> (r: Self)
        requires
            vpn.0 * PAGE_SIZE <= usize::MAX,
        ensures
            r.0 == vpn.0 * PAGE_SIZE,
    {
        VirtualAddress(vpn.0 * PAGE_SIZE)
    }
}

impl PhysicalPageNumber {
    /// Page holding a physical address.
    pub fn floor(address: PhysicalAddress) -> (r: Self)
        ensures
            r.0 == address.0 / PAGE_SIZE,
    {
        PhysicalPageNumber(address.0 / PAGE_SIZE)
    }

    /// First page that starts at or after a physical address.
    pub fn ceil(address: PhysicalAddress) -> (r: Self)
        ensures
            r.0 == address.0 / PAGE_SIZE + if address.0 % PAGE_SIZE != 0 { 1int } else { 0int },
    {
        PhysicalPageNumber(address.0 / PAGE_SIZE + if address.0 % PAGE_SIZE != 0 { 1 } else { 0 })
    }

    /// Physical page that the kernel's linear mapping maps a virtual page to.
    pub fn from_virtual(vpn: VirtualPageNumber) -> (r: Self)
        requires
            vpn.0 >= KERNEL_MAP_OFFSET / 4096,
        ensures
            r.0 == vpn.0 - KERNEL_MAP_OFFSET / 4096,
    {
        let page = vpn.0 as u64 - KERNEL_MAP_OFFSET / 4096;
        PhysicalPageNumber(page as usize)
    }
}

/// Index into the page table of level `level` (`0` for the root) of a
/// virtual page number: nine bits each, the root taking the highest.
pub open spec fn vpn_level(vpn: usize, level: int) -> usize {
    ((vpn >> ((18 - 9 * level) as usize)) & 511usize)
}

impl VirtualPageNumber {
    /// Page holding a virtual address.
    pub fn floor(address: VirtualAddress) -> (r: Self)
        ensures
            r.0 == address.0 / PAGE_SIZE,
    {
        VirtualPageNumber(address.0 / PAGE_SIZE)
    }

    /// First page that starts at or after a virtual address.
    pub fn ceil(address: VirtualAddress) -> (r: Self)
        ensures
            r.0 == address.0 / PAGE_SIZE + if address.0 % PAGE_SIZE != 0 { 1int } else { 0int },
    {
        VirtualPageNumber(address.0 / PAGE_SIZE + if address.0 % PAGE_SIZE != 0 { 1 } else { 0 })
    }

    /// The three nine-bit indices of the page into the page tables, root
    /// level first.
    pub fn levels(self) -> (r: [usize; 3])
        ensures
            r@ == seq![vpn_level(self.0, 0), vpn_level(self.0, 1), vpn_level(self.0, 2)],
    {
        let l0 = usize_get_bits(self.0, 18, 27);
        let l1 = usize_get_bits(self.0, 9, 18);
        let l2 = usize_get_bits(self.0, 0, 9);
        proof {
            let x = self.0;
            assert(usize_bits_of(x, 18, 27) == (x >> 18usize) & 511usize) by (bit_vector);
            assert(usize_bits_of(x, 9, 18) == (x >> 9usize) & 511usize) by (bit_vector);
            assert(usize_bits_of(x, 0, 9) == (x >> 0usize) & 511usize) by (bit_vector);
        }
        let r = [l0, l1, l2];
        assert(r@ =~= seq![vpn_level(self.0, 0), vpn_level(self.0, 1), vpn_level(self.0, 2)]);
        r
    }
}

} // verus!
