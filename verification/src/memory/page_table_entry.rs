//! [`PageTableEntry`] of the Sv39 page tables, and its [`Flags`].

use vstd::prelude::*;
use crate::bits::{usize_get_bits, usize_set_bits, usize_bits_of, usize_with_bits};
use crate::memory::address::{PhysicalAddress, PhysicalPageNumber, PAGE_SIZE};

verus! {

/// Valid.
pub const VALID: u8 = 1;
/// Readable.
pub const READABLE: u8 = 2;
/// Writable.
pub const WRITABLE: u8 = 4;
/// Executable.
pub const EXECUTABLE: u8 = 8;
/// Accessible from user mode.
pub const USER: u8 = 16;
/// Global.
pub const GLOBAL: u8 = 32;
/// Accessed.
pub const ACCESSED: u8 = 64;
/// Dirty.
pub const DIRTY: u8 = 128;

/// The eight flag bits of a page-table entry.
#[derive(Clone, Copy, PartialEq, Eq, Structural)]
pub struct Flags {
    pub bits: u8,
}

impl Flags {
    /// No flag set.
    pub fn empty() -> (r: Flags)
        ensures
            r.bits == 0,
    {
        Flags { bits: 0 }
    }

    /// The flags whose bits are `bits`.
    pub fn from_bits(bits: u8) -> (r: Flags)
        ensures
            r.bits == bits,
    {
        Flags { bits }
    }

    /// The raw bits.
    pub fn bits(&self) -> (r: u8)
        ensures
            r == self.bits,
    {
        self.bits
    }

    /// Every flag of `other` is set in `self`.
    pub fn contains(&self, other: Flags) -> (r: bool)
        ensures
            r == (self.bits & other.bits == other.bits),
    {
        self.bits & other.bits == other.bits
    }

    /// The flags set in either.
    pub fn union(&self, other: Flags) -> (r: Flags)
        ensures
            r.bits == self.bits | other.bits,
    {
        Flags { bits: self.bits | other.bits }
    }

    /// `USER` when `value`, otherwise no flag.
    pub fn user(value: bool) -> (r: Flags)
        ensures
            r.bits == if value { USER } else { 0 },
    {
        if value { Flags { bits: USER } } else { Flags::empty() }
    }

    /// `READABLE` when `value`, otherwise no flag.
    pub fn readable(value: bool) -> (r: Flags)
        ensures
            r.bits == if value { READABLE } else { 0 },
    {
        if value { Flags { bits: READABLE } } else { Flags::empty() }
    }

    /// `WRITABLE` when `value`, otherwise no flag.
    pub fn writable(value: bool) -> (r: Flags)
        ensures
            r.bits == if value { WRITABLE } else { 0 },
    {
        if value { Flags { bits: WRITABLE } } else { Flags::empty() }
    }

    /// `EXECUTABLE` when `value`, otherwise no flag.
    pub fn executable(value: bool) -> (r: Flags)
        ensures
            r.bits == if value { EXECUTABLE } else { 0 },
    {
        if value { Flags { bits: EXECUTABLE } } else { Flags::empty() }
    }
}

/// Page-table entry for Sv39: flags in bits `0 .. 8`, page number in bits
/// `10 .. 54`.
#[derive(Clone, Copy)]
pub struct PageTableEntry(usize);

/// Largest page number an entry can hold, `2^44 - 1`.
pub const MAX_PAGE_NUMBER: u64 = 0xfff_ffff_ffff;

impl PageTableEntry {
    /// The raw entry.
    pub closed spec fn value(&self) -> usize {
        self.0
    }

    /// Page number written in the entry.
    pub open spec fn entry_page_number(&self) -> usize {
        (((self.value() as u64) >> 10u64) & 0xfff_ffff_ffffu64) as usize
    }

    /// Flags written in the entry.
    pub open spec fn entry_flags(&self) -> u8 {
        (self.value() & 0xffusize) as u8
    }

    /// An entry with a flag set is not empty.
    pub proof fn lemma_flags_nonzero(&self)
        ensures
            self.entry_flags() != 0 ==> self.value() != 0,
    {
        let x = self.0;
        assert((x & 0xffusize) as u8 != 0 ==> x != 0) by (bit_vector);
    }

    /// An entry holding `flags` and the page number `ppn`, as
    /// [`PageTableEntry::new`] writes it, gives both back: its page number
    /// is `ppn` (so its address is the start of frame `ppn`) and its flags
    /// are `flags`, for every page number that fits the entry.
    pub proof fn lemma_round_trip(&self, ppn: usize, flags: u8)
        requires
            usize::BITS == 64,
            ppn as u64 <= MAX_PAGE_NUMBER,
            self.value() == (flags as usize) | (ppn << 10usize),
        ensures
            self.entry_page_number() == ppn,
            self.entry_flags() == flags,
    {
        let f = flags as usize;
        assert(((((f | (ppn << 10usize)) as u64) >> 10u64) & 0xfff_ffff_ffffu64) as usize == ppn) by (bit_vector)
            requires f < 256usize, ppn as u64 <= 0xfff_ffff_ffffu64, usize::BITS == 64;
        assert((f | (ppn << 10usize)) & 0xffusize == f) by (bit_vector)
            requires f < 256usize, ppn as u64 <= 0xfff_ffff_ffffu64, usize::BITS == 64;
    }

    /// The empty entry.
    pub fn empty() -> (r: Self)
        ensures
            r.value() == 0,
    {
        PageTableEntry(0)
    }

    /// Write a page number and flags into an entry. The entry layout needs a
    /// 64-bit `usize`, and the page number must fit in its 44 bits (the bit
    /// writes assert both).
    pub fn new(page_number: PhysicalPageNumber, flags: Flags) -> (r: Self)
        requires
            usize::BITS == 64,
            page_number.0 as u64 <= MAX_PAGE_NUMBER,
        ensures
            r.value() == (flags.bits as usize) | (page_number.0 << 10usize),
            r.entry_page_number() == page_number.0,
            r.entry_flags() == flags.bits,
    {
        let mut v: usize = 0;
        let f = flags.bits() as usize;
        let p = page_number.0;
        proof {
            assert((f << 56usize) >> 56usize == f) by (bit_vector)
                requires f < 256usize, usize::BITS == 64;
            assert((p << 20usize) >> 20usize == p) by (bit_vector)
                requires p as u64 <= 0xfff_ffff_ffffu64, usize::BITS == 64;
        }
        usize_set_bits(&mut v, 0, 8, f);
        let ghost v1 = v;
        proof {
            assert(usize_with_bits(0usize, 0, 8, f) == f) by (bit_vector)
                requires f < 256usize, usize::BITS == 64;
        }
        usize_set_bits(&mut v, 10, 54, p);
        proof {
            assert(usize_with_bits(f, 10, 54, p) == f | (p << 10usize)) by (bit_vector)
                requires f < 256usize, p as u64 <= 0xfff_ffff_ffffu64, usize::BITS == 64;
            assert(((((f | (p << 10usize)) as u64) >> 10u64) & 0xfff_ffff_ffffu64) as usize == p) by (bit_vector)
                requires f < 256usize, p as u64 <= 0xfff_ffff_ffffu64, usize::BITS == 64;
            assert((f | (p << 10usize)) & 0xffusize == f) by (bit_vector)
                requires f < 256usize, p as u64 <= 0xfff_ffff_ffffu64, usize::BITS == 64;
        }
        PageTableEntry(v)
    }

    /// Physical page number written in the entry.
    pub fn page_number(&self) -> (r: PhysicalPageNumber)
        requires
            usize::BITS == 64,
        ensures
            r.0 == self.entry_page_number(),
    {
        let p = usize_get_bits(self.0, 10, 54);
        proof {
            let x = self.0;
            assert(usize_bits_of(x, 10, 54) == ((((x as u64) >> 10u64) & 0xfff_ffff_ffffu64) as usize)) by (bit_vector)
                requires usize::BITS == 64;
        }
        PhysicalPageNumber(p)
    }

    /// Physical address of the page the entry points to.
    pub fn address(&self) -> (r: PhysicalAddress)
        requires
            usize::BITS == 64,
        ensures
            r.0 == self.entry_page_number() * PAGE_SIZE,
    {
        let p = self.page_number();
        proof {
            let q = p.0;
            let x = self.0;
            assert(q as u64 <= 0xfff_ffff_ffffu64) by (bit_vector)
                requires q == ((((x as u64) >> 10u64) & 0xfff_ffff_ffffu64) as usize), usize::BITS == 64;
            assert(q * 4096 <= usize::MAX) by (nonlinear_arith)
                requires q <= 0xfff_ffff_ffff, usize::MAX == 0xffff_ffff_ffff_ffff;
        }
        PhysicalAddress::from_page_number(p)
    }

    /// Flags written in the entry.
    pub fn flags(&self) -> (r: Flags)
        ensures
            r.bits == self.entry_flags(),
    {
        let b = usize_get_bits(self.0, 0, 8);
        proof {
            let x = self.0;
            assert(usize_bits_of(x, 0, 8) == x & 0xffusize) by (bit_vector);
        }
        Flags::from_bits(b as u8)
    }

    /// The entry is all zero.
    pub fn is_empty(&self) -> (r: bool)
        ensures
            r == (self.value() == 0),
    {
        self.0 == 0
    }

    /// Make the entry all zero.
    pub fn clear(&mut self)
        ensures
            final(self).value() == 0,
    {
        self.0 = 0;
    }

    /// The entry points to a next-level table: none of readable, writable
    /// and executable is set.
    pub fn has_next_level(&self) -> (r: bool)
        ensures
            r == (self.entry_flags() & (READABLE | WRITABLE | EXECUTABLE) == 0),
    {
        let flags = self.flags();
        let r = !(flags.contains(Flags::readable(true)) || flags.contains(Flags::writable(true))
            || flags.contains(Flags::executable(true)));
        proof {
            let b = flags.bits;
            assert((b & 2u8 == 2u8 || b & 4u8 == 4u8 || b & 8u8 == 8u8) == (b & 14u8 != 0)) by (bit_vector);
            assert(2u8 | 4u8 | 8u8 == 14u8) by (bit_vector);
        }
        r
    }
}

} // verus!
