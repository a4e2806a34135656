//! Three-level page-table builder: 9 bits of virtual page number per
//! level, 4 KiB pages, at most 39-bit virtual addresses.
//!
//! Entries are packed 64-bit records: bit 0 is the valid bit, bits 1-3
//! hold the protection class (all zero marks a pointer to a child
//! table), bits 6 and 7 are the accessed and dirty marks — set by hand
//! at leaf creation in lieu of hardware updates — and bits 10-53 hold
//! the physical page number. Reserved protection patterns are rejected
//! on every decode.
//!
//! Page-table nodes are backed by the bitmap page allocator; the tree
//! is kept as one table per allocated page, addressed by the page's
//! physical page number, exactly as the hardware walk would find it.

use crate::heap_alloc::AndyAllocator;
use crate::mmu::PhysicalAddr;
use crate::mmu::VirtualAddr;
use crate::mmu::VirtualMemoryScheme;
use vstd::prelude::*;

verus! {

/// Bytes per page of the scheme.
pub const PAGE_SIZE_BYTES: u64 = 4096;

/// Mask of the physical-page-number field, bits 10 through 53.
pub const PPN_MASK: u64 = 0x003f_ffff_ffff_fc00;

/// Number of translation levels.
pub const LEVELS: u64 = 3;

/// Walk failures and mapping conflicts of the three-level scheme.
#[derive(Clone, Copy, Debug, PartialEq, Eq, Structural)]
pub enum RiscvPagingError {
    /// The virtual page is already mapped to a different frame; both
    /// frame numbers are reported for diagnosis.
    AlreadyMapped { attempted_ppn: u64, already_there_ppn: u64, vpn: u64 },
    /// A field was read out of an entry whose valid bit is clear.
    ReadInvalidPage,
    /// The protection bits held one of the reserved patterns.
    ReadReservedProtection(u64),
    /// A child table was requested from a leaf entry.
    ReadNextTableFromLeaf,
    /// Resolution walked into an entry whose valid bit is clear.
    WalkingHitInvalidPage,
}

/// Protection class of a leaf, or the table-pointer marker. The
/// write-only and write-execute patterns are reserved by the
/// architecture and never decode.
#[derive(Clone, Copy, Debug, PartialEq, Eq, Structural)]
pub enum ProtectionBits {
    TablePtr,
    Read,
    ReadWrite,
    Execute,
    ReadExecute,
    ReadWriteExecute,
}

/// The three-bit encoding of a protection class, shifted into place.
pub open spec fn spec_prot_encoding(p: ProtectionBits) -> u64 {
    match p {
        ProtectionBits::TablePtr => 0b0000,
        ProtectionBits::Read => 0b0010,
        ProtectionBits::ReadWrite => 0b0110,
        ProtectionBits::Execute => 0b1000,
        ProtectionBits::ReadExecute => 0b1010,
        ProtectionBits::ReadWriteExecute => 0b1110,
    }
}

/// Decoding of the protection field; reserved patterns give nothing.
pub open spec fn spec_prot_of_bits(bits: u64) -> Option<ProtectionBits> {
    if bits == 0b0000 {
        Some(ProtectionBits::TablePtr)
    } else if bits == 0b0010 {
        Some(ProtectionBits::Read)
    } else if bits == 0b0110 {
        Some(ProtectionBits::ReadWrite)
    } else if bits == 0b1000 {
        Some(ProtectionBits::Execute)
    } else if bits == 0b1010 {
        Some(ProtectionBits::ReadExecute)
    } else if bits == 0b1110 {
        Some(ProtectionBits::ReadWriteExecute)
    } else {
        None
    }
}

/// Valid bit of an entry.
pub open spec fn e_valid(bits: u64) -> bool {
    bits & 1 == 1
}

/// Protection field of an entry.
pub open spec fn e_prot(bits: u64) -> u64 {
    bits & 0b1110
}

/// Accessed mark of an entry.
pub open spec fn e_accessed(bits: u64) -> bool {
    bits & (1u64 << 6) != 0
}

/// Dirty mark of an entry.
pub open spec fn e_dirty(bits: u64) -> bool {
    bits & (1u64 << 7) != 0
}

/// Physical page number held by an entry.
pub open spec fn e_ppn(bits: u64) -> u64 {
    (bits & PPN_MASK) >> 10
}

/// An entry that points to a child table: valid, protection field all
/// zero, accessed and dirty clear, naming the child's page number.
pub open spec fn is_table_entry(bits: u64, child_ppn: u64) -> bool {
    &&& e_valid(bits)
    &&& e_prot(bits) == 0
    &&& !e_accessed(bits)
    &&& !e_dirty(bits)
    &&& e_ppn(bits) == child_ppn
}

/// A leaf entry: valid, a readable protection class, accessed and
/// dirty set as this builder always sets them.
pub open spec fn is_leaf_entry(bits: u64) -> bool {
    &&& e_valid(bits)
    &&& spec_prot_of_bits(e_prot(bits)) matches Some(p) && p != ProtectionBits::TablePtr
    &&& e_accessed(bits)
    &&& e_dirty(bits)
}

impl ProtectionBits {
    /// The three-bit hardware encoding of this protection class.
    pub fn bits(&self) -> (r: u64)
        ensures
            r == spec_prot_encoding(*self),
    {
        match self {
            Self::TablePtr => 0b0000,
            Self::Read => 0b0010,
            Self::ReadWrite => 0b0110,
            Self::Execute => 0b1000,
            Self::ReadExecute => 0b1010,
            Self::ReadWriteExecute => 0b1110,
        }
    }

    /// Decodes the protection field of a valid entry; an entry with a
    /// reserved pattern in those bits fails with the pattern itself.
    pub fn from_entry(entry: PageTableEntry) -> (r: Result<Self, RiscvPagingError>)
        ensures
            !e_valid(entry.bits) ==> r == Err::<Self, RiscvPagingError>(
                RiscvPagingError::ReadInvalidPage,
            ),
            e_valid(entry.bits) ==> match spec_prot_of_bits(e_prot(entry.bits)) {
                Some(p) => r == Ok::<Self, RiscvPagingError>(p),
                None => r == Err::<Self, RiscvPagingError>(
                    RiscvPagingError::ReadReservedProtection(e_prot(entry.bits)),
                ),
            },
    {
        if !entry.is_valid() {
            return Err(RiscvPagingError::ReadInvalidPage);
        }
        let mask: u64 = 0b1110;
        let bits = entry.bits & mask;
        match bits {
            0b0000 => Ok(Self::TablePtr),
            0b0010 => Ok(Self::Read),
            0b0110 => Ok(Self::ReadWrite),
            0b1000 => Ok(Self::Execute),
            0b1010 => Ok(Self::ReadExecute),
            0b1110 => Ok(Self::ReadWriteExecute),
            bad_bits => Err(RiscvPagingError::ReadReservedProtection(bad_bits)),
        }
    }
}

/// One packed page-table entry.
#[derive(Clone, Copy, Debug, PartialEq, Eq, Structural)]
pub struct PageTableEntry {
    pub bits: u64,
}

impl PageTableEntry {
    /// Physical page number of a valid entry.
    pub fn get_ppn(&self) -> (r: Result<u64, RiscvPagingError>)
        ensures
            e_valid(self.bits) ==> r == Ok::<u64, RiscvPagingError>(e_ppn(self.bits)),
            !e_valid(self.bits) ==> r == Err::<u64, RiscvPagingError>(
                RiscvPagingError::ReadInvalidPage,
            ),
    {
        if !self.is_valid() {
            return Err(RiscvPagingError::ReadInvalidPage);
        }
        Ok((self.bits & PPN_MASK) >> 10)
    }

    /// Stores a physical page number; the number must fit the 44-bit
    /// field.
    pub fn set_ppn(&mut self, ppn: u64)
        requires
            ppn < (1u64 << 44),
        ensures
            final(self).bits == (old(self).bits & !PPN_MASK) | (ppn << 10),
    {
        let ppn_bits: u64 = ppn << 10u64;
        proof {
            assert((ppn << 10u64) & PPN_MASK == (ppn << 10u64)) by (bit_vector)
                requires
                    ppn < (1u64 << 44),
            ;
        }
        assert(ppn_bits & PPN_MASK == ppn_bits);
        self.bits = (self.bits & !PPN_MASK) | ppn_bits;
    }

    /// Sets or clears the valid bit.
    pub fn set_is_valid(&mut self, val: bool)
        ensures
            final(self).bits == (if val {
                old(self).bits | 1
            } else {
                old(self).bits & !1u64
            }),
    {
        if val {
            self.bits = self.bits | 1;
        } else {
            self.bits = self.bits & !1u64;
        }
    }

    /// Accessed mark.
    pub fn is_accessed(&self) -> (r: bool)
        ensures
            r == e_accessed(self.bits),
    {
        self.bits & (1u64 << 6) != 0
    }

    /// Dirty mark.
    pub fn is_dirty(&self) -> (r: bool)
        ensures
            r == e_dirty(self.bits),
    {
        self.bits & (1u64 << 7) != 0
    }

    /// Address of the child table named by a table-pointer entry; a
    /// leaf entry refuses.
    pub fn get_table(&self) -> (r: Result<u64, RiscvPagingError>)
        requires
            e_valid(self.bits),
            spec_prot_of_bits(e_prot(self.bits)) is Some,
            e_ppn(self.bits) < (1u64 << 44),
        ensures
            e_prot(self.bits) == 0 ==> r == Ok::<u64, RiscvPagingError>(
                (e_ppn(self.bits) * PAGE_SIZE_BYTES) as u64,
            ),
            e_prot(self.bits) != 0 ==> r == Err::<u64, RiscvPagingError>(
                RiscvPagingError::ReadNextTableFromLeaf,
            ),
    {
        if self.is_leaf()? {
            return Err(RiscvPagingError::ReadNextTableFromLeaf);
        }
        Ok(self.get_page_addr()?)
    }

    /// Byte address of the page the entry names.
    pub fn get_page_addr(&self) -> (r: Result<u64, RiscvPagingError>)
        requires
            e_ppn(self.bits) < (1u64 << 44),
        ensures
            e_valid(self.bits) ==> r == Ok::<u64, RiscvPagingError>(
                (e_ppn(self.bits) * PAGE_SIZE_BYTES) as u64,
            ),
            !e_valid(self.bits) ==> r == Err::<u64, RiscvPagingError>(
                RiscvPagingError::ReadInvalidPage,
            ),
    {
        if !self.is_valid() {
            return Err(RiscvPagingError::ReadInvalidPage);
        }
        proof {
            assert((1u64 << 44) == 0x1000_0000_0000u64) by (bit_vector);
        }
        Ok(self.get_ppn()? * PAGE_SIZE_BYTES)
    }

    /// Whether a valid entry is a leaf; reserved protection patterns
    /// fail the decode.
    pub fn is_leaf(&self) -> (r: Result<bool, RiscvPagingError>)
        requires
            e_valid(self.bits),
        ensures
            match spec_prot_of_bits(e_prot(self.bits)) {
                Some(p) => r == Ok::<bool, RiscvPagingError>(p != ProtectionBits::TablePtr),
                None => r == Err::<bool, RiscvPagingError>(
                    RiscvPagingError::ReadReservedProtection(e_prot(self.bits)),
                ),
            },
    {
        Ok(self.get_protection()? != ProtectionBits::TablePtr)
    }

    /// Decodes the protection field.
    pub fn get_protection(&self) -> (r: Result<ProtectionBits, RiscvPagingError>)
        ensures
            !e_valid(self.bits) ==> r == Err::<ProtectionBits, RiscvPagingError>(
                RiscvPagingError::ReadInvalidPage,
            ),
            e_valid(self.bits) ==> match spec_prot_of_bits(e_prot(self.bits)) {
                Some(p) => r == Ok::<ProtectionBits, RiscvPagingError>(p),
                None => r == Err::<ProtectionBits, RiscvPagingError>(
                    RiscvPagingError::ReadReservedProtection(e_prot(self.bits)),
                ),
            },
    {
        ProtectionBits::from_entry(*self)
    }

    /// Sets the accessed and dirty marks, as leaf creation always does
    /// in lieu of hardware updates.
    pub fn set_accessed_and_dirty(&mut self)
        ensures
            final(self).bits == old(self).bits | (1u64 << 6) | (1u64 << 7),
    {
        self.bits = self.bits | (1u64 << 6) | (1u64 << 7);
    }

    /// Stores a protection class into the three protection bits.
    pub fn set_protection(&mut self, protection: ProtectionBits)
        ensures
            final(self).bits == (old(self).bits & !0b1110u64) | spec_prot_encoding(protection),
    {
        let mask: u64 = 0b1110;
        let bits = protection.bits();
        proof {
            assert(0u64 & 0b1110u64 == 0u64 && 2u64 & 0b1110u64 == 2u64 && 6u64 & 0b1110u64
                == 6u64 && 8u64 & 0b1110u64 == 8u64 && 10u64 & 0b1110u64 == 10u64 && 14u64
                & 0b1110u64 == 14u64) by (bit_vector);
        }
        assert((bits & mask) == bits);
        self.bits = (self.bits & !mask) | bits;
    }

    /// Valid bit.
    pub fn is_valid(&self) -> (r: bool)
        ensures
            r == e_valid(self.bits),
    {
        self.bits & 1 == 1
    }
}

/// One page-sized node of the tree: 512 packed entries.
#[derive(Debug)]
pub struct PageTable {
    pub entries: Vec<PageTableEntry>,
}

impl PageTable {
    /// All entries of the table are invalid and zeroed.
    pub open spec fn all_zero(&self) -> bool {
        &&& self.entries@.len() == 512
        &&& forall|i: int| 0 <= i < 512 ==> (#[trigger] self.entries@[i]).bits == 0
    }

    /// A freshly zeroed table, as written into every newly allocated
    /// page-table node.
    pub fn new_empty() -> (r: Self)
        ensures
            r.all_zero(),
    {
        let mut entries: Vec<PageTableEntry> = Vec::new();
        let mut i: usize = 0;
        while i < 512
            invariant
                i <= 512,
                entries@.len() == i,
                forall|j: int| 0 <= j < i ==> (#[trigger] entries@[j]).bits == 0,
            decreases 512 - i,
        {
            entries.push(PageTableEntry { bits: 0 });
            i = i + 1;
        }
        PageTable { entries }
    }
}

/// The 9-bit slice of the virtual page number that indexes the table
/// at `level`.
pub open spec fn spec_vpn_index(vpn: u64, level: u64) -> u64 {
    (vpn >> ((9 * level) as u64)) & 511
}

/// Computes the 9-bit table index of `vpn` at `level`.
pub fn get_vpn_index(vpn: u64, level: u64) -> (r: u64)
    requires
        level < LEVELS,
    ensures
        r == spec_vpn_index(vpn, level),
        r < 512,
{
    proof {
        assert((1u64 << 9) == 512) by (bit_vector);
    }
    let sh: u64 = 9 * level;
    let out = (vpn >> sh) & ((1u64 << 9) - 1);
    proof {
        assert((vpn >> sh) & 511u64 < 512) by (bit_vector);
    }
    out
}

/// Index of the first occurrence of `x` in `s`, or `-1` when absent.
pub open spec fn find_index(s: Seq<u64>, x: u64) -> int
    decreases s.len(),
{
    if s.len() == 0 {
        -1
    } else if s[0] == x {
        0
    } else if find_index(s.drop_first(), x) < 0 {
        -1
    } else {
        find_index(s.drop_first(), x) + 1
    }
}

/// What `find_index` returns: a position holding `x` with nothing
/// equal before it, or `-1` when `x` occurs nowhere.
pub proof fn lemma_find_index(s: Seq<u64>, x: u64)
    ensures
        find_index(s, x) < 0 ==> forall|j: int| 0 <= j < s.len() ==> s[j] != x,
        find_index(s, x) >= 0 ==> {
            &&& 0 <= find_index(s, x) < s.len()
            &&& s[find_index(s, x)] == x
            &&& forall|j: int| 0 <= j < find_index(s, x) ==> s[j] != x
        },
    decreases s.len(),
{
    if s.len() > 0 && s[0] != x {
        lemma_find_index(s.drop_first(), x);
        assert forall|j: int| 0 <= j < s.len() && find_index(s, x) < 0 implies s[j] != x by {
            if j > 0 {
                assert(s.drop_first()[j - 1] == s[j]);
            }
        }
        if find_index(s.drop_first(), x) >= 0 {
            assert(s.drop_first()[find_index(s.drop_first(), x)] == x);
            assert forall|j: int| 0 <= j < find_index(s, x) implies s[j] != x by {
                if j > 0 {
                    assert(s.drop_first()[j - 1] == s[j]);
                }
            }
        }
    }
}

/// Appending a page number leaves the position of every number already
/// present unchanged.
pub proof fn lemma_find_index_push(s: Seq<u64>, x: u64, y: u64)
    requires
        find_index(s, x) >= 0,
    ensures
        find_index(s.push(y), x) == find_index(s, x),
    decreases s.len(),
{
    lemma_find_index(s, x);
    if s.len() > 0 && s[0] != x {
        assert(s.push(y)[0] == s[0]);
        assert(s.push(y).drop_first() =~= s.drop_first().push(y));
        lemma_find_index_push(s.drop_first(), x, y);
    }
}

/// Looks a page number up in a list of table pages.
pub fn lookup_ppn(list: &Vec<u64>, ppn: u64) -> (r: Option<usize>)
    ensures
        match r {
            Some(i) => i < list@.len() && list@[i as int] == ppn && find_index(list@, ppn)
                == i as int,
            None => find_index(list@, ppn) < 0,
        },
{
    let mut i: usize = 0;
    while i < list.len()
        invariant
            i <= list@.len(),
            forall|j: int| 0 <= j < i ==> list@[j] != ppn,
        decreases list@.len() - i,
    {
        if list[i] == ppn {
            proof {
                lemma_find_index(list@, ppn);
                if find_index(list@, ppn) < 0 {
                    assert(false);
                }
            }
            return Some(i);
        }
        i = i + 1;
    }
    proof {
        lemma_find_index(list@, ppn);
        if find_index(list@, ppn) >= 0 {
            assert(false);
        }
    }
    None
}

/// A page number absent from a list lands at its end when pushed.
pub proof fn lemma_find_index_push_new(s: Seq<u64>, y: u64)
    requires
        find_index(s, y) < 0,
    ensures
        find_index(s.push(y), y) == s.len(),
    decreases s.len(),
{
    if s.len() == 0 {
        assert(s.push(y)[0] == y);
        assert(s.push(y).len() == 1);
    } else {
        assert(s.push(y)[0] == s[0]);
        assert(s.push(y).drop_first() =~= s.drop_first().push(y));
        lemma_find_index_push_new(s.drop_first(), y);
    }
}

/// Shape of an entry that points one level down: valid, protection
/// field zero, accessed and dirty clear.
pub open spec fn table_ptr_shape(b: u64) -> bool {
    &&& e_valid(b)
    &&& e_prot(b) == 0
    &&& !e_accessed(b)
    &&& !e_dirty(b)
}

/// A table whose valid entries all point one level down, into the
/// pages listed in `children`; invalid entries are zeroed.
pub open spec fn pointer_table_wf(t: PageTable, children: Seq<u64>) -> bool {
    &&& t.entries@.len() == 512
    &&& forall|i: int|
        0 <= i < 512 ==> {
            let b = (#[trigger] t.entries@[i]).bits;
            if e_valid(b) {
                table_ptr_shape(b) && find_index(children, e_ppn(b)) >= 0
            } else {
                b == 0
            }
        }
}

/// A bottom-level table: every valid entry is a leaf, every invalid
/// entry zeroed.
pub open spec fn leaf_table_wf(t: PageTable) -> bool {
    &&& t.entries@.len() == 512
    &&& forall|i: int|
        0 <= i < 512 ==> {
            let b = (#[trigger] t.entries@[i]).bits;
            if e_valid(b) {
                is_leaf_entry(b)
            } else {
                b == 0
            }
        }
}

/// The zeroed entry is invalid.
pub proof fn lemma_zero_entry()
    ensures
        !e_valid(0),
        e_ppn(0) == 0,
        e_prot(0) == 0,
{
    assert(0u64 & 1u64 != 1u64 && (0u64 & 0x003f_ffff_ffff_fc00u64) >> 10u64 == 0u64 && 0u64
        & 0b1110u64 == 0u64) by (bit_vector);
}

/// Every 9-bit slice of a virtual page number indexes inside a table.
pub proof fn lemma_vpn_index_bound(vpn: u64, level: u64)
    ensures
        spec_vpn_index(vpn, level) < 512,
{
    let sh = (9 * level) as u64;
    assert((vpn >> sh) & 511u64 < 512) by (bit_vector);
}

/// Two virtual page numbers below `1 << 27` that agree on all three
/// 9-bit indices are the same page.
pub proof fn lemma_vpn_indices_inject(v: u64, w: u64)
    requires
        v < (1u64 << 27),
        w < (1u64 << 27),
        spec_vpn_index(v, 0) == spec_vpn_index(w, 0),
        spec_vpn_index(v, 1) == spec_vpn_index(w, 1),
        spec_vpn_index(v, 2) == spec_vpn_index(w, 2),
    ensures
        v == w,
{
    assert(v == w) by (bit_vector)
        requires
            v < (1u64 << 27),
            w < (1u64 << 27),
            (v >> 0) & 511 == (w >> 0) & 511,
            (v >> 9) & 511 == (w >> 9) & 511,
            (v >> 18) & 511 == (w >> 18) & 511,
    ;
}


/// The three-level translation tree of one address space. The root and
/// every node live each in one page handed out by the bitmap
/// allocator; a node is addressed by the physical page number of its
/// page, exactly as the hardware walk would find it. Pointer tables
/// are grouped by their level: the root at the top, `mid_tables` one
/// level down, `leaf_tables` at the bottom.
pub struct Sv39 {
    pub root: PageTable,
    pub root_ppn: u64,
    pub mid_tables: Vec<PageTable>,
    pub mid_ppns: Vec<u64>,
    pub leaf_tables: Vec<PageTable>,
    pub leaf_ppns: Vec<u64>,
}

impl Sv39 {
    /// Structural invariant of the tree: every node has 512 entries of
    /// the shape its level allows, node page numbers are distinct, and
    /// no two pointer entries name the same child — the nodes form a
    /// tree, never a graph.
    pub open spec fn wf(&self) -> bool {
        &&& self.root_ppn < (1u64 << 44)
        &&& self.mid_tables@.len() == self.mid_ppns@.len()
        &&& self.leaf_tables@.len() == self.leaf_ppns@.len()
        &&& pointer_table_wf(self.root, self.mid_ppns@)
        &&& forall|m: int|
            0 <= m < self.mid_tables@.len() ==> pointer_table_wf(
                #[trigger] self.mid_tables@[m],
                self.leaf_ppns@,
            )
        &&& forall|l: int|
            0 <= l < self.leaf_tables@.len() ==> leaf_table_wf(#[trigger] self.leaf_tables@[l])
        &&& forall|a: int, b: int|
            0 <= a < b < self.mid_ppns@.len() ==> self.mid_ppns@[a] != self.mid_ppns@[b]
        &&& forall|a: int, b: int|
            0 <= a < b < self.leaf_ppns@.len() ==> self.leaf_ppns@[a] != self.leaf_ppns@[b]
        &&& forall|i: int, j: int|
            0 <= i < 512 && 0 <= j < 512 && i != j && e_valid(
                (#[trigger] self.root.entries@[i]).bits,
            ) && e_valid((#[trigger] self.root.entries@[j]).bits) ==> e_ppn(
                self.root.entries@[i].bits,
            ) != e_ppn(self.root.entries@[j].bits)
        &&& forall|m: int, i: int, m2: int, i2: int|
            0 <= m < self.mid_tables@.len() && 0 <= i < 512 && 0 <= m2 < self.mid_tables@.len()
                && 0 <= i2 < 512 && (m != m2 || i != i2) && e_valid(
                (#[trigger] self.mid_tables@[m].entries@[i]).bits,
            ) && e_valid((#[trigger] self.mid_tables@[m2].entries@[i2]).bits) ==> e_ppn(
                self.mid_tables@[m].entries@[i].bits,
            ) != e_ppn(self.mid_tables@[m2].entries@[i2].bits)
    }

    /// The mapping the tree encodes at virtual page `vpn`: the walk the
    /// hardware would take, three levels deep, ending at a leaf's frame
    /// number and protection class.
    pub open spec fn spec_resolve(&self, vpn: u64) -> Option<(u64, ProtectionBits)> {
        let b2 = self.root.entries@[spec_vpn_index(vpn, 2) as int].bits;
        if !e_valid(b2) {
            None
        } else {
            let m = find_index(self.mid_ppns@, e_ppn(b2));
            if m < 0 {
                None
            } else {
                let b1 = self.mid_tables@[m].entries@[spec_vpn_index(vpn, 1) as int].bits;
                if !e_valid(b1) {
                    None
                } else {
                    let l = find_index(self.leaf_ppns@, e_ppn(b1));
                    if l < 0 {
                        None
                    } else {
                        let b0 = self.leaf_tables@[l].entries@[spec_vpn_index(vpn, 0) as int].bits;
                        if !e_valid(b0) {
                            None
                        } else {
                            match spec_prot_of_bits(e_prot(b0)) {
                                Some(p) => {
                                    if p != ProtectionBits::TablePtr {
                                        Some((e_ppn(b0), p))
                                    } else {
                                        None
                                    }
                                },
                                None => None,
                            }
                        }
                    }
                }
            }
        }
    }

    /// The page at `ppn` was handed out by allocator `a`: it lies in
    /// the already-allocated part of `a`'s heap.
    pub open spec fn page_owned(a: &AndyAllocator<4096>, ppn: u64) -> bool {
        &&& a.heap_start as int / 4096 <= ppn
        &&& ppn - a.heap_start as int / 4096 < a.spec_first_free_page()
    }

    /// The tree's nodes all live in pages already allocated from `a`,
    /// whose heap is page-aligned and inside the 56-bit physical
    /// space. Fresh pages from `a` therefore never collide with a node.
    pub open spec fn compat(&self, a: &AndyAllocator<4096>) -> bool {
        &&& a.heap_start as int % 4096 == 0
        &&& a.heap_end as int <= 0x0100_0000_0000_0000
        &&& Self::page_owned(a, self.root_ppn)
        &&& forall|m: int|
            0 <= m < self.mid_ppns@.len() ==> Self::page_owned(a, #[trigger] self.mid_ppns@[m])
        &&& forall|l: int|
            0 <= l < self.leaf_ppns@.len() ==> Self::page_owned(a, #[trigger] self.leaf_ppns@[l])
    }

    /// How many fresh page-table nodes mapping `vpn` would have to
    /// allocate: both lower levels, the bottom one, or none.
    pub open spec fn spec_tables_needed(&self, vpn: u64) -> int {
        let b2 = self.root.entries@[spec_vpn_index(vpn, 2) as int].bits;
        if !e_valid(b2) {
            2
        } else {
            let m = find_index(self.mid_ppns@, e_ppn(b2));
            if m < 0 {
                2
            } else {
                let b1 = self.mid_tables@[m].entries@[spec_vpn_index(vpn, 1) as int].bits;
                if !e_valid(b1) {
                    1
                } else {
                    0
                }
            }
        }
    }

    /// Maps virtual page `virtual_page_num` to physical page
    /// `physical_page_num` with the given protection, allocating the
    /// missing page-table nodes on the way down. Re-creating a mapping
    /// that already resolves to the same frame is a tolerated no-op;
    /// one that resolves to a different frame is reported as a
    /// conflict, with both frame numbers, and changes nothing.
    pub fn create_mapping(
        &mut self,
        allocator: &mut AndyAllocator<4096>,
        virtual_page_num: u64,
        physical_page_num: u64,
        protection: ProtectionBits,
    ) -> (r: Result<(), RiscvPagingError>)
        requires
            old(self).wf(),
            old(allocator).wf(),
            old(self).compat(old(allocator)),
            virtual_page_num < (1u64 << 27),
            physical_page_num < (1u64 << 44),
            protection != ProtectionBits::TablePtr,
            old(allocator).spec_free_pages() >= old(self).spec_tables_needed(virtual_page_num),
        ensures
            final(self).wf(),
            final(allocator).wf(),
            final(self).compat(final(allocator)),
            final(allocator).heap_start == old(allocator).heap_start,
            final(allocator).heap_end == old(allocator).heap_end,
            final(allocator).spec_free_pages() >= old(allocator).spec_free_pages() - old(
                self,
            ).spec_tables_needed(virtual_page_num),
            match r {
                Ok(u) => {
                    ||| {
                        &&& old(self).spec_resolve(virtual_page_num) matches Some(pair)
                            && pair.0 == physical_page_num
                        &&& *final(self) == *old(self)
                        &&& *final(allocator) == *old(allocator)
                    }
                    ||| {
                        &&& old(self).spec_resolve(virtual_page_num) is None
                        &&& final(self).spec_resolve(virtual_page_num) == Some(
                            (physical_page_num, protection),
                        )
                        &&& forall|w: u64|
                            w < (1u64 << 27) && w != virtual_page_num
                                ==> final(self).spec_resolve(w) == old(self).spec_resolve(w)
                    }
                },
                Err(e) => {
                    &&& e matches RiscvPagingError::AlreadyMapped {
                        attempted_ppn,
                        already_there_ppn,
                        vpn,
                    } && attempted_ppn == physical_page_num && vpn == virtual_page_num
                        && already_there_ppn != physical_page_num && (old(self).spec_resolve(
                        virtual_page_num,
                    ) matches Some(pair) && pair.0 == already_there_ppn)
                    &&& *final(self) == *old(self)
                    &&& *final(allocator) == *old(allocator)
                },
            },
    {
        let ghost s0 = *self;
        let ghost a0 = *old(allocator);
        proof {
            lemma_zero_entry();
            lemma_vpn_index_bound(virtual_page_num, 2);
            lemma_vpn_index_bound(virtual_page_num, 1);
            lemma_vpn_index_bound(virtual_page_num, 0);
        }
        let i2 = get_vpn_index(virtual_page_num, 2);
        let e2 = self.root.entries[i2 as usize];
        let m: usize;
        if e2.is_valid() {
            let child_ppn = match e2.get_ppn() {
                Ok(p) => p,
                Err(_) => {
                    return vstd::pervasive::unreached();
                },
            };
            m = match lookup_ppn(&self.mid_ppns, child_ppn) {
                Some(i) => i,
                None => {
                    return vstd::pervasive::unreached();
                },
            };
        } else {
            let addr = match allocator.allocate(1) {
                Ok(a) => a,
                Err(_) => {
                    return vstd::pervasive::unreached();
                },
            };
            let new_ppn: u64 = (addr as u64) / 4096;
            proof {
                crate::heap_alloc::lemma_first_empty_from(a0.statuses@, a0.spec_pages_start());
                lemma_owned_page_in_space(&a0, a0.spec_first_free_page());
                assert((1u64 << 44) == 0x1000_0000_0000u64) by (bit_vector);
                assert forall|k: int| 0 <= k < self.mid_ppns@.len() implies self.mid_ppns@[k]
                    != new_ppn by {}
                lemma_find_index(self.mid_ppns@, new_ppn);
                if find_index(self.mid_ppns@, new_ppn) >= 0 {
                    assert(false);
                }
            }
            let ghost pre = *self;
            self.mid_tables.push(PageTable::new_empty());
            self.mid_ppns.push(new_ppn);
            let mut entry = e2;
            entry.set_protection(ProtectionBits::TablePtr);
            entry.set_ppn(new_ppn);
            entry.set_is_valid(true);
            self.root.entries[i2 as usize] = entry;
            m = self.mid_tables.len() - 1;
            proof {
                lemma_table_entry_encoding(entry.bits, new_ppn);
                lemma_attach_mid(pre, *self, i2 as int, new_ppn);
            }
        }
        proof {
            assert(e_valid(self.root.entries@[i2 as int].bits));
            assert(find_index(self.mid_ppns@, e_ppn(self.root.entries@[i2 as int].bits))
                == m as int);
            assert(forall|w: u64| self.spec_resolve(w) == s0.spec_resolve(w));
        }
        let i1 = get_vpn_index(virtual_page_num, 1);
        let e1 = self.mid_tables[m].entries[i1 as usize];
        let l: usize;
        if e1.is_valid() {
            let child_ppn = match e1.get_ppn() {
                Ok(p) => p,
                Err(_) => {
                    return vstd::pervasive::unreached();
                },
            };
            l = match lookup_ppn(&self.leaf_ppns, child_ppn) {
                Some(i) => i,
                None => {
                    return vstd::pervasive::unreached();
                },
            };
        } else {
            proof {
                if allocator.spec_free_pages() < 1 {
                    assert(false);
                }
            }
            let ghost a1 = *allocator;
            let addr = match allocator.allocate(1) {
                Ok(a) => a,
                Err(_) => {
                    return vstd::pervasive::unreached();
                },
            };
            let new_ppn: u64 = (addr as u64) / 4096;
            proof {
                crate::heap_alloc::lemma_first_empty_from(a1.statuses@, a1.spec_pages_start());
                lemma_owned_page_in_space(&a1, a1.spec_first_free_page());
                assert((1u64 << 44) == 0x1000_0000_0000u64) by (bit_vector);
                assert forall|k: int| 0 <= k < self.leaf_ppns@.len() implies self.leaf_ppns@[k]
                    != new_ppn by {}
                lemma_find_index(self.leaf_ppns@, new_ppn);
                if find_index(self.leaf_ppns@, new_ppn) >= 0 {
                    assert(false);
                }
            }
            let ghost pre = *self;
            self.leaf_tables.push(PageTable::new_empty());
            self.leaf_ppns.push(new_ppn);
            let mut entry = e1;
            entry.set_protection(ProtectionBits::TablePtr);
            entry.set_ppn(new_ppn);
            entry.set_is_valid(true);
            self.mid_tables[m].entries[i1 as usize] = entry;
            l = self.leaf_tables.len() - 1;
            proof {
                lemma_table_entry_encoding(entry.bits, new_ppn);
                lemma_attach_leaf(pre, *self, m as int, i1 as int, new_ppn);
            }
        }
        proof {
            assert(e_valid(self.mid_tables@[m as int].entries@[i1 as int].bits));
            assert(find_index(
                self.leaf_ppns@,
                e_ppn(self.mid_tables@[m as int].entries@[i1 as int].bits),
            ) == l as int);
            assert(forall|w: u64| self.spec_resolve(w) == s0.spec_resolve(w));
        }
        let i0 = get_vpn_index(virtual_page_num, 0);
        let e0 = self.leaf_tables[l].entries[i0 as usize];
        if e0.is_valid() {
            let already_there_ppn = match e0.get_ppn() {
                Ok(p) => p,
                Err(_) => {
                    return vstd::pervasive::unreached();
                },
            };
            if already_there_ppn == physical_page_num {
                return Ok(());
            }
            return Err(
                RiscvPagingError::AlreadyMapped {
                    attempted_ppn: physical_page_num,
                    already_there_ppn,
                    vpn: virtual_page_num,
                },
            );
        }
        let ghost pre = *self;
        let mut entry = e0;
        entry.set_protection(protection);
        entry.set_ppn(physical_page_num);
        entry.set_accessed_and_dirty();
        entry.set_is_valid(true);
        self.leaf_tables[l].entries[i0 as usize] = entry;
        proof {
            lemma_prot_roundtrip(protection);
            lemma_leaf_entry_encoding(
                entry.bits,
                physical_page_num,
                spec_prot_encoding(protection),
            );
            lemma_write_leaf(
                pre,
                *self,
                m as int,
                l as int,
                i2 as int,
                i1 as int,
                i0 as int,
                physical_page_num,
                protection,
            );
            assert forall|w: u64| w < (1u64 << 27) && w != virtual_page_num implies self
                .spec_resolve(w) == s0.spec_resolve(w) by {
                if spec_vpn_index(w, 2) == i2 && spec_vpn_index(w, 1) == i1 && spec_vpn_index(w, 0)
                    == i0 {
                    lemma_vpn_indices_inject(w, virtual_page_num);
                    assert(false);
                }
            }
        }
        Ok(())
    }

    /// The value activation writes into the translation-control
    /// register: translation mode in the top bits, the root node's
    /// page number below. The privileged write itself happens outside
    /// this crate, and only once table construction is complete.
    pub fn satp_value(&self) -> (r: u64)
        ensures
            r == (8u64 << 60) | self.root_ppn,
    {
        (8u64 << 60) | self.root_ppn
    }

    /// Resolves a virtual address through the tree: the same walk the
    /// hardware takes. A walk that meets an invalid entry fails; a
    /// pointer entry carrying accessed or dirty marks, or a leaf
    /// without them, would mean the tree was not built by this
    /// builder, and the invariant rules both out.
    pub fn find_map(&self, from: VirtualAddr) -> (r: Result<PhysicalAddr, RiscvPagingError>)
        requires
            self.wf(),
        ensures
            match self.spec_resolve((from.0 / 4096) as u64) {
                Some(pair) => r matches Ok(pa) && pa.0 == pair.0 * 4096 + (from.0 as int % 4096),
                None => r == Err::<PhysicalAddr, RiscvPagingError>(
                    RiscvPagingError::WalkingHitInvalidPage,
                ),
            },
    {
        let vpn: u64 = from.0 / PAGE_SIZE_BYTES;
        proof {
            lemma_vpn_index_bound(vpn, 2);
            lemma_vpn_index_bound(vpn, 1);
            lemma_vpn_index_bound(vpn, 0);
        }
        let i2 = get_vpn_index(vpn, 2);
        let e2 = self.root.entries[i2 as usize];
        if !e2.is_valid() {
            return Err(RiscvPagingError::WalkingHitInvalidPage);
        }
        let leaf2 = match e2.is_leaf() {
            Ok(b) => b,
            Err(_) => {
                return vstd::pervasive::unreached();
            },
        };
        if leaf2 {
            return vstd::pervasive::unreached();
        }
        assert(!e_accessed(e2.bits) && !e_dirty(e2.bits));
        let child2 = match e2.get_ppn() {
            Ok(p) => p,
            Err(_) => {
                return vstd::pervasive::unreached();
            },
        };
        let m = match lookup_ppn(&self.mid_ppns, child2) {
            Some(i) => i,
            None => {
                return vstd::pervasive::unreached();
            },
        };
        let e1 = self.mid_tables[m].entries[get_vpn_index(vpn, 1) as usize];
        if !e1.is_valid() {
            return Err(RiscvPagingError::WalkingHitInvalidPage);
        }
        let leaf1 = match e1.is_leaf() {
            Ok(b) => b,
            Err(_) => {
                return vstd::pervasive::unreached();
            },
        };
        if leaf1 {
            return vstd::pervasive::unreached();
        }
        assert(!e_accessed(e1.bits) && !e_dirty(e1.bits));
        let child1 = match e1.get_ppn() {
            Ok(p) => p,
            Err(_) => {
                return vstd::pervasive::unreached();
            },
        };
        let l = match lookup_ppn(&self.leaf_ppns, child1) {
            Some(i) => i,
            None => {
                return vstd::pervasive::unreached();
            },
        };
        let e0 = self.leaf_tables[l].entries[get_vpn_index(vpn, 0) as usize];
        if !e0.is_valid() {
            return Err(RiscvPagingError::WalkingHitInvalidPage);
        }
        assert(e_accessed(e0.bits) && e_dirty(e0.bits));
        proof {
            lemma_e_ppn_bound(e0.bits);
        }
        let page_addr = match e0.get_page_addr() {
            Ok(a) => a,
            Err(_) => {
                return vstd::pervasive::unreached();
            },
        };
        let low: u64 = from.0 & 0b111111111111;
        proof {
            let pp = e_ppn(e0.bits);
            let a = from.0;
            let pa = (pp * 4096) as u64;
            assert(pa | (a & 0b111111111111u64) == pp * 4096 + a % 4096) by (bit_vector)
                requires
                    pp < (1u64 << 44),
                    pa == (pp * 4096) as u64,
            ;
        }
        Ok(PhysicalAddr(page_addr | low))
    }

    /// Builds an empty address space: one zeroed root node, taken from
    /// the bitmap allocator, which maps nothing.
    pub fn new(allocator: &mut AndyAllocator<4096>) -> (r: Result<Self, RiscvPagingError>)
        requires
            old(allocator).wf(),
            old(allocator).heap_start as int % 4096 == 0,
            old(allocator).heap_end as int <= 0x0100_0000_0000_0000,
            old(allocator).spec_free_pages() >= 1,
        ensures
            final(allocator).wf(),
            final(allocator).heap_start == old(allocator).heap_start,
            final(allocator).heap_end == old(allocator).heap_end,
            final(allocator).spec_first_free_page() == old(allocator).spec_first_free_page() + 1,
            match r {
                Ok(table) => {
                    &&& table.wf()
                    &&& table.compat(final(allocator))
                    &&& forall|w: u64| table.spec_resolve(w) is None
                    &&& table.mid_ppns@.len() == 0
                    &&& table.leaf_ppns@.len() == 0
                },
                Err(_) => false,
            },
    {
        let got = allocator.allocate(1);
        let addr: usize = match got {
            Ok(a) => a,
            Err(_) => {
                return vstd::pervasive::unreached();
            },
        };
        let root_ppn: u64 = (addr as u64) / 4096;
        proof {
            crate::heap_alloc::lemma_first_empty_from(
                old(allocator).statuses@,
                old(allocator).spec_pages_start(),
            );
            lemma_aligned_page_div(
                old(allocator).heap_start as int,
                old(allocator).spec_first_free_page(),
            );
            lemma_owned_page_in_space(old(allocator), old(allocator).spec_first_free_page());
            assert((1u64 << 44) == 0x1000_0000_0000u64) by (bit_vector);
            lemma_zero_entry();
        }
        let table = Sv39 {
            root: PageTable::new_empty(),
            root_ppn,
            mid_tables: Vec::new(),
            mid_ppns: Vec::new(),
            leaf_tables: Vec::new(),
            leaf_ppns: Vec::new(),
        };
        proof {
            assert forall|w: u64| table.spec_resolve(w) is None by {
                lemma_vpn_index_bound(w, 2);
                assert(table.root.entries@[spec_vpn_index(w, 2) as int].bits == 0);
            }
        }
        Ok(table)
    }
}

/// A page inside an allocator heap that is page-aligned and below the
/// 56-bit physical bound has a page number below the 44-bit field.
pub proof fn lemma_owned_page_in_space(a: &AndyAllocator<4096>, k: int)
    requires
        a.wf(),
        a.heap_start as int % 4096 == 0,
        a.heap_end as int <= 0x0100_0000_0000_0000,
        0 <= k < a.spec_total_pages(),
    ensures
        a.heap_start as int / 4096 + k < 0x1000_0000_0000,
        a.spec_page_addr(k) / 4096 == a.heap_start as int / 4096 + k,
{
    let h = a.heap_start as int;
    let total = a.spec_total_pages();
    lemma_aligned_page_div(h, k);
    vstd::arithmetic::mul::lemma_mul_strict_inequality(k, total, 4096);
    vstd::arithmetic::div_mod::lemma_fundamental_div_mod((a.heap_end - a.heap_start) as int, 4096);
    vstd::arithmetic::div_mod::lemma_mod_bound((a.heap_end - a.heap_start) as int, 4096);
    assert(h + k * 4096 < a.heap_end as int);
    vstd::arithmetic::mul::lemma_mul_is_distributive_add_other_way(4096, h / 4096, k);
    vstd::arithmetic::div_mod::lemma_fundamental_div_mod(h, 4096);
    assert((h / 4096 + k) * 4096 < 0x0100_0000_0000_0000);
}

/// Dividing a page-aligned base plus a whole number of pages by the
/// page size splits cleanly.
pub proof fn lemma_aligned_page_div(h: int, k: int)
    requires
        h >= 0,
        k >= 0,
        h % 4096 == 0,
    ensures
        (h + k * 4096) / 4096 == h / 4096 + k,
{
    vstd::arithmetic::div_mod::lemma_fundamental_div_mod(h, 4096);
    vstd::arithmetic::mul::lemma_mul_is_distributive_add_other_way(4096, h / 4096, k);
    vstd::arithmetic::div_mod::lemma_fundamental_div_mod_converse(
        h + k * 4096,
        4096,
        h / 4096 + k,
        0,
    );
}


/// Hanging a fresh, zeroed mid-level node off an invalid root slot
/// keeps the tree well formed and changes no mapping: the new node
/// maps nothing yet.
proof fn lemma_attach_mid(pre: Sv39, post: Sv39, i2: int, new_ppn: u64)
    requires
        pre.wf(),
        0 <= i2 < 512,
        pre.root.entries@[i2].bits == 0,
        new_ppn < (1u64 << 44),
        find_index(pre.mid_ppns@, new_ppn) < 0,
        post.root_ppn == pre.root_ppn,
        post.root.entries@.len() == 512,
        is_table_entry(post.root.entries@[i2].bits, new_ppn),
        forall|j: int| 0 <= j < 512 && j != i2 ==> post.root.entries@[j] == pre.root.entries@[j],
        post.mid_tables@.len() == pre.mid_tables@.len() + 1,
        forall|m: int|
            0 <= m < pre.mid_tables@.len() ==> post.mid_tables@[m] == pre.mid_tables@[m],
        post.mid_tables@[pre.mid_tables@.len() as int].all_zero(),
        post.mid_ppns@ == pre.mid_ppns@.push(new_ppn),
        post.leaf_tables@ == pre.leaf_tables@,
        post.leaf_ppns@ == pre.leaf_ppns@,
    ensures
        post.wf(),
        find_index(post.mid_ppns@, new_ppn) == pre.mid_ppns@.len(),
        forall|w: u64| post.spec_resolve(w) == pre.spec_resolve(w),
{
    lemma_zero_entry();
    lemma_find_index_push_new(pre.mid_ppns@, new_ppn);
    lemma_find_index(pre.mid_ppns@, new_ppn);
    let n = pre.mid_tables@.len() as int;
    assert forall|j: int| 0 <= j < 512 implies {
        let b = (#[trigger] post.root.entries@[j]).bits;
        if e_valid(b) {
            table_ptr_shape(b) && find_index(post.mid_ppns@, e_ppn(b)) >= 0
        } else {
            b == 0
        }
    } by {
        if j != i2 {
            let b = pre.root.entries@[j].bits;
            if e_valid(b) {
                lemma_find_index_push(pre.mid_ppns@, e_ppn(b), new_ppn);
            }
        }
    }
    assert forall|i: int, j: int|
        0 <= i < 512 && 0 <= j < 512 && i != j && e_valid(
            (#[trigger] post.root.entries@[i]).bits,
        ) && e_valid((#[trigger] post.root.entries@[j]).bits) implies e_ppn(
        post.root.entries@[i].bits,
    ) != e_ppn(post.root.entries@[j].bits) by {
        if i == i2 {
            assert(find_index(pre.mid_ppns@, e_ppn(post.root.entries@[j].bits)) >= 0);
            lemma_find_index(pre.mid_ppns@, e_ppn(post.root.entries@[j].bits));
        } else if j == i2 {
            assert(find_index(pre.mid_ppns@, e_ppn(post.root.entries@[i].bits)) >= 0);
            lemma_find_index(pre.mid_ppns@, e_ppn(post.root.entries@[i].bits));
        }
    }
    assert forall|a: int, b: int|
        0 <= a < b < post.mid_ppns@.len() implies post.mid_ppns@[a] != post.mid_ppns@[b] by {
        if b == n {
            assert(post.mid_ppns@[a] == pre.mid_ppns@[a]);
        }
    }
    assert(post.wf());
    assert forall|w: u64| post.spec_resolve(w) == pre.spec_resolve(w) by {
        lemma_vpn_index_bound(w, 2);
        lemma_vpn_index_bound(w, 1);
        let j2 = spec_vpn_index(w, 2) as int;
        if j2 == i2 {
            assert(!e_valid(pre.root.entries@[j2].bits));
            let b2 = post.root.entries@[j2].bits;
            assert(find_index(post.mid_ppns@, e_ppn(b2)) == n);
            assert(post.mid_tables@[n].entries@[spec_vpn_index(w, 1) as int].bits == 0);
        } else {
            let b2 = pre.root.entries@[j2].bits;
            if e_valid(b2) {
                assert(find_index(pre.mid_ppns@, e_ppn(b2)) >= 0);
                lemma_find_index_push(pre.mid_ppns@, e_ppn(b2), new_ppn);
                lemma_find_index(pre.mid_ppns@, e_ppn(b2));
            }
        }
    }
}

/// Hanging a fresh, zeroed bottom-level node off an invalid slot of a
/// mid-level node keeps the tree well formed and changes no mapping.
proof fn lemma_attach_leaf(pre: Sv39, post: Sv39, m: int, i1: int, new_ppn: u64)
    requires
        pre.wf(),
        0 <= m < pre.mid_tables@.len(),
        0 <= i1 < 512,
        pre.mid_tables@[m].entries@[i1].bits == 0,
        new_ppn < (1u64 << 44),
        find_index(pre.leaf_ppns@, new_ppn) < 0,
        post.root_ppn == pre.root_ppn,
        post.root == pre.root,
        post.mid_ppns@ == pre.mid_ppns@,
        post.mid_tables@.len() == pre.mid_tables@.len(),
        forall|m2: int|
            0 <= m2 < pre.mid_tables@.len() && m2 != m ==> post.mid_tables@[m2]
                == pre.mid_tables@[m2],
        post.mid_tables@[m].entries@.len() == 512,
        is_table_entry(post.mid_tables@[m].entries@[i1].bits, new_ppn),
        forall|j: int|
            0 <= j < 512 && j != i1 ==> post.mid_tables@[m].entries@[j]
                == pre.mid_tables@[m].entries@[j],
        post.leaf_tables@.len() == pre.leaf_tables@.len() + 1,
        forall|l: int|
            0 <= l < pre.leaf_tables@.len() ==> post.leaf_tables@[l] == pre.leaf_tables@[l],
        post.leaf_tables@[pre.leaf_tables@.len() as int].all_zero(),
        post.leaf_ppns@ == pre.leaf_ppns@.push(new_ppn),
    ensures
        post.wf(),
        find_index(post.leaf_ppns@, new_ppn) == pre.leaf_ppns@.len(),
        forall|w: u64| post.spec_resolve(w) == pre.spec_resolve(w),
{
    lemma_zero_entry();
    lemma_find_index_push_new(pre.leaf_ppns@, new_ppn);
    lemma_find_index(pre.leaf_ppns@, new_ppn);
    let n = pre.leaf_tables@.len() as int;
    assert forall|m2: int| 0 <= m2 < post.mid_tables@.len() implies pointer_table_wf(
        #[trigger] post.mid_tables@[m2],
        post.leaf_ppns@,
    ) by {
        assert forall|j: int| 0 <= j < 512 implies {
            let b = (#[trigger] post.mid_tables@[m2].entries@[j]).bits;
            if e_valid(b) {
                table_ptr_shape(b) && find_index(post.leaf_ppns@, e_ppn(b)) >= 0
            } else {
                b == 0
            }
        } by {
            if m2 != m || j != i1 {
                assert(post.mid_tables@[m2].entries@[j] == pre.mid_tables@[m2].entries@[j]);
                let b = pre.mid_tables@[m2].entries@[j].bits;
                assert(pointer_table_wf(pre.mid_tables@[m2], pre.leaf_ppns@));
                if e_valid(b) {
                    lemma_find_index_push(pre.leaf_ppns@, e_ppn(b), new_ppn);
                }
            }
        }
    }
    assert forall|a: int, b: int|
        0 <= a < b < post.leaf_ppns@.len() implies post.leaf_ppns@[a] != post.leaf_ppns@[b] by {
        if b == n {
            assert(post.leaf_ppns@[a] == pre.leaf_ppns@[a]);
        }
    }
    assert forall|ma: int, ia: int, mb: int, ib: int|
        0 <= ma < post.mid_tables@.len() && 0 <= ia < 512 && 0 <= mb < post.mid_tables@.len()
            && 0 <= ib < 512 && (ma != mb || ia != ib) && e_valid(
            (#[trigger] post.mid_tables@[ma].entries@[ia]).bits,
        ) && e_valid((#[trigger] post.mid_tables@[mb].entries@[ib]).bits) implies e_ppn(
        post.mid_tables@[ma].entries@[ia].bits,
    ) != e_ppn(post.mid_tables@[mb].entries@[ib].bits) by {
        if ma == m && ia == i1 {
            assert(post.mid_tables@[mb].entries@[ib] == pre.mid_tables@[mb].entries@[ib]);
            assert(pointer_table_wf(pre.mid_tables@[mb], pre.leaf_ppns@));
            assert(find_index(pre.leaf_ppns@, e_ppn(pre.mid_tables@[mb].entries@[ib].bits)) >= 0);
            lemma_find_index(pre.leaf_ppns@, e_ppn(pre.mid_tables@[mb].entries@[ib].bits));
        } else if mb == m && ib == i1 {
            assert(post.mid_tables@[ma].entries@[ia] == pre.mid_tables@[ma].entries@[ia]);
            assert(pointer_table_wf(pre.mid_tables@[ma], pre.leaf_ppns@));
            assert(find_index(pre.leaf_ppns@, e_ppn(pre.mid_tables@[ma].entries@[ia].bits)) >= 0);
            lemma_find_index(pre.leaf_ppns@, e_ppn(pre.mid_tables@[ma].entries@[ia].bits));
        } else {
            assert(post.mid_tables@[ma].entries@[ia] == pre.mid_tables@[ma].entries@[ia]);
            assert(post.mid_tables@[mb].entries@[ib] == pre.mid_tables@[mb].entries@[ib]);
        }
    }
    assert(post.wf());
    assert forall|w: u64| post.spec_resolve(w) == pre.spec_resolve(w) by {
        lemma_vpn_index_bound(w, 2);
        lemma_vpn_index_bound(w, 1);
        lemma_vpn_index_bound(w, 0);
        let j2 = spec_vpn_index(w, 2) as int;
        let b2 = pre.root.entries@[j2].bits;
        if e_valid(b2) {
            let mw = find_index(pre.mid_ppns@, e_ppn(b2));
            if mw >= 0 {
                lemma_find_index(pre.mid_ppns@, e_ppn(b2));
                if mw == m && spec_vpn_index(w, 1) as int == i1 {
                    assert(!e_valid(pre.mid_tables@[m].entries@[i1].bits));
                    let b1 = post.mid_tables@[m].entries@[i1].bits;
                    assert(find_index(post.leaf_ppns@, e_ppn(b1)) == n);
                    assert(post.leaf_tables@[n].entries@[spec_vpn_index(w, 0) as int].bits == 0);
                } else {
                    assert(post.mid_tables@[mw].entries@[spec_vpn_index(w, 1) as int]
                        == pre.mid_tables@[mw].entries@[spec_vpn_index(w, 1) as int]);
                    let b1 = pre.mid_tables@[mw].entries@[spec_vpn_index(w, 1) as int].bits;
                    if e_valid(b1) {
                        assert(pointer_table_wf(pre.mid_tables@[mw], pre.leaf_ppns@));
                        assert(find_index(pre.leaf_ppns@, e_ppn(b1)) >= 0);
                        lemma_find_index_push(pre.leaf_ppns@, e_ppn(b1), new_ppn);
                        lemma_find_index(pre.leaf_ppns@, e_ppn(b1));
                    }
                }
            }
        }
    }
}

/// Writing one fresh leaf entry maps exactly the virtual pages whose
/// three indices select that slot, and no others: the tree shape makes
/// every other walk land elsewhere.
proof fn lemma_write_leaf(
    pre: Sv39,
    post: Sv39,
    m: int,
    l: int,
    i2: int,
    i1: int,
    i0: int,
    ppn: u64,
    prot: ProtectionBits,
)
    requires
        pre.wf(),
        0 <= i2 < 512,
        0 <= i1 < 512,
        0 <= i0 < 512,
        e_valid(pre.root.entries@[i2].bits),
        0 <= m == find_index(pre.mid_ppns@, e_ppn(pre.root.entries@[i2].bits)),
        e_valid(pre.mid_tables@[m].entries@[i1].bits),
        0 <= l == find_index(pre.leaf_ppns@, e_ppn(pre.mid_tables@[m].entries@[i1].bits)),
        pre.leaf_tables@[l].entries@[i0].bits == 0,
        is_leaf_entry(post.leaf_tables@[l].entries@[i0].bits),
        e_ppn(post.leaf_tables@[l].entries@[i0].bits) == ppn,
        spec_prot_of_bits(e_prot(post.leaf_tables@[l].entries@[i0].bits)) == Some(prot),
        prot != ProtectionBits::TablePtr,
        post.root_ppn == pre.root_ppn,
        post.root == pre.root,
        post.mid_tables@ == pre.mid_tables@,
        post.mid_ppns@ == pre.mid_ppns@,
        post.leaf_ppns@ == pre.leaf_ppns@,
        post.leaf_tables@.len() == pre.leaf_tables@.len(),
        forall|l2: int|
            0 <= l2 < pre.leaf_tables@.len() && l2 != l ==> post.leaf_tables@[l2]
                == pre.leaf_tables@[l2],
        post.leaf_tables@[l].entries@.len() == 512,
        forall|j: int|
            0 <= j < 512 && j != i0 ==> post.leaf_tables@[l].entries@[j]
                == pre.leaf_tables@[l].entries@[j],
    ensures
        post.wf(),
        forall|w: u64|
            spec_vpn_index(w, 2) == i2 && spec_vpn_index(w, 1) == i1 && spec_vpn_index(w, 0) == i0
                ==> post.spec_resolve(w) == Some((ppn, prot)),
        forall|w: u64|
            !(spec_vpn_index(w, 2) == i2 && spec_vpn_index(w, 1) == i1 && spec_vpn_index(w, 0)
                == i0) ==> post.spec_resolve(w) == pre.spec_resolve(w),
{
    lemma_zero_entry();
    lemma_find_index(pre.mid_ppns@, e_ppn(pre.root.entries@[i2].bits));
    lemma_find_index(pre.leaf_ppns@, e_ppn(pre.mid_tables@[m].entries@[i1].bits));
    assert forall|l2: int| 0 <= l2 < post.leaf_tables@.len() implies leaf_table_wf(
        #[trigger] post.leaf_tables@[l2],
    ) by {
        if l2 == l {
            assert forall|j: int| 0 <= j < 512 implies {
                let b = (#[trigger] post.leaf_tables@[l].entries@[j]).bits;
                if e_valid(b) {
                    is_leaf_entry(b)
                } else {
                    b == 0
                }
            } by {
                if j != i0 {
                    assert(post.leaf_tables@[l].entries@[j] == pre.leaf_tables@[l].entries@[j]);
                    assert(leaf_table_wf(pre.leaf_tables@[l]));
                }
            }
        }
    }
    assert(post.wf());
    assert forall|w: u64|
        spec_vpn_index(w, 2) == i2 && spec_vpn_index(w, 1) == i1 && spec_vpn_index(w, 0) == i0
            implies post.spec_resolve(w) == Some((ppn, prot)) by {}
    assert forall|w: u64|
        !(spec_vpn_index(w, 2) == i2 && spec_vpn_index(w, 1) == i1 && spec_vpn_index(w, 0) == i0)
            implies post.spec_resolve(w) == pre.spec_resolve(w) by {
        lemma_vpn_index_bound(w, 2);
        lemma_vpn_index_bound(w, 1);
        lemma_vpn_index_bound(w, 0);
        let j2 = spec_vpn_index(w, 2) as int;
        let j1 = spec_vpn_index(w, 1) as int;
        let j0 = spec_vpn_index(w, 0) as int;
        let b2 = pre.root.entries@[j2].bits;
        if e_valid(b2) {
            let mw = find_index(pre.mid_ppns@, e_ppn(b2));
            if mw >= 0 {
                lemma_find_index(pre.mid_ppns@, e_ppn(b2));
                let b1 = pre.mid_tables@[mw].entries@[j1].bits;
                if e_valid(b1) {
                    let lw = find_index(pre.leaf_ppns@, e_ppn(b1));
                    if lw >= 0 {
                        lemma_find_index(pre.leaf_ppns@, e_ppn(b1));
                        if lw == l {
                            if mw != m || j1 != i1 {
                                assert(e_ppn(pre.mid_tables@[mw].entries@[j1].bits) != e_ppn(
                                    pre.mid_tables@[m].entries@[i1].bits,
                                ));
                                assert(pre.leaf_ppns@[l] == e_ppn(b1));
                                assert(false);
                            }
                            assert(mw == m && j1 == i1);
                            if j2 != i2 {
                                assert(e_ppn(pre.root.entries@[j2].bits) != e_ppn(
                                    pre.root.entries@[i2].bits,
                                ));
                                assert(pre.mid_ppns@[m] == e_ppn(b2));
                                assert(false);
                            }
                            assert(j0 != i0);
                            assert(post.leaf_tables@[l].entries@[j0]
                                == pre.leaf_tables@[l].entries@[j0]);
                        } else {
                            assert(post.leaf_tables@[lw] == pre.leaf_tables@[lw]);
                        }
                    }
                }
            }
        }
    }
}


/// Round trip of the protection encoding.
pub proof fn lemma_prot_roundtrip(p: ProtectionBits)
    ensures
        spec_prot_of_bits(spec_prot_encoding(p)) == Some(p),
{
    match p {
        ProtectionBits::TablePtr => {}
        ProtectionBits::Read => {}
        ProtectionBits::ReadWrite => {}
        ProtectionBits::Execute => {}
        ProtectionBits::ReadExecute => {}
        ProtectionBits::ReadWriteExecute => {}
    }
}

/// Field values of a table-pointer entry built from a zeroed slot by
/// the write sequence of `create_mapping`.
proof fn lemma_table_entry_encoding(b: u64, ppn: u64)
    requires
        ppn < (1u64 << 44),
        b == ((((0u64 & !0b1110u64) | 0u64) & !0x003f_ffff_ffff_fc00u64) | (ppn << 10u64)) | 1u64,
    ensures
        is_table_entry(b, ppn),
{
    assert(b & 1u64 == 1u64 && b & 0b1110u64 == 0u64 && b & (1u64 << 6) == 0u64 && b & (1u64 << 7)
        == 0u64 && (b & 0x003f_ffff_ffff_fc00u64) >> 10u64 == ppn) by (bit_vector)
        requires
            ppn < (1u64 << 44),
            b == ((((0u64 & !0b1110u64) | 0u64) & !0x003f_ffff_ffff_fc00u64) | (ppn << 10u64))
                | 1u64,
    ;
}

/// Field values of a leaf entry built from a zeroed slot by the write
/// sequence of `create_mapping`.
proof fn lemma_leaf_entry_encoding(b: u64, ppn: u64, pe: u64)
    requires
        ppn < (1u64 << 44),
        pe == 2 || pe == 6 || pe == 8 || pe == 10 || pe == 14,
        b == ((((((0u64 & !0b1110u64) | pe) & !0x003f_ffff_ffff_fc00u64) | (ppn << 10u64)) | (1u64
            << 6)) | (1u64 << 7)) | 1u64,
    ensures
        e_valid(b),
        e_prot(b) == pe,
        e_accessed(b),
        e_dirty(b),
        e_ppn(b) == ppn,
{
    assert(b & 1u64 == 1u64 && b & 0b1110u64 == pe && b & (1u64 << 6) != 0u64 && b & (1u64 << 7)
        != 0u64 && (b & 0x003f_ffff_ffff_fc00u64) >> 10u64 == ppn) by (bit_vector)
        requires
            ppn < (1u64 << 44),
            pe == 2 || pe == 6 || pe == 8 || pe == 10 || pe == 14,
            b == ((((((0u64 & !0b1110u64) | pe) & !0x003f_ffff_ffff_fc00u64) | (ppn << 10u64))
                | (1u64 << 6)) | (1u64 << 7)) | 1u64,
    ;
}


/// The page-number field never exceeds its 44-bit width.
pub proof fn lemma_e_ppn_bound(b: u64)
    ensures
        e_ppn(b) < (1u64 << 44),
{
    assert((b & 0x003f_ffff_ffff_fc00u64) >> 10u64 < (1u64 << 44)) by (bit_vector);
}

impl VirtualMemoryScheme for Sv39 {
    type MapError = RiscvPagingError;

    type MapProtection = ProtectionBits;

    open spec fn inv(&self) -> bool {
        self.wf()
    }

    open spec fn alloc_ok(&self, allocator: &AndyAllocator<4096>) -> bool {
        self.compat(allocator)
    }

    open spec fn heap_ok(allocator: &AndyAllocator<4096>) -> bool {
        &&& allocator.heap_start as int % 4096 == 0
        &&& allocator.heap_end as int <= 0x0100_0000_0000_0000
    }

    open spec fn mapping(&self, vpn: u64) -> Option<(u64, ProtectionBits)> {
        self.spec_resolve(vpn)
    }

    open spec fn vpn_limit() -> u64 {
        1u64 << 27
    }

    open spec fn ppn_limit() -> u64 {
        1u64 << 44
    }

    open spec fn leaf_protection(p: ProtectionBits) -> bool {
        p != ProtectionBits::TablePtr
    }

    open spec fn nodes_needed(&self, vpn: u64) -> int {
        self.spec_tables_needed(vpn)
    }

    proof fn lemma_nodes_needed_bound(&self, vpn: u64) {
    }

    fn new(allocator: &mut AndyAllocator<4096>) -> Result<Self, RiscvPagingError> {
        Sv39::new(allocator)
    }

    fn create_mapping(
        &mut self,
        allocator: &mut AndyAllocator<4096>,
        virtual_page_num: u64,
        physical_page_num: u64,
        protection: ProtectionBits,
    ) -> Result<(), RiscvPagingError> {
        Sv39::create_mapping(self, allocator, virtual_page_num, physical_page_num, protection)
    }

    fn find_map(&self, from: VirtualAddr) -> Result<PhysicalAddr, RiscvPagingError> {
        Sv39::find_map(self, from)
    }
}


/// A linker- or device-declared physical range with the protection its
/// identity mapping carries.
#[derive(Clone, Copy, Debug, PartialEq, Eq, Structural)]
pub struct MemoryRegion {
    pub start: u64,
    pub end: u64,
    pub protection: ProtectionBits,
}

/// Number of pages the region's identity mapping covers.
pub open spec fn spec_region_pages(r: MemoryRegion) -> int {
    if (r.end as int + 4095) / 4096 >= r.start as int / 4096 {
        (r.end as int + 4095) / 4096 - r.start as int / 4096
    } else {
        0
    }
}

/// Total pages of the regions from index `i` on.
pub open spec fn spec_regions_pages(rs: Seq<MemoryRegion>, i: int) -> int
    decreases rs.len() - i,
{
    if i < 0 || i >= rs.len() {
        0
    } else {
        spec_region_pages(rs[i]) + spec_regions_pages(rs, i + 1)
    }
}

/// The page total is never negative.
pub proof fn lemma_regions_pages_nonneg(rs: Seq<MemoryRegion>, i: int)
    ensures
        spec_regions_pages(rs, i) >= 0,
    decreases rs.len() - i,
{
    if 0 <= i < rs.len() {
        lemma_regions_pages_nonneg(rs, i + 1);
    }
}

/// Every mapping the table holds is an identity mapping.
pub open spec fn all_identity(t: &Sv39) -> bool {
    forall|w: u64|
        w < (1u64 << 27) ==> ((#[trigger] t.spec_resolve(w)) matches Some(pair) ==> pair.0 == w)
}

/// Concrete values of the shift constants the scheme uses.
pub proof fn lemma_shift_values()
    ensures
        (1u64 << 27) == 0x800_0000u64,
        (1u64 << 44) == 0x1000_0000_0000u64,
{
    assert((1u64 << 27) == 0x800_0000u64 && (1u64 << 44) == 0x1000_0000_0000u64) by (bit_vector);
}

/// Identity-maps every given region with its protection, and every
/// given device address read-write, into a table that so far holds
/// only identity mappings. No conflict can arise, so the call always
/// succeeds, and afterwards every page of every region and every
/// device page resolves to its own address.
pub fn sv39_setup_identity_mapping(
    allocator: &mut AndyAllocator<4096>,
    table: &mut Sv39,
    regions: &Vec<MemoryRegion>,
    device_addrs: &Vec<u64>,
) -> (r: Result<(), RiscvPagingError>)
    requires
        old(table).wf(),
        old(allocator).wf(),
        old(allocator).heap_start as int % 4096 == 0,
        old(allocator).heap_end as int <= 0x0100_0000_0000_0000,
        old(table).compat(old(allocator)),
        all_identity(old(table)),
        forall|i: int|
            0 <= i < regions@.len() ==> (#[trigger] regions@[i]).start <= regions@[i].end,
        forall|i: int|
            0 <= i < regions@.len() ==> ((#[trigger] regions@[i]).end as int + 4095) / 4096 <= (
            1u64 << 27),
        forall|i: int|
            0 <= i < regions@.len() ==> (#[trigger] regions@[i]).protection
                != ProtectionBits::TablePtr,
        forall|i: int|
            0 <= i < device_addrs@.len() ==> (#[trigger] device_addrs@[i]) as int / 4096 < (1u64
                << 27),
        old(allocator).spec_free_pages() >= 2 * (spec_regions_pages(regions@, 0)
            + device_addrs@.len()),
    ensures
        final(table).wf(),
        final(allocator).wf(),
        final(table).compat(final(allocator)),
        final(allocator).heap_start == old(allocator).heap_start,
        final(allocator).heap_end == old(allocator).heap_end,
        r is Ok,
        all_identity(final(table)),
        forall|i: int|
            0 <= i < regions@.len() ==> crate::mmu::region_identity_mapped(
                final(table),
                (#[trigger] regions@[i]).start,
                regions@[i].end,
            ),
        forall|i: int|
            0 <= i < device_addrs@.len() ==> ((#[trigger] final(table).spec_resolve(
                (device_addrs@[i] / 4096) as u64,
            )) matches Some(pair) && pair.0 == device_addrs@[i] / 4096),
        // no other mappings are created: a page that resolves
        // differently afterwards lies in one of the regions or is a
        // device page
        forall|w: u64|
            w < (1u64 << 27) && #[trigger] final(table).spec_resolve(w) != old(
                table,
            ).spec_resolve(w) ==> ((exists|j: int|
                0 <= j < regions@.len() && (#[trigger] regions@[j]).start / 4096 <= w < (
                regions@[j].end + 4095) / 4096) || (exists|d: int|
                0 <= d < device_addrs@.len() && w == (#[trigger] device_addrs@[d]) / 4096)),
{
    proof {
        lemma_shift_values();
    }
    let mut i: usize = 0;
    while i < regions.len()
        invariant
            table.wf(),
            allocator.wf(),
            allocator.heap_start as int % 4096 == 0,
            allocator.heap_end as int <= 0x0100_0000_0000_0000,
            allocator.heap_start == old(allocator).heap_start,
            allocator.heap_end == old(allocator).heap_end,
            table.compat(allocator),
            all_identity(table),
            i <= regions@.len(),
            forall|i2: int|
                0 <= i2 < regions@.len() ==> (#[trigger] regions@[i2]).start <= regions@[i2].end,
            forall|i2: int|
                0 <= i2 < regions@.len() ==> ((#[trigger] regions@[i2]).end as int + 4095) / 4096
                    <= (1u64 << 27),
            forall|i2: int|
                0 <= i2 < regions@.len() ==> (#[trigger] regions@[i2]).protection
                    != ProtectionBits::TablePtr,
            forall|j: int|
                0 <= j < i ==> crate::mmu::region_identity_mapped(
                    table,
                    (#[trigger] regions@[j]).start,
                    regions@[j].end,
                ),
            forall|w: u64|
                w < (1u64 << 27) && #[trigger] table.spec_resolve(w) != old(table).spec_resolve(w)
                    ==> exists|j: int|
                    0 <= j < i && (#[trigger] regions@[j]).start / 4096 <= w < (regions@[j].end
                        + 4095) / 4096,
            allocator.spec_free_pages() >= 2 * (spec_regions_pages(regions@, i as int)
                + device_addrs@.len()),
        decreases regions@.len() - i,
    {
        let region = regions[i];
        proof {
            lemma_shift_values();
            lemma_regions_pages_nonneg(regions@, i as int + 1);
            vstd::arithmetic::div_mod::lemma_fundamental_div_mod(region.end as int + 4095, 4096);
            vstd::arithmetic::div_mod::lemma_mod_bound(region.end as int + 4095, 4096);
        }
        let ghost pre = *table;
        match crate::mmu::identity_map_region(
            allocator,
            table,
            region.start,
            region.end,
            region.protection,
        ) {
            Ok(u) => {}
            Err(e) => {
                proof {
                    let p = choose|p: u64|
                        region.start / 4096 <= p < (region.end + 4095) / 4096 && ((#[trigger] pre
                            .mapping(p)) matches Some(pair) && pair.0 != p);
                    assert(pre.mapping(p) matches Some(pair) && pair.0 != p);
                    assert(pre.mapping(p) == pre.spec_resolve(p));
                    assert(p < (1u64 << 27));
                    assert(false);
                }
                return vstd::pervasive::unreached();
            },
        }
        proof {
            assert forall|w: u64| w < (1u64 << 27) implies ((#[trigger] table.spec_resolve(
                w,
            )) matches Some(pair) ==> pair.0 == w) by {
                assert(table.mapping(w) == table.spec_resolve(w));
                if region.start / 4096 <= w < (region.end as int + 4095) / 4096 {
                    assert(table.mapping(w) matches Some(pair) && pair.0 == w);
                } else {
                    assert(table.mapping(w) == pre.mapping(w));
                    assert(pre.mapping(w) == pre.spec_resolve(w));
                }
            }
            assert forall|w: u64|
                w < (1u64 << 27) && #[trigger] table.spec_resolve(w) != old(table).spec_resolve(w)
                    implies exists|j: int|
                0 <= j < i + 1 && (#[trigger] regions@[j]).start / 4096 <= w < (regions@[j].end
                    + 4095) / 4096 by {
                if !(region.start / 4096 <= w < (region.end as int + 4095) / 4096) {
                    assert(table.mapping(w) == pre.mapping(w));
                    assert(table.spec_resolve(w) == pre.spec_resolve(w));
                    let j = choose|j: int|
                        0 <= j < i && (#[trigger] regions@[j]).start / 4096 <= w < (regions@[j].end
                            + 4095) / 4096;
                    assert(0 <= j < i + 1 && regions@[j].start / 4096 <= w < (regions@[j].end
                        + 4095) / 4096);
                } else {
                    assert(0 <= i < i + 1 && regions@[i as int].start / 4096 <= w < (
                    regions@[i as int].end + 4095) / 4096);
                }
            }
            assert forall|j: int| 0 <= j < i + 1 implies crate::mmu::region_identity_mapped(
                table,
                (#[trigger] regions@[j]).start,
                regions@[j].end,
            ) by {
                if j < i {
                    assert(crate::mmu::region_identity_mapped(
                        &pre,
                        regions@[j].start,
                        regions@[j].end,
                    ));
                    assert forall|p: u64|
                        regions@[j].start / 4096 <= p < (regions@[j].end + 4095) / 4096 implies ((
                        #[trigger] table.mapping(p)) matches Some(pair) && pair.0 == p) by {
                        assert(pre.mapping(p) matches Some(pair) && pair.0 == p);
                        if !(region.start / 4096 <= p < (region.end as int + 4095) / 4096) {
                            assert(table.mapping(p) == pre.mapping(p));
                        }
                    }
                }
            }
        }
        i = i + 1;
    }
    let ghost mid_table = *table;
    let mut k: usize = 0;
    while k < device_addrs.len()
        invariant
            table.wf(),
            allocator.wf(),
            allocator.heap_start as int % 4096 == 0,
            allocator.heap_end as int <= 0x0100_0000_0000_0000,
            allocator.heap_start == old(allocator).heap_start,
            allocator.heap_end == old(allocator).heap_end,
            table.compat(allocator),
            all_identity(table),
            k <= device_addrs@.len(),
            forall|i2: int|
                0 <= i2 < device_addrs@.len() ==> (#[trigger] device_addrs@[i2]) as int / 4096 < (
                1u64 << 27),
            forall|i2: int|
                0 <= i2 < regions@.len() ==> ((#[trigger] regions@[i2]).end as int + 4095) / 4096
                    <= (1u64 << 27),
            forall|j: int|
                0 <= j < regions@.len() ==> crate::mmu::region_identity_mapped(
                    table,
                    (#[trigger] regions@[j]).start,
                    regions@[j].end,
                ),
            forall|j: int|
                0 <= j < k ==> ((#[trigger] table.spec_resolve(
                    (device_addrs@[j] / 4096) as u64,
                )) matches Some(pair) && pair.0 == device_addrs@[j] / 4096),
            forall|w: u64|
                w < (1u64 << 27) && #[trigger] mid_table.spec_resolve(w) != old(
                    table,
                ).spec_resolve(w) ==> exists|j: int|
                    0 <= j < regions@.len() && (#[trigger] regions@[j]).start / 4096 <= w < (
                    regions@[j].end + 4095) / 4096,
            forall|w: u64|
                w < (1u64 << 27) && #[trigger] table.spec_resolve(w) != mid_table.spec_resolve(w)
                    ==> exists|d: int|
                    0 <= d < k && w == (#[trigger] device_addrs@[d]) / 4096,
            allocator.spec_free_pages() >= 2 * (device_addrs@.len() - k),
        decreases device_addrs@.len() - k,
    {
        let addr = device_addrs[k];
        let page: u64 = addr / 4096;
        proof {
            lemma_shift_values();
        }
        let ghost pre = *table;
        match Sv39::create_mapping(table, allocator, page, page, ProtectionBits::ReadWrite) {
            Ok(u) => {}
            Err(e) => {
                proof {
                    assert(pre.spec_resolve(page) matches Some(pair) && pair.0 != page);
                    assert(false);
                }
                return vstd::pervasive::unreached();
            },
        }
        proof {
            assert forall|w: u64| w < (1u64 << 27) implies ((#[trigger] table.spec_resolve(
                w,
            )) matches Some(pair) ==> pair.0 == w) by {
                if w != page {
                    assert(table.spec_resolve(w) == pre.spec_resolve(w));
                }
            }
            assert forall|j: int| 0 <= j < regions@.len() implies crate::mmu::region_identity_mapped(
                table,
                (#[trigger] regions@[j]).start,
                regions@[j].end,
            ) by {
                assert(crate::mmu::region_identity_mapped(&pre, regions@[j].start, regions@[j].end));
                assert forall|p: u64|
                    regions@[j].start / 4096 <= p < (regions@[j].end + 4095) / 4096 implies ((
                    #[trigger] table.mapping(p)) matches Some(pair) && pair.0 == p) by {
                    assert(pre.mapping(p) matches Some(pair) && pair.0 == p);
                    assert(pre.mapping(p) == pre.spec_resolve(p));
                    assert(table.mapping(p) == table.spec_resolve(p));
                    if p != page {
                        assert(table.spec_resolve(p) == pre.spec_resolve(p));
                    }
                }
            }
            assert forall|w: u64|
                w < (1u64 << 27) && #[trigger] table.spec_resolve(w) != mid_table.spec_resolve(w)
                    implies exists|d: int|
                0 <= d < k + 1 && w == (#[trigger] device_addrs@[d]) / 4096 by {
                if w != page {
                    assert(table.spec_resolve(w) == pre.spec_resolve(w));
                    let d = choose|d: int|
                        0 <= d < k && w == (#[trigger] device_addrs@[d]) / 4096;
                    assert(0 <= d < k + 1 && w == device_addrs@[d] / 4096);
                } else {
                    assert(0 <= k < k + 1 && w == device_addrs@[k as int] / 4096);
                }
            }
        }
        k = k + 1;
    }
    proof {
        assert forall|w: u64|
            w < (1u64 << 27) && #[trigger] table.spec_resolve(w) != old(table).spec_resolve(w)
                implies ((exists|j: int|
            0 <= j < regions@.len() && (#[trigger] regions@[j]).start / 4096 <= w < (
            regions@[j].end + 4095) / 4096) || (exists|d: int|
            0 <= d < device_addrs@.len() && w == (#[trigger] device_addrs@[d]) / 4096)) by {
            if table.spec_resolve(w) == mid_table.spec_resolve(w) {
                assert(mid_table.spec_resolve(w) != old(table).spec_resolve(w));
            }
        }
    }
    Ok(())
}


/// The physical address a table translates a virtual address to: the
/// mapped frame's base plus the in-page offset.
pub open spec fn spec_translate(t: &Sv39, addr: u64) -> Option<int> {
    match t.spec_resolve((addr / 4096) as u64) {
        Some(pair) => Some(pair.0 * 4096 + addr as int % 4096),
        None => None,
    }
}

/// Once a mapping `vpn -> ppn` is in place, every address inside that
/// virtual page translates to the mapped frame's base plus the same
/// in-page offset.
pub proof fn lemma_map_then_resolve(t: &Sv39, vpn: u64, ppn: u64, prot: ProtectionBits, off: u64)
    requires
        t.spec_resolve(vpn) == Some((ppn, prot)),
        off < 4096,
        vpn < (1u64 << 27),
    ensures
        spec_translate(t, (vpn * 4096 + off) as u64) == Some(ppn * 4096 + off),
{
    lemma_shift_values();
    vstd::arithmetic::div_mod::lemma_fundamental_div_mod_converse(
        vpn as int * 4096 + off,
        4096,
        vpn as int,
        off as int,
    );
}

} // verus!
