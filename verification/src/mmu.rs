//! Architecture-agnostic face of virtual memory: plain address types
//! and the capability set every paging scheme offers — construct,
//! create a mapping, resolve a mapping. Activation is a privileged
//! register write and stays outside this crate; a scheme exposes the
//! value to be written instead.

use crate::heap_alloc::AndyAllocator;
use vstd::prelude::*;

verus! {

/// A virtual address.
#[derive(Debug, Clone, Copy, PartialEq, Eq, Structural)]
pub struct VirtualAddr(pub u64);

/// A physical address.
#[derive(Debug, Clone, Copy, PartialEq, Eq, Structural)]
pub struct PhysicalAddr(pub u64);

/// The capability set of a paging scheme, with its contract: a scheme
/// carries a structural invariant, its nodes live in pages taken from
/// the bitmap allocator, and the mapping it encodes changes only where
/// a call says so. Creating a mapping that already resolves to the
/// same frame is a tolerated no-op; one that resolves to a different
/// frame is a conflict and changes nothing.
pub trait VirtualMemoryScheme: Sized {
    type MapError;

    type MapProtection: Copy;

    /// Structural soundness of the translation state.
    spec fn inv(&self) -> bool;

    /// The scheme's nodes all lie in pages the allocator has already
    /// handed out, so fresh pages never collide with them.
    spec fn alloc_ok(&self, allocator: &AndyAllocator<4096>) -> bool;

    /// The heap shape the scheme needs from its allocator.
    spec fn heap_ok(allocator: &AndyAllocator<4096>) -> bool;

    /// Frame and protection the scheme maps a virtual page to.
    spec fn mapping(&self, vpn: u64) -> Option<(u64, Self::MapProtection)>;

    /// One past the largest virtual page number.
    spec fn vpn_limit() -> u64;

    /// One past the largest frame number.
    spec fn ppn_limit() -> u64;

    /// Protection classes a leaf mapping may carry.
    spec fn leaf_protection(p: Self::MapProtection) -> bool;

    /// Fresh nodes that mapping `vpn` may have to allocate.
    spec fn nodes_needed(&self, vpn: u64) -> int;

    /// A mapping call never needs more than two fresh nodes.
    proof fn lemma_nodes_needed_bound(&self, vpn: u64)
        ensures
            0 <= self.nodes_needed(vpn) <= 2,
    ;

    /// Builds an empty address space out of one allocator page.
    fn new(allocator: &mut AndyAllocator<4096>) -> (r: Result<Self, Self::MapError>)
        requires
            old(allocator).wf(),
            Self::heap_ok(old(allocator)),
            old(allocator).spec_free_pages() >= 1,
        ensures
            final(allocator).wf(),
            Self::heap_ok(final(allocator)),
            final(allocator).heap_start == old(allocator).heap_start,
            final(allocator).heap_end == old(allocator).heap_end,
            final(allocator).spec_free_pages() >= old(allocator).spec_free_pages() - 1,
            r matches Ok(t) ==> {
                &&& t.inv()
                &&& t.alloc_ok(final(allocator))
                &&& forall|w: u64| t.mapping(w) is None
            },
    ;

    /// Maps `virtual_page_num` to `physical_page_num`, allocating
    /// missing nodes on the way down.
    fn create_mapping(
        &mut self,
        allocator: &mut AndyAllocator<4096>,
        virtual_page_num: u64,
        physical_page_num: u64,
        protection: Self::MapProtection,
    ) -> (r: Result<(), Self::MapError>)
        requires
            old(self).inv(),
            old(allocator).wf(),
            Self::heap_ok(old(allocator)),
            old(self).alloc_ok(old(allocator)),
            virtual_page_num < Self::vpn_limit(),
            physical_page_num < Self::ppn_limit(),
            Self::leaf_protection(protection),
            old(allocator).spec_free_pages() >= old(self).nodes_needed(virtual_page_num),
        ensures
            final(self).inv(),
            final(allocator).wf(),
            Self::heap_ok(final(allocator)),
            final(self).alloc_ok(final(allocator)),
            final(allocator).heap_start == old(allocator).heap_start,
            final(allocator).heap_end == old(allocator).heap_end,
            final(allocator).spec_free_pages() >= old(allocator).spec_free_pages() - old(
                self,
            ).nodes_needed(virtual_page_num),
            match r {
                Ok(u) => {
                    ||| {
                        &&& old(self).mapping(virtual_page_num) matches Some(pair)
                            && pair.0 == physical_page_num
                        &&& *final(self) == *old(self)
                        &&& *final(allocator) == *old(allocator)
                    }
                    ||| {
                        &&& old(self).mapping(virtual_page_num) is None
                        &&& final(self).mapping(virtual_page_num) == Some(
                            (physical_page_num, protection),
                        )
                        &&& forall|w: u64|
                            w < Self::vpn_limit() && w != virtual_page_num
                                ==> final(self).mapping(w) == old(self).mapping(w)
                    }
                },
                Err(e) => {
                    &&& (old(self).mapping(virtual_page_num) matches Some(pair)
                        && pair.0 != physical_page_num)
                    &&& *final(self) == *old(self)
                    &&& *final(allocator) == *old(allocator)
                },
            },
    ;

    /// Resolves a virtual address to the physical address the scheme
    /// maps it to: the mapped frame's base plus the in-page offset.
    fn find_map(&self, from: VirtualAddr) -> (r: Result<PhysicalAddr, Self::MapError>)
        requires
            self.inv(),
        ensures
            match self.mapping((from.0 / 4096) as u64) {
                Some(pair) => r matches Ok(pa) && pa.0 == pair.0 * 4096 + (from.0 as int % 4096),
                None => r is Err,
            },
    ;
}


/// Every page of `[start_addr, end_addr)` is mapped to itself, with
/// some protection.
pub open spec fn region_identity_mapped<T: VirtualMemoryScheme>(
    table: &T,
    start_addr: u64,
    end_addr: u64,
) -> bool {
    forall|p: u64|
        start_addr / 4096 <= p < (end_addr + 4095) / 4096 ==> ((#[trigger] table.mapping(
            p,
        )) matches Some(pair) && pair.0 == p)
}

/// Maps every page of `[start_addr, end_addr)` to itself, allocating
/// page-table nodes as needed. A page already mapped to itself is
/// tolerated and left as it is; one mapped elsewhere is a conflict.
pub fn identity_map_region<T: VirtualMemoryScheme>(
    allocator: &mut AndyAllocator<4096>,
    table: &mut T,
    start_addr: u64,
    end_addr: u64,
    protection: T::MapProtection,
) -> (r: Result<(), T::MapError>)
    requires
        old(table).inv(),
        old(allocator).wf(),
        T::heap_ok(old(allocator)),
        old(table).alloc_ok(old(allocator)),
        T::leaf_protection(protection),
        start_addr <= end_addr,
        end_addr as int + 4095 <= u64::MAX,
        (end_addr as int + 4095) / 4096 <= T::vpn_limit(),
        T::vpn_limit() <= T::ppn_limit(),
        old(allocator).spec_free_pages() >= 2 * ((end_addr as int + 4095) / 4096 - start_addr as int
            / 4096),
    ensures
        final(table).inv(),
        final(allocator).wf(),
        final(table).alloc_ok(final(allocator)),
        final(allocator).heap_start == old(allocator).heap_start,
        final(allocator).heap_end == old(allocator).heap_end,
        final(allocator).spec_free_pages() >= old(allocator).spec_free_pages() - 2 * ((end_addr
            as int + 4095) / 4096 - start_addr as int / 4096),
        match r {
            Ok(u) => {
                &&& region_identity_mapped(final(table), start_addr, end_addr)
                &&& forall|p: u64|
                    start_addr / 4096 <= p < (end_addr + 4095) / 4096 && old(table).mapping(p)
                        is None ==> final(table).mapping(p) == Some((p, protection))
                &&& forall|w: u64|
                    w < T::vpn_limit() && !(start_addr / 4096 <= w < (end_addr + 4095) / 4096)
                        ==> final(table).mapping(w) == old(table).mapping(w)
            },
            // on a conflict, mapping stopped at the first conflicting
            // page: everything below it is identity-mapped, it and
            // everything else kept their old resolution
            Err(e) => exists|p: u64|
                start_addr / 4096 <= p < (end_addr + 4095) / 4096 && ((#[trigger] old(
                    table,
                ).mapping(p)) matches Some(pair) && pair.0 != p) && final(table).mapping(p) == old(
                    table,
                ).mapping(p) && (forall|q: u64|
                    start_addr / 4096 <= q < p ==> ((#[trigger] final(table).mapping(
                        q,
                    )) matches Some(pair2) && pair2.0 == q)) && (forall|w: u64|
                    w < T::vpn_limit() && !(start_addr / 4096 <= w < p) ==> final(table).mapping(w)
                        == old(table).mapping(w)),
        },
{
    let start_page: u64 = start_addr / 4096;
    let end_page: u64 = (end_addr + 4095) / 4096;
    let mut page: u64 = start_page;
    while page < end_page
        invariant
            table.inv(),
            allocator.wf(),
            T::heap_ok(allocator),
            table.alloc_ok(allocator),
            T::leaf_protection(protection),
            T::vpn_limit() <= T::ppn_limit(),
            start_page == start_addr / 4096,
            end_page == (end_addr as int + 4095) / 4096,
            end_page <= T::vpn_limit(),
            start_page <= page <= end_page,
            allocator.heap_start == old(allocator).heap_start,
            allocator.heap_end == old(allocator).heap_end,
            allocator.spec_free_pages() >= old(allocator).spec_free_pages() - 2 * (page
                - start_page),
            old(allocator).spec_free_pages() >= 2 * (end_page - start_page),
            forall|p: u64|
                start_page <= p < page ==> ((#[trigger] table.mapping(p)) matches Some(pair)
                    && pair.0 == p),
            forall|p: u64|
                start_page <= p < page && old(table).mapping(p) is None ==> table.mapping(p)
                    == Some((p, protection)),
            forall|w: u64|
                w < T::vpn_limit() && !(start_page <= w < page) ==> table.mapping(w) == old(
                    table,
                ).mapping(w),
        decreases end_page - page,
    {
        proof {
            table.lemma_nodes_needed_bound(page);
        }
        match table.create_mapping(allocator, page, page, protection) {
            Ok(u) => {}
            Err(e) => {
                proof {
                    assert(old(table).mapping(page) matches Some(pair) && pair.0 != page);
                    assert(table.mapping(page) == old(table).mapping(page));
                    assert(forall|q: u64|
                        start_page <= q < page ==> ((#[trigger] table.mapping(q)) matches Some(
                            pair2,
                        ) && pair2.0 == q));
                }
                return Err(e);
            },
        }
        page = page + 1;
    }
    Ok(())
}


/// Every page whose address lies in `[start_addr, end_addr)` (by the
/// page it starts in, as the startup check walks them) resolves to
/// itself.
pub open spec fn region_pages_resolve_identity<T: VirtualMemoryScheme>(
    table: &T,
    start_addr: u64,
    end_addr: u64,
) -> bool {
    forall|p: u64|
        start_addr / 4096 <= p < end_addr / 4096 ==> ((#[trigger] table.mapping(p)) matches Some(
            pair,
        ) && pair.0 == p)
}

/// One-time startup safety net: re-resolves every page of every given
/// region and reports whether each maps to its own address. It never
/// panics; a missing or wrong mapping makes it answer `false`.
pub fn assert_identity_map<T: VirtualMemoryScheme>(table: &T, regions: &Vec<(u64, u64)>) -> (r:
    bool)
    requires
        table.inv(),
        forall|i: int|
            0 <= i < regions@.len() ==> (#[trigger] regions@[i]).1 <= 0x0100_0000_0000_0000,
    ensures
        r == forall|i: int|
            0 <= i < regions@.len() ==> region_pages_resolve_identity(
                table,
                (#[trigger] regions@[i]).0,
                regions@[i].1,
            ),
{
    let mut i: usize = 0;
    while i < regions.len()
        invariant
            table.inv(),
            i <= regions@.len(),
            forall|i2: int|
                0 <= i2 < regions@.len() ==> (#[trigger] regions@[i2]).1 <= 0x0100_0000_0000_0000,
            forall|j: int|
                0 <= j < i ==> region_pages_resolve_identity(
                    table,
                    (#[trigger] regions@[j]).0,
                    regions@[j].1,
                ),
        decreases regions@.len() - i,
    {
        let region = regions[i];
        let start_page: u64 = region.0 / 4096;
        let end_page: u64 = region.1 / 4096;
        let mut page: u64 = start_page;
        while page < end_page
            invariant
                table.inv(),
                i < regions@.len(),
                region == regions@[i as int],
                start_page <= page,
                start_page == region.0 / 4096,
                end_page == region.1 / 4096,
                region.1 <= 0x0100_0000_0000_0000,
                forall|p: u64|
                    start_page <= p < page ==> ((#[trigger] table.mapping(p)) matches Some(pair)
                        && pair.0 == p),
            decreases end_page - page,
        {
            proof {
                vstd::arithmetic::div_mod::lemma_fundamental_div_mod(region.1 as int, 4096);
                vstd::arithmetic::div_mod::lemma_mod_bound(region.1 as int, 4096);
                vstd::arithmetic::mul::lemma_mul_inequality(
                    page as int + 1,
                    region.1 as int / 4096,
                    4096,
                );
            }
            let virt_addr = VirtualAddr(page * 4096);
            proof {
                vstd::arithmetic::div_mod::lemma_fundamental_div_mod_converse(
                    page as int * 4096,
                    4096,
                    page as int,
                    0,
                );
                assert((virt_addr.0 / 4096) as u64 == page);
            }
            match table.find_map(virt_addr) {
                Ok(phys_addr) => {
                    if phys_addr.0 != virt_addr.0 {
                        proof {
                            assert(!((table.mapping(page)) matches Some(pair) && pair.0 == page));
                            assert(!region_pages_resolve_identity(
                                table,
                                regions@[i as int].0,
                                regions@[i as int].1,
                            ));
                        }
                        return false;
                    }
                },
                Err(e) => {
                    proof {
                        assert(table.mapping(page) is None);
                        assert(!region_pages_resolve_identity(
                            table,
                            regions@[i as int].0,
                            regions@[i as int].1,
                        ));
                    }
                    return false;
                },
            }
            page = page + 1;
        }
        i = i + 1;
    }
    true
}

} // verus!
