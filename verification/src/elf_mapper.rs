//! Loading an executable image's segments into a freshly built address
//! space for the four-level paging scheme.
//!
//! The whole image sits in memory as one physical blob, so a segment's
//! on-file bytes occupy a contiguous frame range; each such frame is
//! mapped to its destination virtual page with protection derived from
//! the segment's flags. The tail between file size and memory size
//! must read as zero once mapped: a boundary page that mixes file
//! bytes and zero bytes is cloned into a fresh frame whose tail is
//! zeroed, and every whole page after it is a fresh zeroed frame.
//!
//! Physical memory is modeled as an arena of page frames indexed by
//! frame number; the table under construction is modeled by the leaf
//! mappings it encodes together with its root node's frame. The
//! node-by-node layout of those mappings belongs to the hardware
//! scheme and is produced at activation time, outside this crate.

use crate::elf::ProgramSegment;
use crate::elf::SegmentKind;
use crate::frame_allocator::AndyFrameAllocator;
use vstd::prelude::*;

verus! {

/// Protection derived from a loadable segment's flags: write access
/// adds writability, absence of execute adds no-execute; read is
/// implicit.
#[derive(Clone, Copy, Debug, PartialEq, Eq, Structural)]
pub struct SegmentFlags {
    pub writable: bool,
    pub no_execute: bool,
}

/// The flags a segment's mapping carries.
pub open spec fn spec_segment_flags(seg: ProgramSegment) -> SegmentFlags {
    SegmentFlags { writable: seg.writable, no_execute: !seg.executable }
}

/// Derives the mapping protection of one segment.
pub fn derive_segment_flags(seg: &ProgramSegment) -> (r: SegmentFlags)
    ensures
        r == spec_segment_flags(*seg),
{
    SegmentFlags { writable: seg.writable, no_execute: !seg.executable }
}

/// One leaf mapping of the address space under construction.
#[derive(Clone, Copy, Debug, PartialEq, Eq, Structural)]
pub struct MappingEntry {
    pub vpn: u64,
    pub frame: u64,
    pub flags: SegmentFlags,
}

/// Index of the first entry mapping `vpn`, or `-1`.
pub open spec fn find_vpn(s: Seq<MappingEntry>, vpn: u64) -> int
    decreases s.len(),
{
    if s.len() == 0 {
        -1
    } else if s[0].vpn == vpn {
        0
    } else if find_vpn(s.drop_first(), vpn) < 0 {
        -1
    } else {
        find_vpn(s.drop_first(), vpn) + 1
    }
}

/// What `find_vpn` returns: a position mapping `vpn` with none before
/// it, or `-1` when no entry maps `vpn`.
pub proof fn lemma_find_vpn(s: Seq<MappingEntry>, vpn: u64)
    ensures
        find_vpn(s, vpn) < 0 ==> forall|j: int| 0 <= j < s.len() ==> s[j].vpn != vpn,
        find_vpn(s, vpn) >= 0 ==> {
            &&& 0 <= find_vpn(s, vpn) < s.len()
            &&& s[find_vpn(s, vpn)].vpn == vpn
            &&& forall|j: int| 0 <= j < find_vpn(s, vpn) ==> s[j].vpn != vpn
        },
    decreases s.len(),
{
    if s.len() > 0 && s[0].vpn != vpn {
        lemma_find_vpn(s.drop_first(), vpn);
        assert forall|j: int| 0 <= j < s.len() && find_vpn(s, vpn) < 0 implies s[j].vpn != vpn by {
            if j > 0 {
                assert(s.drop_first()[j - 1] == s[j]);
            }
        }
        if find_vpn(s.drop_first(), vpn) >= 0 {
            assert(s.drop_first()[find_vpn(s.drop_first(), vpn)] == s[find_vpn(s, vpn)]);
            assert forall|j: int| 0 <= j < find_vpn(s, vpn) implies s[j].vpn != vpn by {
                if j > 0 {
                    assert(s.drop_first()[j - 1] == s[j]);
                }
            }
        }
    }
}

/// Appending an entry for a new page leaves every other lookup as it
/// was.
pub proof fn lemma_find_vpn_push(s: Seq<MappingEntry>, vpn: u64, e: MappingEntry)
    requires
        e.vpn != vpn,
    ensures
        find_vpn(s.push(e), vpn) == find_vpn(s, vpn),
    decreases s.len(),
{
    if s.len() == 0 {
        assert(s.push(e)[0] == e);
        assert(s.push(e).drop_first() =~= s);
    } else {
        assert(s.push(e)[0] == s[0]);
        assert(s.push(e).drop_first() =~= s.drop_first().push(e));
        lemma_find_vpn_push(s.drop_first(), vpn, e);
    }
}

/// Replacing the entry at `i` by one for the same page leaves every
/// lookup's position as it was.
pub proof fn lemma_find_vpn_update(s: Seq<MappingEntry>, i: int, e: MappingEntry, vpn: u64)
    requires
        0 <= i < s.len(),
        e.vpn == s[i].vpn,
    ensures
        find_vpn(s.update(i, e), vpn) == find_vpn(s, vpn),
    decreases s.len(),
{
    if s.len() > 0 {
        assert(s.update(i, e)[0] == (if i == 0 {
            e
        } else {
            s[0]
        }));
        if i > 0 {
            assert(s.update(i, e).drop_first() =~= s.drop_first().update(i - 1, e));
            lemma_find_vpn_update(s.drop_first(), i - 1, e, vpn);
        } else {
            assert(s.update(i, e).drop_first() =~= s.drop_first());
        }
    }
}

/// The address space being built for the four-level scheme: the frame
/// of its zeroed root node, and the leaf mappings it encodes, one per
/// mapped virtual page.
pub struct KernelPageTable {
    pub root_frame: u64,
    pub entries: Vec<MappingEntry>,
}

impl KernelPageTable {
    /// No virtual page is mapped twice.
    pub open spec fn wf(&self) -> bool {
        forall|a: int, b: int|
            0 <= a < b < self.entries@.len() ==> (#[trigger] self.entries@[a]).vpn != (
            #[trigger] self.entries@[b]).vpn
    }

    /// Frame and protection the table maps a virtual page to.
    pub open spec fn spec_mapping(&self, vpn: u64) -> Option<(u64, SegmentFlags)> {
        let i = find_vpn(self.entries@, vpn);
        if i < 0 {
            None
        } else {
            Some((self.entries@[i].frame, self.entries@[i].flags))
        }
    }

    /// A table with a root node and no mappings.
    pub fn new_empty(root_frame: u64) -> (r: Self)
        ensures
            r.wf(),
            r.root_frame == root_frame,
            forall|w: u64| r.spec_mapping(w) is None,
    {
        let r = KernelPageTable { root_frame, entries: Vec::new() };
        proof {
            assert forall|w: u64| r.spec_mapping(w) is None by {
                lemma_find_vpn(r.entries@, w);
            }
        }
        r
    }

    /// Looks one virtual page up, as activation-time translation will.
    pub fn translate_page(&self, vpn: u64) -> (r: Option<(u64, SegmentFlags)>)
        ensures
            r == self.spec_mapping(vpn),
    {
        let mut i: usize = 0;
        while i < self.entries.len()
            invariant
                i <= self.entries@.len(),
                forall|j: int| 0 <= j < i ==> (#[trigger] self.entries@[j]).vpn != vpn,
            decreases self.entries@.len() - i,
        {
            let e = self.entries[i];
            if e.vpn == vpn {
                proof {
                    lemma_find_vpn(self.entries@, vpn);
                    if find_vpn(self.entries@, vpn) < 0 {
                        assert(false);
                    }
                    assert(find_vpn(self.entries@, vpn) == i as int);
                }
                return Some((e.frame, e.flags));
            }
            i = i + 1;
        }
        proof {
            lemma_find_vpn(self.entries@, vpn);
            if find_vpn(self.entries@, vpn) >= 0 {
                assert(false);
            }
        }
        None
    }

    /// Creates the mapping `vpn -> frame`. A page that is already
    /// mapped is refused, reporting the frame already there: the
    /// caller decides whether the collision is tolerable.
    pub fn map_to(&mut self, vpn: u64, frame: u64, flags: SegmentFlags) -> (r: Result<(), u64>)
        requires
            old(self).wf(),
        ensures
            final(self).wf(),
            final(self).root_frame == old(self).root_frame,
            match old(self).spec_mapping(vpn) {
                Some(pair) => r == Err::<(), u64>(pair.0) && *final(self) == *old(self),
                None => {
                    &&& r == Ok::<(), u64>(())
                    &&& final(self).spec_mapping(vpn) == Some((frame, flags))
                    &&& forall|w: u64|
                        w != vpn ==> final(self).spec_mapping(w) == old(self).spec_mapping(w)
                },
            },
    {
        match self.translate_page(vpn) {
            Some(pair) => Err(pair.0),
            None => {
                let ghost s0 = self.entries@;
                let e = MappingEntry { vpn, frame, flags };
                self.entries.push(e);
                proof {
                    lemma_find_vpn(s0, vpn);
                    assert forall|j: int| 0 <= j < s0.len() implies s0[j].vpn != vpn by {}
                    lemma_find_vpn(self.entries@, vpn);
                    if find_vpn(self.entries@, vpn) < 0 {
                        assert(self.entries@[s0.len() as int].vpn != vpn);
                        assert(false);
                    }
                    let fi = find_vpn(self.entries@, vpn);
                    assert(self.entries@[fi].vpn == vpn);
                    if fi < s0.len() {
                        assert(self.entries@[fi] == s0[fi]);
                        assert(false);
                    }
                    assert(fi == s0.len());
                    assert forall|w: u64| w != vpn implies final(self).spec_mapping(w) == old(
                        self,
                    ).spec_mapping(w) by {
                        lemma_find_vpn_push(s0, w, e);
                        lemma_find_vpn(s0, w);
                        if find_vpn(s0, w) >= 0 {
                            assert(self.entries@[find_vpn(s0, w)] == s0[find_vpn(s0, w)]);
                        }
                    }
                }
                Ok(())
            },
        }
    }

    /// Replaces the frame an already-mapped page points to: the
    /// unmap-and-map-again step used when a boundary page is cloned.
    pub fn remap(&mut self, vpn: u64, frame: u64, flags: SegmentFlags) -> (r: Result<(), ()>)
        requires
            old(self).wf(),
        ensures
            final(self).wf(),
            final(self).root_frame == old(self).root_frame,
            match old(self).spec_mapping(vpn) {
                Some(pair) => {
                    &&& r == Ok::<(), ()>(())
                    &&& final(self).spec_mapping(vpn) == Some((frame, flags))
                    &&& forall|w: u64|
                        w != vpn ==> final(self).spec_mapping(w) == old(self).spec_mapping(w)
                },
                None => r == Err::<(), ()>(()) && *final(self) == *old(self),
            },
    {
        let ghost s0 = self.entries@;
        let mut i: usize = 0;
        while i < self.entries.len()
            invariant
                *self == *old(self),
                self.wf(),
                self.entries@ == s0,
                i <= s0.len(),
                forall|j: int| 0 <= j < i ==> (#[trigger] s0[j]).vpn != vpn,
            decreases s0.len() - i,
        {
            if self.entries[i].vpn == vpn {
                proof {
                    lemma_find_vpn(s0, vpn);
                    if find_vpn(s0, vpn) < 0 {
                        assert(false);
                    }
                    assert(find_vpn(s0, vpn) == i as int);
                }
                let e = MappingEntry { vpn, frame, flags };
                self.entries[i] = e;
                proof {
                    assert(self.entries@ =~= s0.update(i as int, e));
                    assert forall|a: int, b: int|
                        0 <= a < b < self.entries@.len() implies (#[trigger] self.entries@[a]).vpn
                        != (#[trigger] self.entries@[b]).vpn by {
                        assert(s0[a].vpn != s0[b].vpn);
                    }
                    lemma_find_vpn_update(s0, i as int, e, vpn);
                    assert(final(self).spec_mapping(vpn) == Some((frame, flags)));
                    assert forall|w: u64| w != vpn implies final(self).spec_mapping(w) == old(
                        self,
                    ).spec_mapping(w) by {
                        lemma_find_vpn_update(s0, i as int, e, w);
                        lemma_find_vpn(s0, w);
                        if find_vpn(s0, w) >= 0 {
                            assert(find_vpn(s0, w) != i as int);
                            assert(self.entries@[find_vpn(s0, w)] == s0[find_vpn(s0, w)]);
                        }
                    }
                }
                return Ok(());
            }
            i = i + 1;
        }
        proof {
            lemma_find_vpn(s0, vpn);
            if find_vpn(s0, vpn) >= 0 {
                assert(false);
            }
        }
        Err(())
    }
}


/// One page frame of physical memory with its contents.
#[derive(Debug)]
pub struct FramePage {
    pub frame: u64,
    pub bytes: Vec<u8>,
}

/// Index of the page with frame number `f`, or `-1`.
pub open spec fn find_frame(s: Seq<FramePage>, f: u64) -> int
    decreases s.len(),
{
    if s.len() == 0 {
        -1
    } else if s[0].frame == f {
        0
    } else if find_frame(s.drop_first(), f) < 0 {
        -1
    } else {
        find_frame(s.drop_first(), f) + 1
    }
}

/// What `find_frame` returns: the position of frame `f`, with no
/// earlier occurrence, or `-1` when the frame is absent.
pub proof fn lemma_find_frame(s: Seq<FramePage>, f: u64)
    ensures
        find_frame(s, f) < 0 ==> forall|j: int| 0 <= j < s.len() ==> s[j].frame != f,
        find_frame(s, f) >= 0 ==> {
            &&& 0 <= find_frame(s, f) < s.len()
            &&& s[find_frame(s, f)].frame == f
            &&& forall|j: int| 0 <= j < find_frame(s, f) ==> s[j].frame != f
        },
    decreases s.len(),
{
    if s.len() > 0 && s[0].frame != f {
        lemma_find_frame(s.drop_first(), f);
        assert forall|j: int| 0 <= j < s.len() && find_frame(s, f) < 0 implies s[j].frame != f by {
            if j > 0 {
                assert(s.drop_first()[j - 1] == s[j]);
            }
        }
        if find_frame(s.drop_first(), f) >= 0 {
            assert(s.drop_first()[find_frame(s.drop_first(), f)] == s[find_frame(s, f)]);
            assert forall|j: int| 0 <= j < find_frame(s, f) implies s[j].frame != f by {
                if j > 0 {
                    assert(s.drop_first()[j - 1] == s[j]);
                }
            }
        }
    }
}

/// Appending a page for another frame leaves every other lookup as it
/// was.
pub proof fn lemma_find_frame_push(s: Seq<FramePage>, f: u64, p: FramePage)
    requires
        p.frame != f,
    ensures
        find_frame(s.push(p), f) == find_frame(s, f),
    decreases s.len(),
{
    if s.len() == 0 {
        assert(s.push(p)[0] == p);
        assert(s.push(p).drop_first() =~= s);
    } else {
        assert(s.push(p)[0] == s[0]);
        assert(s.push(p).drop_first() =~= s.drop_first().push(p));
        lemma_find_frame_push(s.drop_first(), f, p);
    }
}

/// Physical memory as the loader sees it: an arena of page frames,
/// each 4096 bytes, indexed by frame number. Only pages the arena
/// holds can be read through a mapping; allocation hands out frame
/// numbers, and only this arena writes through them.
pub struct PhysMemory {
    pub pages: Vec<FramePage>,
}

impl PhysMemory {
    /// Every frame appears once and holds exactly one page of bytes.
    pub open spec fn wf(&self) -> bool {
        &&& forall|a: int, b: int|
            0 <= a < b < self.pages@.len() ==> (#[trigger] self.pages@[a]).frame != (
            #[trigger] self.pages@[b]).frame
        &&& forall|a: int|
            0 <= a < self.pages@.len() ==> (#[trigger] self.pages@[a]).bytes@.len() == 4096
    }

    /// Contents of frame `f`, when the arena holds it.
    pub open spec fn spec_contents(&self, f: u64) -> Option<Seq<u8>> {
        let i = find_frame(self.pages@, f);
        if i < 0 {
            None
        } else {
            Some(self.pages@[i].bytes@)
        }
    }

    /// An empty arena.
    pub fn new() -> (r: Self)
        ensures
            r.wf(),
            forall|f: u64| r.spec_contents(f) is None,
    {
        let r = PhysMemory { pages: Vec::new() };
        proof {
            assert forall|f: u64| r.spec_contents(f) is None by {
                lemma_find_frame(r.pages@, f);
            }
        }
        r
    }

    /// Whether the arena holds frame `f`.
    pub fn contains_frame(&self, f: u64) -> (r: bool)
        ensures
            r == (self.spec_contents(f) is Some),
    {
        match self.lookup(f) {
            Some(i) => true,
            None => false,
        }
    }

    /// Position of frame `f` in the arena.
    fn lookup(&self, f: u64) -> (r: Option<usize>)
        ensures
            match r {
                Some(i) => i < self.pages@.len() && find_frame(self.pages@, f) == i as int
                    && self.pages@[i as int].frame == f,
                None => find_frame(self.pages@, f) < 0,
            },
    {
        let mut i: usize = 0;
        while i < self.pages.len()
            invariant
                i <= self.pages@.len(),
                forall|j: int| 0 <= j < i ==> (#[trigger] self.pages@[j]).frame != f,
            decreases self.pages@.len() - i,
        {
            if self.pages[i].frame == f {
                proof {
                    lemma_find_frame(self.pages@, f);
                    if find_frame(self.pages@, f) < 0 {
                        assert(false);
                    }
                    assert(find_frame(self.pages@, f) == i as int);
                }
                return Some(i);
            }
            i = i + 1;
        }
        proof {
            lemma_find_frame(self.pages@, f);
            if find_frame(self.pages@, f) >= 0 {
                assert(false);
            }
        }
        None
    }

    /// Byte `off` of frame `f`.
    pub fn read_byte(&self, f: u64, off: usize) -> (r: u8)
        requires
            self.wf(),
            self.spec_contents(f) is Some,
            off < 4096,
        ensures
            Some(r) == Some(self.spec_contents(f).unwrap()[off as int]),
    {
        match self.lookup(f) {
            Some(i) => self.pages[i].bytes[off],
            None => vstd::pervasive::unreached(),
        }
    }

    /// Adds a fully zeroed page for a frame the arena does not hold
    /// yet.
    pub fn push_zero_page(&mut self, f: u64)
        requires
            old(self).wf(),
            old(self).spec_contents(f) is None,
        ensures
            final(self).wf(),
            final(self).spec_contents(f) matches Some(c) && c.len() == 4096 && forall|j: int|
                0 <= j < 4096 ==> c[j] == 0,
            forall|g: u64| g != f ==> final(self).spec_contents(g) == old(self).spec_contents(g),
    {
        let ghost s0 = self.pages@;
        let bytes: Vec<u8> = vec![0u8; 4096];
        let page = FramePage { frame: f, bytes };
        self.pages.push(page);
        proof {
            self.lemma_after_push(s0, f, page);
        }
    }

    /// Adds a page for fresh frame `dst` holding the first `keep`
    /// bytes of the page of frame `src` followed by zeros: the clone
    /// used when the boundary between file-backed and zero-fill bytes
    /// falls inside a page, so the original page is never corrupted.
    pub fn push_cloned_page(&mut self, src: u64, dst: u64, keep: usize)
        requires
            old(self).wf(),
            old(self).spec_contents(src) is Some,
            old(self).spec_contents(dst) is None,
            keep <= 4096,
        ensures
            final(self).wf(),
            final(self).spec_contents(dst) matches Some(c) && c.len() == 4096 && forall|j: int|
                0 <= j < 4096 ==> c[j] == (if j < keep {
                    old(self).spec_contents(src).unwrap()[j]
                } else {
                    0
                }),
            forall|g: u64| g != dst ==> final(self).spec_contents(g) == old(self).spec_contents(g),
    {
        let ghost s0 = self.pages@;
        let src_idx = match self.lookup(src) {
            Some(i) => i,
            None => {
                return vstd::pervasive::unreached();
            },
        };
        let mut bytes: Vec<u8> = Vec::new();
        let mut j: usize = 0;
        while j < keep
            invariant
                *self == *old(self),
                self.wf(),
                src_idx < self.pages@.len(),
                find_frame(self.pages@, src) == src_idx as int,
                self.pages@[src_idx as int].frame == src,
                j <= keep <= 4096,
                bytes@.len() == j,
                forall|k: int|
                    0 <= k < j ==> bytes@[k] == self.pages@[src_idx as int].bytes@[k],
            decreases keep - j,
        {
            let b = self.pages[src_idx].bytes[j];
            bytes.push(b);
            j = j + 1;
        }
        while j < 4096
            invariant
                *self == *old(self),
                self.wf(),
                src_idx < self.pages@.len(),
                find_frame(self.pages@, src) == src_idx as int,
                keep <= j <= 4096,
                bytes@.len() == j,
                forall|k: int|
                    0 <= k < j ==> bytes@[k] == (if k < keep {
                        self.pages@[src_idx as int].bytes@[k]
                    } else {
                        0
                    }),
            decreases 4096 - j,
        {
            bytes.push(0);
            j = j + 1;
        }
        let page = FramePage { frame: dst, bytes };
        self.pages.push(page);
        proof {
            self.lemma_after_push(s0, dst, page);
        }
    }

    /// After pushing a page for a fresh frame, that frame reads as the
    /// pushed bytes and every other frame as before.
    proof fn lemma_after_push(&self, s0: Seq<FramePage>, f: u64, page: FramePage)
        requires
            self.pages@ == s0.push(page),
            page.frame == f,
            page.bytes@.len() == 4096,
            find_frame(s0, f) < 0,
            forall|a: int, b: int|
                0 <= a < b < s0.len() ==> (#[trigger] s0[a]).frame != (#[trigger] s0[b]).frame,
            forall|a: int| 0 <= a < s0.len() ==> (#[trigger] s0[a]).bytes@.len() == 4096,
        ensures
            self.wf(),
            self.spec_contents(f) == Some(page.bytes@),
            forall|g: u64| g != f ==> self.spec_contents(g) == (if find_frame(s0, g) < 0 {
                None::<Seq<u8>>
            } else {
                Some(s0[find_frame(s0, g)].bytes@)
            }),
    {
        lemma_find_frame(s0, f);
        lemma_find_frame(self.pages@, f);
        assert forall|a: int, b: int|
            0 <= a < b < self.pages@.len() implies (#[trigger] self.pages@[a]).frame != (
        #[trigger] self.pages@[b]).frame by {
            if b < s0.len() {
                assert(s0[a].frame != s0[b].frame);
            } else {
                assert(self.pages@[b] == page);
                assert(self.pages@[a] == s0[a]);
            }
        }
        if find_frame(self.pages@, f) < 0 {
            assert(self.pages@[s0.len() as int].frame == f);
            assert(false);
        }
        let fi = find_frame(self.pages@, f);
        assert(self.pages@[fi].frame == f);
        if fi < s0.len() {
            assert(self.pages@[fi] == s0[fi]);
            assert(false);
        }
        assert forall|g: u64| g != f implies self.spec_contents(g) == (if find_frame(s0, g) < 0 {
            None::<Seq<u8>>
        } else {
            Some(s0[find_frame(s0, g)].bytes@)
        }) by {
            lemma_find_frame_push(s0, g, page);
            lemma_find_frame(s0, g);
            if find_frame(s0, g) >= 0 {
                assert(self.pages@[find_frame(s0, g)] == s0[find_frame(s0, g)]);
            }
        }
    }
}

/// The byte a virtual address reads through a table and the arena: the
/// mapped frame's page, at the in-page offset.
pub open spec fn spec_mem_read(t: &KernelPageTable, m: &PhysMemory, addr: u64) -> Option<u8> {
    match t.spec_mapping((addr / 4096) as u64) {
        Some(pair) => match m.spec_contents(pair.0) {
            Some(c) => Some(c[addr as int % 4096]),
            None => None,
        },
        None => None,
    }
}

/// Reads one byte through the built address space, as the image will
/// once translation is active.
pub fn mem_read(t: &KernelPageTable, m: &PhysMemory, addr: u64) -> (r: Option<u8>)
    requires
        m.wf(),
    ensures
        r == spec_mem_read(t, m, addr),
{
    match t.translate_page(addr / 4096) {
        Some(pair) => {
            if m.contains_frame(pair.0) {
                Some(m.read_byte(pair.0, (addr % 4096) as usize))
            } else {
                None
            }
        },
        None => None,
    }
}


/// What loading an image can fail with.
#[derive(Clone, Copy, Debug, PartialEq, Eq, Structural)]
pub enum ElfMapError {
    /// The frame allocator ran out of usable frames.
    OutOfFrames,
    /// A page would have been mapped over an existing mapping to a
    /// different frame; both frame numbers are reported.
    MappingConflict { vpn: u64, attempted: u64, already_there: u64 },
    /// A segment kind the loader does not support.
    UnsupportedSegmentType(SegmentKind),
}

/// Frames the allocator may still hand out collide with nothing: they
/// are absent from the arena and no virtual page is mapped to them.
pub open spec fn fresh_frames_ok(
    a: &AndyFrameAllocator,
    t: &KernelPageTable,
    m: &PhysMemory,
) -> bool {
    &&& forall|f: u64| a.may_yield(f as int) ==> (#[trigger] m.spec_contents(f)) is None
    &&& forall|w: u64|
        #[trigger] t.spec_mapping(w) matches Some(pair) ==> !a.may_yield(pair.0 as int)
}

/// An address not at a page boundary shares its page with its
/// predecessor.
pub proof fn lemma_same_page(x: int)
    requires
        x % 4096 != 0,
        x >= 1,
    ensures
        x / 4096 == (x - 1) / 4096,
{
    vstd::arithmetic::div_mod::lemma_fundamental_div_mod(x, 4096);
    vstd::arithmetic::div_mod::lemma_mod_bound(x, 4096);
    vstd::arithmetic::div_mod::lemma_fundamental_div_mod_converse(
        x - 1,
        4096,
        x / 4096,
        x % 4096 - 1,
    );
}

/// Stepping one whole page forward raises the page index by one.
pub proof fn lemma_next_page(y: int)
    requires
        y >= 0,
    ensures
        (y + 4096) / 4096 == y / 4096 + 1,
{
    vstd::arithmetic::div_mod::lemma_fundamental_div_mod(y, 4096);
    vstd::arithmetic::div_mod::lemma_mod_bound(y, 4096);
    vstd::arithmetic::div_mod::lemma_fundamental_div_mod_converse(
        y + 4096,
        4096,
        y / 4096 + 1,
        y % 4096,
    );
}

/// Just below a page boundary lies the previous page.
pub proof fn lemma_prev_of_aligned(x: int)
    requires
        x % 4096 == 0,
        x >= 1,
    ensures
        (x - 1) / 4096 == x / 4096 - 1,
{
    vstd::arithmetic::div_mod::lemma_fundamental_div_mod(x, 4096);
    vstd::arithmetic::div_mod::lemma_fundamental_div_mod_converse(
        x - 1,
        4096,
        x / 4096 - 1,
        4095,
    );
}

/// Splitting an address into a base and an offset splits its page and
/// in-page position accordingly.
pub proof fn lemma_split_addr(a: int, o: int)
    requires
        a >= 0,
        o >= 0,
    ensures
        (a + o) / 4096 == a / 4096 + (a % 4096 + o) / 4096,
        (a + o) % 4096 == (a % 4096 + o) % 4096,
{
    vstd::arithmetic::div_mod::lemma_fundamental_div_mod(a, 4096);
    vstd::arithmetic::div_mod::lemma_mod_bound(a, 4096);
    vstd::arithmetic::div_mod::lemma_fundamental_div_mod(a % 4096 + o, 4096);
    vstd::arithmetic::div_mod::lemma_mod_bound(a % 4096 + o, 4096);
    vstd::arithmetic::mul::lemma_mul_is_distributive_add(
        4096,
        a / 4096,
        (a % 4096 + o) / 4096,
    );
    vstd::arithmetic::div_mod::lemma_fundamental_div_mod_converse(
        a + o,
        4096,
        a / 4096 + (a % 4096 + o) / 4096,
        (a % 4096 + o) % 4096,
    );
}

/// Fills `[start, end)` — and the tail of the last page it touches —
/// with zero bytes as read through the table. If the boundary between
/// file-backed and zero-fill bytes falls inside an already-mapped
/// page, that page's frame is cloned into a fresh frame, the clone's
/// tail is zeroed, and the page is remapped onto the clone, so the
/// original frame — possibly shared with the raw file blob — is never
/// written. Every whole page after the boundary is a fresh, fully
/// zeroed frame mapped with the segment's protection.
pub fn elf_fill_zeros(
    start: u64,
    end: u64,
    segment_flags: SegmentFlags,
    kernel_page_table: &mut KernelPageTable,
    frame_allocator: &mut AndyFrameAllocator,
    memory: &mut PhysMemory,
) -> (r: Result<(), ElfMapError>)
    requires
        old(kernel_page_table).wf(),
        old(frame_allocator).wf(),
        old(memory).wf(),
        fresh_frames_ok(old(frame_allocator), old(kernel_page_table), old(memory)),
        start <= end,
        end as int + 4095 <= u64::MAX,
        start % 4096 != 0 ==> (old(kernel_page_table).spec_mapping((start / 4096) as u64) matches
            Some(pair) && pair.1 == segment_flags && old(memory).spec_contents(pair.0) is Some),
        forall|p: u64|
            (start + 4095) / 4096 <= p < (end + 4095) / 4096
                ==> (#[trigger] old(kernel_page_table).spec_mapping(p)) is None,
    ensures
        final(kernel_page_table).wf(),
        final(frame_allocator).wf(),
        final(memory).wf(),
        fresh_frames_ok(final(frame_allocator), final(kernel_page_table), final(memory)),
        final(frame_allocator).memory_map == old(frame_allocator).memory_map,
        forall|g: u64|
            old(memory).spec_contents(g) is Some ==> final(memory).spec_contents(g) == old(
                memory,
            ).spec_contents(g),
        forall|w: u64|
            !(start / 4096 <= w < (end + 4095) / 4096) ==> final(kernel_page_table).spec_mapping(w)
                == old(kernel_page_table).spec_mapping(w),
        forall|g: int|
            final(frame_allocator).may_yield(g) ==> old(frame_allocator).may_yield(g),
        final(kernel_page_table).root_frame == old(kernel_page_table).root_frame,
        match r {
            Ok(u) => {
                &&& forall|a: u64|
                    start <= a && a / 4096 < (end + 4095) / 4096 ==> spec_mem_read(
                        final(kernel_page_table),
                        final(memory),
                        a,
                    ) == Some(0u8)
                &&& forall|a: u64|
                    a < start ==> spec_mem_read(final(kernel_page_table), final(memory), a)
                        == spec_mem_read(old(kernel_page_table), old(memory), a)
                &&& forall|p: u64|
                    start / 4096 <= p < (end + 4095) / 4096
                        ==> ((#[trigger] final(kernel_page_table).spec_mapping(p)) matches Some(
                        pair,
                    ) && pair.1 == segment_flags)
                // each touched page sits on its own fresh frame: taken
                // from the allocator during this call, absent from the
                // arena before it, and never shared between two pages
                &&& forall|p: u64|
                    start / 4096 <= p < (end + 4095) / 4096
                        ==> ((#[trigger] final(kernel_page_table).spec_mapping(p)) matches Some(
                        pair,
                    ) && old(frame_allocator).may_yield(pair.0 as int)
                        && !final(frame_allocator).may_yield(pair.0 as int)
                        && old(memory).spec_contents(pair.0) is None)
                &&& forall|p: u64, q: u64|
                    start / 4096 <= p < q < (end + 4095) / 4096
                        ==> final(kernel_page_table).spec_mapping(p).unwrap().0
                        != final(kernel_page_table).spec_mapping(q).unwrap().0
            },
            Err(e) => e == ElfMapError::OutOfFrames && forall|g: int|
                !final(frame_allocator).may_yield(g),
        },
{
    let ghost t0 = *old(kernel_page_table);
    let ghost m0 = *old(memory);
    if start % 4096 != 0 {
        // duplicate the boundary page and zero its remaining bytes
        let last_page: u64 = start / 4096;
        let (frame, flags) = match kernel_page_table.translate_page(last_page) {
            Some(pair) => pair,
            None => {
                return vstd::pervasive::unreached();
            },
        };
        let new_frame: u64 = match frame_allocator.allocate_frame() {
            Some(f) => f,
            None => {
                return Err(ElfMapError::OutOfFrames);
            },
        };
        let bytes_before_zeros: u64 = start % 4096;
        memory.push_cloned_page(frame, new_frame, bytes_before_zeros as usize);
        match kernel_page_table.remap(last_page, new_frame, flags) {
            Ok(u) => {}
            Err(e) => {
                return vstd::pervasive::unreached();
            },
        }
        proof {
            vstd::arithmetic::div_mod::lemma_fundamental_div_mod(start as int, 4096);
            vstd::arithmetic::div_mod::lemma_mod_bound(start as int, 4096);
            assert forall|a: u64| a < start implies spec_mem_read(
                kernel_page_table,
                memory,
                a,
            ) == spec_mem_read(&t0, &m0, a) by {
                vstd::arithmetic::div_mod::lemma_fundamental_div_mod(a as int, 4096);
                vstd::arithmetic::div_mod::lemma_mod_bound(a as int, 4096);
                if a as int / 4096 == last_page {
                    assert(a as int % 4096 < bytes_before_zeros);
                    assert(memory.spec_contents(new_frame) matches Some(c) && c[a as int % 4096]
                        == m0.spec_contents(frame).unwrap()[a as int % 4096]);
                } else {
                    assert(kernel_page_table.spec_mapping((a / 4096) as u64) == t0.spec_mapping(
                        (a / 4096) as u64,
                    ));
                    if t0.spec_mapping((a / 4096) as u64) is Some {
                        let pair = t0.spec_mapping((a / 4096) as u64).unwrap();
                        if m0.spec_contents(pair.0) is Some {
                            assert(memory.spec_contents(pair.0) == m0.spec_contents(pair.0));
                        }
                    }
                }
            }
            assert forall|a: u64| start <= a && a as int / 4096 == last_page implies spec_mem_read(
                kernel_page_table,
                memory,
                a,
            ) == Some(0u8) by {
                vstd::arithmetic::div_mod::lemma_fundamental_div_mod(a as int, 4096);
                vstd::arithmetic::div_mod::lemma_mod_bound(a as int, 4096);
                assert(a as int % 4096 >= bytes_before_zeros);
            }
            // the clone sits on a fresh frame of its own
            assert(old(frame_allocator).may_yield(new_frame as int));
            assert(old(memory).spec_contents(new_frame) is None);
            assert(kernel_page_table.spec_mapping(last_page) == Some((new_frame, flags)));
        }
    }
    let mut page: u64 = (start + 4095) / 4096;
    let ghost t1 = *kernel_page_table;
    let ghost m1 = *memory;
    proof {
        vstd::arithmetic::div_mod::lemma_fundamental_div_mod(start as int, 4096);
        vstd::arithmetic::div_mod::lemma_mod_bound(start as int, 4096);
        vstd::arithmetic::div_mod::lemma_fundamental_div_mod(start as int + 4095, 4096);
        vstd::arithmetic::div_mod::lemma_mod_bound(start as int + 4095, 4096);
        if start % 4096 == 0 {
            assert(page == start / 4096) by {
                vstd::arithmetic::div_mod::lemma_fundamental_div_mod_converse(
                    start as int + 4095,
                    4096,
                    start as int / 4096,
                    4095,
                );
            }
        } else {
            assert(page == start / 4096 + 1) by {
                vstd::arithmetic::div_mod::lemma_fundamental_div_mod_converse(
                    start as int + 4095,
                    4096,
                    start as int / 4096 + 1,
                    start as int % 4096 - 1,
                );
            }
        }
    }
    let end_pages: u64 = (end + 4095) / 4096;
    while page < end_pages
        invariant
            kernel_page_table.wf(),
            frame_allocator.wf(),
            memory.wf(),
            fresh_frames_ok(frame_allocator, kernel_page_table, memory),
            frame_allocator.memory_map == old(frame_allocator).memory_map,
            t0 == *old(kernel_page_table),
            m0 == *old(memory),
            start <= end,
            end as int + 4095 <= u64::MAX,
            end_pages == (end + 4095) / 4096,
            (start + 4095) / 4096 <= page,
            page <= end_pages || page == (start + 4095) / 4096,
            forall|p: u64|
                page <= p < end_pages ==> (#[trigger] kernel_page_table.spec_mapping(p)) is None,
            forall|g: u64|
                m1.spec_contents(g) is Some ==> memory.spec_contents(g) == m1.spec_contents(g),
            forall|g: u64|
                m0.spec_contents(g) is Some ==> memory.spec_contents(g) == m0.spec_contents(g),
            forall|w: u64|
                !(start / 4096 <= w < page) ==> kernel_page_table.spec_mapping(w)
                    == t1.spec_mapping(w),
            forall|w: u64|
                !(start / 4096 <= w < end_pages) ==> kernel_page_table.spec_mapping(w)
                    == t0.spec_mapping(w),
            forall|a: u64|
                start <= a && a / 4096 < page ==> spec_mem_read(kernel_page_table, memory, a)
                    == Some(0u8),
            forall|a: u64|
                a < start ==> spec_mem_read(kernel_page_table, memory, a) == spec_mem_read(
                    &t0,
                    &m0,
                    a,
                ),
            forall|p: u64|
                start / 4096 <= p < page ==> ((#[trigger] kernel_page_table.spec_mapping(
                    p,
                )) matches Some(pair) && pair.1 == segment_flags),
            fresh_frames_ok(old(frame_allocator), old(kernel_page_table), old(memory)),
            kernel_page_table.root_frame == old(kernel_page_table).root_frame,
            forall|g: int|
                frame_allocator.may_yield(g) ==> old(frame_allocator).may_yield(g),
            forall|p: u64|
                start / 4096 <= p < page ==> ((#[trigger] kernel_page_table.spec_mapping(
                    p,
                )) matches Some(pair) && old(frame_allocator).may_yield(pair.0 as int)
                    && !frame_allocator.may_yield(pair.0 as int) && m0.spec_contents(pair.0)
                    is None && (pair.0 as int) < frame_allocator.next_frame),
            forall|p: u64, q: u64|
                start / 4096 <= p < q < page ==> kernel_page_table.spec_mapping(p).unwrap().0
                    != kernel_page_table.spec_mapping(q).unwrap().0,
        decreases end_pages - page,
    {
        let ghost fa_pre = *frame_allocator;
        let frame: u64 = match frame_allocator.allocate_frame() {
            Some(f) => f,
            None => {
                return Err(ElfMapError::OutOfFrames);
            },
        };
        let ghost t_pre = *kernel_page_table;
        let ghost m_pre = *memory;
        memory.push_zero_page(frame);
        match kernel_page_table.map_to(page, frame, segment_flags) {
            Ok(u) => {}
            Err(e) => {
                return vstd::pervasive::unreached();
            },
        }
        proof {
            assert forall|a: u64| start <= a && a as int / 4096 <= page implies spec_mem_read(
                kernel_page_table,
                memory,
                a,
            ) == Some(0u8) by {
                vstd::arithmetic::div_mod::lemma_fundamental_div_mod(a as int, 4096);
                vstd::arithmetic::div_mod::lemma_mod_bound(a as int, 4096);
                if a as int / 4096 == page {
                } else {
                    assert(spec_mem_read(&t_pre, &m_pre, a) == Some(0u8));
                    assert(kernel_page_table.spec_mapping((a / 4096) as u64) == t_pre.spec_mapping(
                        (a / 4096) as u64,
                    ));
                    if t_pre.spec_mapping((a / 4096) as u64) is Some {
                        let pair = t_pre.spec_mapping((a / 4096) as u64).unwrap();
                        assert(pair.0 != frame);
                        assert(memory.spec_contents(pair.0) == m_pre.spec_contents(pair.0));
                    }
                }
            }
            assert forall|a: u64| a < start implies spec_mem_read(kernel_page_table, memory, a)
                == spec_mem_read(&t0, &m0, a) by {
                vstd::arithmetic::div_mod::lemma_fundamental_div_mod(a as int, 4096);
                vstd::arithmetic::div_mod::lemma_mod_bound(a as int, 4096);
                assert(spec_mem_read(&t_pre, &m_pre, a) == spec_mem_read(&t0, &m0, a));
                assert((a / 4096) as u64 != page);
                assert(kernel_page_table.spec_mapping((a / 4096) as u64) == t_pre.spec_mapping(
                    (a / 4096) as u64,
                ));
                if t_pre.spec_mapping((a / 4096) as u64) is Some {
                    let pair = t_pre.spec_mapping((a / 4096) as u64).unwrap();
                    assert(pair.0 != frame);
                    assert(memory.spec_contents(pair.0) == m_pre.spec_contents(pair.0));
                }
            }
            assert(old(memory).spec_contents(frame) is None);
            assert forall|p: u64| start / 4096 <= p < page + 1 implies ((
            #[trigger] kernel_page_table.spec_mapping(p)) matches Some(pair) && old(
                frame_allocator,
            ).may_yield(pair.0 as int) && !frame_allocator.may_yield(pair.0 as int)
                && m0.spec_contents(pair.0) is None && (pair.0 as int)
                < frame_allocator.next_frame) by {
                if p == page {
                    assert(kernel_page_table.spec_mapping(p) == Some((frame, segment_flags)));
                    assert(fa_pre.may_yield(frame as int));
                } else {
                    assert(kernel_page_table.spec_mapping(p) == t_pre.spec_mapping(p));
                }
            }
            assert forall|p: u64, q: u64|
                start / 4096 <= p < q < page + 1 implies kernel_page_table.spec_mapping(
                p,
            ).unwrap().0 != kernel_page_table.spec_mapping(q).unwrap().0 by {
                assert(kernel_page_table.spec_mapping(p) == t_pre.spec_mapping(p));
                if q == page {
                    assert((t_pre.spec_mapping(p).unwrap().0 as int) < fa_pre.next_frame);
                } else {
                    assert(kernel_page_table.spec_mapping(q) == t_pre.spec_mapping(q));
                }
            }
        }
        page = page + 1;
    }
    Ok(())
}


/// The page range a segment's in-memory image occupies.
pub open spec fn spec_target_first(seg: ProgramSegment) -> int {
    seg.virtual_addr as int / 4096
}

/// One past the last page of the segment's in-memory image.
pub open spec fn spec_target_end(seg: ProgramSegment) -> int {
    (seg.virtual_addr + seg.mem_size + 4095) / 4096
}

/// What a well-formed loadable segment looks like to the mapper, for
/// an image blob sitting at `kernel_offset`: the format's alignment
/// precondition (virtual address and file offset congruent modulo the
/// header's own alignment, and modulo the page size, which the
/// frame-granular mapping needs), sizes that fit the address space, a
/// file range whose frames the arena holds, and — when there are no
/// file-backed bytes — a page-aligned start, so no boundary page
/// exists.
pub open spec fn spec_load_segment_ok(
    kernel_offset: u64,
    seg: ProgramSegment,
    m: &PhysMemory,
) -> bool {
    &&& seg.align != 0 ==> seg.virtual_addr as int % seg.align as int == seg.offset as int
        % seg.align as int
    &&& (kernel_offset + seg.offset) % 4096 == seg.virtual_addr as int % 4096
    &&& seg.file_size <= seg.mem_size
    &&& kernel_offset + seg.offset + seg.mem_size + 4095 <= u64::MAX
    &&& seg.virtual_addr + seg.mem_size + 4095 <= u64::MAX
    &&& seg.file_size == 0 ==> seg.virtual_addr % 4096 == 0
    &&& forall|f: u64|
        (kernel_offset + seg.offset) / 4096 <= f <= (kernel_offset + seg.offset + seg.file_size
            - 1) / 4096 && seg.file_size > 0 ==> (#[trigger] m.spec_contents(f)) is Some
}

/// Index of the last file-backed target page of a segment with
/// file-backed bytes.
pub open spec fn spec_file_last(seg: ProgramSegment) -> int {
    seg.virtual_addr as int / 4096 + (seg.virtual_addr as int % 4096 + seg.file_size - 1) / 4096
}

/// The blob frame that backs target page `p` of the segment.
pub open spec fn spec_seg_frame(kernel_offset: u64, seg: ProgramSegment, p: u64) -> int {
    (kernel_offset + seg.offset) / 4096 + (p - seg.virtual_addr as int / 4096)
}

/// The boundary between file bytes and zero fill falls inside a page:
/// that page's frame is cloned, so it must be the segment's own.
pub open spec fn spec_has_tail_boundary(seg: ProgramSegment) -> bool {
    seg.file_size < seg.mem_size && (seg.virtual_addr + seg.file_size) % 4096 != 0
}

/// Every page of the segment's range is either still unmapped or — for
/// a file-backed page — already mapped to the very frame this segment
/// backs it with: segments may share a page. A shared page keeps the
/// protection of whoever mapped it first; only the page where the
/// segment's zero-fill tail begins must already carry the segment's
/// own protection, because its clone is remapped with it.
pub open spec fn spec_target_pages_ok(
    kernel_offset: u64,
    seg: ProgramSegment,
    t: &KernelPageTable,
) -> bool {
    forall|p: u64|
        spec_target_first(seg) <= p < spec_target_end(seg) ==> ((#[trigger] t.spec_mapping(p))
            is None || (t.spec_mapping(p) matches Some(pair) && seg.file_size > 0 && p
            <= spec_file_last(seg) && pair.0 == spec_seg_frame(kernel_offset, seg, p) && (
        spec_has_tail_boundary(seg) && p == spec_file_last(seg) ==> pair.1 == spec_segment_flags(
            seg,
        ))))
}

/// The byte of the raw image blob that backs offset `o` of the
/// segment's file range.
pub open spec fn spec_file_byte(
    kernel_offset: u64,
    seg: ProgramSegment,
    m: &PhysMemory,
    o: int,
) -> Option<u8> {
    let a = kernel_offset + seg.offset + o;
    match m.spec_contents((a / 4096) as u64) {
        Some(c) => Some(c[a % 4096]),
        None => None,
    }
}

/// Maps one loadable segment: every frame backing its on-file bytes is
/// mapped to its destination page with the protection derived from the
/// segment's flags, and the tail up to the memory size is zero-filled.
/// Afterwards the segment's file bytes read back unchanged through the
/// new address space, its tail reads as zero, and every page of its
/// range carries the derived protection.
#[verifier::rlimit(100)]
pub fn handle_load_segment(
    kernel_addr: u64,
    segment: &ProgramSegment,
    kernel_page_table: &mut KernelPageTable,
    frame_allocator: &mut AndyFrameAllocator,
    memory: &mut PhysMemory,
) -> (r: Result<(), ElfMapError>)
    requires
        old(kernel_page_table).wf(),
        old(frame_allocator).wf(),
        old(memory).wf(),
        fresh_frames_ok(old(frame_allocator), old(kernel_page_table), old(memory)),
        segment.kind == SegmentKind::Load,
        kernel_addr % 4096 == 0,
        spec_load_segment_ok(kernel_addr, *segment, old(memory)),
        spec_target_pages_ok(kernel_addr, *segment, old(kernel_page_table)),
    ensures
        final(kernel_page_table).wf(),
        final(frame_allocator).wf(),
        final(memory).wf(),
        fresh_frames_ok(final(frame_allocator), final(kernel_page_table), final(memory)),
        final(frame_allocator).memory_map == old(frame_allocator).memory_map,
        forall|g: u64|
            old(memory).spec_contents(g) is Some ==> final(memory).spec_contents(g) == old(
                memory,
            ).spec_contents(g),
        forall|w: u64|
            !(spec_target_first(*segment) <= w < spec_target_end(*segment))
                ==> final(kernel_page_table).spec_mapping(w) == old(
                kernel_page_table,
            ).spec_mapping(w),
        forall|g: int|
            final(frame_allocator).may_yield(g) ==> old(frame_allocator).may_yield(g),
        final(kernel_page_table).root_frame == old(kernel_page_table).root_frame,
        segment.file_size == segment.mem_size ==> *final(frame_allocator) == *old(frame_allocator)
            && *final(memory) == *old(memory),
        match r {
            Ok(u) => {
                &&& forall|o: int|
                    0 <= o < segment.file_size ==> #[trigger] spec_mem_read(
                        final(kernel_page_table),
                        final(memory),
                        (segment.virtual_addr + o) as u64,
                    ) == spec_file_byte(kernel_addr, *segment, old(memory), o)
                &&& forall|o: int|
                    segment.file_size <= o < segment.mem_size ==> #[trigger] spec_mem_read(
                        final(kernel_page_table),
                        final(memory),
                        (segment.virtual_addr + o) as u64,
                    ) == Some(0u8)
                // every page of the range is mapped; a page this call
                // wrote carries the derived protection, a page shared
                // with an earlier segment keeps what it had
                &&& forall|p: u64|
                    segment.mem_size > 0 && spec_target_first(*segment) <= p < (segment.virtual_addr
                        + segment.mem_size + 4095) / 4096
                        ==> ((#[trigger] final(kernel_page_table).spec_mapping(p)) matches Some(
                        pair,
                    ) && (pair.1 == spec_segment_flags(*segment)
                        || final(kernel_page_table).spec_mapping(p) == old(
                        kernel_page_table,
                    ).spec_mapping(p)))
                // each file-backed page, except a cloned boundary
                // page, maps to its own frame of the blob
                &&& forall|p: u64|
                    segment.file_size > 0 && spec_target_first(*segment) <= p <= spec_file_last(
                        *segment,
                    ) && !(spec_has_tail_boundary(*segment) && p == spec_file_last(*segment))
                        ==> ((#[trigger] final(kernel_page_table).spec_mapping(p)) matches Some(
                        pair,
                    ) && pair.0 == spec_seg_frame(kernel_addr, *segment, p))
            },
            Err(e) => e == ElfMapError::OutOfFrames && forall|g: int|
                !final(frame_allocator).may_yield(g),
        },
{
    let ghost t0 = *old(kernel_page_table);
    let ghost m0 = *old(memory);
    let ghost va = segment.virtual_addr as int;
    let ghost fs = segment.file_size as int;
    let ghost ms = segment.mem_size as int;
    let ghost segstart = kernel_addr as int + segment.offset as int;
    let ghost sf = segstart / 4096;
    let ghost tsp = va / 4096;
    let segment_flags = derive_segment_flags(segment);
    let target_start_page: u64 = segment.virtual_addr / 4096;
    if segment.file_size > 0 {
        let segment_start: u64 = kernel_addr + segment.offset;
        let segment_end: u64 = segment_start + segment.file_size;
        let start_frame: u64 = segment_start / 4096;
        let end_frame: u64 = (segment_end - 1) / 4096;
        proof {
            vstd::arithmetic::div_mod::lemma_div_is_ordered(
                segment_start as int,
                segment_end as int - 1,
                4096,
            );
            lemma_split_addr(segstart, fs - 1);
            lemma_split_addr(va, fs - 1);
            lemma_split_addr(va, ms - 1);
            lemma_next_page(va + ms - 1);
            vstd::arithmetic::div_mod::lemma_div_is_ordered(
                va % 4096 + fs - 1,
                va % 4096 + ms - 1,
                4096,
            );
            vstd::arithmetic::div_mod::lemma_fundamental_div_mod(va, 4096);
            vstd::arithmetic::div_mod::lemma_mod_bound(va, 4096);
        }
        let mut k: u64 = 0;
        while k <= end_frame - start_frame
            invariant
                kernel_page_table.wf(),
                frame_allocator.wf(),
                memory.wf(),
                *frame_allocator == *old(frame_allocator),
                *memory == *old(memory),
                t0 == *old(kernel_page_table),
                m0 == *old(memory),
                fresh_frames_ok(frame_allocator, kernel_page_table, memory),
                segment_start == kernel_addr + segment.offset,
                segment_end == segment_start + segment.file_size,
                segment.file_size > 0,
                start_frame == segment_start / 4096,
                end_frame == (segment_end - 1) / 4096,
                start_frame <= end_frame,
                target_start_page == segment.virtual_addr / 4096,
                spec_load_segment_ok(kernel_addr, *segment, &m0),
                spec_target_pages_ok(kernel_addr, *segment, &t0),
                kernel_page_table.root_frame == t0.root_frame,
                kernel_addr % 4096 == 0,
                k <= end_frame - start_frame + 1,
                target_start_page + (end_frame - start_frame) == spec_file_last(*segment),
                spec_file_last(*segment) < spec_target_end(*segment),
                forall|j: u64|
                    j < k ==> ((#[trigger] kernel_page_table.spec_mapping(
                        (target_start_page + j) as u64,
                    )) matches Some(pair) && pair.0 == start_frame + j && (pair.1 == segment_flags
                        || kernel_page_table.spec_mapping((target_start_page + j) as u64)
                        == t0.spec_mapping((target_start_page + j) as u64))),
                forall|w: u64|
                    !(target_start_page <= w < target_start_page + k)
                        ==> kernel_page_table.spec_mapping(w) == t0.spec_mapping(w),
            decreases end_frame - start_frame + 1 - k,
        {
            let from_frame: u64 = start_frame + k;
            let target_page: u64 = target_start_page + k;
            proof {
                assert(kernel_page_table.spec_mapping(target_page) == t0.spec_mapping(
                    target_page,
                ));
                assert(spec_target_first(*segment) <= target_page < spec_target_end(*segment));
                if t0.spec_mapping(target_page) is Some {
                    assert((#[trigger] t0.spec_mapping(target_page)) matches Some(pair)
                        && pair.0 == spec_seg_frame(kernel_addr, *segment, target_page));
                    assert(spec_seg_frame(kernel_addr, *segment, target_page) == start_frame + k);
                }
            }
            let ghost t_pre = *kernel_page_table;
            match kernel_page_table.map_to(target_page, from_frame, segment_flags) {
                Ok(u) => {}
                Err(already_there_frame) => {
                    if already_there_frame == from_frame {
                        // two segments may share a page that is backed
                        // by the same frame; that is not a conflict
                    } else {
                        proof {
                            assert(false);
                        }
                        return Err(
                            ElfMapError::MappingConflict {
                                vpn: target_page,
                                attempted: from_frame,
                                already_there: already_there_frame,
                            },
                        );
                    }
                },
            }
            proof {
                assert(m0.spec_contents(from_frame) is Some);
                assert forall|w: u64|
                    (#[trigger] kernel_page_table.spec_mapping(w)) is Some
                        implies !frame_allocator.may_yield(
                        kernel_page_table.spec_mapping(w).unwrap().0 as int,
                    ) by {
                    if w == target_page {
                        if frame_allocator.may_yield(from_frame as int) {
                            assert(memory.spec_contents(from_frame) is None);
                        }
                    } else {
                        assert(kernel_page_table.spec_mapping(w) == t_pre.spec_mapping(w));
                    }
                }
            }
            k = k + 1;
        }
    }
    let ghost t1 = *kernel_page_table;
    let segment_filesize: u64 = segment.file_size;
    let segment_mem_size: u64 = segment.mem_size;
    proof {
        // which pages the file-backed loop has filled, and how the
        // segment's page count relates to them
        if fs > 0 {
            lemma_split_addr(segstart, fs - 1);
            lemma_split_addr(va, fs - 1);
        }
    }
    if segment_filesize < segment_mem_size {
        let fill_start: u64 = segment.virtual_addr + segment_filesize;
        let fill_end: u64 = segment.virtual_addr + segment_mem_size;
        proof {
            vstd::arithmetic::div_mod::lemma_fundamental_div_mod(va, 4096);
            vstd::arithmetic::div_mod::lemma_mod_bound(va, 4096);
            if fill_start % 4096 != 0 {
                // the boundary page is the last file-backed page; it
                // was either written by this call's loop or shared and
                // then pinned to the segment's protection by the
                // precondition
                assert(fs > 0);
                lemma_split_addr(va, fs);
                lemma_same_page(va % 4096 + fs);
                let jb = (va % 4096 + fs - 1) / 4096;
                assert((fill_start as int) / 4096 == tsp + jb);
                assert(kernel_page_table.spec_mapping((target_start_page + (jb as u64)) as u64)
                    matches Some(pair) && pair.0 == sf + jb);
                let bp = (fill_start / 4096) as u64;
                assert(bp == (target_start_page + (jb as u64)) as u64);
                if kernel_page_table.spec_mapping(bp) == t0.spec_mapping(bp) {
                    assert(spec_has_tail_boundary(*segment));
                    assert(bp as int == spec_file_last(*segment));
                    assert(spec_target_first(*segment) <= bp < spec_target_end(*segment));
                    assert((#[trigger] t0.spec_mapping(bp)) matches Some(pair) && pair.1
                        == segment_flags);
                }
                assert(kernel_page_table.spec_mapping(bp) matches Some(pair) && pair.1
                    == segment_flags && memory.spec_contents(pair.0) is Some);
            }
            // pages past the boundary were never mapped by the loop,
            // nor may an earlier segment have mapped them
            assert forall|p: u64|
                (fill_start + 4095) / 4096 <= p < (fill_end + 4095) / 4096 implies (
            #[trigger] kernel_page_table.spec_mapping(p)) is None by {
                if fs > 0 {
                    lemma_split_addr(va, fs);
                    lemma_split_addr(va, fs - 1);
                    lemma_next_page(va + fs - 1);
                    assert(p > tsp + (va % 4096 + fs - 1) / 4096);
                    assert(kernel_page_table.spec_mapping(p) == t0.spec_mapping(p));
                    lemma_next_page(va + ms - 1);
                    lemma_split_addr(va, ms - 1);
                    assert(p < spec_target_end(*segment));
                    if t0.spec_mapping(p) is Some {
                        assert(p <= spec_file_last(*segment));
                        assert(false);
                    }
                } else {
                    lemma_next_page(va + ms - 1);
                    assert(p < spec_target_end(*segment));
                    assert(p >= tsp);
                    assert(kernel_page_table.spec_mapping(p) == t0.spec_mapping(p));
                    if t0.spec_mapping(p) is Some {
                        assert(false);
                    }
                }
            }
        }
        let ghost m1 = *memory;
        match elf_fill_zeros(
            fill_start,
            fill_end,
            segment_flags,
            kernel_page_table,
            frame_allocator,
            memory,
        ) {
            Ok(u) => {}
            Err(e) => {
                return Err(e);
            },
        }
        proof {
            vstd::arithmetic::div_mod::lemma_fundamental_div_mod(va, 4096);
            vstd::arithmetic::div_mod::lemma_mod_bound(va, 4096);
            lemma_next_page(va + ms - 1);
            lemma_split_addr(va, ms - 1);
            // the segment's file bytes still read back unchanged
            assert forall|o: int| 0 <= o < fs implies #[trigger] spec_mem_read(
                kernel_page_table,
                memory,
                (va + o) as u64,
            ) == spec_file_byte(kernel_addr, *segment, &m0, o) by {
                lemma_split_addr(va, o);
                lemma_split_addr(segstart, o);
                let jo = (va % 4096 + o) / 4096;
                assert(va + o < fill_start);
                assert(spec_mem_read(kernel_page_table, memory, (va + o) as u64) == spec_mem_read(
                    &t1,
                    &m1,
                    (va + o) as u64,
                ));
                vstd::arithmetic::div_mod::lemma_div_is_ordered(
                    va % 4096 + o,
                    va % 4096 + fs - 1,
                    4096,
                );
                assert(t1.spec_mapping((target_start_page + (jo as u64)) as u64) matches Some(
                    pair,
                ) && pair.0 == sf + jo);
                assert(m1.spec_contents(((sf + jo) as u64)) is Some);
            }
            // the tail reads as zero
            assert forall|o: int| fs <= o < ms implies #[trigger] spec_mem_read(
                kernel_page_table,
                memory,
                (va + o) as u64,
            ) == Some(0u8) by {
                assert(va + o < fill_end);
                vstd::arithmetic::div_mod::lemma_div_is_ordered(va + o, fill_end as int - 1, 4096);
                lemma_next_page(fill_end as int - 1);
            }
            // every page of the range is mapped, with the derived
            // flags unless it was shared and left untouched
            assert forall|p: u64|
                ms > 0 && spec_target_first(*segment) <= p < (va + ms + 4095) / 4096 implies ((
            #[trigger] kernel_page_table.spec_mapping(p)) matches Some(pair) && (pair.1
                == segment_flags || kernel_page_table.spec_mapping(p) == t0.spec_mapping(p))) by {
                if p < fill_start / 4096 {
                    assert(fs > 0);
                    lemma_split_addr(va, fs);
                    lemma_split_addr(va, fs - 1);
                    let j = p - tsp;
                    assert(kernel_page_table.spec_mapping(p) == t1.spec_mapping(p));
                    assert(0 <= j);
                    assert(p < tsp + (va % 4096 + fs) / 4096);
                    vstd::arithmetic::div_mod::lemma_div_is_ordered(
                        va % 4096 + fs - 1,
                        va % 4096 + fs,
                        4096,
                    );
                    if (va % 4096 + fs) % 4096 != 0 {
                        lemma_same_page(va % 4096 + fs);
                    } else {
                        lemma_prev_of_aligned(va % 4096 + fs);
                    }
                    assert(j <= (va % 4096 + fs - 1) / 4096);
                    assert(t1.spec_mapping((target_start_page + (j as u64)) as u64) matches Some(
                        pair,
                    ) && pair.0 == sf + j && (pair.1 == segment_flags || t1.spec_mapping(
                        (target_start_page + (j as u64)) as u64,
                    ) == t0.spec_mapping((target_start_page + (j as u64)) as u64)));
                } else {
                    assert(p < (fill_end + 4095) / 4096);
                }
            }
            // file-backed pages, boundary clone aside, keep their own
            // blob frames
            assert forall|p: u64|
                fs > 0 && spec_target_first(*segment) <= p <= spec_file_last(*segment) && !(
                spec_has_tail_boundary(*segment) && p == spec_file_last(*segment)) implies ((
            #[trigger] kernel_page_table.spec_mapping(p)) matches Some(pair) && pair.0
                == spec_seg_frame(kernel_addr, *segment, p)) by {
                lemma_split_addr(va, fs);
                lemma_split_addr(va, fs - 1);
                if (va % 4096 + fs) % 4096 != 0 {
                    lemma_same_page(va % 4096 + fs);
                } else {
                    lemma_prev_of_aligned(va % 4096 + fs);
                }
                assert(p < fill_start / 4096);
                assert(kernel_page_table.spec_mapping(p) == t1.spec_mapping(p));
                let j = p - tsp;
                assert(t1.spec_mapping((target_start_page + (j as u64)) as u64) matches Some(
                    pair,
                ) && pair.0 == sf + j);
            }
        }
    } else {
        proof {
            vstd::arithmetic::div_mod::lemma_fundamental_div_mod(va, 4096);
            vstd::arithmetic::div_mod::lemma_mod_bound(va, 4096);
            assert forall|o: int| 0 <= o < fs implies #[trigger] spec_mem_read(
                kernel_page_table,
                memory,
                (va + o) as u64,
            ) == spec_file_byte(kernel_addr, *segment, &m0, o) by {
                lemma_split_addr(va, o);
                lemma_split_addr(segstart, o);
                let jo = (va % 4096 + o) / 4096;
                vstd::arithmetic::div_mod::lemma_div_is_ordered(
                    va % 4096 + o,
                    va % 4096 + fs - 1,
                    4096,
                );
                assert(kernel_page_table.spec_mapping((target_start_page + (jo as u64)) as u64)
                    matches Some(pair) && pair.0 == sf + jo);
                assert(memory.spec_contents(((sf + jo) as u64)) is Some);
            }
            assert forall|p: u64|
                ms > 0 && spec_target_first(*segment) <= p < (va + ms + 4095) / 4096 implies ((
            #[trigger] kernel_page_table.spec_mapping(p)) matches Some(pair) && (pair.1
                == segment_flags || kernel_page_table.spec_mapping(p) == t0.spec_mapping(p))) by {
                assert(fs == ms);
                assert(fs > 0);
                lemma_next_page(va + ms - 1);
                lemma_split_addr(va, ms - 1);
                let j = p - tsp;
                assert(p < tsp + (va % 4096 + ms - 1) / 4096 + 1);
                assert(j <= (va % 4096 + fs - 1) / 4096);
                assert(kernel_page_table.spec_mapping((target_start_page + (j as u64)) as u64)
                    matches Some(pair) && pair.0 == sf + j && (pair.1 == segment_flags
                    || kernel_page_table.spec_mapping((target_start_page + (j as u64)) as u64)
                    == t0.spec_mapping((target_start_page + (j as u64)) as u64)));
            }
            assert forall|p: u64|
                fs > 0 && spec_target_first(*segment) <= p <= spec_file_last(*segment) && !(
                spec_has_tail_boundary(*segment) && p == spec_file_last(*segment)) implies ((
            #[trigger] kernel_page_table.spec_mapping(p)) matches Some(pair) && pair.0
                == spec_seg_frame(kernel_addr, *segment, p)) by {
                let j = p - tsp;
                assert(j <= (va % 4096 + fs - 1) / 4096);
                assert(kernel_page_table.spec_mapping((target_start_page + (j as u64)) as u64)
                    matches Some(pair) && pair.0 == sf + j);
            }
        }
    }
    Ok(())
}


/// A header kind the loader can do nothing with: neither loadable,
/// nor one of the two recognized-and-deferred note kinds.
pub open spec fn spec_kind_unsupported(k: SegmentKind) -> bool {
    match k {
        SegmentKind::Load => false,
        SegmentKind::GnuRelro => false,
        SegmentKind::OsSpecific(num) => num != 1685382481,
        SegmentKind::Other(num) => true,
    }
}

/// Segment `j` of the list is loadable and its in-memory range covers
/// page `w`.
pub open spec fn seg_maps_page(segs: Seq<ProgramSegment>, j: int, w: u64) -> bool {
    &&& segs[j].kind == SegmentKind::Load
    &&& spec_target_first(segs[j]) <= w < spec_target_end(segs[j])
}

/// A loadable segment has arrived in the address space: its file
/// bytes read back unchanged, its tail reads as zero, every page of
/// its range is mapped, and each file-backed page — a cloned boundary
/// page aside — sits on its own frame of the blob.
pub open spec fn seg_loaded(
    kernel_offset: u64,
    seg: ProgramSegment,
    t: &KernelPageTable,
    m: &PhysMemory,
    m0: &PhysMemory,
) -> bool {
    &&& forall|o: int|
        0 <= o < seg.file_size ==> #[trigger] spec_mem_read(t, m, (seg.virtual_addr + o) as u64)
            == spec_file_byte(kernel_offset, seg, m0, o)
    &&& forall|o: int|
        seg.file_size <= o < seg.mem_size ==> #[trigger] spec_mem_read(
            t,
            m,
            (seg.virtual_addr + o) as u64,
        ) == Some(0u8)
    &&& forall|p: u64|
        seg.mem_size > 0 && spec_target_first(seg) <= p < spec_target_end(seg)
            ==> (#[trigger] t.spec_mapping(p)) is Some
    &&& forall|p: u64|
        seg.file_size > 0 && spec_target_first(seg) <= p <= spec_file_last(seg) && !(
        spec_has_tail_boundary(seg) && p == spec_file_last(seg)) ==> ((
        #[trigger] t.spec_mapping(p)) matches Some(pair) && pair.0 == spec_seg_frame(
            kernel_offset,
            seg,
            p,
        ))
}

/// Page `p` lies in the segment's in-memory range.
pub open spec fn page_in_target(seg: ProgramSegment, p: u64) -> bool {
    spec_target_first(seg) <= p < spec_target_end(seg)
}

/// Two loadable segments may share target pages only where both back
/// the page with the same frame of the blob — that is, only on pages
/// file-backed in both — and never on a page that begins either
/// segment's zero-fill tail, whose frame is cloned.
pub open spec fn segs_compatible(kernel_offset: u64, a: ProgramSegment, b: ProgramSegment) -> bool {
    forall|p: u64|
        #[trigger] page_in_target(a, p) && #[trigger] page_in_target(b, p) ==> {
            &&& a.file_size > 0 && p <= spec_file_last(a)
            &&& b.file_size > 0 && p <= spec_file_last(b)
            &&& spec_seg_frame(kernel_offset, a, p) == spec_seg_frame(kernel_offset, b, p)
            &&& !(spec_has_tail_boundary(a) && p == spec_file_last(a))
            &&& !(spec_has_tail_boundary(b) && p == spec_file_last(b))
        }
}

/// Builds a fresh address space for the image blob at `kernel_offset`
/// and maps every loadable segment into it; the relocation-read-only
/// and stack-note header kinds are recognized and deferred, any other
/// kind is an unsupported format. On success the table maps exactly
/// the loadable segments' pages, every segment's file bytes read back
/// unchanged, and every zero-fill tail reads as zero.
pub fn map_elf_into_memory(
    kernel_offset: u64,
    segments: &Vec<ProgramSegment>,
    frame_allocator: &mut AndyFrameAllocator,
    memory: &mut PhysMemory,
) -> (r: Result<KernelPageTable, ElfMapError>)
    requires
        old(frame_allocator).wf(),
        old(memory).wf(),
        kernel_offset % 4096 == 0,
        forall|f: u64|
            old(frame_allocator).may_yield(f as int) ==> (#[trigger] old(memory).spec_contents(
                f,
            )) is None,
        forall|i: int|
            0 <= i < segments@.len() && (#[trigger] segments@[i]).kind == SegmentKind::Load
                ==> spec_load_segment_ok(kernel_offset, segments@[i], old(memory)),
        forall|i: int, j: int|
            0 <= i < j < segments@.len() && (#[trigger] segments@[i]).kind == SegmentKind::Load
                && (#[trigger] segments@[j]).kind == SegmentKind::Load ==> segs_compatible(
                kernel_offset,
                segments@[i],
                segments@[j],
            ),
    ensures
        final(frame_allocator).wf(),
        final(memory).wf(),
        final(frame_allocator).memory_map == old(frame_allocator).memory_map,
        forall|g: u64|
            old(memory).spec_contents(g) is Some ==> final(memory).spec_contents(g) == old(
                memory,
            ).spec_contents(g),
        forall|g: int|
            final(frame_allocator).may_yield(g) ==> old(frame_allocator).may_yield(g),
        match r {
            Ok(table) => {
                &&& table.wf()
                &&& fresh_frames_ok(final(frame_allocator), &table, final(memory))
                // the root node sits on a frame taken from the
                // allocator, never handed out again and absent from
                // the arena
                &&& old(frame_allocator).may_yield(table.root_frame as int)
                &&& !final(frame_allocator).may_yield(table.root_frame as int)
                &&& old(memory).spec_contents(table.root_frame) is None
                // success rules every unsupported header kind out
                &&& forall|j: int|
                    0 <= j < segments@.len() ==> !spec_kind_unsupported(
                        (#[trigger] segments@[j]).kind,
                    )
                &&& forall|i: int|
                    0 <= i < segments@.len() && (#[trigger] segments@[i]).kind == SegmentKind::Load
                        ==> seg_loaded(
                        kernel_offset,
                        segments@[i],
                        &table,
                        final(memory),
                        old(memory),
                    )
                // every mapped page belongs to a loadable segment and
                // carries the protection derived from one that covers
                // it
                &&& forall|w: u64|
                    #[trigger] table.spec_mapping(w) matches Some(pair) ==> exists|j: int|
                        0 <= j < segments@.len() && seg_maps_page(segments@, j, w) && pair.1
                            == spec_segment_flags(segments@[j])
            },
            Err(e) => match e {
                ElfMapError::OutOfFrames => forall|g: int| !final(frame_allocator).may_yield(g),
                ElfMapError::UnsupportedSegmentType(k) => spec_kind_unsupported(k) && exists|
                    j: int,
                | 0 <= j < segments@.len() && (#[trigger] segments@[j]).kind == k,
                ElfMapError::MappingConflict { vpn, attempted, already_there } => false,
            },
        },
{
    let ghost m0 = *old(memory);
    let kernel_page_table_top_frame: u64 = match frame_allocator.allocate_frame() {
        Some(f) => f,
        None => {
            return Err(ElfMapError::OutOfFrames);
        },
    };
    let mut kernel_page_table = KernelPageTable::new_empty(kernel_page_table_top_frame);
    let mut i: usize = 0;
    while i < segments.len()
        invariant
            kernel_page_table.wf(),
            frame_allocator.wf(),
            memory.wf(),
            m0 == *old(memory),
            fresh_frames_ok(frame_allocator, &kernel_page_table, memory),
            frame_allocator.memory_map == old(frame_allocator).memory_map,
            kernel_offset % 4096 == 0,
            i <= segments@.len(),
            forall|g: u64|
                m0.spec_contents(g) is Some ==> memory.spec_contents(g) == m0.spec_contents(g),
            forall|i2: int|
                0 <= i2 < segments@.len() && (#[trigger] segments@[i2]).kind == SegmentKind::Load
                    ==> spec_load_segment_ok(kernel_offset, segments@[i2], &m0),
            forall|i2: int, j2: int|
                0 <= i2 < j2 < segments@.len() && (#[trigger] segments@[i2]).kind
                    == SegmentKind::Load && (#[trigger] segments@[j2]).kind == SegmentKind::Load
                    ==> segs_compatible(kernel_offset, segments@[i2], segments@[j2]),
            forall|j: int|
                0 <= j < i && (#[trigger] segments@[j]).kind == SegmentKind::Load ==> seg_loaded(
                    kernel_offset,
                    segments@[j],
                    &kernel_page_table,
                    memory,
                    &m0,
                ),
            forall|j: int| 0 <= j < i ==> !spec_kind_unsupported((#[trigger] segments@[j]).kind),
            old(frame_allocator).may_yield(kernel_page_table.root_frame as int),
            !frame_allocator.may_yield(kernel_page_table.root_frame as int),
            m0.spec_contents(kernel_page_table.root_frame) is None,
            forall|g: int|
                frame_allocator.may_yield(g) ==> old(frame_allocator).may_yield(g),
            forall|w: u64|
                #[trigger] kernel_page_table.spec_mapping(w) matches Some(pair) ==> exists|j: int|
                    0 <= j < i && seg_maps_page(segments@, j, w) && pair.1 == spec_segment_flags(
                        segments@[j],
                    ),
        decreases segments@.len() - i,
    {
        let segment = segments[i];
        match segment.kind {
            SegmentKind::Load => {
                // the format's own alignment precondition, checked for
                // every loadable header before it is mapped
                if segment.align != 0 {
                    assert(segment.virtual_addr % segment.align == segment.offset % segment.align);
                }
                proof {
                    assert forall|p: u64|
                        spec_target_first(segments@[i as int]) <= p < spec_target_end(
                            segments@[i as int],
                        ) implies ((#[trigger] kernel_page_table.spec_mapping(p)) is None || (
                    kernel_page_table.spec_mapping(p) matches Some(pair) && segments@[i as int]
                        .file_size > 0 && p <= spec_file_last(segments@[i as int]) && pair.0
                        == spec_seg_frame(kernel_offset, segments@[i as int], p) && (
                    spec_has_tail_boundary(segments@[i as int]) && p == spec_file_last(
                        segments@[i as int],
                    ) ==> pair.1 == spec_segment_flags(segments@[i as int])))) by {
                        if kernel_page_table.spec_mapping(p) is Some {
                            let j = choose|j: int|
                                0 <= j < i && seg_maps_page(segments@, j, p)
                                    && kernel_page_table.spec_mapping(p).unwrap().1
                                    == spec_segment_flags(segments@[j]);
                            assert(seg_maps_page(segments@, j, p));
                            assert(segs_compatible(
                                kernel_offset,
                                segments@[j],
                                segments@[i as int],
                            ));
                            assert(page_in_target(segments@[j], p) && page_in_target(
                                segments@[i as int],
                                p,
                            ));
                            assert(seg_loaded(
                                kernel_offset,
                                segments@[j],
                                &kernel_page_table,
                                memory,
                                &m0,
                            ));
                            assert(kernel_page_table.spec_mapping(p) matches Some(pair) && pair.0
                                == spec_seg_frame(kernel_offset, segments@[j], p));
                        }
                    }
                    assert(spec_target_pages_ok(
                        kernel_offset,
                        segments@[i as int],
                        &kernel_page_table,
                    ));
                }
                let ghost t_pre = kernel_page_table;
                let ghost m_pre = *memory;
                proof {
                    assert(spec_load_segment_ok(kernel_offset, segments@[i as int], &m0));
                    assert forall|f: u64|
                        (kernel_offset + segments@[i as int].offset) / 4096 <= f <= (kernel_offset
                            + segments@[i as int].offset + segments@[i as int].file_size - 1)
                            / 4096 && segments@[i as int].file_size > 0 implies (
                    #[trigger] memory.spec_contents(f)) is Some by {
                        assert(m0.spec_contents(f) is Some);
                    }
                    assert(spec_load_segment_ok(kernel_offset, segments@[i as int], memory));
                }
                match handle_load_segment(
                    kernel_offset,
                    &segment,
                    &mut kernel_page_table,
                    frame_allocator,
                    memory,
                ) {
                    Ok(u) => {}
                    Err(e) => {
                        return Err(e);
                    },
                }
                proof {
                    lemma_other_segments_keep(
                        kernel_offset,
                        segments@,
                        i as int,
                        &t_pre,
                        &kernel_page_table,
                        &m_pre,
                        memory,
                        &m0,
                    );
                    assert forall|w: u64|
                        (#[trigger] kernel_page_table.spec_mapping(w)) is Some implies exists|
                        j: int,
                    |
                        0 <= j < i + 1 && seg_maps_page(segments@, j, w)
                            && kernel_page_table.spec_mapping(w).unwrap().1 == spec_segment_flags(
                            segments@[j],
                        ) by {
                        if !(spec_target_first(segments@[i as int]) <= w < spec_target_end(
                            segments@[i as int],
                        )) {
                            assert(kernel_page_table.spec_mapping(w) == t_pre.spec_mapping(w));
                            let j = choose|j: int|
                                0 <= j < i && seg_maps_page(segments@, j, w) && t_pre.spec_mapping(
                                    w,
                                ).unwrap().1 == spec_segment_flags(segments@[j]);
                            assert(seg_maps_page(segments@, j, w) && kernel_page_table.spec_mapping(
                                w,
                            ).unwrap().1 == spec_segment_flags(segments@[j]));
                        } else {
                            if segments@[i as int].mem_size == 0 {
                                assert(segments@[i as int].file_size == 0);
                                assert(segments@[i as int].virtual_addr % 4096 == 0);
                                vstd::arithmetic::div_mod::lemma_fundamental_div_mod_converse(
                                    segments@[i as int].virtual_addr as int + 4095,
                                    4096,
                                    segments@[i as int].virtual_addr as int / 4096,
                                    4095,
                                );
                                assert(false);
                            }
                            assert(kernel_page_table.spec_mapping(w) matches Some(pair2) && (pair2.1
                                == spec_segment_flags(segments@[i as int])
                                || kernel_page_table.spec_mapping(w) == t_pre.spec_mapping(w)));
                            if kernel_page_table.spec_mapping(w) == t_pre.spec_mapping(w) {
                                let j = choose|j: int|
                                    0 <= j < i && seg_maps_page(segments@, j, w)
                                        && t_pre.spec_mapping(w).unwrap().1 == spec_segment_flags(
                                        segments@[j],
                                    );
                                assert(seg_maps_page(segments@, j, w));
                            } else {
                                assert(seg_maps_page(segments@, i as int, w));
                            }
                        }
                    }
                }
            },
            SegmentKind::GnuRelro => {
                // recognized but deferred: the range would be made
                // read-only after relocation, which this loader does
                // not perform yet
            },
            SegmentKind::OsSpecific(num) => {
                if num == 1685382481 {
                    // the stack-size note: recognized but deferred
                } else {
                    return Err(ElfMapError::UnsupportedSegmentType(segment.kind));
                }
            },
            SegmentKind::Other(num) => {
                return Err(ElfMapError::UnsupportedSegmentType(segment.kind));
            },
        }
        i = i + 1;
    }
    Ok(kernel_page_table)
}

/// A loaded segment stays loaded while later segments touch only
/// pages outside its range and only add fresh frames to the arena.
proof fn lemma_other_segments_keep(
    kernel_offset: u64,
    segs: Seq<ProgramSegment>,
    i: int,
    t_pre: &KernelPageTable,
    t_post: &KernelPageTable,
    m_pre: &PhysMemory,
    m_post: &PhysMemory,
    m0: &PhysMemory,
)
    requires
        0 <= i < segs.len(),
        forall|j: int|
            0 <= j < i && (#[trigger] segs[j]).kind == SegmentKind::Load ==> seg_loaded(
                kernel_offset,
                segs[j],
                t_pre,
                m_pre,
                m0,
            ),
        forall|j: int|
            0 <= j < i && (#[trigger] segs[j]).kind == SegmentKind::Load ==> spec_load_segment_ok(
                kernel_offset,
                segs[j],
                m0,
            ),
        forall|i2: int, j2: int|
            0 <= i2 < j2 < segs.len() && (#[trigger] segs[i2]).kind == SegmentKind::Load && (
            #[trigger] segs[j2]).kind == SegmentKind::Load ==> segs_compatible(
                kernel_offset,
                segs[i2],
                segs[j2],
            ),
        segs[i].kind == SegmentKind::Load,
        forall|w: u64|
            !(spec_target_first(segs[i]) <= w < spec_target_end(segs[i]))
                ==> t_post.spec_mapping(w) == t_pre.spec_mapping(w),
        forall|p: u64|
            segs[i].file_size > 0 && spec_target_first(segs[i]) <= p <= spec_file_last(segs[i])
                && !(spec_has_tail_boundary(segs[i]) && p == spec_file_last(segs[i])) ==> ((
            #[trigger] t_post.spec_mapping(p)) matches Some(pair) && pair.0 == spec_seg_frame(
                kernel_offset,
                segs[i],
                p,
            )),
        forall|g: u64|
            m_pre.spec_contents(g) is Some ==> m_post.spec_contents(g) == m_pre.spec_contents(g),
    ensures
        forall|j: int|
            0 <= j < i && (#[trigger] segs[j]).kind == SegmentKind::Load ==> seg_loaded(
                kernel_offset,
                segs[j],
                t_post,
                m_post,
                m0,
            ),
{
    assert forall|j: int|
        0 <= j < i && (#[trigger] segs[j]).kind == SegmentKind::Load implies seg_loaded(
        kernel_offset,
        segs[j],
        t_post,
        m_post,
        m0,
    ) by {
        let seg = segs[j];
        let va = seg.virtual_addr as int;
        assert(segs_compatible(kernel_offset, segs[j], segs[i]));
        // every page of the earlier segment keeps its frame: a page
        // the later segment shares is file-backed in both, off both
        // boundaries, and backed by the same blob frame, so the later
        // call left it pointing where it already pointed
        assert forall|w: u64|
            spec_target_first(seg) <= w < spec_target_end(seg) implies ((
        #[trigger] t_post.spec_mapping(w)) matches Some(pw) && (t_pre.spec_mapping(
            w,
        ) matches Some(qw) && pw.0 == qw.0)) by {
            assert(page_in_target(seg, w));
            assert(seg.mem_size > 0);
            assert(t_pre.spec_mapping(w) is Some);
            if spec_target_first(segs[i]) <= w < spec_target_end(segs[i]) {
                assert(page_in_target(segs[i], w));
                assert(t_post.spec_mapping(w) matches Some(pair) && pair.0 == spec_seg_frame(
                    kernel_offset,
                    segs[i],
                    w,
                ));
                assert(t_pre.spec_mapping(w) matches Some(pair) && pair.0 == spec_seg_frame(
                    kernel_offset,
                    seg,
                    w,
                ));
            } else {
                assert(t_post.spec_mapping(w) == t_pre.spec_mapping(w));
            }
        }
        assert forall|p: u64|
            seg.mem_size > 0 && spec_target_first(seg) <= p < spec_target_end(seg) implies (
        #[trigger] t_post.spec_mapping(p)) is Some by {}
        assert forall|p: u64|
            seg.file_size > 0 && spec_target_first(seg) <= p <= spec_file_last(seg) && !(
            spec_has_tail_boundary(seg) && p == spec_file_last(seg)) implies ((
        #[trigger] t_post.spec_mapping(p)) matches Some(pair) && pair.0 == spec_seg_frame(
            kernel_offset,
            seg,
            p,
        )) by {
            assert(t_pre.spec_mapping(p) matches Some(pair) && pair.0 == spec_seg_frame(
                kernel_offset,
                seg,
                p,
            ));
            assert(spec_target_first(seg) <= p < spec_target_end(seg));
        }
        assert forall|o: int| 0 <= o < seg.file_size implies #[trigger] spec_mem_read(
            t_post,
            m_post,
            (seg.virtual_addr + o) as u64,
        ) == spec_file_byte(kernel_offset, seg, m0, o) by {
            lemma_read_preserved(seg, t_pre, t_post, m_pre, m_post, o);
            assert(spec_mem_read(t_pre, m_pre, (seg.virtual_addr + o) as u64) == spec_file_byte(
                kernel_offset,
                seg,
                m0,
                o,
            ));
        }
        assert forall|o: int|
            seg.file_size <= o < seg.mem_size implies #[trigger] spec_mem_read(
            t_post,
            m_post,
            (seg.virtual_addr + o) as u64,
        ) == Some(0u8) by {
            lemma_read_preserved(seg, t_pre, t_post, m_pre, m_post, o);
            assert(spec_mem_read(t_pre, m_pre, (seg.virtual_addr + o) as u64) == Some(0u8));
        }
    }
}

/// A byte inside a segment's range reads the same through the new
/// state when the segment's pages keep their frames and the arena
/// only grew.
proof fn lemma_read_preserved(
    seg: ProgramSegment,
    t_pre: &KernelPageTable,
    t_post: &KernelPageTable,
    m_pre: &PhysMemory,
    m_post: &PhysMemory,
    o: int,
)
    requires
        0 <= o < seg.mem_size,
        seg.virtual_addr + seg.mem_size + 4095 <= u64::MAX,
        forall|w: u64|
            spec_target_first(seg) <= w < spec_target_end(seg) ==> ((#[trigger] t_post.spec_mapping(
                w,
            )) matches Some(pw) && (t_pre.spec_mapping(w) matches Some(qw) && pw.0 == qw.0)),
        forall|g: u64|
            m_pre.spec_contents(g) is Some ==> m_post.spec_contents(g) == m_pre.spec_contents(g),
        spec_mem_read(t_pre, m_pre, (seg.virtual_addr + o) as u64) is Some,
    ensures
        spec_mem_read(t_post, m_post, (seg.virtual_addr + o) as u64) == spec_mem_read(
            t_pre,
            m_pre,
            (seg.virtual_addr + o) as u64,
        ),
{
    let a = (seg.virtual_addr + o) as u64;
    let va = seg.virtual_addr as int;
    lemma_split_addr(va, o);
    vstd::arithmetic::div_mod::lemma_fundamental_div_mod(va, 4096);
    vstd::arithmetic::div_mod::lemma_mod_bound(va, 4096);
    lemma_next_page(va + seg.mem_size - 1);
    lemma_split_addr(va, seg.mem_size - 1);
    vstd::arithmetic::div_mod::lemma_div_is_ordered(
        va % 4096 + o,
        va % 4096 + seg.mem_size - 1,
        4096,
    );
    assert(spec_target_first(seg) <= a as int / 4096 < spec_target_end(seg));
    let pair = t_pre.spec_mapping((a / 4096) as u64).unwrap();
    assert(t_post.spec_mapping((a / 4096) as u64).unwrap().0 == pair.0);
    assert(m_pre.spec_contents(pair.0) is Some);
    assert(m_post.spec_contents(pair.0) == m_pre.spec_contents(pair.0));
}

} // verus!
