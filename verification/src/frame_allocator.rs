//! Physical frame allocator of the loader stage.
//!
//! A firmware-reported memory map — descriptors sorted by the caller by
//! ascending start address — is consumed strictly left to right by a
//! bump cursor over frame numbers. Only descriptors tagged usable are
//! considered; frame 0 is never handed out, so null pointers stay
//! detectable. There is no free operation: frames are never reused.

use vstd::prelude::*;

verus! {

/// Bytes per physical frame.
pub const FRAME_SIZE: u64 = 4096;

/// Largest count of frames the 64-bit physical address space holds.
pub const MAX_FRAME_COUNT: u64 = 0x10_0000_0000_0000;

/// One contiguous physical range of the firmware memory map: a start
/// address, a length in whole frames, and a usability tag.
#[derive(Clone, Copy, Debug, PartialEq, Eq, Structural)]
pub struct MemoryDescriptor {
    pub phys_start: u64,
    pub page_count: u64,
    pub usable: bool,
}

/// A descriptor is well formed when its start is frame-aligned and the
/// range stays inside the 64-bit address space.
pub open spec fn desc_wf(d: MemoryDescriptor) -> bool {
    &&& d.phys_start % (FRAME_SIZE as u64) == 0
    &&& d.phys_start / (FRAME_SIZE as u64) + d.page_count <= MAX_FRAME_COUNT
}

/// First frame of the descriptor.
pub open spec fn desc_start_frame(d: MemoryDescriptor) -> int {
    d.phys_start as int / (FRAME_SIZE as int)
}

/// Last frame of the descriptor (one below its start when it is empty).
pub open spec fn desc_end_frame(d: MemoryDescriptor) -> int {
    desc_start_frame(d) + d.page_count - 1
}

/// The frame a bump cursor at `cursor` takes from descriptor `d`:
/// the cursor snaps forward to the descriptor's start if it lies
/// before it, and the descriptor is exhausted if the cursor lies past
/// its last frame.
pub open spec fn desc_first_fit(d: MemoryDescriptor, cursor: int) -> Option<int> {
    let candidate = if cursor <= desc_start_frame(d) {
        desc_start_frame(d)
    } else {
        cursor
    };
    if d.page_count >= 1 && candidate <= desc_end_frame(d) {
        Some(candidate)
    } else {
        None
    }
}

/// Walking the remaining memory map from `idx` with cursor `cursor`:
/// the frame the next successful allocation returns, together with the
/// index of the descriptor it comes from.
pub open spec fn scan_map(map: Seq<MemoryDescriptor>, idx: int, cursor: int) -> Option<(int, int)>
    decreases map.len() - idx,
{
    if idx < 0 || idx >= map.len() {
        None
    } else if !map[idx].usable {
        scan_map(map, idx + 1, cursor)
    } else {
        match desc_first_fit(map[idx], cursor) {
            Some(f) => Some((f, idx)),
            None => scan_map(map, idx + 1, cursor),
        }
    }
}

/// Bump allocator over the frames of a firmware memory map. The map is
/// consumed left to right: `next_descriptor` indexes the first entry
/// not yet visited, and `curr_descriptor` holds the entry frames are
/// currently taken from.
pub struct AndyFrameAllocator {
    pub next_frame: u64,
    pub memory_map: Vec<MemoryDescriptor>,
    pub next_descriptor: usize,
    pub curr_descriptor: Option<MemoryDescriptor>,
}

impl AndyFrameAllocator {
    /// Well-formedness: the cursor skips frame 0 forever, the
    /// descriptor index stays inside the map, every descriptor is well
    /// formed, and the current descriptor is a usable one.
    pub open spec fn wf(&self) -> bool {
        &&& 1 <= self.next_frame <= MAX_FRAME_COUNT
        &&& self.next_descriptor <= self.memory_map@.len()
        &&& forall|i: int|
            0 <= i < self.memory_map@.len() ==> desc_wf(#[trigger] self.memory_map@[i])
        &&& match self.curr_descriptor {
            Some(d) => desc_wf(d) && d.usable,
            None => true,
        }
    }

    /// A frame the allocator may still return: at or past the cursor,
    /// and inside the current descriptor or one not yet visited.
    pub open spec fn may_yield(&self, f: int) -> bool {
        &&& self.next_frame <= f
        &&& {
            ||| (self.curr_descriptor matches Some(d) && desc_start_frame(d) <= f
                <= desc_end_frame(d))
            ||| exists|i: int|
                self.next_descriptor <= i < self.memory_map@.len()
                    && (#[trigger] self.memory_map@[i]).usable
                    && desc_start_frame(self.memory_map@[i]) <= f <= desc_end_frame(
                    self.memory_map@[i],
                )
        }
    }

    /// Builds the allocator over a memory map that the caller has
    /// sorted by ascending start address. The cursor starts at frame 1:
    /// frame 0 is reserved so that null-pointer dereferences stay
    /// detectable.
    pub fn new(memory_map: Vec<MemoryDescriptor>) -> (r: Self)
        requires
            forall|i: int| 0 <= i < memory_map@.len() ==> desc_wf(#[trigger] memory_map@[i]),
        ensures
            r.wf(),
            r.next_frame == 1,
            r.memory_map == memory_map,
            r.next_descriptor == 0,
            r.curr_descriptor is None,
    {
        AndyFrameAllocator {
            // must skip frame 0 for null pointers
            next_frame: 1,
            memory_map,
            next_descriptor: 0,
            curr_descriptor: None,
        }
    }

    /// Takes the next frame from one descriptor, snapping the cursor
    /// forward to the descriptor's start when it lies before it. When
    /// the cursor already lies past the descriptor's last frame the
    /// descriptor is exhausted and nothing is returned.
    pub fn allocate_frame_from_descriptor(&mut self, descriptor: MemoryDescriptor) -> (r: Option<
        u64,
    >)
        requires
            old(self).wf(),
            desc_wf(descriptor),
        ensures
            final(self).wf(),
            final(self).memory_map == old(self).memory_map,
            final(self).next_descriptor == old(self).next_descriptor,
            final(self).curr_descriptor == old(self).curr_descriptor,
            match desc_first_fit(descriptor, old(self).next_frame as int) {
                Some(f) => r == Some(f as u64) && final(self).next_frame == f + 1,
                None => r is None && final(self).next_frame == old(self).next_frame,
            },
    {
        if descriptor.page_count == 0 {
            return None;
        }
        let start_frame: u64 = descriptor.phys_start / FRAME_SIZE;
        let end_frame: u64 = start_frame + descriptor.page_count - 1;

        if self.next_frame <= start_frame {
            self.next_frame = start_frame;
        }

        if self.next_frame <= end_frame {
            let out: u64 = self.next_frame;
            self.next_frame = self.next_frame + 1;
            Some(out)
        } else {
            None
        }
    }

    /// Hands out the next free frame of the memory map, or nothing once
    /// every usable descriptor is exhausted. Frames come only from
    /// usable descriptors, are strictly increasing from call to call,
    /// and frame 0 is never returned.
    pub fn allocate_frame(&mut self) -> (r: Option<u64>)
        requires
            old(self).wf(),
        ensures
            final(self).wf(),
            final(self).memory_map == old(self).memory_map,
            allocate_step(*old(self), *final(self), r),
            // never frame 0, and only frames the old state could yield
            r matches Some(f) ==> 1 <= f && old(self).may_yield(f as int),
            // successive results are strictly increasing
            r matches Some(f) ==> final(self).next_frame == f + 1,
            r is Some ==> forall|g: int| final(self).may_yield(g) ==> old(self).may_yield(g),
            // failure only with nothing left: every yieldable frame is
            // eventually handed out
            r is None ==> forall|g: int| !old(self).may_yield(g),
    {
        if let Some(descriptor) = self.curr_descriptor {
            let got = self.allocate_frame_from_descriptor(descriptor);
            if let Some(success) = got {
                return Some(success);
            } else {
                self.curr_descriptor = None;
            }
        }

        loop
            invariant
                self.wf(),
                old(self).wf(),
                old(self).spec_curr_fit() is None,
                self.memory_map == old(self).memory_map,
                self.next_frame == old(self).next_frame,
                self.curr_descriptor is None,
                old(self).next_descriptor <= self.next_descriptor,
                scan_map(
                    self.memory_map@,
                    old(self).next_descriptor as int,
                    self.next_frame as int,
                ) == scan_map(self.memory_map@, self.next_descriptor as int, self.next_frame as int),
                forall|g: int| self.may_yield(g) ==> old(self).may_yield(g),
            ensures
                self.wf(),
                self.memory_map == old(self).memory_map,
                match scan_map(
                    self.memory_map@,
                    old(self).next_descriptor as int,
                    old(self).next_frame as int,
                ) {
                    Some(pair) => {
                        &&& self.next_frame == pair.0 + 1
                        &&& self.curr_descriptor == Some(self.memory_map@[pair.1])
                        &&& self.next_descriptor == pair.1 + 1
                        &&& 1 <= pair.0
                        &&& old(self).may_yield(pair.0)
                        &&& forall|g: int| self.may_yield(g) ==> old(self).may_yield(g) && g
                            > pair.0
                    },
                    None => {
                        &&& self.next_frame == old(self).next_frame
                        &&& self.curr_descriptor is None
                        &&& self.next_descriptor == self.memory_map@.len()
                    },
                },
            decreases self.memory_map@.len() - self.next_descriptor,
        {
            if self.next_descriptor >= self.memory_map.len() {
                break;
            }
            let descriptor: MemoryDescriptor = self.memory_map[self.next_descriptor];
            self.next_descriptor = self.next_descriptor + 1;
            let is_usable: bool = descriptor.usable;
            if !is_usable {
                continue;
            }
            if let Some(frame) = self.allocate_frame_from_descriptor(descriptor) {
                self.curr_descriptor = Some(descriptor);
                return Some(frame);
            }
        }
        proof {
            lemma_scan_map_none(
                self.memory_map@,
                old(self).next_descriptor as int,
                self.next_frame as int,
            );
            assert forall|g: int| !old(self).may_yield(g) by {
                if old(self).next_frame <= g {
                    if old(self).curr_descriptor is Some {
                        let d = old(self).curr_descriptor.unwrap();
                        assert(desc_first_fit(d, old(self).next_frame as int) is None);
                    }
                }
            }
        }
        None
    }

    /// The frame the current descriptor would yield, if any.
    pub open spec fn spec_curr_fit(&self) -> Option<int> {
        match self.curr_descriptor {
            Some(d) => desc_first_fit(d, self.next_frame as int),
            None => None,
        }
    }
}

/// The exact step one `allocate_frame` call takes from state `pre` to
/// state `post` with result `r`: the current descriptor is drained
/// first; once it is exhausted the map is scanned onward for the next
/// usable descriptor; when the whole map is spent the call returns
/// nothing and moves the cursor no further.
pub open spec fn allocate_step(
    pre: AndyFrameAllocator,
    post: AndyFrameAllocator,
    r: Option<u64>,
) -> bool {
    &&& post.memory_map == pre.memory_map
    &&& match pre.spec_curr_fit() {
        Some(f) => {
            &&& r == Some(f as u64)
            &&& post.next_frame == f + 1
            &&& post.curr_descriptor == pre.curr_descriptor
            &&& post.next_descriptor == pre.next_descriptor
        },
        None => match scan_map(
            pre.memory_map@,
            pre.next_descriptor as int,
            pre.next_frame as int,
        ) {
            Some(pair) => {
                &&& r == Some(pair.0 as u64)
                &&& post.next_frame == pair.0 + 1
                &&& post.curr_descriptor == Some(pre.memory_map@[pair.1])
                &&& post.next_descriptor == pair.1 + 1
            },
            None => {
                &&& r is None
                &&& post.next_frame == pre.next_frame
                &&& post.curr_descriptor is None
                &&& post.next_descriptor == post.memory_map@.len()
            },
        },
    }
}

/// A failed scan means no usable descriptor at or after `idx` holds a
/// frame at or past the cursor.
pub proof fn lemma_scan_map_none(map: Seq<MemoryDescriptor>, idx: int, cursor: int)
    requires
        0 <= idx,
        scan_map(map, idx, cursor) is None,
    ensures
        forall|i: int|
            idx <= i < map.len() && (#[trigger] map[i]).usable ==> desc_first_fit(map[i], cursor)
                is None,
    decreases map.len() - idx,
{
    if 0 <= idx < map.len() {
        lemma_scan_map_none(map, idx + 1, cursor);
    }
}

/// A successful scan really picks a usable descriptor at or after
/// `idx`, and a frame at or after the cursor, inside the address space.
pub proof fn lemma_scan_map_sound(map: Seq<MemoryDescriptor>, idx: int, cursor: int)
    requires
        forall|i: int| 0 <= i < map.len() ==> desc_wf(#[trigger] map[i]),
    ensures
        scan_map(map, idx, cursor) matches Some(pair) ==> {
            &&& idx <= pair.1 < map.len()
            &&& map[pair.1].usable
            &&& desc_first_fit(map[pair.1], cursor) == Some(pair.0)
            &&& cursor <= pair.0
            &&& 0 <= pair.0 < MAX_FRAME_COUNT
        },
    decreases map.len() - idx,
{
    if 0 <= idx < map.len() {
        lemma_scan_map_sound(map, idx + 1, cursor);
    }
}

/// The frame allocator never returns frame number 0.
pub proof fn lemma_never_frame_zero(
    pre: AndyFrameAllocator,
    post: AndyFrameAllocator,
    f: u64,
)
    requires
        pre.wf(),
        allocate_step(pre, post, Some(f)),
    ensures
        f >= 1,
        pre.next_frame <= f,
        post.next_frame == f + 1,
{
    lemma_scan_map_sound(pre.memory_map@, pre.next_descriptor as int, pre.next_frame as int);
}

/// Two successive successful allocations return strictly increasing
/// frame numbers: the cursor only ever moves forward.
pub proof fn lemma_successive_frames_increase(
    s0: AndyFrameAllocator,
    s1: AndyFrameAllocator,
    s2: AndyFrameAllocator,
    f1: u64,
    f2: u64,
)
    requires
        s0.wf(),
        s1.wf(),
        allocate_step(s0, s1, Some(f1)),
        allocate_step(s1, s2, Some(f2)),
    ensures
        f1 < f2,
{
    lemma_never_frame_zero(s0, s1, f1);
    lemma_never_frame_zero(s1, s2, f2);
}

} // verus!
