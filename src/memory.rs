//! Physical memory: a pool of page-sized frames with an allocator that hands
//! out zeroed frames and takes them back.
use crate::config::PAGE_SIZE;
use vstd::prelude::*;

verus! {

/// Contents of a freshly allocated frame.
pub open spec fn zero_frame() -> Seq<u8> {
    Seq::new(PAGE_SIZE as nat, |i: int| 0u8)
}

/// Physical frames, addressed by index, and the list of those not in use.
/// The pool grows by one frame whenever an allocation finds the list empty.
pub struct PhysMemory {
    frames: Vec<Vec<u8>>,
    free: Vec<usize>,
}

impl PhysMemory {
    /// Bytes of each frame.
    pub closed spec fn frames_view(&self) -> Seq<Seq<u8>> {
        self.frames@.map_values(|v: Vec<u8>| v@)
    }

    /// Frames that are available for allocation.
    pub closed spec fn free_view(&self) -> Seq<usize> {
        self.free@
    }

    pub open spec fn num_frames(&self) -> nat {
        self.frames_view().len()
    }

    /// Whether frame `f` exists and is owned by some mapping.
    pub open spec fn in_use(&self, f: usize) -> bool {
        f < self.num_frames() && !self.free_view().contains(f)
    }

    /// Every frame is one page long; the free list names distinct existing frames.
    pub open spec fn wf(&self) -> bool {
        &&& forall|f: int| 0 <= f < self.num_frames() ==> #[trigger] self.frames_view()[f].len()
            == PAGE_SIZE
        &&& forall|i: int|
            0 <= i < self.free_view().len() ==> #[trigger] self.free_view()[i] < self.num_frames()
        &&& self.free_view().no_duplicates()
    }

    /// An empty pool.
    pub fn new() -> (m: PhysMemory)
        ensures
            m.wf(),
            m.num_frames() == 0,
    {
        PhysMemory { frames: Vec::new(), free: Vec::new() }
    }

    /// Number of frames in the pool, in use or not.
    pub fn frame_count(&self) -> (n: usize)
        ensures
            n == self.num_frames(),
    {
        self.frames.len()
    }

    /// A frame that no mapping owns, zeroed and now marked in use.
    pub fn alloc_frame(&mut self) -> (f: usize)
        requires
            old(self).wf(),
        ensures
            final(self).wf(),
            !old(self).in_use(f),
            final(self).in_use(f),
            forall|g: usize| g != f ==> final(self).in_use(g) == old(self).in_use(g),
            final(self).num_frames() >= old(self).num_frames(),
            final(self).frames_view()[f as int] == zero_frame(),
            forall|g: int|
                0 <= g < old(self).num_frames() && g != f ==> #[trigger] final(self).frames_view()[g]
                    == old(self).frames_view()[g],
    {
        let zero = zeroed_page();
        if self.free.len() > 0 {
            let f = self.free.pop().unwrap();
            proof {
                assert(old(self).free_view() == self.free@.push(f));
                assert(old(self).free_view().last() == f);
            }
            self.frames.set(f, zero);
            proof {
                assert(self.frames_view() =~= old(self).frames_view().update(f as int, zero@));
                assert forall|g: usize| g != f implies self.in_use(g) == old(self).in_use(g) by {
                    if self.free@.contains(g) {
                        let i = choose|i: int| 0 <= i < self.free@.len() && self.free@[i] == g;
                        assert(old(self).free_view()[i] == g);
                    }
                    if old(self).free_view().contains(g) {
                        let i = choose|i: int|
                            0 <= i < old(self).free_view().len() && old(self).free_view()[i]
                                == g;
                        assert(i != self.free@.len());
                        assert(self.free@[i] == g);
                    }
                }
                assert(!self.free@.contains(f)) by {
                    if self.free@.contains(f) {
                        let i = choose|i: int| 0 <= i < self.free@.len() && self.free@[i] == f;
                        assert(old(self).free_view()[i] == old(self).free_view()[self.free@.len() as int]);
                    }
                }
                assert(old(self).free_view().contains(f)) by {
                    assert(old(self).free_view()[self.free@.len() as int] == f);
                }
            }
            f
        } else {
            let f = self.frames.len();
            self.frames.push(zero);
            proof {
                assert(self.frames_view() =~= old(self).frames_view().push(zero@));
                assert(self.free@ =~= Seq::<usize>::empty());
            }
            f
        }
    }

    /// Returns frame `f` to the pool; its bytes stay as they were.
    pub fn free_frame(&mut self, f: usize)
        requires
            old(self).wf(),
            old(self).in_use(f),
        ensures
            final(self).wf(),
            !final(self).in_use(f),
            forall|g: usize| g != f ==> final(self).in_use(g) == old(self).in_use(g),
            final(self).frames_view() == old(self).frames_view(),
    {
        self.free.push(f);
        proof {
            assert(self.free@ == old(self).free_view().push(f));
            assert(self.free@[old(self).free_view().len() as int] == f);
            assert forall|g: usize| g != f implies self.in_use(g) == old(self).in_use(g) by {
                if self.free@.contains(g) {
                    let i = choose|i: int| 0 <= i < self.free@.len() && self.free@[i] == g;
                    assert(old(self).free_view()[i] == g);
                }
                if old(self).free_view().contains(g) {
                    let i = choose|i: int|
                        0 <= i < old(self).free_view().len() && old(self).free_view()[i] == g;
                    assert(self.free@[i] == g);
                }
            }
        }
    }

    /// Byte `o` of frame `f`.
    pub fn read_byte(&self, f: usize, o: usize) -> (b: u8)
        requires
            self.wf(),
            f < self.num_frames(),
            o < PAGE_SIZE,
        ensures
            b == self.frames_view()[f as int][o as int],
    {
        assert(self.frames@[f as int]@ == self.frames_view()[f as int]);
        self.frames[f][o]
    }

    /// Stores `b` as byte `o` of frame `f`.
    pub fn write_byte(&mut self, f: usize, o: usize, b: u8)
        requires
            old(self).wf(),
            f < old(self).num_frames(),
            o < PAGE_SIZE,
        ensures
            final(self).wf(),
            final(self).free_view() == old(self).free_view(),
            final(self).frames_view() == old(self).frames_view().update(
                f as int,
                old(self).frames_view()[f as int].update(o as int, b),
            ),
    {
        assert(self.frames@[f as int]@ == self.frames_view()[f as int]);
        let mut page: Vec<u8> = Vec::new();
        std::mem::swap(&mut page, &mut self.frames[f]);
        page.set(o, b);
        self.frames.set(f, page);
        proof {
            assert(self.frames_view() =~= old(self).frames_view().update(
                f as int,
                old(self).frames_view()[f as int].update(o as int, b),
            ));
        }
    }
}

/// A page of zero bytes.
fn zeroed_page() -> (v: Vec<u8>)
    ensures
        v@ == zero_frame(),
{
    let mut v: Vec<u8> = Vec::new();
    while v.len() < PAGE_SIZE
        invariant
            v.len() <= PAGE_SIZE,
            forall|i: int| 0 <= i < v.len() ==> v@[i] == 0u8,
        decreases PAGE_SIZE - v.len(),
    {
        v.push(0u8);
    }
    assert(v@ =~= zero_frame());
    v
}

} // verus!
