//! mmap and munmap over an address space: every request is checked in full
//! before the page table is touched, so a failed request changes nothing.
use crate::address_space::{max_vpn, AddressSpace, PageTableEntry};
use crate::config::PAGE_SIZE;
use crate::memory::{zero_frame, PhysMemory};
use crate::permission::{
    is_valid_permission, user_permission, user_permission_spec, valid_permission_bits,
    MapPermission, PERM_MASK,
};
use crate::translate::{buffer_mapped, last_addr, nth_vpn, page_count};
use vstd::prelude::*;

verus! {

/// Why an mmap request was refused.
#[derive(Clone, Copy, Debug, PartialEq, Eq, Structural)]
pub enum MmapError {
    /// The start address is not page-aligned.
    Misaligned,
    /// The permission word is zero or has bits beyond read, write and execute.
    InvalidPermission,
    /// A page of the range is already mapped.
    Conflict,
}

/// Why an munmap request was refused.
#[derive(Clone, Copy, Debug, PartialEq, Eq, Structural)]
pub enum MunmapError {
    /// The start address is not page-aligned.
    Misaligned,
    /// A page of the range is not mapped.
    NotMapped,
}

pub open spec fn page_aligned(a: usize) -> bool {
    a % PAGE_SIZE == 0
}

/// First address of page `vpn`.
pub open spec fn page_base(vpn: usize) -> int {
    vpn * PAGE_SIZE
}

/// Whether page `vpn` is one of the pages from `floor(start)` to `ceil(start + len)`.
pub open spec fn in_region(start: usize, len: usize, vpn: usize) -> bool {
    len > 0 && start as int / PAGE_SIZE as int <= vpn && page_base(vpn) < start + len
}

/// No page of the region is mapped in `t`.
pub open spec fn region_unmapped(t: Map<usize, PageTableEntry>, start: usize, len: usize) -> bool {
    forall|v: usize| #[trigger] in_region(start, len, v) ==> !t.contains_key(v)
}

/// Every page of the region is mapped in `t`.
pub open spec fn region_mapped(t: Map<usize, PageTableEntry>, start: usize, len: usize) -> bool {
    forall|v: usize| #[trigger] in_region(start, len, v) ==> t.contains_key(v)
}

/// Result of an mmap request on page table `t`.
pub open spec fn mmap_outcome(t: Map<usize, PageTableEntry>, start: usize, len: usize, bits: usize) -> Result<(), MmapError> {
    if !page_aligned(start) {
        Err(MmapError::Misaligned)
    } else if !valid_permission_bits(bits) {
        Err(MmapError::InvalidPermission)
    } else if !region_unmapped(t, start, len) {
        Err(MmapError::Conflict)
    } else {
        Ok(())
    }
}

/// Result of an munmap request on page table `t`.
pub open spec fn munmap_outcome(t: Map<usize, PageTableEntry>, start: usize, len: usize) -> Result<(), MunmapError> {
    if !page_aligned(start) {
        Err(MunmapError::Misaligned)
    } else if !region_mapped(t, start, len) {
        Err(MunmapError::NotMapped)
    } else {
        Ok(())
    }
}

/// `after` is `before` with every page of the region mapped with `perm`.
pub open spec fn region_added(
    before: Map<usize, PageTableEntry>,
    after: Map<usize, PageTableEntry>,
    start: usize,
    len: usize,
    perm: MapPermission,
) -> bool {
    &&& forall|v: usize| #[trigger] after.contains_key(v) == (before.contains_key(v) || in_region(start, len, v))
    &&& forall|v: usize| #[trigger] in_region(start, len, v) ==> after[v].perm == perm
    &&& forall|v: usize| #[trigger] before.contains_key(v) ==> after[v] == before[v]
}

/// `after` is `before` with every page of the region removed.
pub open spec fn region_removed(
    before: Map<usize, PageTableEntry>,
    after: Map<usize, PageTableEntry>,
    start: usize,
    len: usize,
) -> bool {
    &&& forall|v: usize| #[trigger] after.contains_key(v) == (before.contains_key(v) && !in_region(start, len, v))
    &&& forall|v: usize| #[trigger] after.contains_key(v) ==> after[v] == before[v]
}

/// One past the last page of a non-empty region at an aligned start.
fn region_end(start: usize, len: usize) -> (end: usize)
    requires
        len > 0,
        start + len <= usize::MAX,
    ensures
        end <= max_vpn() + 1,
        forall|v: usize| v < end <==> #[trigger] page_base(v) < start + len,
{
    let end = (start + len - 1) / PAGE_SIZE + 1;
    assert forall|v: usize| v < end <==> #[trigger] page_base(v) < start + len by {
        if v < end {
            assert(v * PAGE_SIZE <= ((start + len - 1) / PAGE_SIZE as int) * PAGE_SIZE);
        }
    }
    end
}

/// Whether no page of the non-empty region ending before page `end` is mapped.
fn region_is_unmapped(space: &AddressSpace, start: usize, len: usize, end: usize) -> (r: bool)
    requires
        len > 0,
        forall|v: usize| v < end <==> #[trigger] page_base(v) < start + len,
    ensures
        r == region_unmapped(space@, start, len),
{
    let mut vpn = start / PAGE_SIZE;
    while vpn < end
        invariant
            len > 0,
            forall|v: usize| v < end <==> #[trigger] page_base(v) < start + len,
            start / PAGE_SIZE <= vpn,
            forall|v: usize| start / PAGE_SIZE <= v < vpn ==> !space@.contains_key(v),
        decreases end - vpn,
    {
        if space.lookup(vpn).is_some() {
            assert(in_region(start, len, vpn));
            return false;
        }
        vpn = vpn + 1;
    }
    true
}

/// Whether every page of the non-empty region ending before page `end` is mapped.
fn region_is_mapped(space: &AddressSpace, start: usize, len: usize, end: usize) -> (r: bool)
    requires
        len > 0,
        forall|v: usize| v < end <==> #[trigger] page_base(v) < start + len,
    ensures
        r == region_mapped(space@, start, len),
{
    let mut vpn = start / PAGE_SIZE;
    while vpn < end
        invariant
            len > 0,
            forall|v: usize| v < end <==> #[trigger] page_base(v) < start + len,
            start / PAGE_SIZE <= vpn,
            forall|v: usize| start / PAGE_SIZE <= v < vpn ==> space@.contains_key(v),
        decreases end - vpn,
    {
        if space.lookup(vpn).is_none() {
            assert(in_region(start, len, vpn));
            return false;
        }
        vpn = vpn + 1;
    }
    true
}

/// Maps the pages from `start` to `ceil(start + len)` in `space`, each to a fresh
/// zeroed frame of `mem`, with the capabilities named by `bits` plus the user
/// bit. The start must be page-aligned, the permission word valid and no page
/// of the range mapped already; otherwise nothing changes. An empty range maps
/// nothing.
pub fn mmap(space: &mut AddressSpace, mem: &mut PhysMemory, start: usize, len: usize, bits: usize) -> (r: Result<(), MmapError>)
    requires
        old(space).wf(),
        old(mem).wf(),
        old(space).backed_by(old(mem)),
        start + len <= usize::MAX,
    ensures
        final(space).wf(),
        final(mem).wf(),
        final(space).backed_by(final(mem)),
        r == mmap_outcome(old(space)@, start, len, bits),
        r is Err ==> final(space)@ == old(space)@ && *final(mem) == *old(mem),
        r is Ok ==> region_added(old(space)@, final(space)@, start, len, user_permission_spec(bits)),
        r is Ok ==> forall|v: usize| #[trigger] in_region(start, len, v) ==> final(mem).frames_view()[final(space)@[v].frame as int] == zero_frame(),
        forall|f: usize| #[trigger] old(mem).in_use(f) ==> final(mem).in_use(f) && final(mem).frames_view()[f as int] == old(mem).frames_view()[f as int],
{
    if start % PAGE_SIZE != 0 {
        return Err(MmapError::Misaligned);
    }
    if !is_valid_permission(bits) {
        return Err(MmapError::InvalidPermission);
    }
    if len == 0 {
        return Ok(());
    }
    let first = start / PAGE_SIZE;
    let end = region_end(start, len);
    if !region_is_unmapped(space, start, len, end) {
        return Err(MmapError::Conflict);
    }
    let mut vpn = first;
    assert(page_base(first) < start + len);
    let perm = user_permission(bits);
    let ghost space0 = space@;
    let ghost mem0 = *mem;
    while vpn < end
        invariant
            first == start / PAGE_SIZE,
            len > 0,
            end <= max_vpn() + 1,
            forall|v: usize| v < end <==> #[trigger] page_base(v) < start + len,
            first <= vpn <= end,
            perm == user_permission_spec(bits),
            space0 == old(space)@,
            mem0 == *old(mem),
            mem0.wf(),
            region_unmapped(space0, start, len),
            space.wf(),
            mem.wf(),
            space.backed_by(mem),
            forall|v: usize| #[trigger] space@.contains_key(v) == (space0.contains_key(v) || (first <= v < vpn)),
            forall|v: usize| #[trigger] space0.contains_key(v) ==> space@[v] == space0[v],
            forall|v: usize| first <= v < vpn ==> (#[trigger] space@[v]).perm == perm && mem.frames_view()[space@[v].frame as int] == zero_frame(),
            forall|f: usize| #[trigger] mem0.in_use(f) ==> mem.in_use(f) && mem.frames_view()[f as int] == mem0.frames_view()[f as int],
        decreases end - vpn,
    {
        let ghost space1 = space@;
        let ghost mem1 = *mem;
        let f = mem.alloc_frame();
        space.install(vpn, PageTableEntry { frame: f, perm });
        proof {
            assert(!space1.contains_key(vpn)) by {
                assert(in_region(start, len, vpn));
            }
            assert forall|v: usize| #[trigger] space@.contains_key(v) implies v <= max_vpn() by {
                if v != vpn {
                    assert(space1.contains_key(v));
                }
            }
            assert forall|v: usize, w: usize|
                #[trigger] space@.contains_key(v) && #[trigger] space@.contains_key(w) && v != w
                implies space@[v].frame != space@[w].frame by {
                if v == vpn {
                    assert(space1.contains_key(w));
                    assert(mem1.in_use(space1[w].frame));
                } else if w == vpn {
                    assert(space1.contains_key(v));
                    assert(mem1.in_use(space1[v].frame));
                } else {
                    assert(space1.contains_key(v) && space1.contains_key(w));
                }
            }
            assert forall|v: usize| #[trigger] space@.contains_key(v) implies mem.in_use(space@[v].frame) by {
                if v != vpn {
                    assert(space1.contains_key(v));
                    assert(mem1.in_use(space1[v].frame));
                }
            }
            assert forall|v: usize| first <= v < vpn + 1 implies (#[trigger] space@[v]).perm == perm && mem.frames_view()[space@[v].frame as int] == zero_frame() by {
                if v != vpn {
                    assert(space1.contains_key(v));
                    assert(mem1.in_use(space1[v].frame));
                }
            }
            assert forall|f: usize| #[trigger] mem0.in_use(f) implies mem.in_use(f) && mem.frames_view()[f as int] == mem0.frames_view()[f as int] by {
                assert(mem1.in_use(f));
            }
        }
        vpn = vpn + 1;
    }
    Ok(())
}

/// Unmaps the pages from `start` to `ceil(start + len)` in `space` and returns
/// their frames to `mem`. The start must be page-aligned and every page of the
/// range mapped; otherwise nothing changes. An empty range unmaps nothing.
pub fn munmap(space: &mut AddressSpace, mem: &mut PhysMemory, start: usize, len: usize) -> (r: Result<(), MunmapError>)
    requires
        old(space).wf(),
        old(mem).wf(),
        old(space).backed_by(old(mem)),
        start + len <= usize::MAX,
    ensures
        final(space).wf(),
        final(mem).wf(),
        final(space).backed_by(final(mem)),
        r == munmap_outcome(old(space)@, start, len),
        r is Err ==> final(space)@ == old(space)@ && *final(mem) == *old(mem),
        r is Ok ==> region_removed(old(space)@, final(space)@, start, len),
        r is Ok ==> forall|v: usize| #[trigger] in_region(start, len, v) ==> !final(mem).in_use(old(space)@[v].frame),
        forall|f: usize| #[trigger] final(mem).in_use(f) ==> old(mem).in_use(f),
        final(mem).frames_view() == old(mem).frames_view(),
{
    if start % PAGE_SIZE != 0 {
        return Err(MunmapError::Misaligned);
    }
    if len == 0 {
        return Ok(());
    }
    let first = start / PAGE_SIZE;
    let end = region_end(start, len);
    if !region_is_mapped(space, start, len, end) {
        return Err(MunmapError::NotMapped);
    }
    let mut vpn = first;
    assert(page_base(first) < start + len);
    let ghost space0 = space@;
    let ghost mem0 = *mem;
    while vpn < end
        invariant
            first == start / PAGE_SIZE,
            len > 0,
            forall|v: usize| v < end <==> #[trigger] page_base(v) < start + len,
            first <= vpn <= end,
            space0 == old(space)@,
            mem0 == *old(mem),
            region_mapped(space0, start, len),
            old(space).wf(),
            space.wf(),
            mem.wf(),
            space.backed_by(mem),
            forall|v: usize| #[trigger] space@.contains_key(v) == (space0.contains_key(v) && !(first <= v < vpn)),
            forall|v: usize| #[trigger] space@.contains_key(v) ==> space@[v] == space0[v],
            forall|v: usize| first <= v < vpn ==> !mem.in_use(#[trigger] space0[v].frame),
            forall|f: usize| #[trigger] mem.in_use(f) ==> mem0.in_use(f),
            mem.frames_view() == mem0.frames_view(),
        decreases end - vpn,
    {
        let ghost space1 = space@;
        let ghost mem1 = *mem;
        proof {
            assert(in_region(start, len, vpn));
        }
        let e = space.lookup(vpn).unwrap();
        mem.free_frame(e.frame);
        space.invalidate(vpn);
        proof {
            assert forall|v: usize| #[trigger] space@.contains_key(v) implies mem.in_use(space@[v].frame) by {
                assert(space1.contains_key(v));
                assert(mem1.in_use(space1[v].frame));
                assert(space1[v].frame != e.frame);
            }
            assert forall|v: usize| first <= v < vpn + 1 implies !mem.in_use(#[trigger] space0[v].frame) by {
                if v != vpn {
                    assert(!mem1.in_use(space0[v].frame));
                }
            }
        }
        vpn = vpn + 1;
    }
    Ok(())
}

/// A request with an aligned start, a valid permission word and a range free
/// of mappings succeeds, and afterwards every page of the range is mapped with
/// the requested capabilities plus the user bit, so the whole range translates.
pub proof fn lemma_mmap_maps_region(
    before: Map<usize, PageTableEntry>,
    after: Map<usize, PageTableEntry>,
    start: usize,
    len: usize,
    bits: usize,
)
    requires
        page_aligned(start),
        valid_permission_bits(bits),
        region_unmapped(before, start, len),
        start + len <= usize::MAX,
    ensures
        mmap_outcome(before, start, len, bits) == Ok::<(), MmapError>(()),
        region_added(before, after, start, len, user_permission_spec(bits)) ==> {
            &&& buffer_mapped(after, start, len)
            &&& forall|i: int|
                0 <= i < page_count(start, len) ==> (#[trigger] after[nth_vpn(start, i) as usize]).perm
                    == user_permission_spec(bits)
        },
{
    if region_added(before, after, start, len, user_permission_spec(bits)) {
        assert forall|i: int| 0 <= i < page_count(start, len) implies #[trigger] after.contains_key(
            nth_vpn(start, i) as usize,
        ) by {
            let w = nth_vpn(start, i);
            assert(w <= (start + len - 1) / PAGE_SIZE as int);
            assert(w * PAGE_SIZE <= ((start + len - 1) / PAGE_SIZE as int) * PAGE_SIZE);
            assert(page_base(w as usize) < start + len);
            assert(in_region(start, len, w as usize));
        }
        assert forall|i: int| 0 <= i < page_count(start, len) implies (#[trigger] after[nth_vpn(start, i) as usize]).perm
            == user_permission_spec(bits) by {
            let w = nth_vpn(start, i);
            assert(w <= (start + len - 1) / PAGE_SIZE as int);
            assert(w * PAGE_SIZE <= ((start + len - 1) / PAGE_SIZE as int) * PAGE_SIZE);
            assert(page_base(w as usize) < start + len);
            assert(in_region(start, len, w as usize));
        }
        assert(last_addr(start, len) <= usize::MAX);
        assert(buffer_mapped(after, start, len));
        assert(forall|i: int|
            0 <= i < page_count(start, len) ==> (#[trigger] after[nth_vpn(start, i) as usize]).perm
                == user_permission_spec(bits));
    }
}

/// A request for zero bytes at an aligned start with a valid permission word
/// succeeds and maps nothing.
pub proof fn lemma_mmap_empty(
    before: Map<usize, PageTableEntry>,
    after: Map<usize, PageTableEntry>,
    start: usize,
    bits: usize,
)
    requires
        page_aligned(start),
        valid_permission_bits(bits),
    ensures
        mmap_outcome(before, start, 0, bits) == Ok::<(), MmapError>(()),
        region_added(before, after, start, 0, user_permission_spec(bits)) ==> after == before,
{
    if region_added(before, after, start, 0, user_permission_spec(bits)) {
        assert(after =~= before);
    }
}

/// A request with an unaligned start fails as misaligned, whatever else it asks.
pub proof fn lemma_mmap_misaligned(t: Map<usize, PageTableEntry>, start: usize, len: usize, bits: usize)
    requires
        !page_aligned(start),
    ensures
        mmap_outcome(t, start, len, bits) == Err::<(), MmapError>(MmapError::Misaligned),
{
}

/// A request whose permission word is zero or has a bit above the execute bit
/// fails.
pub proof fn lemma_mmap_bad_permission(t: Map<usize, PageTableEntry>, start: usize, len: usize, bits: usize)
    requires
        bits == 0 || bits > PERM_MASK,
    ensures
        mmap_outcome(t, start, len, bits) is Err,
        page_aligned(start) ==> mmap_outcome(t, start, len, bits) == Err::<(), MmapError>(
            MmapError::InvalidPermission,
        ),
{
}

/// After a successful request, a second request whose range shares page `v`
/// with the first fails; on an aligned start with a valid word it fails as a
/// conflict.
pub proof fn lemma_mmap_overlap_fails(
    t0: Map<usize, PageTableEntry>,
    t1: Map<usize, PageTableEntry>,
    start1: usize,
    len1: usize,
    bits1: usize,
    start2: usize,
    len2: usize,
    bits2: usize,
    v: usize,
)
    requires
        mmap_outcome(t0, start1, len1, bits1) == Ok::<(), MmapError>(()),
        region_added(t0, t1, start1, len1, user_permission_spec(bits1)),
        in_region(start1, len1, v),
        in_region(start2, len2, v),
    ensures
        mmap_outcome(t1, start2, len2, bits2) is Err,
        page_aligned(start2) && valid_permission_bits(bits2) ==> mmap_outcome(t1, start2, len2, bits2)
            == Err::<(), MmapError>(MmapError::Conflict),
{
    assert(t1.contains_key(v));
}

/// Unmapping exactly the range of a successful mmap succeeds, and afterwards
/// no buffer that starts inside that range translates.
pub proof fn lemma_munmap_after_mmap(
    t0: Map<usize, PageTableEntry>,
    t1: Map<usize, PageTableEntry>,
    t2: Map<usize, PageTableEntry>,
    start: usize,
    len: usize,
    bits: usize,
)
    requires
        mmap_outcome(t0, start, len, bits) == Ok::<(), MmapError>(()),
        region_added(t0, t1, start, len, user_permission_spec(bits)),
    ensures
        munmap_outcome(t1, start, len) == Ok::<(), MunmapError>(()),
        region_removed(t1, t2, start, len) ==> forall|ptr: usize, n: usize|
            start <= ptr < start + len && n > 0 ==> !#[trigger] buffer_mapped(t2, ptr, n),
{
    assert(region_mapped(t1, start, len));
    if region_removed(t1, t2, start, len) {
        assert forall|ptr: usize, n: usize|
            start <= ptr < start + len && n > 0 implies !#[trigger] buffer_mapped(t2, ptr, n) by {
            let v = nth_vpn(ptr, 0) as usize;
            assert(in_region(start, len, v));
            assert(!t2.contains_key(v));
            assert(page_count(ptr, n) > 0);
        }
    }
}

/// Unmapping a range with an unmapped page `v` fails; on an aligned start it
/// fails as not mapped.
pub proof fn lemma_munmap_hole_fails(t: Map<usize, PageTableEntry>, start: usize, len: usize, v: usize)
    requires
        in_region(start, len, v),
        !t.contains_key(v),
    ensures
        munmap_outcome(t, start, len) is Err,
        page_aligned(start) ==> munmap_outcome(t, start, len) == Err::<(), MunmapError>(
            MunmapError::NotMapped,
        ),
{
}

} // verus!
