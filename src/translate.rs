//! Translation of a user buffer into the physical byte ranges that back it.
use crate::address_space::{max_vpn, AddressSpace, PageTableEntry};
use crate::buffer::{gather, run_start, runs_disjoint, runs_fit, total_len, lemma_run_start_bound};
use crate::config::PAGE_SIZE;
use crate::memory::PhysMemory;
use vstd::prelude::*;

verus! {

/// A run of bytes inside one physical frame.
#[derive(Clone, Copy, Debug, PartialEq, Eq, Structural)]
pub struct PhysRange {
    pub frame: usize,
    pub offset: usize,
    pub len: usize,
}

/// A user buffer as the ordered list of physical runs whose concatenation is
/// the buffer's bytes. It has one run per page that the buffer touches.
#[derive(Debug)]
pub struct ByteBufferView {
    pub ranges: Vec<PhysRange>,
}

/// Why a user buffer could not be translated.
#[derive(Clone, Copy, Debug, PartialEq, Eq, Structural)]
pub enum TranslateError {
    /// Some page of the buffer is not mapped.
    PageFault,
}

/// Address of the last byte of `[ptr, ptr + len)`, for `len > 0`.
pub open spec fn last_addr(ptr: usize, len: usize) -> int {
    ptr + len - 1
}

/// Number of pages that `[ptr, ptr + len)` touches.
pub open spec fn page_count(ptr: usize, len: usize) -> nat {
    if len == 0 {
        0
    } else {
        (last_addr(ptr, len) / PAGE_SIZE as int - ptr as int / PAGE_SIZE as int + 1) as nat
    }
}

/// Page number of the `i`-th page that `[ptr, ptr + len)` touches.
pub open spec fn nth_vpn(ptr: usize, i: int) -> int {
    ptr as int / PAGE_SIZE as int + i
}

/// The buffer lies within the address range and all its pages are mapped in `t`.
pub open spec fn buffer_mapped(t: Map<usize, PageTableEntry>, ptr: usize, len: usize) -> bool {
    &&& last_addr(ptr, len) <= usize::MAX
    &&& forall|i: int| 0 <= i < page_count(ptr, len) ==> #[trigger] t.contains_key(nth_vpn(ptr, i) as usize)
}

/// The run of the buffer that falls in its `i`-th page.
pub open spec fn slice_of(t: Map<usize, PageTableEntry>, ptr: usize, len: usize, i: int) -> PhysRange {
    let vpn = nth_vpn(ptr, i);
    let page_start = vpn * PAGE_SIZE as int;
    let lo = if ptr as int > page_start { ptr as int } else { page_start };
    let hi = if last_addr(ptr, len) < page_start + PAGE_SIZE - 1 {
        last_addr(ptr, len)
    } else {
        page_start + PAGE_SIZE - 1
    };
    PhysRange {
        frame: t[vpn as usize].frame,
        offset: (lo - page_start) as usize,
        len: (hi - lo + 1) as usize,
    }
}

/// The view of `[ptr, ptr + len)`: one run per page, in page order.
pub open spec fn translation(t: Map<usize, PageTableEntry>, ptr: usize, len: usize) -> Seq<PhysRange> {
    Seq::new(page_count(ptr, len), |i: int| slice_of(t, ptr, len, i))
}

/// Translates the user buffer `[ptr, ptr + len)` of `space`. Fails with a page
/// fault if any page it touches is unmapped; an empty buffer translates to an
/// empty view.
pub fn translate_buffer(space: &AddressSpace, ptr: usize, len: usize) -> (r: Result<
    ByteBufferView,
    TranslateError,
>)
    ensures
        match r {
            Ok(view) => buffer_mapped(space@, ptr, len) && view.ranges@ == translation(
                space@,
                ptr,
                len,
            ),
            Err(e) => e == TranslateError::PageFault && !buffer_mapped(space@, ptr, len),
        },
{
    let mut ranges: Vec<PhysRange> = Vec::new();
    if len == 0 {
        assert(ranges@ =~= translation(space@, ptr, len));
        return Ok(ByteBufferView { ranges });
    }
    if len - 1 > usize::MAX - ptr {
        return Err(TranslateError::PageFault);
    }
    let last = ptr + (len - 1);
    let first_vpn = ptr / PAGE_SIZE;
    let last_vpn = last / PAGE_SIZE;
    assert(last_vpn <= max_vpn());
    let mut vpn = first_vpn;
    while vpn <= last_vpn
        invariant
            last == last_addr(ptr, len),
            len > 0,
            first_vpn == ptr / PAGE_SIZE,
            last_vpn == last / PAGE_SIZE,
            last_vpn <= max_vpn(),
            first_vpn <= vpn <= last_vpn + 1,
            ranges@.len() == vpn - first_vpn,
            forall|i: int| 0 <= i < vpn - first_vpn ==> #[trigger] space@.contains_key(nth_vpn(ptr, i) as usize),
            forall|i: int| 0 <= i < vpn - first_vpn ==> #[trigger] ranges@[i] == slice_of(space@, ptr, len, i),
        decreases last_vpn + 1 - vpn,
    {
        match space.lookup(vpn) {
            None => {
                assert(!space@.contains_key(nth_vpn(ptr, vpn - first_vpn) as usize));
                return Err(TranslateError::PageFault);
            },
            Some(e) => {
                let page_start = vpn * PAGE_SIZE;
                let page_last = page_start + (PAGE_SIZE - 1);
                let lo = if ptr > page_start {
                    ptr
                } else {
                    page_start
                };
                let hi = if last < page_last {
                    last
                } else {
                    page_last
                };
                let run = PhysRange { frame: e.frame, offset: lo - page_start, len: hi - lo + 1 };
                assert(run == slice_of(space@, ptr, len, vpn - first_vpn));
                ranges.push(run);
            },
        }
        vpn = vpn + 1;
    }
    assert(ranges@ =~= translation(space@, ptr, len));
    Ok(ByteBufferView { ranges })
}

/// Byte at virtual address `va` of an address space with page table `t`
/// over physical memory `frames`.
pub open spec fn virt_byte(t: Map<usize, PageTableEntry>, frames: Seq<Seq<u8>>, va: int) -> u8 {
    frames[t[(va / PAGE_SIZE as int) as usize].frame as int][va % PAGE_SIZE as int]
}

/// The bytes of the user buffer `[ptr, ptr + len)`, read page by page.
pub open spec fn virt_bytes(t: Map<usize, PageTableEntry>, frames: Seq<Seq<u8>>, ptr: usize, len: usize) -> Seq<u8> {
    Seq::new(len as nat, |k: int| virt_byte(t, frames, ptr + k))
}

proof fn lemma_translation_run_start(t: Map<usize, PageTableEntry>, ptr: usize, len: usize, i: int)
    requires
        len > 0,
        last_addr(ptr, len) <= usize::MAX,
        0 <= i <= page_count(ptr, len),
    ensures
        run_start(translation(t, ptr, len), i) == if i == 0 {
            0
        } else if nth_vpn(ptr, i) * PAGE_SIZE <= last_addr(ptr, len) {
            nth_vpn(ptr, i) * PAGE_SIZE - ptr
        } else {
            len as int
        },
    decreases i,
{
    let r = translation(t, ptr, len);
    if i == 0 {
        assert(r.take(0) =~= Seq::<PhysRange>::empty());
    } else {
        lemma_translation_run_start(t, ptr, len, i - 1);
        lemma_run_start_bound(r, i - 1);
    }
}

/// The view of a mapped buffer: its runs lie in frames of the memory, use
/// distinct frames, and cover exactly `len` bytes.
pub proof fn lemma_translation_well_formed(space: &AddressSpace, mem: &PhysMemory, ptr: usize, len: usize)
    requires
        space.wf(),
        mem.wf(),
        space.backed_by(mem),
        buffer_mapped(space@, ptr, len),
    ensures
        runs_fit(mem.frames_view(), translation(space@, ptr, len)),
        runs_disjoint(translation(space@, ptr, len)),
        total_len(translation(space@, ptr, len)) == len,
{
    let t = space@;
    let r = translation(t, ptr, len);
    assert forall|i: int| 0 <= i < r.len() implies (#[trigger] r[i]).frame < mem.frames_view().len()
        && r[i].offset + r[i].len <= PAGE_SIZE by {
        assert(t.contains_key(nth_vpn(ptr, i) as usize));
    }
    assert forall|i: int, j: int| 0 <= i < r.len() && 0 <= j < r.len() && i != j implies (#[trigger] r[i]).frame != (#[trigger] r[j]).frame by {
        assert(t.contains_key(nth_vpn(ptr, i) as usize));
        assert(t.contains_key(nth_vpn(ptr, j) as usize));
    }
    if len == 0 {
        assert(r =~= Seq::<PhysRange>::empty());
    } else {
        lemma_translation_run_start(t, ptr, len, r.len() as int);
        assert(r.take(r.len() as int) =~= r);
    }
}

proof fn lemma_gather_len(frames: Seq<Seq<u8>>, r: Seq<PhysRange>)
    requires
        runs_fit(frames, r),
        forall|f: int| 0 <= f < frames.len() ==> #[trigger] frames[f].len() == PAGE_SIZE,
    ensures
        gather(frames, r).len() == total_len(r),
    decreases r.len(),
{
    if r.len() > 0 {
        let r1 = r.drop_last();
        assert forall|j: int| 0 <= j < r1.len() implies (#[trigger] r1[j]).frame < frames.len() && r1[j].offset + r1[j].len <= PAGE_SIZE by {
            assert(r1[j] == r[j]);
        }
        lemma_gather_len(frames, r1);
        assert(r[r.len() - 1].frame < frames.len());
    }
}

proof fn lemma_gather_index(frames: Seq<Seq<u8>>, r: Seq<PhysRange>, i: int, m: int)
    requires
        runs_fit(frames, r),
        forall|f: int| 0 <= f < frames.len() ==> #[trigger] frames[f].len() == PAGE_SIZE,
        0 <= i < r.len(),
        0 <= m < r[i].len,
    ensures
        gather(frames, r)[run_start(r, i) + m] == frames[r[i].frame as int][r[i].offset + m],
    decreases r.len(),
{
    let n = r.len() - 1;
    let r1 = r.drop_last();
    assert forall|j: int| 0 <= j < r1.len() implies (#[trigger] r1[j]).frame < frames.len() && r1[j].offset + r1[j].len <= PAGE_SIZE by {
        assert(r1[j] == r[j]);
    }
    assert(r[n].frame < frames.len());
    lemma_gather_len(frames, r1);
    if i < n {
        lemma_gather_index(frames, r1, i, m);
        assert(r1.take(i) =~= r.take(i));
        lemma_run_start_bound(r1, i);
    } else {
        assert(r.take(n) =~= r1);
    }
}

/// Reading a mapped buffer through its view gives the buffer's bytes, page by
/// page, even where consecutive pages sit in frames far apart; the view has
/// more than one run exactly when the buffer crosses a page boundary.
pub proof fn lemma_translation_bytes(space: &AddressSpace, mem: &PhysMemory, ptr: usize, len: usize)
    requires
        space.wf(),
        mem.wf(),
        space.backed_by(mem),
        buffer_mapped(space@, ptr, len),
    ensures
        gather(mem.frames_view(), translation(space@, ptr, len)) == virt_bytes(space@, mem.frames_view(), ptr, len),
        len > 0 ==> (translation(space@, ptr, len).len() > 1 <==> ptr as int / PAGE_SIZE as int
            != last_addr(ptr, len) / PAGE_SIZE as int),
{
    let t = space@;
    let frames = mem.frames_view();
    let r = translation(t, ptr, len);
    lemma_translation_well_formed(space, mem, ptr, len);
    if len == 0 {
        assert(r =~= Seq::<PhysRange>::empty());
        assert(gather(frames, r) =~= virt_bytes(t, frames, ptr, len));
    } else {
        assert forall|k: int| 0 <= k < len implies #[trigger] gather(frames, r)[k] == virt_bytes(t, frames, ptr, len)[k] by {
            let va = ptr + k;
            let i = va / PAGE_SIZE as int - ptr as int / PAGE_SIZE as int;
            lemma_translation_run_start(t, ptr, len, i);
            lemma_translation_run_start(t, ptr, len, i + 1);
            lemma_run_start_bound(r, i);
            let m = k - run_start(r, i);
            assert(t.contains_key(nth_vpn(ptr, i) as usize));
            lemma_gather_index(frames, r, i, m);
        }
        lemma_gather_len(frames, r);
        assert(gather(frames, r) =~= virt_bytes(t, frames, ptr, len));
    }
}

} // verus!
