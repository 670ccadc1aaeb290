//! Memory and process syscalls over an explicit address space: each returns
//! 0 (or a value) on success and -1 on any failure.
use crate::address_space::AddressSpace;
use crate::buffer::{lemma_round_trip, scattered, write_view};
use crate::mapper::{mmap, mmap_outcome, munmap, munmap_outcome, region_added, region_removed};
use crate::memory::PhysMemory;
use crate::permission::user_permission_spec;
use crate::record::{task_info_bytes, time_val_bytes, TaskInfo, TimeVal, TASK_INFO_SIZE, TIME_VAL_SIZE};
use crate::translate::{
    buffer_mapped, lemma_translation_bytes, lemma_translation_well_formed, translate_buffer,
    translation, virt_bytes, TranslateError,
};
use vstd::prelude::*;

verus! {

/// Copies `bytes` into the user buffer at `ptr` of `space`, whose pages may lie
/// in frames far apart. Fails with a page fault, changing nothing, if a page of
/// the buffer is unmapped.
pub fn copy_out(space: &AddressSpace, mem: &mut PhysMemory, ptr: usize, bytes: &Vec<u8>) -> (r: Result<(), TranslateError>)
    requires
        space.wf(),
        old(mem).wf(),
        space.backed_by(old(mem)),
    ensures
        final(mem).wf(),
        space.backed_by(final(mem)),
        forall|f: usize| #[trigger] final(mem).in_use(f) == old(mem).in_use(f),
        match r {
            Ok(()) => {
                &&& buffer_mapped(space@, ptr, bytes@.len() as usize)
                &&& scattered(
                    old(mem).frames_view(),
                    final(mem).frames_view(),
                    translation(space@, ptr, bytes@.len() as usize),
                    bytes@,
                )
                &&& virt_bytes(space@, final(mem).frames_view(), ptr, bytes@.len() as usize) == bytes@
            },
            Err(e) => e == TranslateError::PageFault && !buffer_mapped(space@, ptr, bytes@.len() as usize)
                && *final(mem) == *old(mem),
        },
{
    let len = bytes.len();
    match translate_buffer(space, ptr, len) {
        Err(e) => Err(e),
        Ok(view) => {
            proof {
                lemma_translation_well_formed(space, mem, ptr, len);
            }
            write_view(mem, &view, bytes);
            proof {
                assert(space.backed_by(mem));
                lemma_round_trip(old(mem).frames_view(), mem.frames_view(), view.ranges@, bytes@);
                lemma_translation_bytes(space, mem, ptr, len);
            }
            Ok(())
        },
    }
}

/// The mmap syscall: 0 when the request succeeds, -1 when it is refused or
/// its range runs past the end of the address range.
pub fn sys_mmap(space: &mut AddressSpace, mem: &mut PhysMemory, start: usize, len: usize, prot: usize) -> (r: isize)
    requires
        old(space).wf(),
        old(mem).wf(),
        old(space).backed_by(old(mem)),
    ensures
        final(space).wf(),
        final(mem).wf(),
        final(space).backed_by(final(mem)),
        r == (if start + len > usize::MAX || mmap_outcome(old(space)@, start, len, prot) is Err {
            -1isize
        } else {
            0isize
        }),
        r == -1 ==> final(space)@ == old(space)@ && *final(mem) == *old(mem),
        r == 0 ==> region_added(old(space)@, final(space)@, start, len, user_permission_spec(prot)),
{
    if len > usize::MAX - start {
        return -1;
    }
    match mmap(space, mem, start, len, prot) {
        Ok(()) => 0,
        Err(_) => -1,
    }
}

/// The munmap syscall: 0 when the request succeeds, -1 when it is refused or
/// its range runs past the end of the address range.
pub fn sys_munmap(space: &mut AddressSpace, mem: &mut PhysMemory, start: usize, len: usize) -> (r: isize)
    requires
        old(space).wf(),
        old(mem).wf(),
        old(space).backed_by(old(mem)),
    ensures
        final(space).wf(),
        final(mem).wf(),
        final(space).backed_by(final(mem)),
        r == (if start + len > usize::MAX || munmap_outcome(old(space)@, start, len) is Err {
            -1isize
        } else {
            0isize
        }),
        r == -1 ==> final(space)@ == old(space)@ && *final(mem) == *old(mem),
        r == 0 ==> region_removed(old(space)@, final(space)@, start, len),
{
    if len > usize::MAX - start {
        return -1;
    }
    match munmap(space, mem, start, len) {
        Ok(()) => 0,
        Err(_) => -1,
    }
}

/// The get_time syscall: stores the time `ms` milliseconds after the epoch as
/// a `TimeVal` at user address `ts`, which may straddle two pages. Returns -1,
/// changing nothing, if the record's pages are not all mapped. The time-zone
/// argument is ignored.
pub fn sys_get_time(space: &AddressSpace, mem: &mut PhysMemory, ts: usize, _tz: usize, ms: usize) -> (r: isize)
    requires
        space.wf(),
        old(mem).wf(),
        space.backed_by(old(mem)),
    ensures
        final(mem).wf(),
        space.backed_by(final(mem)),
        r == (if buffer_mapped(space@, ts, TIME_VAL_SIZE) {
            0isize
        } else {
            -1isize
        }),
        r == 0 ==> virt_bytes(space@, final(mem).frames_view(), ts, TIME_VAL_SIZE) == time_val_bytes(
            TimeVal { sec: ms / 1000, usec: ((ms % 1000) * 1000) as usize },
        ),
        r == -1 ==> *final(mem) == *old(mem),
{
    let tv = TimeVal::from_ms(ms);
    let bytes = tv.to_bytes();
    match copy_out(space, mem, ts, &bytes) {
        Ok(()) => 0,
        Err(_) => -1,
    }
}

/// The task_info syscall: stores `info` at user address `ti`, which may
/// straddle two pages. Returns -1, changing nothing, if the record's pages are
/// not all mapped.
pub fn sys_task_info(space: &AddressSpace, mem: &mut PhysMemory, ti: usize, info: &TaskInfo) -> (r: isize)
    requires
        space.wf(),
        old(mem).wf(),
        space.backed_by(old(mem)),
    ensures
        final(mem).wf(),
        space.backed_by(final(mem)),
        r == (if buffer_mapped(space@, ti, TASK_INFO_SIZE) {
            0isize
        } else {
            -1isize
        }),
        r == 0 ==> virt_bytes(space@, final(mem).frames_view(), ti, TASK_INFO_SIZE) == task_info_bytes(
            info.status(),
            info.syscall_times(),
            info.time(),
        ),
        r == -1 ==> *final(mem) == *old(mem),
{
    let bytes = info.to_bytes();
    match copy_out(space, mem, ti, &bytes) {
        Ok(()) => 0,
        Err(_) => -1,
    }
}

/// The sbrk syscall's result once the scheduler has tried to move the
/// current task's program break: the previous break, or -1 if the move was
/// refused.
pub fn sys_sbrk(old_brk: Option<usize>) -> (r: isize)
    ensures
        r == match old_brk {
            Some(b) => b as isize,
            None => -1isize,
        },
{
    match old_brk {
        Some(b) => b as isize,
        None => -1,
    }
}

/// The yield syscall's result once the scheduler has switched away from the
/// current task and back: always 0.
pub fn sys_yield() -> (r: isize)
    ensures
        r == 0,
{
    0
}

} // verus!
