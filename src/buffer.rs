//! Reading and writing user buffers through their translated views.
use crate::config::PAGE_SIZE;
use crate::memory::PhysMemory;
use crate::translate::{ByteBufferView, PhysRange};
use vstd::prelude::*;

verus! {

/// Number of bytes that the runs `r` cover together.
pub open spec fn total_len(r: Seq<PhysRange>) -> nat
    decreases r.len(),
{
    if r.len() == 0 {
        0
    } else {
        total_len(r.drop_last()) + r.last().len as nat
    }
}

/// Logical position at which run `i` of `r` starts.
pub open spec fn run_start(r: Seq<PhysRange>, i: int) -> nat {
    total_len(r.take(i))
}

/// Bytes of run `p` in physical memory `frames`.
pub open spec fn run_bytes(frames: Seq<Seq<u8>>, p: PhysRange) -> Seq<u8> {
    frames[p.frame as int].subrange(p.offset as int, p.offset + p.len)
}

/// Bytes of all runs of `r`, in order.
pub open spec fn gather(frames: Seq<Seq<u8>>, r: Seq<PhysRange>) -> Seq<u8>
    decreases r.len(),
{
    if r.len() == 0 {
        Seq::empty()
    } else {
        gather(frames, r.drop_last()) + run_bytes(frames, r.last())
    }
}

/// Every run lies inside one existing frame.
pub open spec fn runs_fit(frames: Seq<Seq<u8>>, r: Seq<PhysRange>) -> bool {
    forall|i: int|
        0 <= i < r.len() ==> (#[trigger] r[i]).frame < frames.len() && r[i].offset + r[i].len
            <= PAGE_SIZE
}

/// No two runs share a frame.
pub open spec fn runs_disjoint(r: Seq<PhysRange>) -> bool {
    forall|i: int, j: int|
        0 <= i < r.len() && 0 <= j < r.len() && i != j ==> (#[trigger] r[i]).frame != (
        #[trigger] r[j]).frame
}

/// Whether byte `o` of frame `f` belongs to some run of `r`.
pub open spec fn covered(r: Seq<PhysRange>, f: int, o: int) -> bool {
    exists|i: int|
        0 <= i < r.len() && (#[trigger] r[i]).frame == f && r[i].offset <= o < r[i].offset
            + r[i].len
}

/// Each run `i` of `r` holds the bytes of `data` from its logical start on.
pub open spec fn runs_hold(frames: Seq<Seq<u8>>, r: Seq<PhysRange>, data: Seq<u8>) -> bool {
    forall|i: int|
        0 <= i < r.len() ==> #[trigger] run_bytes(frames, r[i]) == data.subrange(
            run_start(r, i) as int,
            run_start(r, i) + r[i].len,
        )
}

/// `after` is `before` with `data` stored through the runs `r` and every
/// other byte kept.
pub open spec fn scattered(
    before: Seq<Seq<u8>>,
    after: Seq<Seq<u8>>,
    r: Seq<PhysRange>,
    data: Seq<u8>,
) -> bool {
    &&& after.len() == before.len()
    &&& forall|f: int| 0 <= f < before.len() ==> (#[trigger] after[f]).len() == before[f].len()
    &&& runs_hold(after, r, data)
    &&& forall|f: int, o: int|
        0 <= f < before.len() && 0 <= o < before[f].len() && !covered(r, f, o)
            ==> #[trigger] after[f][o] == before[f][o]
}

/// The logical start of a run never passes the total.
pub proof fn lemma_run_start_bound(r: Seq<PhysRange>, i: int)
    requires
        0 <= i < r.len(),
    ensures
        run_start(r, i) + r[i].len <= total_len(r),
        run_start(r, i + 1) == run_start(r, i) + r[i].len,
    decreases r.len(),
{
    assert(r.take(i + 1).drop_last() =~= r.take(i));
    if i < r.len() - 1 {
        lemma_run_start_bound(r.drop_last(), i);
        assert(r.drop_last().take(i) =~= r.take(i));
        assert(r.drop_last().take(i + 1) =~= r.take(i + 1));
    } else {
        assert(r.take(i + 1) =~= r);
    }
}

/// Bytes stored through the runs `r` read back through the same runs: a view
/// returns exactly what was written into it.
pub proof fn lemma_round_trip(
    before: Seq<Seq<u8>>,
    after: Seq<Seq<u8>>,
    r: Seq<PhysRange>,
    data: Seq<u8>,
)
    requires
        scattered(before, after, r, data),
        data.len() == total_len(r),
    ensures
        gather(after, r) == data,
{
    lemma_gather_runs_hold(after, r, data);
}

proof fn lemma_gather_runs_hold(frames: Seq<Seq<u8>>, r: Seq<PhysRange>, data: Seq<u8>)
    requires
        runs_hold(frames, r, data),
        data.len() == total_len(r),
    ensures
        gather(frames, r) == data,
    decreases r.len(),
{
    if r.len() == 0 {
        assert(data =~= Seq::<u8>::empty());
    } else {
        let r1 = r.drop_last();
        let n = r.len() - 1;
        let d1 = data.take(total_len(r1) as int);
        assert forall|i: int| 0 <= i < r1.len() implies #[trigger] run_bytes(frames, r1[i]) == d1.subrange(
            run_start(r1, i) as int,
            run_start(r1, i) + r1[i].len,
        ) by {
            assert(r1.take(i) =~= r.take(i));
            lemma_run_start_bound(r1, i);
            assert(run_bytes(frames, r[i]) == data.subrange(run_start(r, i) as int, run_start(r, i) + r[i].len));
            assert(d1.subrange(run_start(r1, i) as int, run_start(r1, i) + r1[i].len) =~= data.subrange(
                run_start(r, i) as int,
                run_start(r, i) + r[i].len,
            ));
        }
        lemma_gather_runs_hold(frames, r1, d1);
        assert(r.take(n) =~= r1);
        assert(run_bytes(frames, r[n]) == data.subrange(run_start(r, n) as int, run_start(r, n) + r[n].len));
        assert(data =~= d1 + run_bytes(frames, r.last()));
    }
}

/// The bytes of the buffer that `view` describes.
pub fn read_view(mem: &PhysMemory, view: &ByteBufferView) -> (out: Vec<u8>)
    requires
        mem.wf(),
        runs_fit(mem.frames_view(), view.ranges@),
    ensures
        out@ == gather(mem.frames_view(), view.ranges@),
{
    let ghost r = view.ranges@;
    let ghost frames = mem.frames_view();
    let mut out: Vec<u8> = Vec::new();
    let mut i: usize = 0;
    while i < view.ranges.len()
        invariant
            r == view.ranges@,
            frames == mem.frames_view(),
            mem.wf(),
            runs_fit(frames, r),
            i <= r.len(),
            out@ == gather(frames, r.take(i as int)),
        decreases r.len() - i,
    {
        let run = view.ranges[i];
        let ghost prefix = out@;
        let mut k: usize = 0;
        while k < run.len
            invariant
                run == r[i as int],
                frames == mem.frames_view(),
                mem.wf(),
                run.frame < frames.len(),
                run.offset + run.len <= PAGE_SIZE,
                k <= run.len,
                out@ == prefix + run_bytes(frames, run).take(k as int),
            decreases run.len - k,
        {
            let b = mem.read_byte(run.frame, run.offset + k);
            out.push(b);
            assert(run_bytes(frames, run).take(k + 1) =~= run_bytes(frames, run).take(k as int).push(b));
            k = k + 1;
        }
        assert(r.take(i + 1).drop_last() =~= r.take(i as int));
        assert(run_bytes(frames, run).take(k as int) =~= run_bytes(frames, run));
        i = i + 1;
    }
    assert(r.take(i as int) =~= r);
    out
}

/// Stores `data` through `view`: its bytes go, in order, to the runs of the view.
pub fn write_view(mem: &mut PhysMemory, view: &ByteBufferView, data: &Vec<u8>)
    requires
        old(mem).wf(),
        runs_fit(old(mem).frames_view(), view.ranges@),
        runs_disjoint(view.ranges@),
        data@.len() == total_len(view.ranges@),
    ensures
        final(mem).wf(),
        final(mem).free_view() == old(mem).free_view(),
        scattered(old(mem).frames_view(), final(mem).frames_view(), view.ranges@, data@),
{
    let ghost r = view.ranges@;
    let ghost before = mem.frames_view();
    let n = data.len();
    let mut i: usize = 0;
    let mut pos: usize = 0;
    while i < view.ranges.len()
        invariant
            r == view.ranges@,
            before == old(mem).frames_view(),
            old(mem).wf(),
            mem.wf(),
            mem.free_view() == old(mem).free_view(),
            runs_fit(before, r),
            runs_disjoint(r),
            data@.len() == total_len(r),
            n == data@.len(),
            i <= r.len(),
            pos == run_start(r, i as int),
            mem.frames_view().len() == before.len(),
            forall|f: int| 0 <= f < before.len() ==> (#[trigger] mem.frames_view()[f]).len() == before[f].len(),
            forall|a: int|
                0 <= a < i ==> #[trigger] run_bytes(mem.frames_view(), r[a]) == data@.subrange(
                    run_start(r, a) as int,
                    run_start(r, a) + r[a].len,
                ),
            forall|f: int, o: int|
                0 <= f < before.len() && 0 <= o < before[f].len() && !covered(r.take(i as int), f, o)
                    ==> #[trigger] mem.frames_view()[f][o] == before[f][o],
        decreases r.len() - i,
    {
        let run = view.ranges[i];
        proof {
            lemma_run_start_bound(r, i as int);
        }
        let ghost mid = mem.frames_view();
        let mut k: usize = 0;
        while k < run.len
            invariant
                run == r[i as int],
                i < r.len(),
                mem.wf(),
                mem.free_view() == old(mem).free_view(),
                runs_fit(before, r),
                runs_disjoint(r),
                run.frame < before.len(),
                run.offset + run.len <= PAGE_SIZE,
                pos + run.len <= n,
                n == data@.len(),
                k <= run.len,
                mid.len() == before.len(),
                mem.frames_view().len() == mid.len(),
                old(mem).wf(),
                before == old(mem).frames_view(),
                forall|f: int| 0 <= f < mid.len() && f != run.frame ==> #[trigger] mem.frames_view()[f] == mid[f],
                mem.frames_view()[run.frame as int].len() == PAGE_SIZE,
                forall|o: int| 0 <= o < PAGE_SIZE && !(run.offset <= o < run.offset + k)
                    ==> #[trigger] mem.frames_view()[run.frame as int][o] == mid[run.frame as int][o],
                forall|m: int| 0 <= m < k ==> #[trigger] mem.frames_view()[run.frame as int][run.offset + m] == data@[pos + m],
            decreases run.len - k,
        {
            let b = data[pos + k];
            mem.write_byte(run.frame, run.offset + k, b);
            k = k + 1;
        }
        proof {
            let cur = mem.frames_view();
            assert forall|m: int| 0 <= m < run.len implies #[trigger] run_bytes(cur, run)[m] == data@.subrange(pos as int, pos + run.len)[m] by {
                assert(cur[run.frame as int][run.offset + m] == data@[pos + m]);
            }
            assert(run_bytes(cur, run) =~= data@.subrange(pos as int, pos + run.len));
            assert forall|a: int|
                0 <= a < i + 1 implies #[trigger] run_bytes(cur, r[a]) == data@.subrange(
                    run_start(r, a) as int,
                    run_start(r, a) + r[a].len,
                ) by {
                if a < i {
                    assert(r[a].frame != r[i as int].frame);
                    assert(run_bytes(mid, r[a]) == data@.subrange(run_start(r, a) as int, run_start(r, a) + r[a].len));
                }
            }
            assert forall|f: int, o: int|
                0 <= f < before.len() && 0 <= o < before[f].len() && !covered(r.take(i + 1), f, o)
                    implies #[trigger] cur[f][o] == before[f][o] by {
                let t = r.take(i as int);
                let t1 = r.take(i + 1);
                assert(t1[i as int] == run);
                if covered(t, f, o) {
                    let a = choose|a: int| 0 <= a < t.len() && (#[trigger] t[a]).frame == f && t[a].offset <= o < t[a].offset + t[a].len;
                    assert(t1[a] == t[a]);
                }
                assert(!covered(t, f, o));
                assert(mid[f][o] == before[f][o]);
                if f == run.frame {
                    assert(!(run.offset <= o < run.offset + run.len));
                    assert(o < PAGE_SIZE);
                } else {
                    assert(cur[f] == mid[f]);
                }
            }
        }
        pos = pos + run.len;
        i = i + 1;
    }
    assert(r.take(i as int) =~= r);
}

} // verus!
