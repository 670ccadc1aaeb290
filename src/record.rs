//! Records that the kernel copies into user memory, and their byte layout.
use crate::config::MAX_SYSCALL_NUM;
use vstd::prelude::*;

verus! {

/// The `n` low bytes of `x`, least significant first.
pub open spec fn le_bytes(x: nat, n: nat) -> Seq<u8>
    decreases n,
{
    if n == 0 {
        Seq::empty()
    } else {
        seq![(x % 256) as u8] + le_bytes(x / 256, (n - 1) as nat)
    }
}

/// Appends the `n` low bytes of `x` to `out`, least significant first.
pub fn push_le_bytes(out: &mut Vec<u8>, x: u64, n: usize)
    ensures
        final(out)@ == old(out)@ + le_bytes(x as nat, n as nat),
{
    let mut cur: u64 = x;
    let mut i: usize = 0;
    while i < n
        invariant
            i <= n,
            out@ + le_bytes(cur as nat, (n - i) as nat) == old(out)@ + le_bytes(x as nat, n as nat),
        decreases n - i,
    {
        let ghost before = out@;
        let b = (cur % 256) as u8;
        out.push(b);
        assert(le_bytes(cur as nat, (n - i) as nat) == seq![b] + le_bytes((cur / 256) as nat, (n - i - 1) as nat));
        assert(out@ + le_bytes((cur / 256) as nat, (n - i - 1) as nat) =~= before + le_bytes(cur as nat, (n - i) as nat));
        cur = cur / 256;
        i = i + 1;
    }
    assert(out@ + le_bytes(cur as nat, 0) =~= out@);
}

/// A time of day: seconds and microseconds.
#[derive(Clone, Copy, Debug, PartialEq, Eq, Structural)]
pub struct TimeVal {
    pub sec: usize,
    pub usec: usize,
}

/// Size in bytes of a `TimeVal` in user memory.
pub const TIME_VAL_SIZE: usize = 16;

/// A time value in user memory: two eight-byte little-endian words, seconds first.
pub open spec fn time_val_bytes(t: TimeVal) -> Seq<u8> {
    le_bytes(t.sec as nat, 8) + le_bytes(t.usec as nat, 8)
}

impl TimeVal {
    /// The time `ms` milliseconds after the epoch.
    pub fn from_ms(ms: usize) -> (t: TimeVal)
        ensures
            t.sec == ms / 1000,
            t.usec == (ms % 1000) * 1000,
    {
        TimeVal { sec: ms / 1000, usec: (ms % 1000) * 1000 }
    }

    /// The bytes of this value as user memory holds them.
    pub fn to_bytes(&self) -> (b: Vec<u8>)
        ensures
            b@ == time_val_bytes(*self),
            b@.len() == TIME_VAL_SIZE,
    {
        let mut b: Vec<u8> = Vec::new();
        push_le_bytes(&mut b, self.sec as u64, 8);
        push_le_bytes(&mut b, self.usec as u64, 8);
        proof {
            lemma_le_bytes_len(self.sec as nat, 8);
            lemma_le_bytes_len(self.usec as nat, 8);
        }
        b
    }
}

pub proof fn lemma_le_bytes_len(x: nat, n: nat)
    ensures
        le_bytes(x, n).len() == n,
    decreases n,
{
    if n > 0 {
        lemma_le_bytes_len(x / 256, (n - 1) as nat);
    }
}

/// Life-cycle state of a task.
#[derive(Clone, Copy, Debug, PartialEq, Eq, Structural)]
pub enum TaskStatus {
    UnInit,
    Ready,
    Running,
    Exited,
}

/// Tag of a task status in user memory.
pub open spec fn status_tag(s: TaskStatus) -> nat {
    match s {
        TaskStatus::UnInit => 0,
        TaskStatus::Ready => 1,
        TaskStatus::Running => 2,
        TaskStatus::Exited => 3,
    }
}

/// Task information: status, per-syscall invocation counts and running time.
pub struct TaskInfo {
    status: TaskStatus,
    syscall_times: [u32; MAX_SYSCALL_NUM],
    time: usize,
}

/// Size in bytes of a `TaskInfo` in user memory.
pub const TASK_INFO_SIZE: usize = 2016;

/// The counters `c`, each as four little-endian bytes, in order.
pub open spec fn counter_bytes(c: Seq<u32>) -> Seq<u8>
    decreases c.len(),
{
    if c.len() == 0 {
        Seq::empty()
    } else {
        counter_bytes(c.drop_last()) + le_bytes(c.last() as nat, 4)
    }
}

/// A task-info record in user memory: the status tag as a four-byte word,
/// the counters as four-byte words, four bytes of padding, and the running
/// time as an eight-byte word, all little-endian.
pub open spec fn task_info_bytes(status: TaskStatus, times: Seq<u32>, time: usize) -> Seq<u8> {
    le_bytes(status_tag(status), 4) + counter_bytes(times) + le_bytes(0, 4) + le_bytes(time as nat, 8)
}

impl TaskInfo {
    /// A record with the given status, counters and running time.
    pub fn new(status: TaskStatus, syscall_times: [u32; MAX_SYSCALL_NUM], time: usize) -> (ti: TaskInfo)
        ensures
            ti.status() == status,
            ti.syscall_times() == syscall_times@,
            ti.time() == time,
    {
        TaskInfo { status, syscall_times, time }
    }

    pub closed spec fn status(&self) -> TaskStatus {
        self.status
    }

    pub closed spec fn syscall_times(&self) -> Seq<u32> {
        self.syscall_times@
    }

    pub closed spec fn time(&self) -> usize {
        self.time
    }

    /// The bytes of this record as user memory holds them.
    pub fn to_bytes(&self) -> (b: Vec<u8>)
        ensures
            b@ == task_info_bytes(self.status(), self.syscall_times(), self.time()),
            b@.len() == TASK_INFO_SIZE,
    {
        let mut b: Vec<u8> = Vec::new();
        let tag: u64 = match self.status {
            TaskStatus::UnInit => 0,
            TaskStatus::Ready => 1,
            TaskStatus::Running => 2,
            TaskStatus::Exited => 3,
        };
        push_le_bytes(&mut b, tag, 4);
        let ghost head = b@;
        let mut i: usize = 0;
        while i < MAX_SYSCALL_NUM
            invariant
                i <= MAX_SYSCALL_NUM,
                self.syscall_times@.len() == MAX_SYSCALL_NUM,
                b@ == head + counter_bytes(self.syscall_times@.take(i as int)),
            decreases MAX_SYSCALL_NUM - i,
        {
            let ghost before = b@;
            push_le_bytes(&mut b, self.syscall_times[i] as u64, 4);
            assert(self.syscall_times@.take(i + 1).drop_last() =~= self.syscall_times@.take(i as int));
            assert(b@ =~= head + counter_bytes(self.syscall_times@.take(i + 1)));
            i = i + 1;
        }
        assert(self.syscall_times@.take(i as int) =~= self.syscall_times@);
        push_le_bytes(&mut b, 0, 4);
        push_le_bytes(&mut b, self.time as u64, 8);
        proof {
            lemma_le_bytes_len(status_tag(self.status), 4);
            lemma_le_bytes_len(0, 4);
            lemma_le_bytes_len(self.time as nat, 8);
            lemma_counter_bytes_len(self.syscall_times@);
            assert(b@ =~= task_info_bytes(self.status(), self.syscall_times(), self.time()));
        }
        b
    }
}

pub proof fn lemma_counter_bytes_len(c: Seq<u32>)
    ensures
        counter_bytes(c).len() == 4 * c.len(),
    decreases c.len(),
{
    if c.len() > 0 {
        lemma_counter_bytes_len(c.drop_last());
        lemma_le_bytes_len(c.last() as nat, 4);
    }
}

} // verus!
