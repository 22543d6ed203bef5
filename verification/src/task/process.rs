//! Processes: what the threads of a program share.
use vstd::prelude::*;
use super::action::SignalActions;
use super::id::RecycleAllocator;
use super::manager::queue_contains;
use super::pid::PidHandle;
use super::signal::SignalFlags;
use crate::mm::address::PPN_LIMIT;
use crate::mm::memory_set::MemorySet;
use crate::sync::condvar::Condvar;
use crate::sync::mutex::{Mutex, MutexBlocking, MutexSpin};
use crate::sync::semaphore::Semaphore;
use crate::trap::context::TrapContext;

verus! {

/// An open file.
#[derive(Copy, Clone, Debug, PartialEq, Eq, Structural)]
pub enum FileHandle {
    Stdin,
    Stdout,
    /// a file of the file system, by its number in the table of open files
    Opened(usize),
}

/// A mutex of a process.
#[derive(Debug)]
pub enum ProcessMutex {
    Spin(MutexSpin),
    Blocking(MutexBlocking),
}

/// A process.
pub struct ProcessControlBlock {
    /// the pid, which never changes
    pub pid: PidHandle,
    /// what changes while the process lives
    pub inner: ProcessControlBlockInner,
}

/// The part of a process that changes.
pub struct ProcessControlBlockInner {
    pub is_zombie: bool,
    pub memory_set: MemorySet,
    pub parent: Option<usize>,
    pub children: Vec<usize>,
    pub exit_code: i32,
    pub fd_table: Vec<Option<FileHandle>>,
    pub signals: SignalFlags,
    pub signal_mask: SignalFlags,
    /// the signal whose handler runs, or -1
    pub handling_sig: isize,
    pub signal_actions: SignalActions,
    pub killed: bool,
    pub frozen: bool,
    pub trap_ctx_backup: Option<TrapContext>,
    /// the threads of the process, by their number in it
    pub tasks: Vec<Option<usize>>,
    pub task_res_allocator: RecycleAllocator,
    pub mutex_list: Vec<Option<ProcessMutex>>,
    pub semaphore_list: Vec<Option<Semaphore>>,
    pub condvar_list: Vec<Option<Condvar>>,
}

/// The first free descriptor from `i` on, or the length of the table if there
/// is none.
pub open spec fn free_fd(table: Seq<Option<FileHandle>>, i: int) -> int
    decreases table.len() - i,
{
    if i >= table.len() {
        table.len() as int
    } else if table[i] is None {
        i
    } else {
        free_fd(table, i + 1)
    }
}

proof fn lemma_free_fd(table: Seq<Option<FileHandle>>, i: int)
    requires
        0 <= i <= table.len(),
        forall|j: int| 0 <= j < i ==> #[trigger] table[j] is Some,
    ensures
        free_fd(table, i) == free_fd(table, 0),
    decreases i,
{
    if i > 0 {
        assert(table[i - 1] is Some);
        lemma_free_fd(table, i - 1);
    }
}

impl ProcessControlBlockInner {
    /// Whether the signal whose handler runs, if any, is a signal.
    pub open spec fn signals_wf(&self) -> bool {
        -1 <= self.handling_sig <= 31
    }

    /// Whether thread `t` waits for a mutex of the process.
    pub open spec fn mutex_waits(&self, i: int, t: usize) -> bool {
        self.mutex_list@[i] matches Some(ProcessMutex::Blocking(m)) && m.waiting().contains(t)
    }

    /// Whether thread `t` waits for a semaphore of the process.
    pub open spec fn semaphore_waits(&self, i: int, t: usize) -> bool {
        self.semaphore_list@[i] matches Some(s) && s.inner.wait_queue@.contains(t)
    }

    /// Whether thread `t` waits for a condition variable of the process.
    pub open spec fn condvar_waits(&self, i: int, t: usize) -> bool {
        self.condvar_list@[i] matches Some(c) && c.inner.wait_queue@.contains(t)
    }

    /// Whether thread `t` waits for something of the process.
    pub open spec fn waits(&self, t: usize) -> bool {
        ||| exists|i: int| 0 <= i < self.mutex_list@.len() && self.mutex_waits(i, t)
        ||| exists|i: int| 0 <= i < self.semaphore_list@.len() && self.semaphore_waits(i, t)
        ||| exists|i: int| 0 <= i < self.condvar_list@.len() && self.condvar_waits(i, t)
    }

    /// Whether a thread waits for something of the process.
    pub fn is_waiting(&self, t: usize) -> (r: bool)
        ensures
            r == self.waits(t),
    {
        let mut i: usize = 0;
        while i < self.mutex_list.len()
            invariant
                i <= self.mutex_list@.len(),
                forall|k: int| 0 <= k < i ==> !#[trigger] self.mutex_waits(k, t),
            decreases self.mutex_list@.len() - i,
        {
            if let Some(ProcessMutex::Blocking(m)) = &self.mutex_list[i] {
                if m.waits(t) {
                    assert(self.mutex_waits(i as int, t));
                    return true;
                }
            }
            i = i + 1;
        }
        i = 0;
        while i < self.semaphore_list.len()
            invariant
                i <= self.semaphore_list@.len(),
                forall|k: int| 0 <= k < i ==> !#[trigger] self.semaphore_waits(k, t),
                forall|k: int|
                    0 <= k < self.mutex_list@.len() ==> !#[trigger] self.mutex_waits(k, t),
            decreases self.semaphore_list@.len() - i,
        {
            if let Some(s) = &self.semaphore_list[i] {
                if queue_contains(&s.inner.wait_queue, t) {
                    assert(self.semaphore_waits(i as int, t));
                    return true;
                }
            }
            i = i + 1;
        }
        i = 0;
        while i < self.condvar_list.len()
            invariant
                i <= self.condvar_list@.len(),
                forall|k: int| 0 <= k < i ==> !#[trigger] self.condvar_waits(k, t),
                forall|k: int|
                    0 <= k < self.semaphore_list@.len() ==> !#[trigger] self.semaphore_waits(k, t),
                forall|k: int|
                    0 <= k < self.mutex_list@.len() ==> !#[trigger] self.mutex_waits(k, t),
            decreases self.condvar_list@.len() - i,
        {
            if let Some(c) = &self.condvar_list[i] {
                if queue_contains(&c.inner.wait_queue, t) {
                    assert(self.condvar_waits(i as int, t));
                    return true;
                }
            }
            i = i + 1;
        }
        false
    }

    /// The token of the address space.
    pub fn get_user_token(&self) -> (r: u64)
        requires
            self.memory_set.root() < PPN_LIMIT,
        ensures
            r == self.memory_set.root() * 0x1000,
    {
        self.memory_set.token()
    }

    /// Find a free file descriptor: the lowest free one, or a new one at the
    /// end of the table.
    pub fn alloc_fd(&mut self) -> (r: usize)
        ensures
            r == free_fd(old(self).fd_table@, 0),
            final(self).fd_table@ == (if r < old(self).fd_table@.len() {
                old(self).fd_table@
            } else {
                old(self).fd_table@.push(None)
            }),
            *final(self) == (ProcessControlBlockInner {
                fd_table: final(self).fd_table,
                ..*old(self)
            }),
    {
        let mut fd: usize = 0;
        while fd < self.fd_table.len()
            invariant
                fd <= self.fd_table@.len(),
                *self == *old(self),
                forall|j: int| 0 <= j < fd ==> #[trigger] self.fd_table@[j] is Some,
            decreases self.fd_table@.len() - fd,
        {
            if self.fd_table[fd].is_none() {
                proof {
                    lemma_free_fd(self.fd_table@, fd as int);
                }
                return fd;
            }
            fd = fd + 1;
        }
        proof {
            lemma_free_fd(self.fd_table@, fd as int);
        }
        self.fd_table.push(None);
        self.fd_table.len() - 1
    }

    /// Hand out a number for a thread.
    pub fn alloc_tid(&mut self) -> (r: usize)
        requires
            old(self).task_res_allocator@.recycled.len() == 0
                ==> old(self).task_res_allocator@.current < usize::MAX,
        ensures
            r == old(self).task_res_allocator@.next_id(),
            final(self).task_res_allocator@ == old(self).task_res_allocator@.after_alloc(),
            *final(self) == (ProcessControlBlockInner {
                task_res_allocator: final(self).task_res_allocator,
                ..*old(self)
            }),
    {
        self.task_res_allocator.alloc_id()
    }

    /// Take back the number of a thread.
    pub fn dealloc_tid(&mut self, tid: usize)
        requires
            old(self).task_res_allocator@.live(tid),
        ensures
            final(self).task_res_allocator@ == old(self).task_res_allocator@.after_dealloc(tid),
            *final(self) == (ProcessControlBlockInner {
                task_res_allocator: final(self).task_res_allocator,
                ..*old(self)
            }),
    {
        self.task_res_allocator.dealloc(tid)
    }

    /// The number of threads, those that have exited but were not waited for
    /// included.
    pub fn thread_count(&self) -> (r: usize)
        ensures
            r == self.tasks@.len(),
    {
        self.tasks.len()
    }

    /// Thread `tid`.
    pub fn get_task(&self, tid: usize) -> (r: usize)
        requires
            tid < self.tasks@.len(),
            self.tasks@[tid as int] is Some,
        ensures
            Some(r) == self.tasks@[tid as int],
    {
        self.tasks[tid].unwrap()
    }
}

impl ProcessControlBlock {
    /// The pid.
    pub fn getpid(&self) -> (r: usize)
        ensures
            r == self.pid.0,
    {
        self.pid.0
    }
}

} // verus!
