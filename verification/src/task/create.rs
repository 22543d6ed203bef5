//! Making threads and processes.
use vstd::prelude::*;
use super::context::TaskContext;
use super::action::{default_action, SignalAction, SignalActions};
use super::id::{
    alloc_takes_unused_id, ustack_bottom, IdView, KernelStack, RecycleAllocator, TaskUserRes,
};
use super::kernel::{
    kstack_alloc, lemma_memory_kept, lemma_processor_kept, lemma_spaces_insert, lemma_stack_page,
    memory_wf, names_wf, new_thread, parked, processes_wf, processor_wf, references_wf, known,
    schedule_wf, stack_area, stack_frames, threads_wf, user_space, ustack_area, ustack_frames,
    Kernel,
};
use super::pid::{pid_alloc, PidHandle};
use super::process::{FileHandle, ProcessControlBlock, ProcessControlBlockInner};
use super::schedule::{add_task, insert_into_pid2process};
use super::signal::SignalFlags;
use super::task::{TaskControlBlock, TaskControlBlockInner, TaskStatus};
use crate::config::{NCPU, USER_STACK_SIZE};
use crate::mm::map_area::{pages_mappable, AreaView};
use crate::mm::frame_allocator::FramePool;
use crate::mm::elf::{elf_entry, image_segments, image_stack_bottom, loadable, segment_areas};
use crate::mm::memory_set::{
    areas_needed, bare_tables, config, configs, holds_segments, lemma_image_framed,
    lemma_segments_kept, physmap_slot, pushed, space_made, MemorySet,
};
use crate::mm::page_table::lemma_root_is_table;
use crate::mm::phys::PhysMemory;
use crate::mm::spaces::{
    confined, lemma_bystander, lemma_confined_trans, lemma_made_confined, lemma_space_changed,
};
use crate::trap::context::{app_context, TrapContext};

verus! {

/// The number that the next thread of process `pid` gets.
pub open spec fn next_tid<M: PhysMemory>(kernel: &Kernel<M>, pid: usize) -> usize {
    kernel.processes@[pid].inner.task_res_allocator@.next_id() as usize
}

/// What it takes to make a thread of process `pid`.
pub open spec fn thread_makeable<M: PhysMemory>(
    kernel: &Kernel<M>,
    pid: usize,
    ustack_base: u64,
    alloc_user_res: bool,
) -> bool {
    let inner = kernel.processes@[pid].inner;
    let tid = next_tid(kernel, pid);
    &&& kernel.processes@.dom().contains(pid)
    &&& inner.task_res_allocator@.next_id() < usize::MAX
    &&& 0 <= inner.task_res_allocator@.next_id()
    &&& alloc_user_res ==> {
        let a = ustack_area(ustack_base, tid);
        &&& ustack_bottom(ustack_base, tid) + USER_STACK_SIZE <= u64::MAX
        &&& a.end <= inner.memory_set.table().slots() * 0x800_0000
        &&& pages_mappable(a, &inner.memory_set.table(), &kernel.pool, a.start, a.end)
    }
}

/// `kernel` came from `kernel0` by handing out a thread number of process
/// `pid`, and its user stack if `alloc_user_res` is set.
pub open spec fn thread_numbered<M: PhysMemory>(
    kernel: &Kernel<M>,
    kernel0: &Kernel<M>,
    pid: usize,
    ustack_base: u64,
    alloc_user_res: bool,
) -> bool {
    let p0 = kernel0.processes@[pid];
    let p1 = kernel.processes@[pid];
    &&& kernel.processes@ == kernel0.processes@.insert(pid, p1)
    &&& p1 == (ProcessControlBlock {
        inner: ProcessControlBlockInner {
            task_res_allocator: p1.inner.task_res_allocator,
            memory_set: p1.inner.memory_set,
            ..p0.inner
        },
        ..p0
    })
    &&& p1.inner.task_res_allocator@ == p0.inner.task_res_allocator@.after_alloc()
    &&& if alloc_user_res {
        &&& pushed(
            &p1.inner.memory_set,
            &kernel.pool,
            &p0.inner.memory_set,
            &kernel0.pool,
            ustack_area(ustack_base, next_tid(kernel0, pid)),
            None,
        )
        &&& confined(&kernel.pool, &kernel0.pool, p0.inner.memory_set.owned())
    } else {
        p1.inner.memory_set == p0.inner.memory_set && kernel.pool == kernel0.pool
    }
    &&& *kernel == (Kernel { pool: kernel.pool, processes: kernel.processes, ..*kernel0 })
}

impl TaskUserRes {
    /// Make the user resources of a new thread of `process`: its number and,
    /// if `alloc_user_res` is set, its user stack.
    pub fn new<M: PhysMemory>(
        kernel: &mut Kernel<M>,
        process: usize,
        ustack_base: u64,
        alloc_user_res: bool,
    ) -> (r: Self)
        requires
            old(kernel).mem_wf(),
            thread_makeable(old(kernel), process, ustack_base, alloc_user_res),
        ensures
            final(kernel).mem_wf(),
            r == (TaskUserRes { tid: next_tid(old(kernel), process), ustack_base, process }),
            thread_numbered(final(kernel), old(kernel), process, ustack_base, alloc_user_res),
    {
        let ghost k0 = *kernel;
        let mut pcb = kernel.processes.remove(&process).unwrap();
        let tid: usize = pcb.inner.alloc_tid();
        let ghost p0 = k0.processes@[process];
        let ghost p1 = pcb;
        kernel.processes.insert(process, pcb);
        proof {
            assert(kernel.processes@ =~= k0.processes@.insert(process, p1));
            assert(kernel.spaces() =~= k0.spaces());
            lemma_memory_kept(kernel, &k0);
        }
        let task_user_res = TaskUserRes { tid, ustack_base, process };
        if alloc_user_res {
            task_user_res.alloc_user_res(kernel);
            proof {
                assert(kernel.processes@ =~= k0.processes@.insert(
                    process,
                    kernel.processes@[process],
                ));
            }
        }
        task_user_res
    }
}

impl TaskControlBlock {
    /// Make a thread of `process`. If `alloc_user_res` is set, it gets a new
    /// user stack; the main thread of a process that was loaded or copied has
    /// one already.
    pub fn new<M: PhysMemory>(
        kernel: &mut Kernel<M>,
        process: usize,
        ustack_base: u64,
        alloc_user_res: bool,
    ) -> (r: Self)
        requires
            old(kernel).mem_wf(),
            thread_makeable(old(kernel), process, ustack_base, alloc_user_res),
            old(kernel).kstack_available(),
            old(kernel).pool.free_count() >= stack_frames(
                &old(kernel).kernel_space,
                &old(kernel).pool,
                old(kernel).next_kstack(),
            ) + (if alloc_user_res {
                ustack_frames(
                    &old(kernel).processes@[process].inner.memory_set,
                    &old(kernel).pool,
                    ustack_base,
                    next_tid(old(kernel), process),
                )
            } else {
                0
            }),
        ensures
            final(kernel).mem_wf(),
            r == new_thread(
                old(kernel).next_kstack(),
                TaskUserRes { tid: next_tid(old(kernel), process), ustack_base, process },
                old(kernel).restore,
                app_context(0, 0),
            ),
            thread_made(final(kernel), old(kernel), process, ustack_base, alloc_user_res),
    {
        let ghost k0 = *kernel;
        let ghost p0 = k0.processes@[process];
        proof {
            reveal(memory_wf);
            assert(k0.spaces().dom().contains(process));
        }
        let res = TaskUserRes::new(kernel, process, ustack_base, alloc_user_res);
        let ghost k1 = *kernel;
        proof {
            if alloc_user_res {
                lemma_bystander(
                    &k0.kernel_space,
                    &k1.pool,
                    &k0.pool,
                    p0.inner.memory_set.owned(),
                );
            }
        }
        let kstack: KernelStack = kstack_alloc(kernel);
        let trap_cx: TrapContext = TrapContext::app_init_context(0, 0);
        let trap_cx_ptr: u64 = kstack.push_context();
        let task_cx: TaskContext = TaskContext::goto_restore(kernel.restore, trap_cx_ptr);
        Self {
            process,
            kstack,
            last_cpu: 0,
            inner: TaskControlBlockInner {
                res: Some(res),
                trap_cx_ptr,
                trap_cx,
                task_cx,
                task_status: TaskStatus::Ready,
                exit_code: None,
            },
        }
    }
}

/// `kernel` came from `kernel0` by making a kernel stack.
pub open spec fn kstack_made<M: PhysMemory>(kernel: &Kernel<M>, kernel0: &Kernel<M>) -> bool {
    &&& kernel.same_but_memory(kernel0)
    &&& kernel.kstack_allocator@ == kernel0.kstack_allocator@.after_alloc()
    &&& pushed(
        &kernel.kernel_space,
        &kernel.pool,
        &kernel0.kernel_space,
        &kernel0.pool,
        stack_area(kernel0.next_kstack()),
        None,
    )
    &&& confined(&kernel.pool, &kernel0.pool, kernel0.kernel_space.owned())
    &&& kernel.kernel_space.owned().union(kernel.pool.free())
        == kernel0.kernel_space.owned().union(kernel0.pool.free())
}

/// `kernel` came from `kernel0` by making a thread of process `pid`: first its
/// number and its user stack, then its kernel stack.
pub open spec fn thread_made<M: PhysMemory>(
    kernel: &Kernel<M>,
    kernel0: &Kernel<M>,
    pid: usize,
    ustack_base: u64,
    alloc_user_res: bool,
) -> bool {
    exists|k1: Kernel<M>|
        #[trigger] thread_numbered(&k1, kernel0, pid, ustack_base, alloc_user_res) && kstack_made(
            kernel,
            &k1,
        )
}

/// A process as it is made.
pub open spec fn fresh_process(
    inner: ProcessControlBlockInner,
    parent: Option<usize>,
    fds: Seq<Option<FileHandle>>,
    mask: SignalFlags,
    actions: Seq<SignalAction>,
) -> bool {
    &&& !inner.is_zombie
    &&& inner.parent == parent
    &&& inner.children@ == Seq::<usize>::empty()
    &&& inner.exit_code == 0
    &&& inner.fd_table@ == fds
    &&& inner.signals.bits == 0
    &&& inner.signal_mask == mask
    &&& inner.handling_sig == -1
    &&& inner.signal_actions.table@ == actions
    &&& !inner.killed
    &&& !inner.frozen
    &&& inner.trap_ctx_backup is None
    &&& inner.mutex_list@.len() == 0
    &&& inner.semaphore_list@.len() == 0
    &&& inner.condvar_list@.len() == 0
}

/// The process has one thread, `id`, which is its main thread.
pub open spec fn one_thread(inner: ProcessControlBlockInner, id: usize) -> bool {
    &&& inner.tasks@ == seq![Some(id)]
    &&& inner.task_res_allocator@ == (IdView { current: 1, recycled: Seq::empty() })
}

/// Attach a new thread to its process, and let the scheduler know it and the
/// process be found by its pid.
pub fn enroll<M: PhysMemory>(kernel: &mut Kernel<M>, pid: usize, task: TaskControlBlock)
    requires
        old(kernel).processes@.dom().contains(pid),
    ensures
        ({
            let p0 = old(kernel).processes@[pid];
            let p1 = final(kernel).processes@[pid];
            &&& final(kernel).processes@ == old(kernel).processes@.insert(pid, p1)
            &&& p1 == (ProcessControlBlock {
                inner: ProcessControlBlockInner { tasks: p1.inner.tasks, ..p0.inner },
                ..p0
            })
            &&& p1.inner.tasks@ == p0.inner.tasks@.push(Some(task.kstack.id))
            &&& final(kernel).tasks@ == old(kernel).tasks@.insert(task.kstack.id, task)
            &&& final(kernel).pid2process@ == old(kernel).pid2process@.insert(pid, pid)
            &&& final(kernel).task_manager@ == old(kernel).task_manager@.push(task.kstack.id)
            &&& *final(kernel) == (Kernel {
                processes: final(kernel).processes,
                tasks: final(kernel).tasks,
                pid2process: final(kernel).pid2process,
                task_manager: final(kernel).task_manager,
                ..*old(kernel)
            })
        }),
{
    let ghost k0 = *kernel;
    let mut process = kernel.processes.remove(&pid).unwrap();
    process.inner.tasks.push(Some(task.kstack.id));
    let ghost p1 = process;
    kernel.processes.insert(pid, process);
    assert(kernel.processes@ =~= k0.processes@.insert(pid, p1));
    kernel.tasks.insert(task.kstack.id, task);
    insert_into_pid2process(kernel, pid, pid);
    add_task(kernel, task.kstack.id);
}

/// `kernel` came from `kernel0` by making process `pid` with main thread
/// `task`. The other processes stay as they were but for their lists of
/// children.
pub open spec fn process_enrolled<M: PhysMemory>(
    kernel: &Kernel<M>,
    kernel0: &Kernel<M>,
    pid: usize,
    task: TaskControlBlock,
) -> bool {
    &&& pid == kernel0.pid_allocator@.next_id()
    &&& task.kstack.id == kernel0.kstack_allocator@.next_id()
    &&& kernel.pid_allocator@ == kernel0.pid_allocator@.after_alloc()
    &&& kernel.kstack_allocator@ == kernel0.kstack_allocator@.after_alloc()
    &&& kernel.tasks@ == kernel0.tasks@.insert(task.kstack.id, task)
    &&& kernel.pid2process@ == kernel0.pid2process@.insert(pid, pid)
    &&& kernel.task_manager@ == kernel0.task_manager@.push(task.kstack.id)
    &&& kernel.timers == kernel0.timers
    &&& kernel.processors == kernel0.processors
    &&& kernel.initproc == kernel0.initproc
    &&& kernel.console == kernel0.console
    &&& kernel.orphans == kernel0.orphans
    &&& kernel.phys_offset == kernel0.phys_offset
    &&& kernel.restore == kernel0.restore
}

/// Making a process keeps the names sound.
pub proof fn lemma_enrolled_refs<M: PhysMemory>(
    kernel: &Kernel<M>,
    kernel0: &Kernel<M>,
    pid: usize,
    task: TaskControlBlock,
)
    requires
        kernel0.wf(),
        process_enrolled(kernel, kernel0, pid, task),
        task.inner.res is Some,
        task.inner.res->Some_0.tid == 0,
        task.inner.res->Some_0.process == pid,
        task.inner.res->Some_0.wf(),
        task.process == pid,
        task.last_cpu == 0,
        kernel.processes@.dom() == kernel0.processes@.dom().insert(pid),
        kernel.processes@[pid].pid.0 == pid,
        one_thread(kernel.processes@[pid].inner, task.kstack.id),
        kernel.processes@[pid].inner.children@.len() == 0,
        kernel.processes@[pid].inner.signals_wf(),
        user_space(&kernel.processes@[pid].inner.memory_set, kernel.phys_offset),
        forall|p: usize| #[trigger]
            kernel0.processes@.dom().contains(p) ==> {
                let inner = kernel.processes@[p].inner;
                let inner0 = kernel0.processes@[p].inner;
                &&& kernel.processes@[p].pid == kernel0.processes@[p].pid
                &&& inner.tasks == inner0.tasks
                &&& inner.task_res_allocator == inner0.task_res_allocator
                &&& inner.memory_set == inner0.memory_set
                &&& inner.handling_sig == inner0.handling_sig
                &&& inner.children@ == inner0.children@ || (inner.children@
                    == inner0.children@.push(pid) && kernel0.pid2process@.dom().contains(p))
            },
    ensures
        kernel.refs_wf(),
{
    reveal(references_wf);
    assert(kernel0.kstack_allocator@.wf()) by {
        reveal(memory_wf);
    }
    let id = task.kstack.id;
    let ps = kernel.processes@;
    let ps0 = kernel0.processes@;
    alloc_takes_unused_id(kernel0.pid_allocator@);
    alloc_takes_unused_id(kernel0.kstack_allocator@);
    assert(!kernel0.pid_allocator@.live(pid));
    assert(!ps0.dom().contains(pid));
    assert(!kernel0.kstack_allocator@.live(id));
    assert(!kernel0.tasks@.dom().contains(id));
    assert(pid != 0);
    assert(kernel.pid_allocator@.live(0));
    assert(processes_wf(ps, kernel.pid_allocator@, kernel.phys_offset)) by {
        assert forall|p: usize, i: int|
            #[trigger] ps.dom().contains(p) && 0 <= i < ps[p].inner.children@.len() implies ps.dom().contains(
            #[trigger] ps[p].inner.children@[i],
        ) by {
            if p != pid {
                assert(ps0.dom().contains(p));
                if i < ps0[p].inner.children@.len() {
                    assert(ps0.dom().contains(ps0[p].inner.children@[i]));
                }
            }
        }
    }
    assert(threads_wf(ps, kernel.tasks@, kernel.kstack_allocator@, kernel.orphans@)) by {
        assert forall|t: usize| #[trigger] kernel.tasks@.dom().contains(t) implies {
            let task = kernel.tasks@[t];
            &&& task.kstack.id == t
            &&& task.last_cpu < NCPU
            &&& ps.dom().contains(task.process)
            &&& task.inner.res matches Some(res) ==> {
                let inner = ps[task.process].inner;
                &&& res.process == task.process
                &&& res.wf()
                &&& inner.task_res_allocator@.live(res.tid)
                &&& res.tid < inner.tasks@.len()
                &&& inner.tasks@[res.tid as int] == Some(t)
            }
        } by {
            if t != id {
                assert(kernel0.tasks@.dom().contains(t));
                assert(ps0.dom().contains(kernel0.tasks@[t].process));
            }
        }
        assert forall|p: usize, i: int|
            #[trigger] ps.dom().contains(p) && 0 <= i < ps[p].inner.tasks@.len() && (
            #[trigger] ps[p].inner.tasks@[i]) is Some implies {
            let t = ps[p].inner.tasks@[i]->Some_0;
            &&& kernel.tasks@.dom().contains(t)
            &&& kernel.tasks@[t].process == p
        } by {
            if p != pid {
                assert(ps0.dom().contains(p));
                assert(ps0[p].inner.tasks@[i] is Some);
            }
        }
        assert forall|p: usize, i: int, j: int|
            #[trigger] ps.dom().contains(p) && 0 <= i < ps[p].inner.tasks@.len() && 0 <= j
                < ps[p].inner.tasks@.len() && (#[trigger] ps[p].inner.tasks@[i]) is Some
                && ps[p].inner.tasks@[i] == (#[trigger] ps[p].inner.tasks@[j]) implies i == j by {
            if p != pid {
                assert(ps0.dom().contains(p));
            }
        }
    }
    assert(schedule_wf(kernel)) by {
        assert(!kernel0.task_manager@.contains(id)) by {
            if kernel0.task_manager@.contains(id) {
                let i = choose|i: int|
                    0 <= i < kernel0.task_manager@.len() && kernel0.task_manager@[i] == id;
                assert(known(kernel0.tasks@, kernel0.task_manager@[i]));
            }
        }
        assert forall|i: int| 0 <= i < kernel.task_manager@.len() implies known(
            kernel.tasks@,
            #[trigger] kernel.task_manager@[i],
        ) by {
            if i < kernel0.task_manager@.len() {
                assert(known(kernel0.tasks@, kernel0.task_manager@[i]));
            }
        }
        assert(kernel.task_manager@.no_duplicates());
        assert forall|c: int| 0 <= c < NCPU implies #[trigger] processor_wf(kernel, c) by {
            assert(processor_wf(kernel0, c));
            assert forall|t: usize| #[trigger]
                parked(kernel0, c, t) implies parked(kernel, c, t) by {
                if kernel.task_manager@.contains(t) {
                    let i = choose|i: int|
                        0 <= i < kernel.task_manager@.len() && kernel.task_manager@[i] == t;
                    assert(i < kernel0.task_manager@.len());
                    assert(kernel0.task_manager@[i] == t);
                }
            }
            lemma_processor_kept(kernel, kernel0, c);
        }
        assert forall|i: int| 0 <= i < kernel.timers.events().len() implies known(
            kernel.tasks@,
            (#[trigger] kernel.timers.events()[i]).task,
        ) by {
            assert(known(kernel0.tasks@, kernel0.timers.events()[i].task));
        }
    }
    assert(names_wf(kernel)) by {
        assert forall|p: usize| #[trigger]
            ps.dom().contains(p) && !kernel.pid2process@.dom().contains(p) implies ps[p].inner.children@.len()
            == 0 by {
            assert(ps0.dom().contains(p));
            assert(!kernel0.pid2process@.dom().contains(p));
        }
        assert forall|t: usize| #[trigger]
            kernel.tasks@.dom().contains(t) && !kernel.pid2process@.dom().contains(
                kernel.tasks@[t].process,
            ) implies kernel.tasks@[t].inner.res is None by {
            assert(kernel0.tasks@.dom().contains(t));
        }
    }
}

/// The files that a loaded program starts with: standard input, output and
/// error.
pub open spec fn standard_files() -> Seq<Option<FileHandle>> {
    seq![Some(FileHandle::Stdin), Some(FileHandle::Stdout), Some(FileHandle::Stdout)]
}

/// The actions that a loaded program starts with.
pub open spec fn default_actions() -> Seq<SignalAction> {
    Seq::new(32, |i: int| default_action())
}

/// How many frames it takes to load a program.
pub open spec fn image_frames(elf_data: Seq<u8>) -> nat {
    1 + areas_needed(
        bare_tables(),
        segment_areas(image_segments(elf_data)),
        image_segments(elf_data).len() as int,
    )
}

/// The address space holds the image of the program, beside the kernel's part
/// as it was in `kernel0`.
pub open spec fn holds_image<M: PhysMemory>(
    ms: &MemorySet,
    pool: &FramePool<M>,
    kernel0: &Kernel<M>,
    elf_data: Seq<u8>,
) -> bool {
    &&& ms.exact(pool)
    &&& configs(ms.areas()) == configs(segment_areas(image_segments(elf_data)))
    &&& holds_segments(ms, pool, image_segments(elf_data))
    &&& forall|i: int|
        physmap_slot(kernel0.phys_offset) <= i < 512 ==> #[trigger] pool.frames()[ms.root()][i]
            == kernel0.pool.frames()[kernel0.kernel_space.root()][i]
}

/// The kernel's address space has one more kernel stack, and nothing but its
/// tables and free frames was touched.
pub open spec fn stack_added<M: PhysMemory>(
    kernel: &Kernel<M>,
    kernel0: &Kernel<M>,
    id: usize,
) -> bool {
    let areas0 = kernel0.kernel_space.areas();
    &&& kernel.kernel_space.areas() == areas0.push(kernel.kernel_space.areas()[areas0.len() as int])
    &&& config(kernel.kernel_space.areas()[areas0.len() as int]) == stack_area(id)
    &&& kernel.kernel_space.root() == kernel0.kernel_space.root()
    &&& confined(&kernel.pool, &kernel0.pool, kernel0.kernel_space.owned())
}

/// `kernel` came from `kernel0` by making process `pid` of a program: it has the image of
/// the program and one thread, which is ready to run.
pub open spec fn process_made<M: PhysMemory>(
    kernel: &Kernel<M>,
    kernel0: &Kernel<M>,
    pid: usize,
    elf_data: Seq<u8>,
) -> bool {
    &&& process_enrolled(
        kernel,
        kernel0,
        pid,
        new_thread(
            kernel0.next_kstack(),
            TaskUserRes {
                tid: 0,
                ustack_base: image_stack_bottom(elf_data) as u64,
                process: pid,
            },
            kernel0.restore,
            app_context(
                elf_entry(elf_data) as u64,
                (image_stack_bottom(elf_data) + USER_STACK_SIZE) as u64,
            ),
        ),
    )
    &&& kernel.processes@ == kernel0.processes@.insert(pid, kernel.processes@[pid])
    &&& fresh_process(
        kernel.processes@[pid].inner,
        None,
        standard_files(),
        SignalFlags { bits: 0 },
        default_actions(),
    )
    &&& one_thread(kernel.processes@[pid].inner, kernel0.next_kstack())
    &&& holds_image(
        &kernel.processes@[pid].inner.memory_set,
        &kernel.pool,
        kernel0,
        elf_data,
    )
    &&& stack_added(kernel, kernel0, kernel0.next_kstack())
    &&& kernel.pool.free_count() == kernel0.pool.free_count() - image_frames(elf_data)
        - stack_frames(&kernel0.kernel_space, &kernel0.pool, kernel0.next_kstack())
}

/// `kernel` came from `kernel0` by loading a program into the new process
/// `pid`, which has no thread yet.
pub open spec fn process_loaded<M: PhysMemory>(
    kernel: &Kernel<M>,
    kernel0: &Kernel<M>,
    pid: usize,
    elf_data: Seq<u8>,
) -> bool {
    let inner = kernel.processes@[pid].inner;
    &&& pid == kernel0.pid_allocator@.next_id()
    &&& !kernel0.processes@.dom().contains(pid)
    &&& kernel.processes@ == kernel0.processes@.insert(pid, kernel.processes@[pid])
    &&& kernel.processes@[pid].pid.0 == pid
    &&& kernel.pid_allocator@ == kernel0.pid_allocator@.after_alloc()
    &&& fresh_process(
        inner,
        None,
        standard_files(),
        SignalFlags { bits: 0 },
        default_actions(),
    )
    &&& inner.tasks@.len() == 0
    &&& inner.task_res_allocator@ == (IdView { current: 0, recycled: Seq::empty() })
    &&& user_space(&inner.memory_set, kernel.phys_offset)
    &&& holds_image(&inner.memory_set, &kernel.pool, kernel0, elf_data)
    &&& confined(&kernel.pool, &kernel0.pool, Set::empty())
    &&& forall|f: u64| #[trigger]
        inner.memory_set.owned().contains(f) ==> kernel0.pool.free().contains(f)
    &&& kernel.kernel_space.table().present(&kernel.pool)
        == kernel0.kernel_space.table().present(&kernel0.pool)
    &&& kernel.pool.free_count() == kernel0.pool.free_count() - image_frames(elf_data)
    &&& *kernel == (Kernel {
        pool: kernel.pool,
        processes: kernel.processes,
        pid_allocator: kernel.pid_allocator,
        ..*kernel0
    })
}

/// Load a program into a new process without threads. Returns its pid, the top
/// of its user stack and its entry point.
fn load_process<M: PhysMemory>(kernel: &mut Kernel<M>, elf_data: &[u8]) -> (r: (
    PidHandle,
    u64,
    u64,
))
    requires
        old(kernel).wf(),
        loadable(elf_data@, physmap_slot(old(kernel).phys_offset)),
        old(kernel).pid_allocator@.next_id() < usize::MAX,
        old(kernel).pool.free_count() >= image_frames(elf_data@),
    ensures
        final(kernel).mem_wf(),
        process_loaded(final(kernel), old(kernel), r.0.0, elf_data@),
        r.1 == image_stack_bottom(elf_data@) + USER_STACK_SIZE,
        r.2 == elf_entry(elf_data@),
{
    let ghost k0 = *kernel;
    let ghost slots = physmap_slot(k0.phys_offset);
    let ghost image = image_segments(elf_data@);
    let root: u64 = kernel.kernel_space.root_ppn().0;
    proof {
        reveal(memory_wf);
        reveal(references_wf);
        lemma_root_is_table(&k0.kernel_space.table(), &k0.pool);
        lemma_image_framed(elf_data@);
    }
    let (memory_set, user_sp, entry_point) = MemorySet::from_elf(
        elf_data,
        &mut kernel.pool,
        root,
        kernel.phys_offset,
    );
    let ghost ms = memory_set;
    let ghost pool1 = kernel.pool;
    let pid: PidHandle = pid_alloc(&mut kernel.pid_allocator);
    proof {
        alloc_takes_unused_id(k0.pid_allocator@);
        assert(!k0.pid_allocator@.live(pid.0));
        assert(!k0.processes@.dom().contains(pid.0));
        lemma_made_confined(&ms, &pool1, &k0.pool, root, slots, segment_areas(image));
        lemma_space_changed(
            &pool1,
            &k0.pool,
            &k0.kernel_space,
            k0.spaces(),
            pid.0,
            ms,
            Set::empty(),
        );
        lemma_bystander(&k0.kernel_space, &pool1, &k0.pool, Set::empty());
        assert forall|k: int| 0 <= k < segment_areas(image).len() implies (
        #[trigger] segment_areas(image)[k]).framed() by {
            assert(image[k].area.framed());
        }
        lemma_made_framed(&ms, &pool1, &k0.pool, root, slots, segment_areas(image));
    }
    let mut fd_table: Vec<Option<FileHandle>> = Vec::new();
    fd_table.push(Some(FileHandle::Stdin));
    fd_table.push(Some(FileHandle::Stdout));
    fd_table.push(Some(FileHandle::Stdout));
    let process = ProcessControlBlock {
        pid,
        inner: ProcessControlBlockInner {
            is_zombie: false,
            memory_set,
            parent: None,
            children: Vec::new(),
            exit_code: 0,
            fd_table,
            signals: SignalFlags::empty(),
            signal_mask: SignalFlags::empty(),
            handling_sig: -1,
            signal_actions: SignalActions::default(),
            killed: false,
            frozen: false,
            trap_ctx_backup: None,
            tasks: Vec::new(),
            task_res_allocator: RecycleAllocator::new(),
            mutex_list: Vec::new(),
            semaphore_list: Vec::new(),
            condvar_list: Vec::new(),
        },
    };
    let ghost p1 = process;
    kernel.processes.insert(pid.0, process);
    proof {
        lemma_spaces_insert(k0.processes@, pid.0, p1);
        assert(p1.inner.fd_table@ =~= standard_files());
        assert(p1.inner.signal_actions.table@ =~= default_actions());
    }
    (pid, user_sp, entry_point)
}

/// An address space that was made with areas of framed pages has only such
/// areas.
pub proof fn lemma_made_framed<M: PhysMemory>(
    ms: &MemorySet,
    pool: &FramePool<M>,
    pool0: &FramePool<M>,
    root: u64,
    slots: int,
    areas: Seq<AreaView>,
)
    requires
        space_made(ms, pool, pool0, root, slots, areas),
        forall|k: int| 0 <= k < areas.len() ==> (#[trigger] areas[k]).framed(),
    ensures
        ms.areas().len() == areas.len(),
        forall|i: int| 0 <= i < ms.areas().len() ==> (#[trigger] ms.areas()[i]).framed(),
{
    assert(configs(ms.areas()).len() == ms.areas().len());
    assert(configs(areas).len() == areas.len());
    assert forall|i: int| 0 <= i < ms.areas().len() implies (#[trigger] ms.areas()[i]).framed() by {
        assert(configs(ms.areas())[i] == configs(areas)[i]);
        assert(config(ms.areas()[i]).map_type == config(areas[i]).map_type);
        assert(areas[i].framed());
    }
}

/// What a program was loaded into survives making the kernel stack of its
/// thread.
proof fn lemma_image_kept<M: PhysMemory>(
    ms: &MemorySet,
    pool: &FramePool<M>,
    pool0: &FramePool<M>,
    kernel0: &Kernel<M>,
    owned: Set<u64>,
    elf_data: Seq<u8>,
)
    requires
        ms.wf(pool0),
        holds_image(ms, pool0, kernel0, elf_data),
        confined(pool, pool0, owned),
        ms.owned().disjoint(owned),
    ensures
        holds_image(ms, pool, kernel0, elf_data),
{
    lemma_image_framed(elf_data);
    lemma_bystander(ms, pool, pool0, owned);
    lemma_segments_kept(ms, pool, pool0, image_segments(elf_data));
    lemma_root_is_table(&ms.table(), pool0);
    assert(ms.owned().contains(ms.root()));
}

/// A process's address space is sound, and none of its frames is the kernel's.
pub proof fn lemma_process_space<M: PhysMemory>(kernel: &Kernel<M>, pid: usize)
    requires
        kernel.mem_wf(),
        kernel.processes@.dom().contains(pid),
    ensures
        kernel.processes@[pid].inner.memory_set.wf(&kernel.pool),
        kernel.processes@[pid].inner.memory_set.owned().disjoint(kernel.kernel_space.owned()),
{
    reveal(memory_wf);
    assert(kernel.spaces().dom().contains(pid));
}

impl ProcessControlBlock {
    /// Make a process of the program in `elf_data`, with one thread that is
    /// ready to run it. Returns its pid.
    pub fn new<M: PhysMemory>(kernel: &mut Kernel<M>, elf_data: &[u8]) -> (r: usize)
        requires
            old(kernel).wf(),
            loadable(elf_data@, physmap_slot(old(kernel).phys_offset)),
            old(kernel).pid_allocator@.next_id() < usize::MAX,
            old(kernel).kstack_available(),
            old(kernel).pool.free_count() >= image_frames(elf_data@) + stack_frames(
                &old(kernel).kernel_space,
                &old(kernel).pool,
                old(kernel).next_kstack(),
            ),
        ensures
            final(kernel).wf(),
            process_made(final(kernel), old(kernel), r, elf_data@),
    {
        let ghost k0 = *kernel;
        let (pid, user_sp, entry_point) = load_process(kernel, elf_data);
        let ghost k2 = *kernel;
        let ustack_base: u64 = user_sp - USER_STACK_SIZE;
        let mut task = TaskControlBlock::new(kernel, pid.0, ustack_base, false);
        let ghost k3 = *kernel;
        let ustack_top: u64 = task.inner.res.unwrap().ustack_top();
        task.inner.trap_cx = TrapContext::app_init_context(entry_point, ustack_top);
        proof {
            lemma_created_memory(&k3, &k2, pid.0, ustack_base);
        }
        enroll(kernel, pid.0, task);
        proof {
            lemma_process_space(&k2, pid.0);
            lemma_image_kept(
                &k2.processes@[pid.0].inner.memory_set,
                &k3.pool,
                &k2.pool,
                &k0,
                k2.kernel_space.owned(),
                elf_data@,
            );
            lemma_confined_trans(
                &k3.pool,
                &k2.pool,
                &k0.pool,
                k2.kernel_space.owned(),
                k2.kernel_space.owned(),
            );
            lemma_spaces_insert(k3.processes@, pid.0, kernel.processes@[pid.0]);
            assert(kernel.spaces() =~= k3.spaces());
            lemma_memory_kept(kernel, &k3);
            assert(kernel.processes@ =~= k0.processes@.insert(pid.0, kernel.processes@[pid.0]));
            assert(kernel.processes@[pid.0].inner.tasks@ =~= seq![Some(task.kstack.id)]);
            lemma_enrolled_refs(kernel, &k0, pid.0, task);
        }
        pid.0
    }
}

/// What making a thread without a user stack does to memory.
pub proof fn lemma_created_memory<M: PhysMemory>(
    kernel: &Kernel<M>,
    kernel0: &Kernel<M>,
    pid: usize,
    ustack_base: u64,
)
    requires
        thread_made(kernel, kernel0, pid, ustack_base, false),
        kernel0.kstack_available(),
    ensures
        ({
            let p0 = kernel0.processes@[pid];
            let p1 = kernel.processes@[pid];
            &&& kernel.processes@ == kernel0.processes@.insert(pid, p1)
            &&& p1 == (ProcessControlBlock {
                inner: ProcessControlBlockInner {
                    task_res_allocator: p1.inner.task_res_allocator,
                    ..p0.inner
                },
                ..p0
            })
            &&& p1.inner.task_res_allocator@ == p0.inner.task_res_allocator@.after_alloc()
            &&& stack_added(kernel, kernel0, kernel0.next_kstack())
            &&& kernel.kstack_allocator@ == kernel0.kstack_allocator@.after_alloc()
            &&& kernel.pool.free_count() == kernel0.pool.free_count() - stack_frames(
                &kernel0.kernel_space,
                &kernel0.pool,
                kernel0.next_kstack(),
            )
            &&& *kernel == (Kernel {
                pool: kernel.pool,
                kernel_space: kernel.kernel_space,
                kstack_allocator: kernel.kstack_allocator,
                processes: kernel.processes,
                ..*kernel0
            })
        }),
{
    let k1 = choose|k1: Kernel<M>|
        #[trigger] thread_numbered(&k1, kernel0, pid, ustack_base, false) && kstack_made(
            kernel,
            &k1,
        );
    assert(k1.pool == kernel0.pool);
    assert(k1.kernel_space == kernel0.kernel_space);
    lemma_stack_page(kernel0.next_kstack());
}

} // verus!
