//! Copying a process.
use vstd::prelude::*;
use super::create::{
    enroll, fresh_process, lemma_created_memory, lemma_enrolled_refs, lemma_made_framed,
    lemma_process_space, one_thread, process_enrolled, stack_added,
};
use super::id::{alloc_takes_unused_id, IdView, RecycleAllocator, TaskUserRes};
use super::kernel::{
    lemma_memory_kept, lemma_spaces_insert, memory_wf, new_thread, references_wf, stack_frames,
    user_space, Kernel,
};
use super::pid::{pid_alloc, PidHandle};
use super::process::{FileHandle, ProcessControlBlock, ProcessControlBlockInner};
use super::signal::SignalFlags;
use super::task::TaskControlBlock;
use crate::mm::frame_allocator::FramePool;
use crate::mm::memory_set::{
    areas_needed, bare_tables, config, configs, lemma_page_frame, physmap_slot, same_contents,
    MemorySet,
};
use crate::mm::page_table::lemma_root_is_table;
use crate::mm::phys::PhysMemory;
use crate::mm::spaces::{
    confined, lemma_bystander, lemma_confined_trans, lemma_made_confined, lemma_space_changed,
};
use crate::trap::context::TrapContext;

verus! {

/// How many frames it takes to copy an address space.
pub open spec fn copy_frames(ms: &MemorySet) -> nat {
    1 + areas_needed(bare_tables(), ms.areas(), ms.areas().len() as int)
}

/// `ms` holds what `ms0` held, in frames of its own, beside the kernel's part as
/// it was in `kernel0`.
pub open spec fn copies_space<M: PhysMemory>(
    ms: &MemorySet,
    pool: &FramePool<M>,
    ms0: &MemorySet,
    kernel0: &Kernel<M>,
) -> bool {
    &&& ms.exact(pool)
    &&& configs(ms.areas()) == configs(ms0.areas())
    &&& forall|i: int, v: int|
        0 <= i < ms0.areas().len() && #[trigger] ms0.areas()[i].contains(v) ==> same_contents(
            ms,
            pool,
            ms0,
            &kernel0.pool,
            i,
            v,
        )
    &&& forall|i: int|
        physmap_slot(kernel0.phys_offset) <= i < 512 ==> #[trigger] pool.frames()[ms.root()][i]
            == kernel0.pool.frames()[kernel0.kernel_space.root()][i]
}

/// The parent of a new process lists it as its last child and is unchanged
/// otherwise.
pub open spec fn with_child(
    parent: ProcessControlBlock,
    parent0: ProcessControlBlock,
    child: usize,
) -> bool {
    &&& parent.inner.children@ == parent0.inner.children@.push(child)
    &&& parent == (ProcessControlBlock {
        inner: ProcessControlBlockInner { children: parent.inner.children, ..parent0.inner },
        ..parent0
    })
}

/// `kernel` came from `kernel0` by copying process `parent` into the new process
/// `child`, which has no thread yet.
pub open spec fn process_copied<M: PhysMemory>(
    kernel: &Kernel<M>,
    kernel0: &Kernel<M>,
    parent: usize,
    child: usize,
) -> bool {
    let inner0 = kernel0.processes@[parent].inner;
    let inner = kernel.processes@[child].inner;
    &&& child == kernel0.pid_allocator@.next_id()
    &&& !kernel0.processes@.dom().contains(child)
    &&& kernel.processes@ == kernel0.processes@.insert(parent, kernel.processes@[parent]).insert(
        child,
        kernel.processes@[child],
    )
    &&& with_child(kernel.processes@[parent], kernel0.processes@[parent], child)
    &&& kernel.processes@[child].pid.0 == child
    &&& kernel.pid_allocator@ == kernel0.pid_allocator@.after_alloc()
    &&& fresh_process(
        inner,
        Some(parent),
        inner0.fd_table@,
        inner0.signal_mask,
        inner0.signal_actions.table@,
    )
    &&& inner.tasks@.len() == 0
    &&& inner.task_res_allocator@ == (IdView { current: 0, recycled: Seq::empty() })
    &&& user_space(&inner.memory_set, kernel.phys_offset)
    &&& copies_space(&inner.memory_set, &kernel.pool, &inner0.memory_set, kernel0)
    &&& confined(&kernel.pool, &kernel0.pool, Set::empty())
    &&& kernel.kernel_space.table().present(&kernel.pool)
        == kernel0.kernel_space.table().present(&kernel0.pool)
    &&& kernel.pool.free_count() == kernel0.pool.free_count() - copy_frames(&inner0.memory_set)
    &&& *kernel == (Kernel {
        pool: kernel.pool,
        processes: kernel.processes,
        pid_allocator: kernel.pid_allocator,
        ..*kernel0
    })
}

/// Copy a table of open files, sharing the files.
fn clone_files(fds: &Vec<Option<FileHandle>>) -> (r: Vec<Option<FileHandle>>)
    ensures
        r@ == fds@,
{
    let mut new_fd_table: Vec<Option<FileHandle>> = Vec::new();
    let mut i: usize = 0;
    while i < fds.len()
        invariant
            i <= fds@.len(),
            new_fd_table@ == fds@.take(i as int),
        decreases fds@.len() - i,
    {
        new_fd_table.push(fds[i]);
        i = i + 1;
        assert(new_fd_table@ =~= fds@.take(i as int));
    }
    assert(fds@.take(fds@.len() as int) =~= fds@);
    new_fd_table
}

/// Copy process `parent` into a new process without threads, which becomes its
/// child.
fn copy_process<M: PhysMemory>(kernel: &mut Kernel<M>, parent: usize) -> (r: PidHandle)
    requires
        old(kernel).wf(),
        old(kernel).processes@.dom().contains(parent),
        old(kernel).pid_allocator@.next_id() < usize::MAX,
        old(kernel).pool.free_count() >= copy_frames(
            &old(kernel).processes@[parent].inner.memory_set,
        ),
    ensures
        final(kernel).mem_wf(),
        process_copied(final(kernel), old(kernel), parent, r.0),
{
    let ghost k0 = *kernel;
    let ghost slots = physmap_slot(k0.phys_offset);
    let root: u64 = kernel.kernel_space.root_ppn().0;
    let mut process = kernel.processes.remove(&parent).unwrap();
    let ghost p0 = process;
    let ghost ms0 = process.inner.memory_set;
    proof {
        reveal(memory_wf);
        reveal(references_wf);
        assert(k0.spaces().dom().contains(parent));
        lemma_root_is_table(&k0.kernel_space.table(), &k0.pool);
    }
    let memory_set = MemorySet::from_existed_user(
        &process.inner.memory_set,
        &mut kernel.pool,
        root,
        kernel.phys_offset,
    );
    let ghost ms = memory_set;
    let ghost pool1 = kernel.pool;
    let pid: PidHandle = pid_alloc(&mut kernel.pid_allocator);
    proof {
        alloc_takes_unused_id(k0.pid_allocator@);
        assert(!k0.pid_allocator@.live(pid.0));
        assert(!k0.processes@.dom().contains(pid.0));
        lemma_made_confined(&ms, &pool1, &k0.pool, root, slots, ms0.areas());
        lemma_space_changed(
            &pool1,
            &k0.pool,
            &k0.kernel_space,
            k0.spaces(),
            pid.0,
            ms,
            Set::empty(),
        );
        lemma_bystander(&k0.kernel_space, &pool1, &k0.pool, Set::empty());
        lemma_made_framed(&ms, &pool1, &k0.pool, root, slots, ms0.areas());
    }
    let fd_table: Vec<Option<FileHandle>> = clone_files(&process.inner.fd_table);
    let child = ProcessControlBlock {
        pid,
        inner: ProcessControlBlockInner {
            is_zombie: false,
            memory_set,
            parent: Some(parent),
            children: Vec::new(),
            exit_code: 0,
            fd_table,
            signals: SignalFlags::empty(),
            signal_mask: process.inner.signal_mask,
            handling_sig: -1,
            signal_actions: process.inner.signal_actions,
            killed: false,
            frozen: false,
            trap_ctx_backup: None,
            tasks: Vec::new(),
            task_res_allocator: RecycleAllocator::new(),
            mutex_list: Vec::new(),
            semaphore_list: Vec::new(),
            condvar_list: Vec::new(),
        },
    };
    let ghost c1 = child;
    process.inner.children.push(pid.0);
    let ghost p1 = process;
    kernel.processes.insert(parent, process);
    kernel.processes.insert(pid.0, child);
    proof {
        assert(kernel.processes@ =~= k0.processes@.insert(parent, p1).insert(pid.0, c1));
        lemma_spaces_insert(k0.processes@, parent, p1);
        lemma_spaces_insert(k0.processes@.insert(parent, p1), pid.0, c1);
        assert(k0.spaces().insert(parent, ms0) =~= k0.spaces());
    }
    pid
}

/// What was copied survives a change to other frames.
proof fn lemma_copy_kept<M: PhysMemory>(
    ms: &MemorySet,
    pool: &FramePool<M>,
    pool1: &FramePool<M>,
    ms0: &MemorySet,
    kernel0: &Kernel<M>,
    owned: Set<u64>,
)
    requires
        ms.wf(pool1),
        copies_space(ms, pool1, ms0, kernel0),
        forall|i: int| 0 <= i < ms.areas().len() ==> (#[trigger] ms.areas()[i]).framed(),
        confined(pool, pool1, owned),
        ms.owned().disjoint(owned),
    ensures
        copies_space(ms, pool, ms0, kernel0),
{
    lemma_bystander(ms, pool, pool1, owned);
    lemma_root_is_table(&ms.table(), pool1);
    assert(ms.owned().contains(ms.root()));
    assert(configs(ms.areas()).len() == ms.areas().len());
    assert(configs(ms0.areas()).len() == ms0.areas().len());
    assert forall|i: int, v: int|
        0 <= i < ms0.areas().len() && #[trigger] ms0.areas()[i].contains(v) implies same_contents(
        ms,
        pool,
        ms0,
        &kernel0.pool,
        i,
        v,
    ) by {
        assert(same_contents(ms, pool1, ms0, &kernel0.pool, i, v));
        assert(configs(ms.areas())[i] == configs(ms0.areas())[i]);
        lemma_page_frame(ms, pool1, i, v, config(ms0.areas()[i]));
    }
}

/// Whether process `pid` can be copied: it has one thread, which has not exited,
/// and there are a pid, a kernel stack and enough frames for the copy.
pub open spec fn can_fork<M: PhysMemory>(kernel: &Kernel<M>, pid: usize) -> bool {
    let tasks = kernel.processes@[pid].inner.tasks@;
    &&& tasks.len() == 1
    &&& tasks[0] matches Some(t) && kernel.tasks@[t].inner.res is Some
    &&& kernel.pid_allocator@.next_id() < usize::MAX
    &&& kernel.kstack_available()
    &&& kernel.pool.free_count() >= copy_frames(&kernel.processes@[pid].inner.memory_set)
        + stack_frames(&kernel.kernel_space, &kernel.pool, kernel.next_kstack())
}

/// `kernel` came from `kernel0` by copying process `pid` into the new process
/// `child`: its main thread goes on where the parent's thread is, with 0 as the
/// result of the call.
pub open spec fn forked<M: PhysMemory>(
    kernel: &Kernel<M>,
    kernel0: &Kernel<M>,
    pid: usize,
    child: usize,
) -> bool {
    let p0 = kernel0.processes@[pid];
    let c1 = kernel.processes@[child];
    let caller = kernel0.tasks@[p0.inner.tasks@[0]->Some_0].inner;
    &&& process_enrolled(
        kernel,
        kernel0,
        child,
        new_thread(
            kernel0.next_kstack(),
            TaskUserRes { tid: 0, ustack_base: caller.res->Some_0.ustack_base, process: child },
            kernel0.restore,
            TrapContext { rax: 0, ..caller.trap_cx },
        ),
    )
    &&& kernel.processes@ == kernel0.processes@.insert(pid, kernel.processes@[pid]).insert(
        child,
        c1,
    )
    &&& with_child(kernel.processes@[pid], p0, child)
    &&& fresh_process(
        c1.inner,
        Some(pid),
        p0.inner.fd_table@,
        p0.inner.signal_mask,
        p0.inner.signal_actions.table@,
    )
    &&& one_thread(c1.inner, kernel0.next_kstack())
    &&& copies_space(&c1.inner.memory_set, &kernel.pool, &p0.inner.memory_set, kernel0)
    &&& stack_added(kernel, kernel0, kernel0.next_kstack())
    &&& kernel.pool.free_count() == kernel0.pool.free_count() - copy_frames(&p0.inner.memory_set)
        - stack_frames(&kernel0.kernel_space, &kernel0.pool, kernel0.next_kstack())
}

impl ProcessControlBlock {
    /// Copy process `pid`, which has one thread, and let the copy run. The child
    /// goes on where the parent made the call, with 0 as the result. Returns the
    /// pid of the child.
    pub fn fork<M: PhysMemory>(kernel: &mut Kernel<M>, pid: usize) -> (r: usize)
        requires
            old(kernel).wf(),
            old(kernel).processes@.dom().contains(pid),
            can_fork(old(kernel), pid),
        ensures
            final(kernel).wf(),
            forked(final(kernel), old(kernel), pid, r),
    {
        let ghost k0 = *kernel;
        let parent_task: usize = kernel.processes.get(&pid).unwrap().inner.get_task(0);
        proof {
            reveal(references_wf);
            assert(k0.processes@[pid].inner.tasks@[0] is Some);
            assert(k0.tasks@.dom().contains(parent_task));
        }
        let parent_inner = kernel.tasks.get(&parent_task).unwrap().inner;
        let ustack_base: u64 = parent_inner.res.unwrap().ustack_base();
        let child: PidHandle = copy_process(kernel, pid);
        let ghost k2 = *kernel;
        let mut task = TaskControlBlock::new(kernel, child.0, ustack_base, false);
        let ghost k3 = *kernel;
        let mut child_trap_cx: TrapContext = parent_inner.get_trap_cx();
        child_trap_cx.rax = 0;
        task.inner.trap_cx = child_trap_cx;
        proof {
            lemma_created_memory(&k3, &k2, child.0, ustack_base);
        }
        enroll(kernel, child.0, task);
        proof {
            lemma_process_space(&k2, child.0);
            lemma_copy_kept(
                &k2.processes@[child.0].inner.memory_set,
                &k3.pool,
                &k2.pool,
                &k0.processes@[pid].inner.memory_set,
                &k0,
                k2.kernel_space.owned(),
            );
            lemma_confined_trans(
                &k3.pool,
                &k2.pool,
                &k0.pool,
                k2.kernel_space.owned(),
                k2.kernel_space.owned(),
            );
            lemma_spaces_insert(k3.processes@, child.0, kernel.processes@[child.0]);
            assert(kernel.spaces() =~= k3.spaces());
            lemma_memory_kept(kernel, &k3);
            assert(kernel.processes@ =~= k0.processes@.insert(pid, kernel.processes@[pid]).insert(
                child.0,
                kernel.processes@[child.0],
            ));
            assert(kernel.processes@[child.0].inner.tasks@ =~= seq![Some(task.kstack.id)]);
            assert(kernel.processes@.dom() =~= k0.processes@.dom().insert(child.0));
            lemma_enrolled_refs(kernel, &k0, child.0, task);
        }
        child.0
    }
}

} // verus!
