use rcore::config::KERNEL_BASE;
use rcore::mm::address::{PhysPageNum, VirtAddr, VirtPageNum};
use rcore::mm::elf_check::check_image;
use rcore::mm::frame_allocator::{frame_alloc, FrameDequeAllocator, FramePool};
use rcore::mm::map_area::{MapPermission, MAP_R, MAP_X};
use rcore::mm::memory_set::MemorySet;
use rcore::mm::phys::FrameBlock;
use rcore::mm::user_memory::{read_user_word, translated_str};
use rcore::syscall::exec::{exec_args_readable, read_exec_args, sys_exec};
use rcore::syscall::process::{sys_exit, sys_fork, sys_getpid};
use rcore::syscall::wait::sys_waitpid;
use rcore::task::args::lay_out_args;
use rcore::task::boot::stacks_have_room;
use rcore::task::check::{exec_possible, start_possible};
use rcore::task::exec::write_process;
use rcore::task::id::RecycleAllocator;
use rcore::task::initproc::add_initproc;
use rcore::task::kernel::{Kernel, IDLE_PID};
use rcore::task::pid::PidAllocator;
use rcore::task::process::{FileHandle, ProcessControlBlock};
use rcore::task::reap::drop_exiting;
use rcore::task::schedule::{
    current_process, current_task, current_trap_cx, current_user_token, pid2process, run_tasks,
    suspend_current_and_run_next,
};
use rcore::task::task::{TaskControlBlock, TaskStatus};
use rcore::task::terminate::{exit_possible, ExitOutcome};

fn put(v: &mut Vec<u8>, n: u64, bytes: usize) {
    for i in 0..bytes {
        v.push((n >> (8 * i)) as u8);
    }
}

/// A program of one segment: 0x1800 bytes from 0x1_0000 on, of which the file
/// holds `code`.
fn image(code: &[u8], entry: u64) -> Vec<u8> {
    let mut v = vec![0x7f, 0x45, 0x4c, 0x46, 2, 1, 1, 0, 0, 0, 0, 0, 0, 0, 0, 0];
    put(&mut v, 2, 2);
    put(&mut v, 62, 2);
    put(&mut v, 1, 4);
    put(&mut v, entry, 8);
    put(&mut v, 64, 8);
    put(&mut v, 0, 8);
    put(&mut v, 0, 4);
    put(&mut v, 64, 2);
    put(&mut v, 56, 2);
    put(&mut v, 1, 2);
    put(&mut v, 64, 2);
    put(&mut v, 0, 2);
    put(&mut v, 0, 2);
    put(&mut v, 1, 4);
    put(&mut v, 5, 4);
    put(&mut v, 120, 8);
    put(&mut v, 0x1_0000, 8);
    put(&mut v, 0x1_0000, 8);
    put(&mut v, code.len() as u64, 8);
    put(&mut v, 0x1800, 8);
    put(&mut v, 0x1000, 8);
    v.extend_from_slice(code);
    v
}

fn bare() -> Kernel<FrameBlock> {
    let mem = FrameBlock::new(0x100, 256);
    let mut allocator = FrameDequeAllocator::new();
    allocator.init(&[(PhysPageNum(0x100), PhysPageNum(0x200))]);
    let mut pool = FramePool { mem, allocator };
    let mut space = MemorySet::new_bare(&mut pool);
    space.insert_framed_area(
        &mut pool,
        VirtAddr::new(KERNEL_BASE),
        VirtAddr::new(KERNEL_BASE + 0x1000),
        MapPermission { bits: MAP_R | MAP_X },
    );
    Kernel::new(pool, space, 0xffff_8000_0000_0000, 0x7777)
}

/// A kernel whose first process runs on processor 0.
fn started() -> Kernel<FrameBlock> {
    let mut k = bare();
    add_initproc(&mut k, &image(b"code", 0x1_0010));
    assert_eq!(run_tasks(&mut k, 0).unwrap().task, 0);
    k
}

fn token_of(k: &Kernel<FrameBlock>, pid: usize) -> u64 {
    k.processes.get(&pid).unwrap().inner.get_user_token()
}

#[test]
fn first_process_is_loaded() {
    let k = started();
    assert_eq!(k.initproc, Some(IDLE_PID));
    assert_eq!(current_process(&k, 0), 1);
    assert_eq!(sys_getpid(&k, 0), 1);
    assert_eq!(pid2process(&k, 1), Some(1));
    assert_eq!(pid2process(&k, 2), None);
    let cx = current_trap_cx(&k, 0);
    assert_eq!((cx.rip, cx.rsp, cx.rflags), (0x1_0010, 0x1_5000, 2));
    assert_eq!((cx.cs, cx.ss), (0x1b, 0x23));
    let token = current_user_token(&k, 0);
    assert_eq!(read_user_word(&k.pool.mem, token, 0x1_0000), 0x6564_6f63);
    assert_eq!(read_user_word(&k.pool.mem, token, 0x1_1ff8), 0);
    assert_eq!(read_user_word(&k.pool.mem, token, 0x1_4ff8), 0);
    let p = k.processes.get(&1).unwrap();
    assert_eq!(p.getpid(), 1);
    assert_eq!(
        p.inner.fd_table,
        vec![Some(FileHandle::Stdin), Some(FileHandle::Stdout), Some(FileHandle::Stdout)]
    );
    assert_eq!(k.tasks.get(&0).unwrap().inner.task_status, TaskStatus::Running);
    assert_eq!(k.tasks.get(&0).unwrap().inner.task_cx.rip, 0x7777);
}

#[test]
fn kernel_stack_of_the_first_thread() {
    let mut k = bare();
    add_initproc(&mut k, &image(b"code", 0x1_0010));
    let d = run_tasks(&mut k, 0).unwrap();
    assert_eq!(d.stack_top, 0xffff_ffff_c000_2000);
    assert_eq!(d.token, token_of(&k, 1));
    let top = k.tasks.get(&0).unwrap().inner.trap_cx_ptr;
    assert_eq!(top, d.stack_top - 0xb0);
}

#[test]
fn child_reads_what_its_parent_read() {
    let mut k = started();
    write_process(&mut k, 1, 0x1_3ffc, b"across pages\0");
    assert_eq!(sys_fork(&mut k, 0), 2);
    let child = token_of(&k, 2);
    assert_eq!(translated_str(&k.pool.mem, child, 0x1_3ffc), "across pages");
    assert_eq!(read_user_word(&k.pool.mem, child, 0x1_0000), 0x6564_6f63);
    let parent_cx = current_trap_cx(&k, 0);
    let child_cx = k.tasks.get(&1).unwrap().inner.get_trap_cx();
    assert_eq!(child_cx.rax, 0);
    assert_eq!((child_cx.rip, child_cx.rsp), (parent_cx.rip, parent_cx.rsp));
    assert_eq!(k.processes.get(&2).unwrap().inner.parent, Some(1));
    assert_eq!(k.processes.get(&1).unwrap().inner.children, vec![2]);
}

#[test]
fn processes_do_not_see_each_other() {
    let mut k = started();
    write_process(&mut k, 1, 0x1_3000, b"mine\0");
    sys_fork(&mut k, 0);
    write_process(&mut k, 2, 0x1_3000, b"other\0");
    assert_eq!(translated_str(&k.pool.mem, token_of(&k, 1), 0x1_3000), "mine");
    assert_eq!(translated_str(&k.pool.mem, token_of(&k, 2), 0x1_3000), "other");
}

#[test]
fn program_finds_its_arguments() {
    let mut k = started();
    let free = k.pool.allocator.free_count();
    let args = vec![String::from("cat"), String::from("file")];
    let (r, cr3) = sys_exec(&mut k, 0, Some(image(b"new", 0x1_0020)), args);
    assert_eq!(r, 2);
    assert_eq!(cr3, Some(token_of(&k, 1)));
    assert_eq!(k.pool.allocator.free_count(), free);
    let cx = current_trap_cx(&k, 0);
    assert_eq!(cx.rip, 0x1_0020);
    assert_eq!((cx.rdi, cx.rsi), (2, 0x1_4fe8));
    assert_eq!(cx.rsp, 0x1_4fd0);
    let token = current_user_token(&k, 0);
    let first = read_user_word(&k.pool.mem, token, cx.rsi);
    let second = read_user_word(&k.pool.mem, token, cx.rsi + 8);
    assert_eq!(translated_str(&k.pool.mem, token, first), "cat");
    assert_eq!(translated_str(&k.pool.mem, token, second), "file");
    assert_eq!(read_user_word(&k.pool.mem, token, cx.rsi + 16), 0);
    assert_eq!(read_user_word(&k.pool.mem, token, 0x1_0000), 0x77_656e);
}

#[test]
fn exec_of_a_missing_file_fails() {
    let mut k = started();
    let before = current_trap_cx(&k, 0);
    assert_eq!(sys_exec(&mut k, 0, None, vec![String::from("nothing")]), (-1, None));
    assert_eq!(current_trap_cx(&k, 0), before);
}

#[test]
fn exec_arguments_are_read_from_the_caller() {
    let mut k = started();
    write_process(&mut k, 1, 0x1_3000, b"/bin/ls\0");
    write_process(&mut k, 1, 0x1_3100, b"ls\0-l\0");
    let mut argv = Vec::new();
    put(&mut argv, 0x1_3100, 8);
    put(&mut argv, 0x1_3103, 8);
    put(&mut argv, 0, 8);
    write_process(&mut k, 1, 0x1_3200, &argv);
    let (path, args) = read_exec_args(&k, 0, 0x1_3000, 0x1_3200);
    assert_eq!(path, "/bin/ls");
    assert_eq!(args, vec![String::from("ls"), String::from("-l")]);
    assert!(exec_args_readable(&k, 0, 0x1_3000, 0x1_3200));
    assert!(exec_args_readable(&k, 0, 0x1_3000, 0x1_3210));
    assert!(!exec_args_readable(&k, 0, 0x50_0000, 0x1_3200));
    assert!(!exec_args_readable(&k, 0, 0x1_3000, 0x1_3204));
    assert!(!exec_args_readable(&k, 0, 0x1_3000, 0x50_0000));
    assert!(!exec_args_readable(&k, 0, 0x1_3000, u64::MAX));
    let (_, none) = read_exec_args(&k, 0, 0x1_3000, 0x1_3210);
    assert!(none.is_empty());
}

#[test]
fn too_many_arguments_are_cut_off() {
    let mut k = started();
    write_process(&mut k, 1, 0x1_3000, b"p\0");
    let mut argv = Vec::new();
    for _ in 0..40 {
        put(&mut argv, 0x1_3000, 8);
    }
    put(&mut argv, 0, 8);
    write_process(&mut k, 1, 0x1_3200, &argv);
    let (_, args) = read_exec_args(&k, 0, 0x1_3000, 0x1_3200);
    assert_eq!(args, vec![String::from("p"); 32]);
}

#[test]
fn arguments_lie_on_the_stack() {
    let (bytes, base, sp) = lay_out_args(&vec![String::from("a"), String::from("bc")], 0x2000);
    assert_eq!((base, sp), (0x1fe8, 0x1fe0));
    let mut expected = vec![b'b', b'c', 0, b'a', 0];
    put(&mut expected, 0x1fe6, 8);
    put(&mut expected, 0x1fe3, 8);
    put(&mut expected, 0, 8);
    assert_eq!(bytes, expected);
    let (empty, base, sp) = lay_out_args(&Vec::new(), 0x2000);
    assert_eq!((empty, base, sp), (vec![0u8; 8], 0x1ff8, 0x1ff0));
}

/// Fork, let the parent wait and the child run on processor 0.
fn child_runs() -> Kernel<FrameBlock> {
    let mut k = started();
    assert_eq!(sys_fork(&mut k, 0), 2);
    assert_eq!(suspend_current_and_run_next(&mut k, 0), 0);
    assert_eq!(run_tasks(&mut k, 0).unwrap().task, 1);
    assert_eq!(current_process(&k, 0), 2);
    k
}

#[test]
fn ended_child_is_a_zombie_until_its_parent_waits() {
    let mut k = started();
    assert_eq!(sys_waitpid(&mut k, 0, -1, 0x1_3000), -1);
    let free = k.pool.allocator.free_count();
    assert_eq!(sys_fork(&mut k, 0), 2);
    assert_eq!(sys_waitpid(&mut k, 0, -1, 0x1_3000), -2);
    assert_eq!(sys_waitpid(&mut k, 0, 2, 0x1_3000), -2);
    assert_eq!(sys_waitpid(&mut k, 0, 5, 0x1_3000), -1);
    suspend_current_and_run_next(&mut k, 0);
    run_tasks(&mut k, 0);
    assert_eq!(sys_exit(&mut k, 0, -7), ExitOutcome::Switch);
    assert!(k.processes.get(&2).unwrap().inner.is_zombie);
    assert_eq!(k.processes.get(&2).unwrap().inner.exit_code, -7);
    assert_eq!(pid2process(&k, 2), None);
    assert_eq!(k.processors[0].exiting_process, Some(2));
    drop_exiting(&mut k, 0);
    assert_eq!(k.processors[0].exiting_process, None);
    assert!(k.processes.contains_key(&2));
    assert_eq!(run_tasks(&mut k, 0).unwrap().task, 0);
    assert_eq!(sys_waitpid(&mut k, 0, 2, 0x1_3000), 2);
    let token = current_user_token(&k, 0);
    assert_eq!(read_user_word(&k.pool.mem, token, 0x1_3000), 0xffff_fff9);
    assert!(!k.processes.contains_key(&2));
    assert!(!k.tasks.contains_key(&1));
    assert_eq!(k.pool.allocator.free_count(), free);
    assert_eq!(sys_waitpid(&mut k, 0, -1, 0x1_3000), -1);
    assert_eq!(sys_fork(&mut k, 0), 2);
}

#[test]
fn orphans_are_adopted_by_the_first_process() {
    let mut k = child_runs();
    assert_eq!(sys_fork(&mut k, 0), 3);
    assert_eq!(k.processes.get(&3).unwrap().inner.parent, Some(2));
    sys_exit(&mut k, 0, 0);
    assert_eq!(k.processes.get(&3).unwrap().inner.parent, Some(1));
    assert_eq!(k.processes.get(&1).unwrap().inner.children, vec![2, 3]);
    assert!(k.processes.get(&2).unwrap().inner.children.is_empty());
}

#[test]
fn thread_at_the_console_keeps_its_stack() {
    let mut k = child_runs();
    assert_eq!(k.console.read(1), None);
    sys_exit(&mut k, 0, 0);
    drop_exiting(&mut k, 0);
    run_tasks(&mut k, 0);
    assert_eq!(sys_waitpid(&mut k, 0, 2, 0x1_3000), 2);
    assert!(!k.tasks.contains_key(&1) && !k.processes.contains_key(&2));
    assert_eq!(k.orphans, vec![1]);
    let page = k.kernel_space.translate(&k.pool.mem, VirtPageNum(0xf_fffc_0003)).unwrap();
    assert!(page.is_valid());
    assert!(k.kernel_space.take_stale().is_empty());
    sys_fork(&mut k, 0);
    assert!(k.tasks.contains_key(&2) && !k.tasks.contains_key(&1));
}

#[test]
fn dropped_stacks_are_flushed() {
    let mut k = child_runs();
    sys_exit(&mut k, 0, 0);
    drop_exiting(&mut k, 0);
    run_tasks(&mut k, 0);
    assert_eq!(sys_waitpid(&mut k, 0, 2, 0x1_3000), 2);
    assert!(k.orphans.is_empty());
    assert_eq!(
        k.kernel_space.take_stale(),
        vec![0xffff_ffff_c000_3000, 0xffff_ffff_c000_4000]
    );
    let kept = k.kernel_space.translate(&k.pool.mem, VirtPageNum(0xf_fffc_0000)).unwrap();
    assert!(kept.is_valid());
}

#[test]
fn thread_can_exit_where_it_runs() {
    let mut k = started();
    assert!(exit_possible(&k, 0));
    assert!(!exit_possible(&k, 1));
    sys_fork(&mut k, 0);
    assert_eq!(run_tasks(&mut k, 1).unwrap().task, 1);
    assert!(exit_possible(&k, 1));
    k.initproc = None;
    assert!(!exit_possible(&k, 1));
}

#[test]
fn end_of_the_first_process_shuts_down() {
    let mut k = started();
    assert_eq!(sys_exit(&mut k, 0, 0), ExitOutcome::Shutdown { failure: false });
    let mut k = started();
    assert_eq!(sys_exit(&mut k, 0, 3), ExitOutcome::Shutdown { failure: true });
}

#[test]
fn processes_can_be_made_directly() {
    let mut k = bare();
    add_initproc(&mut k, &image(b"init", 0x1_0000));
    assert_eq!(ProcessControlBlock::new(&mut k, &image(b"two!", 0x1_0004)), 2);
    assert_eq!(k.processes.get(&2).unwrap().inner.parent, None);
    assert_eq!(run_tasks(&mut k, 0).unwrap().task, 0);
    assert_eq!(run_tasks(&mut k, 1).unwrap().task, 1);
    assert_eq!(run_tasks(&mut k, 2), None);
    assert_eq!(current_process(&k, 1), 2);
    assert_eq!(current_trap_cx(&k, 1).rip, 0x1_0004);
}

#[test]
fn file_descriptors_are_reused() {
    let mut k = started();
    let mut p = k.processes.remove(&1).unwrap();
    assert_eq!(p.inner.alloc_fd(), 3);
    assert_eq!(p.inner.fd_table.len(), 4);
    p.inner.fd_table[1] = None;
    assert_eq!(p.inner.alloc_fd(), 1);
    assert_eq!(p.inner.thread_count(), 1);
    assert_eq!(p.inner.get_task(0), 0);
    assert_eq!(p.inner.alloc_tid(), 1);
    p.inner.dealloc_tid(1);
    assert_eq!(p.inner.alloc_tid(), 1);
}

#[test]
fn identifiers_are_recycled() {
    let mut a = RecycleAllocator::new();
    assert_eq!((a.alloc_id(), a.alloc_id(), a.alloc_id()), (0, 1, 2));
    a.dealloc(0);
    a.dealloc(1);
    assert_eq!((a.alloc_id(), a.alloc_id(), a.alloc_id()), (1, 0, 3));
    assert_eq!(RecycleAllocator::new_start(5).alloc_id(), 5);
    let mut b = RecycleAllocator::new_start(7);
    for _ in 0..10 {
        let (x, y) = (b.alloc_id(), b.alloc_id());
        assert!(x != y && x >= 7 && x < 9 && y >= 7 && y < 9);
        b.dealloc(x);
        b.dealloc(y);
    }
    assert_eq!(b.alloc_id(), 7);
    let mut p = PidAllocator::new();
    assert_eq!((p.alloc_pid().0, p.alloc_pid().0), (1, 2));
    p.dealloc(1);
    assert_eq!((p.alloc_pid().0, p.alloc_pid().0), (1, 3));
}

#[test]
fn kernel_is_reachable_from_every_process() {
    let mut k = started();
    sys_fork(&mut k, 0);
    for page in [0xf_fff8_0000, 0xf_fffc_0000, 0xf_fffc_0001, 0xf_fffc_0003, 0xf_fffc_0004] {
        let expected = k.kernel_space.translate(&k.pool.mem, VirtPageNum(page)).unwrap();
        assert!(expected.is_valid());
        for pid in [1, 2] {
            let space = &k.processes.get(&pid).unwrap().inner.memory_set;
            assert_eq!(space.translate(&k.pool.mem, VirtPageNum(page)), Some(expected));
        }
    }
}

#[test]
fn images_are_checked() {
    let offset = 0xffff_8000_0000_0000;
    let good = image(b"code", 0x1_0010);
    assert!(check_image(&good, offset));
    assert!(!check_image(&good, 0));
    assert!(!check_image(&good[..123], offset));
    assert!(!check_image(&good[..60], offset));
    assert!(!check_image(b"#!/bin/sh", offset));
    let mut bad = good.clone();
    bad[0] = 0;
    assert!(!check_image(&bad, offset));
    // a second header like the first one
    let mut twice = good.clone();
    twice[56] = 2;
    let header = twice[64..120].to_vec();
    twice.splice(120..120, header);
    assert!(!check_image(&twice, offset));
    // moved by two pages, it does not overlap
    twice[120 + 17] = 0x20;
    assert!(check_image(&twice, offset));
    // an unknown type of segment
    let mut unknown = good.clone();
    unknown[64] = 9;
    assert!(!check_image(&unknown, offset));
    // more bytes in the file than in memory
    let mut full = image(&[1; 0x2001], 0);
    assert!(!check_image(&full, offset));
    full[64 + 32] = 0;
    assert!(check_image(&full, offset));
    // no headers: only a stack
    let mut none = good.clone();
    none[56] = 0;
    assert!(check_image(&none, offset));
}

#[test]
fn exiting_thread_keeps_its_stack_until_it_has_left() {
    let mut k = started();
    assert_eq!(sys_fork(&mut k, 0), 2);
    assert_eq!(run_tasks(&mut k, 1).unwrap().task, 1);
    sys_exit(&mut k, 1, 5);
    assert_eq!(sys_waitpid(&mut k, 0, -1, 0x1_3000), 2);
    assert!(k.processes.contains_key(&2) && k.tasks.contains_key(&1));
    let page = VirtPageNum(0xf_fffc_0003);
    assert!(k.kernel_space.translate(&k.pool.mem, page).unwrap().is_valid());
    drop_exiting(&mut k, 1);
    assert!(!k.processes.contains_key(&2) && !k.tasks.contains_key(&1));
    assert!(!k.kernel_space.translate(&k.pool.mem, page).unwrap().is_valid());
}

#[test]
fn empty_segments_are_loaded_beside_others() {
    let offset = 0xffff_8000_0000_0000;
    let mut v = image(b"code", 0x1_0010);
    v[56] = 2;
    let header = v[64..120].to_vec();
    v.splice(120..120, header);
    v[72..80].copy_from_slice(&176u64.to_le_bytes());
    v[136..144].copy_from_slice(&0x1_4000u64.to_le_bytes());
    v[152..160].copy_from_slice(&0u64.to_le_bytes());
    v[160..168].copy_from_slice(&0u64.to_le_bytes());
    assert!(check_image(&v, offset));
    let mut k = bare();
    add_initproc(&mut k, &v);
    run_tasks(&mut k, 0);
    let token = current_user_token(&k, 0);
    assert_eq!(read_user_word(&k.pool.mem, token, 0x1_0000), 0x6564_6f63);
    assert_eq!(current_trap_cx(&k, 0).rsp, 0x1_7000);
    // far from the other pages there is no table to look it up in
    v[136..144].copy_from_slice(&0x4000_0000u64.to_le_bytes());
    assert!(!check_image(&v, offset));
}

/// Give the process of thread `main` another thread, which is ready to run.
fn another_thread(k: &mut Kernel<FrameBlock>, main: usize) -> usize {
    let res = k.tasks.get(&main).unwrap().inner.res.unwrap();
    let thread = TaskControlBlock::new(k, res.process, res.ustack_base, true);
    let id = thread.kstack.id;
    k.processes.get_mut(&res.process).unwrap().inner.tasks.push(Some(id));
    k.tasks.insert(id, thread);
    k.task_manager.add(id);
    id
}

#[test]
fn end_of_another_thread_leaves_its_timers() {
    let mut k = started();
    let id = another_thread(&mut k, 0);
    let frames = k.pool.allocator.free_count();
    assert_eq!(run_tasks(&mut k, 1).unwrap().task, id);
    k.timers.add_timer(5, id);
    assert_eq!(k.console.read(id), None);
    assert_eq!(sys_exit(&mut k, 1, 7), ExitOutcome::Switch);
    let thread = k.tasks.get(&id).unwrap();
    assert_eq!(thread.inner.exit_code, Some(7));
    assert!(thread.inner.res.is_none());
    assert!(k.timers.has_event(id));
    assert!(!k.timers.has_event(0));
    assert_eq!(k.console.handle_irq(&vec![b'x']), Some(id));
    assert_eq!(current_task(&k, 1), None);
    assert!(!k.processes.get(&1).unwrap().inner.is_zombie);
    // the two pages of its stack are free again
    assert_eq!(k.pool.allocator.free_count(), frames + 2);
}

#[test]
fn end_of_a_process_spares_a_thread_on_another_processor() {
    let mut k = child_runs();
    let running = another_thread(&mut k, 1);
    let waiting = another_thread(&mut k, 1);
    assert_eq!(run_tasks(&mut k, 1).unwrap().task, 0);
    assert_eq!(run_tasks(&mut k, 2).unwrap().task, running);
    assert!(exit_possible(&k, 0));
    assert_eq!(sys_exit(&mut k, 0, 3), ExitOutcome::Switch);
    drop_exiting(&mut k, 0);
    assert!(k.processes.get(&2).unwrap().inner.is_zombie);
    assert_eq!(current_task(&k, 2), Some(running));
    assert!(k.tasks.get(&running).unwrap().inner.res.is_none());
    // the other one no longer waits for its turn
    assert!(!k.tasks.contains_key(&waiting));
    assert_eq!(run_tasks(&mut k, 3), None);
    assert_eq!(sys_waitpid(&mut k, 1, 2, 0x1_3000), 2);
    // its stack is in use
    assert!(k.tasks.contains_key(&running) && k.processes.contains_key(&2));
}

#[test]
fn programs_are_started_only_if_they_fit() {
    let good = image(b"code", 0x1_0010);
    let mut k = bare();
    assert!(start_possible(&k, &good));
    assert!(!start_possible(&k, &good[..60]));
    let free = k.pool.allocator.free_count();
    add_initproc(&mut k, &good);
    let taken = free - k.pool.allocator.free_count();
    let mut k = bare();
    while k.pool.allocator.free_count() > taken {
        frame_alloc(&mut k.pool);
    }
    assert!(start_possible(&k, &good));
    frame_alloc(&mut k.pool);
    assert!(!start_possible(&k, &good));
}

#[test]
fn programs_are_replaced_only_if_they_fit() {
    let good = image(b"code", 0x1_0010);
    let mut k = started();
    let few = vec![String::from("cat"), String::from("file")];
    assert!(exec_possible(&k, 1, &good, &few));
    assert!(exec_possible(&k, 1, &good, &Vec::new()));
    assert!(!exec_possible(&k, 1, &good[..60], &few));
    let long = String::from_utf8(vec![b'x'; 0x3000]).unwrap();
    assert!(!exec_possible(&k, 1, &good, &vec![long]));
    // two pages, a stack of two, and four tables
    while k.pool.allocator.free_count() > 8 {
        frame_alloc(&mut k.pool);
    }
    let mut larger = good.clone();
    larger[64 + 41] = 0x28;
    assert!(exec_possible(&k, 1, &good, &few));
    assert!(!exec_possible(&k, 1, &larger, &few));
    frame_alloc(&mut k.pool);
    assert!(!exec_possible(&k, 1, &good, &few));
}

#[test]
fn kernel_stacks_have_room() {
    let mut k = bare();
    assert!(stacks_have_room(&k.kernel_space));
    let empty = MemorySet::new_bare(&mut k.pool);
    assert!(!stacks_have_room(&empty));
    let mut high = MemorySet::new_bare(&mut k.pool);
    high.insert_framed_area(
        &mut k.pool,
        VirtAddr::new(0xffff_ffff_c000_0000),
        VirtAddr::new(0xffff_ffff_c000_1000),
        MapPermission { bits: MAP_R },
    );
    assert!(!stacks_have_room(&high));
}
