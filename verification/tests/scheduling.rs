use rcore::config::KERNEL_BASE;
use rcore::mm::address::{PhysPageNum, VirtAddr};
use rcore::mm::frame_allocator::{FrameDequeAllocator, FramePool};
use rcore::mm::map_area::{MapPermission, MAP_R, MAP_X};
use rcore::mm::memory_set::MemorySet;
use rcore::mm::phys::FrameBlock;
use rcore::mm::user_memory::read_user_word;
use rcore::syscall::dispatch::{
    syscall, SysOutcome, SYSCALL_EXIT, SYSCALL_GET_TIME, SYSCALL_SBRK, SYSCALL_WRITE, SYSCALL_YIELD,
};
use rcore::syscall::process::{
    check_sigaction_error, sys_fork, sys_get_time, sys_kill, sys_sigaction, sys_sigprocmask,
    sys_sigreturn, sys_yield,
};
use rcore::task::exec::write_process;
use rcore::task::initproc::add_initproc;
use rcore::task::kernel::Kernel;
use rcore::task::manager::TaskManager;
use rcore::task::schedule::{
    block_current_and_run_next, check_timer, current_task, current_trap_cx, current_user_token,
    run_tasks, suspend_current_and_run_next, take_current_task, wakeup_task,
};
use rcore::task::signal::{
    SignalFlags, SIGABRT, SIGCONT, SIGFPE, SIGILL, SIGINT, SIGKILL, SIGSEGV, SIGSTOP,
};
use rcore::task::signals::{check_signals_error_of_current, current_add_signal, handle_signals};
use rcore::task::task::TaskStatus;
use rcore::task::terminate::ExitOutcome;
use rcore::timer::Timers;
use rcore::user;

fn put(v: &mut Vec<u8>, n: u64, bytes: usize) {
    for i in 0..bytes {
        v.push((n >> (8 * i)) as u8);
    }
}

/// A 32-bit program of one page at 0x40_0000.
fn image() -> Vec<u8> {
    let mut v = vec![0x7f, 0x45, 0x4c, 0x46, 1, 1, 1, 0, 0, 0, 0, 0, 0, 0, 0, 0];
    put(&mut v, 2, 2);
    put(&mut v, 3, 2);
    put(&mut v, 1, 4);
    put(&mut v, 0x40_0004, 4);
    put(&mut v, 52, 4);
    put(&mut v, 0, 4);
    put(&mut v, 0, 4);
    put(&mut v, 52, 2);
    put(&mut v, 32, 2);
    put(&mut v, 1, 2);
    put(&mut v, 40, 2);
    put(&mut v, 0, 2);
    put(&mut v, 0, 2);
    put(&mut v, 1, 4);
    put(&mut v, 84, 4);
    put(&mut v, 0x40_0000, 4);
    put(&mut v, 0x40_0000, 4);
    put(&mut v, 8, 4);
    put(&mut v, 0x1000, 4);
    put(&mut v, 7, 4);
    put(&mut v, 0x1000, 4);
    put(&mut v, 0x0102_0304_0506_0708, 8);
    v
}

/// A kernel whose first process runs on processor 0.
fn started() -> Kernel<FrameBlock> {
    let mem = FrameBlock::new(0x100, 256);
    let mut allocator = FrameDequeAllocator::new();
    allocator.init(&[(PhysPageNum(0x100), PhysPageNum(0x200))]);
    let mut pool = FramePool { mem, allocator };
    let mut space = MemorySet::new_bare(&mut pool);
    space.insert_framed_area(
        &mut pool,
        VirtAddr::new(KERNEL_BASE),
        VirtAddr::new(KERNEL_BASE + 0x1000),
        MapPermission { bits: MAP_R | MAP_X },
    );
    let mut k = Kernel::new(pool, space, 0xffff_8000_0000_0000, 0x7777);
    add_initproc(&mut k, &image());
    assert_eq!(run_tasks(&mut k, 0).unwrap().task, 0);
    k
}

fn flags(bits: u32) -> SignalFlags {
    SignalFlags { bits }
}

#[test]
fn narrow_programs_are_loaded() {
    let k = started();
    let token = current_user_token(&k, 0);
    assert_eq!(current_trap_cx(&k, 0).rip, 0x40_0004);
    assert_eq!(read_user_word(&k.pool.mem, token, 0x40_0000), 0x0102_0304_0506_0708);
    assert_eq!(read_user_word(&k.pool.mem, token, 0x40_0008), 0);
}

#[test]
fn ready_threads_run_in_turn() {
    let mut m = TaskManager::new();
    m.add(4);
    m.add(5);
    m.add(6);
    m.remove(5);
    m.remove(9);
    assert_eq!((m.fetch(), m.fetch(), m.fetch()), (Some(4), Some(6), None));
}

#[test]
fn suspended_thread_waits_for_its_processor() {
    let mut k = started();
    sys_fork(&mut k, 0);
    sys_fork(&mut k, 0);
    assert_eq!(suspend_current_and_run_next(&mut k, 0), 0);
    assert_eq!(current_task(&k, 0), None);
    assert_eq!(k.tasks.get(&0).unwrap().inner.task_status, TaskStatus::Ready);
    assert_eq!(run_tasks(&mut k, 1).unwrap().task, 1);
    assert_eq!(run_tasks(&mut k, 2).unwrap().task, 2);
    assert_eq!(run_tasks(&mut k, 3), None);
    assert_eq!(run_tasks(&mut k, 0).unwrap().task, 0);
    assert_eq!(k.tasks.get(&1).unwrap().last_cpu, 1);
    assert_eq!(sys_yield(&mut k, 1), 1);
    assert_eq!(run_tasks(&mut k, 3), None);
    assert_eq!(run_tasks(&mut k, 1).unwrap().task, 1);
    assert_eq!(take_current_task(&mut k, 3), None);
}

#[test]
fn blocked_thread_runs_once_woken() {
    let mut k = started();
    assert_eq!(block_current_and_run_next(&mut k, 0), 0);
    assert_eq!(k.tasks.get(&0).unwrap().inner.task_status, TaskStatus::Blocked);
    assert_eq!(run_tasks(&mut k, 0), None);
    wakeup_task(&mut k, 0);
    assert_eq!(k.tasks.get(&0).unwrap().inner.task_status, TaskStatus::Ready);
    assert_eq!(run_tasks(&mut k, 0).unwrap().task, 0);
    assert_eq!(run_tasks(&mut k, 1), None);
}

#[test]
fn thread_is_queued_once() {
    let mut k = started();
    wakeup_task(&mut k, 0);
    wakeup_task(&mut k, 0);
    assert_eq!(k.processors[0].pending_requeue.len(), 1);
    assert_eq!(current_task(&k, 0), Some(0));
    k.timers.add_timer(0, 0);
    k.timers.add_timer(0, 0);
    assert_eq!(suspend_current_and_run_next(&mut k, 0), 0);
    check_timer(&mut k);
    assert_eq!(k.processors[0].pending_requeue.len(), 1);
    assert_eq!(run_tasks(&mut k, 0).unwrap().task, 0);
    assert_eq!(run_tasks(&mut k, 1), None);
}

#[test]
fn clock_tells_how_often_it_ticked() {
    let mut k = started();
    for n in 0..5 {
        assert_eq!(sys_get_time(&k), n);
        k.timers.tick();
    }
    assert_eq!(sys_get_time(&k), 5);
}

#[test]
fn sleeping_thread_is_woken_in_time() {
    let mut k = started();
    k.timers.add_timer(2, 0);
    block_current_and_run_next(&mut k, 0);
    k.timers.tick();
    check_timer(&mut k);
    assert_eq!(run_tasks(&mut k, 0), None);
    k.timers.tick();
    check_timer(&mut k);
    assert_eq!(run_tasks(&mut k, 0).unwrap().task, 0);
    assert_eq!(sys_get_time(&k), 2);
}

#[test]
fn timers_expire_in_order() {
    let mut t = Timers::new();
    t.add_timer(3, 30);
    t.add_timer(1, 10);
    t.add_timer(2, 20);
    t.add_timer(2, 21);
    t.remove_timer(21);
    t.tick();
    t.tick();
    assert_eq!(t.get_time_ms(), 2);
    assert_eq!(t.check_timer(), vec![10, 20]);
    assert!(t.check_timer().is_empty());
    t.tick();
    assert_eq!(t.check_timer(), vec![30]);
}

#[test]
fn calls_are_dispatched() {
    let mut k = started();
    let w = user::sys_write(1, 0x1000, 5);
    assert_eq!((w.id, w.args), (SYSCALL_WRITE, [1, 0x1000, 5]));
    assert_eq!(
        syscall(&mut k, 0, w.id, w.args),
        SysOutcome::Write { fd: 1, buf: 0x1000, len: 5 }
    );
    k.timers.tick();
    let g = user::sys_get_time();
    assert_eq!(g.id, SYSCALL_GET_TIME);
    assert_eq!(syscall(&mut k, 0, g.id, g.args), SysOutcome::Return(1));
    assert_eq!(
        syscall(&mut k, 0, SYSCALL_SBRK, [0xffff_ffff, 0, 0]),
        SysOutcome::Sbrk { size: -1 }
    );
    let y = user::sys_yield();
    assert_eq!(y.id, SYSCALL_YIELD);
    assert_eq!(syscall(&mut k, 0, y.id, y.args), SysOutcome::Yielded { task: 0 });
    run_tasks(&mut k, 0);
    let e = user::sys_exit(-5);
    assert_eq!(e.id, SYSCALL_EXIT);
    assert_eq!(
        syscall(&mut k, 0, e.id, e.args),
        SysOutcome::Exited(ExitOutcome::Shutdown { failure: true })
    );
}

#[test]
fn exit_code_reaches_the_kernel() {
    for code in [0, 1, -1, i32::MIN, i32::MAX] {
        let mut k = started();
        sys_fork(&mut k, 0);
        run_tasks(&mut k, 1);
        let e = user::sys_exit(code);
        syscall(&mut k, 1, e.id, e.args);
        assert_eq!(k.processes.get(&2).unwrap().inner.exit_code, code);
    }
}

#[test]
fn signals_are_sets() {
    let mut s = SignalFlags::empty();
    s.insert(flags(SIGINT));
    s.insert(flags(SIGKILL));
    assert_eq!(s.bits(), 0x204);
    assert!(s.contains(flags(SIGKILL)) && !s.contains(flags(SIGSTOP)));
    s.toggle(flags(SIGKILL));
    assert_eq!(s.bits(), SIGINT);
    assert_eq!(SignalFlags::from_bits(5), Some(flags(5)));
}

#[test]
fn fatal_signals_have_exit_codes() {
    let codes = [
        (SIGINT, -2),
        (SIGILL, -4),
        (SIGABRT, -6),
        (SIGFPE, -8),
        (SIGKILL, -9),
        (SIGSEGV, -11),
    ];
    for (bit, code) in codes {
        assert_eq!(flags(bit).check_error().unwrap().0, code);
    }
    assert_eq!(flags(SIGINT | SIGKILL).check_error().unwrap(), (-2, "Killed, SIGINT=2"));
    assert!(flags(SIGSTOP | SIGCONT).check_error().is_none());
}

#[test]
fn kill_marks_the_process() {
    let mut k = started();
    assert_eq!(sys_kill(&mut k, 7, 9), -1);
    assert_eq!(sys_kill(&mut k, 1, 9), 0);
    assert_eq!(sys_kill(&mut k, 1, 9), -1);
    assert_eq!(sys_kill(&mut k, 1, 32), -1);
    assert_eq!(sys_kill(&mut k, 1, -1), -1);
    assert_eq!(sys_kill(&mut k, 1, i32::MIN), -1);
    assert_eq!(k.processes.get(&1).unwrap().inner.signals.bits, 1 << 9);
    assert_eq!(check_signals_error_of_current(&k, 0).unwrap().0, -9);
    assert_eq!(handle_signals(&mut k, 0), None);
    assert!(k.processes.get(&1).unwrap().inner.killed);
}

#[test]
fn stopped_process_gives_way_until_continued() {
    let mut k = started();
    current_add_signal(&mut k, 0, flags(SIGSTOP));
    assert_eq!(handle_signals(&mut k, 0), Some(0));
    assert!(k.processes.get(&1).unwrap().inner.frozen);
    run_tasks(&mut k, 0);
    assert_eq!(handle_signals(&mut k, 0), Some(0));
    run_tasks(&mut k, 0);
    assert_eq!(sys_kill(&mut k, 1, 18), 0);
    assert_eq!(handle_signals(&mut k, 0), None);
    assert!(!k.processes.get(&1).unwrap().inner.frozen);
    assert_eq!(k.processes.get(&1).unwrap().inner.signals, SignalFlags::empty());
}

#[test]
fn masked_signal_waits() {
    let mut k = started();
    assert_eq!(sys_sigprocmask(&mut k, 0, SIGKILL), 0);
    assert_eq!(sys_sigprocmask(&mut k, 0, SIGKILL), SIGKILL as isize);
    current_add_signal(&mut k, 0, flags(SIGKILL));
    handle_signals(&mut k, 0);
    assert!(!k.processes.get(&1).unwrap().inner.killed);
    sys_sigprocmask(&mut k, 0, 0);
    handle_signals(&mut k, 0);
    assert!(k.processes.get(&1).unwrap().inner.killed);
}

#[test]
fn handler_runs_and_returns() {
    let mut k = started();
    let mut action = Vec::new();
    put(&mut action, 0x40_0100, 8);
    put(&mut action, SIGINT as u64, 4);
    let at = 0x40_0800;
    write_process(&mut k, 1, at, &action);
    assert_eq!(sys_sigaction(&mut k, 0, 10, at, at + 0x20), 0);
    let token = current_user_token(&k, 0);
    assert_eq!(read_user_word(&k.pool.mem, token, at + 0x20), 0);
    let before = current_trap_cx(&k, 0);
    current_add_signal(&mut k, 0, flags(1 << 10));
    assert_eq!(handle_signals(&mut k, 0), None);
    let cx = current_trap_cx(&k, 0);
    assert_eq!((cx.rip, cx.rdi, cx.rsp), (0x40_0100, 10, before.rsp));
    current_add_signal(&mut k, 0, flags(SIGINT));
    handle_signals(&mut k, 0);
    assert_eq!(current_trap_cx(&k, 0), cx);
    assert_eq!(sys_sigreturn(&mut k, 0), before.rax as isize);
    assert_eq!(current_trap_cx(&k, 0), before);
    assert_eq!(k.processes.get(&1).unwrap().inner.handling_sig, -1);
    assert_eq!(sys_sigaction(&mut k, 0, 10, at + 0x20, at + 0x40), 0);
    assert_eq!(read_user_word(&k.pool.mem, token, at + 0x40), 0x40_0100);
    assert_eq!(read_user_word(&k.pool.mem, token, at + 0x48) as u32, SIGINT);
}

#[test]
fn bad_actions_are_refused() {
    let mut k = started();
    assert_eq!(sys_sigaction(&mut k, 0, 32, 0x40_0000, 0x40_0010), -1);
    assert_eq!(sys_sigaction(&mut k, 0, -1, 0x40_0000, 0x40_0010), -1);
    assert_eq!(sys_sigaction(&mut k, 0, 9, 0x40_0000, 0x40_0010), -1);
    assert_eq!(sys_sigaction(&mut k, 0, 19, 0x40_0000, 0x40_0010), -1);
    assert_eq!(sys_sigaction(&mut k, 0, 10, 0, 0x40_0010), -1);
    assert_eq!(sys_sigaction(&mut k, 0, 10, 0x40_0000, 0), -1);
    assert!(check_sigaction_error(flags(SIGKILL), 1, 1));
    assert!(!check_sigaction_error(flags(SIGINT), 1, 1));
}

#[test]
fn timers_of_an_ended_process_are_gone() {
    let mut k = started();
    sys_fork(&mut k, 0);
    run_tasks(&mut k, 1);
    k.timers.add_timer(1, 1);
    k.timers.add_timer(1, 0);
    let e = user::sys_exit(0);
    assert_eq!(syscall(&mut k, 1, e.id, e.args), SysOutcome::Exited(ExitOutcome::Switch));
    block_current_and_run_next(&mut k, 0);
    k.timers.tick();
    check_timer(&mut k);
    assert_eq!(run_tasks(&mut k, 0).unwrap().task, 0);
    assert_eq!(run_tasks(&mut k, 2), None);
}

#[test]
fn events_that_are_alike_are_counted() {
    let mut t = Timers::new();
    t.add_timer(1, 5);
    t.add_timer(1, 5);
    t.add_timer(2, 5);
    t.add_timer(2, 5);
    t.tick();
    assert_eq!(t.check_timer(), vec![5, 5]);
    assert!(t.has_event(5) && !t.has_event(6));
    t.tick();
    assert_eq!(t.check_timer(), vec![5, 5]);
    assert!(!t.has_event(5));
}
