//! Replacing the program of a process.
use vstd::prelude::*;
use crate::mm::page_table::{lemma_root_is_table, root_of, token_reads_back};
use crate::mm::phys::{Frames, PhysMemory};
use crate::mm::user_check::{find_frame, find_string};
use crate::mm::user_memory::{
    read_user_word, string_at, translated_str, user_chars, user_word, word_at,
};
use crate::task::args::arg_bytes;
use crate::task::create::lemma_process_space;
use crate::task::exec::{can_exec, program_started};
use crate::task::kernel::Kernel;
use crate::task::process::ProcessControlBlock;
use crate::task::schedule::{current_process, current_user_token};
use crate::task::signals::{lemma_running, running_process, runs};

verus! {

/// The highest number of arguments that are read. The array of pointers is to
/// end with a zero; the bound keeps the kernel from running past the end of one
/// that does not.
pub const MAX_ARGV: usize = 32;

/// The number of arguments from argument `i` on: up to the zero at the end of the
/// array of pointers, and no more than [`MAX_ARGV`].
pub open spec fn argv_count(mem: Frames, root: u64, args: int, i: int) -> int
    decreases MAX_ARGV - i,
{
    if i >= MAX_ARGV || user_word(mem, root, args + 8 * i) == 0 {
        i
    } else {
        argv_count(mem, root, args, i + 1)
    }
}

/// Whether there is a string at pointer value `ptr`.
pub open spec fn has_string(mem: Frames, root: u64, ptr: int) -> bool {
    exists|n: int| string_at(mem, root, ptr, n)
}

/// Whether `s` is the string at pointer value `ptr`.
pub open spec fn is_string(mem: Frames, root: u64, ptr: int, s: Seq<char>) -> bool {
    string_at(mem, root, ptr, s.len() as int) && s == user_chars(mem, root, ptr, s.len() as int)
}

/// The pointer to argument `i`.
pub open spec fn argv_entry(mem: Frames, root: u64, args: int, i: int) -> int {
    user_word(mem, root, args + 8 * i) as int
}

/// Whether the pointer to argument `i` can be read and is zero or leads to a
/// string.
pub open spec fn arg_readable(mem: Frames, root: u64, args: int, i: int) -> bool {
    &&& word_at(mem, root, args + 8 * i)
    &&& argv_entry(mem, root, args, i) != 0 ==> has_string(
        mem,
        root,
        argv_entry(mem, root, args, i),
    )
}

/// Whether the path and the arguments of a program can be read.
pub open spec fn argv_readable(mem: Frames, root: u64, path: int, args: int) -> bool {
    let n = argv_count(mem, root, args, 0);
    &&& has_string(mem, root, path)
    &&& args + 8 * MAX_ARGV <= u64::MAX
    &&& forall|i: int|
        0 <= i <= n && i < MAX_ARGV ==> #[trigger] arg_readable(mem, root, args, i)
}

/// The path and the arguments with which the running process wants to be
/// replaced.
pub fn read_exec_args<M: PhysMemory>(
    kernel: &Kernel<M>,
    cpu: usize,
    path: u64,
    args: u64,
) -> (r: (String, Vec<String>))
    requires
        kernel.wf(),
        runs(kernel, cpu),
        ({
            let root = kernel.processes@[running_process(kernel, cpu)].inner.memory_set.root();
            argv_readable(kernel.pool.frames(), root, path as int, args as int)
        }),
    ensures
        ({
            let mem = kernel.pool.frames();
            let root = kernel.processes@[running_process(kernel, cpu)].inner.memory_set.root();
            &&& is_string(mem, root, path as int, r.0@)
            &&& r.1@.len() == argv_count(mem, root, args as int, 0)
            &&& forall|i: int|
                0 <= i < r.1@.len() ==> is_string(
                    mem,
                    root,
                    argv_entry(mem, root, args as int, i),
                    (#[trigger] r.1@[i])@,
                )
        }),
{
    let ghost mem = kernel.pool.frames();
    let ghost pid = running_process(kernel, cpu);
    let ghost root = kernel.processes@[pid].inner.memory_set.root();
    let token: u64 = current_user_token(kernel, cpu);
    proof {
        lemma_running(kernel, cpu);
        lemma_process_space(kernel, pid);
        lemma_root_is_table(&kernel.processes@[pid].inner.memory_set.table(), &kernel.pool);
        assert(kernel.pool.wf()) by {
            reveal(crate::task::kernel::memory_wf);
        }
        kernel.pool.mem.frames_wf();
        token_reads_back(root);
        assert(root_of(token) == root);
    }
    let path: String = translated_str(&kernel.pool.mem, token, path);
    let mut args_vec: Vec<String> = Vec::new();
    let mut done: bool = false;
    let ghost n = argv_count(mem, root, args as int, 0);
    while !done
        invariant
            mem == kernel.pool.mem.frames(),
            root_of(token) == root,
            n == argv_count(mem, root, args as int, 0),
            args + 8 * MAX_ARGV <= u64::MAX,
            args_vec@.len() <= MAX_ARGV,
            argv_count(mem, root, args as int, args_vec@.len() as int) == n,
            args_vec@.len() == MAX_ARGV ==> done,
            done ==> args_vec@.len() == n,
            forall|i: int|
                0 <= i <= n && i < MAX_ARGV ==> #[trigger] arg_readable(mem, root, args as int, i),
            forall|i: int|
                0 <= i < args_vec@.len() ==> is_string(
                    mem,
                    root,
                    argv_entry(mem, root, args as int, i),
                    (#[trigger] args_vec@[i])@,
                ),
        decreases MAX_ARGV - args_vec@.len() + (if done {
            0int
        } else {
            1
        }),
    {
        let ghost k = args_vec@.len() as int;
        proof {
            lemma_argv_count(mem, root, args as int, k);
            assert(arg_readable(mem, root, args as int, k));
        }
        let arg_str_ptr: u64 = read_user_word(
            &kernel.pool.mem,
            token,
            args + 8 * (args_vec.len() as u64),
        );
        if arg_str_ptr == 0 {
            done = true;
        } else {
            args_vec.push(translated_str(&kernel.pool.mem, token, arg_str_ptr));
            if args_vec.len() >= MAX_ARGV {
                done = true;
            }
        }
    }
    (path, args_vec)
}

/// Whether the path and the arguments of a program can be read in the address space of
/// `token`.
fn check_argv<M: PhysMemory>(mem: &M, token: u64, path: u64, args: u64) -> (r: bool)
    ensures
        r == argv_readable(mem.frames(), root_of(token), path as int, args as int),
{
    let ghost frames = mem.frames();
    let ghost root = root_of(token);
    if find_string(mem, token, path).is_none() || args > u64::MAX - 8 * (
    MAX_ARGV as u64) {
        return false;
    }
    let ghost n = argv_count(frames, root, args as int, 0);
    let mut i: usize = 0;
    while i < MAX_ARGV
        invariant
            i <= MAX_ARGV,
            frames == mem.frames(),
            root_of(token) == root,
            has_string(frames, root, path as int),
            args + 8 * MAX_ARGV <= u64::MAX,
            n == argv_count(frames, root, args as int, 0),
            n == argv_count(frames, root, args as int, i as int),
            forall|j: int| 0 <= j < i ==> #[trigger] arg_readable(frames, root, args as int, j),
        decreases MAX_ARGV - i,
    {
        proof {
            lemma_argv_count(frames, root, args as int, i as int);
        }
        let ptr: u64 = args + 8 * (i as u64);
        if ptr % 8 != 0 || find_frame(mem, token, ptr).is_none() {
            assert(0 <= i <= n && i < MAX_ARGV && !arg_readable(frames, root, args as int, i as int));
            assert(!argv_readable(frames, root, path as int, args as int));
            return false;
        }
        let entry: u64 = read_user_word(mem, token, ptr);
        if entry == 0 {
            assert(arg_readable(frames, root, args as int, i as int));
            return true;
        }
        if find_string(mem, token, entry).is_none() {
            assert(0 <= i <= n && i < MAX_ARGV && !arg_readable(frames, root, args as int, i as int));
            assert(!argv_readable(frames, root, path as int, args as int));
            return false;
        }
        i = i + 1;
    }
    true
}

/// Whether the path and the arguments with which the running process wants to be
/// replaced can be read.
pub fn exec_args_readable<M: PhysMemory>(
    kernel: &Kernel<M>,
    cpu: usize,
    path: u64,
    args: u64,
) -> (r: bool)
    requires
        kernel.wf(),
        runs(kernel, cpu),
    ensures
        ({
            let root = kernel.processes@[running_process(kernel, cpu)].inner.memory_set.root();
            r == argv_readable(kernel.pool.frames(), root, path as int, args as int)
        }),
{
    let ghost mem = kernel.pool.frames();
    let ghost pid = running_process(kernel, cpu);
    let ghost root = kernel.processes@[pid].inner.memory_set.root();
    let token: u64 = current_user_token(kernel, cpu);
    proof {
        lemma_running(kernel, cpu);
        lemma_process_space(kernel, pid);
        lemma_root_is_table(&kernel.processes@[pid].inner.memory_set.table(), &kernel.pool);
        assert(kernel.pool.wf()) by {
            reveal(crate::task::kernel::memory_wf);
        }
        kernel.pool.mem.frames_wf();
        token_reads_back(root);
        assert(root_of(token) == root);
    }
    check_argv(&kernel.pool.mem, token, path, args)
}

proof fn lemma_argv_count(mem: Frames, root: u64, args: int, i: int)
    requires
        0 <= i <= MAX_ARGV,
    ensures
        i <= argv_count(mem, root, args, i) <= MAX_ARGV,
    decreases MAX_ARGV - i,
{
    if i < MAX_ARGV && user_word(mem, root, args + 8 * i) != 0 {
        lemma_argv_count(mem, root, args, i + 1);
    }
}

/// Replace the program of the running process by the one in `app_data`, the file
/// that the path led to, if there is one. Returns the number of arguments, and
/// the value to load into CR3; or -1 if there is no file.
pub fn sys_exec<M: PhysMemory>(
    kernel: &mut Kernel<M>,
    cpu: usize,
    app_data: Option<Vec<u8>>,
    args_vec: Vec<String>,
) -> (r: (isize, Option<u64>))
    requires
        old(kernel).wf(),
        runs(old(kernel), cpu),
        app_data matches Some(data) ==> can_exec(
            old(kernel),
            running_process(old(kernel), cpu),
            data@,
            arg_bytes(args_vec@),
        ),
    ensures
        final(kernel).wf(),
        ({
            let pid = running_process(old(kernel), cpu);
            match app_data {
                Some(data) => {
                    &&& r.0 == args_vec@.len() as isize
                    &&& program_started(
                        final(kernel),
                        old(kernel),
                        pid,
                        data@,
                        arg_bytes(args_vec@),
                    )
                    &&& r.1 is Some
                    &&& r.1->Some_0 == final(kernel).processes@[pid].inner.memory_set.root()
                        * 0x1000
                },
                None => {
                    &&& r.0 == -1
                    &&& r.1 is None
                    &&& *final(kernel) == *old(kernel)
                },
            }
        }),
{
    proof {
        lemma_running(kernel, cpu);
    }
    match app_data {
        Some(all_data) => {
            let pid: usize = current_process(kernel, cpu);
            let argc: usize = args_vec.len();
            let token: u64 = ProcessControlBlock::exec(
                kernel,
                pid,
                all_data.as_slice(),
                &args_vec,
            );
            (argc as isize, Some(token))
        },
        None => (-1, None),
    }
}

} // verus!
