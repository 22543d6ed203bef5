# rcore

The logic of a small x86-64 kernel for several processors, as a Verus library: the
functions in `src/` are verified against their contracts. Three of them call outside
crates, which read program files and tell VirtIO devices apart; their contracts, and that
of one function of the standard library, are believed.

- `src/mm`: frames, page tables, address spaces, program images, and access to the
  memory of user programs. Physical memory is a trait; `FrameBlock` is an
  implementation of it in ordinary memory.
- `src/task`: processes and threads. `Kernel` holds the whole state, and `Kernel::wf`
  is what every operation keeps. `guarantees.rs` states what user programs can rely
  on.
- `src/syscall`: system calls, on the state of the kernel.
- `src/sync`: locks, semaphores and condition variables.
- `src/trap`: descriptor tables, the trap context, and the page tables used at boot.
- `src/drivers`, `src/ioapic.rs`, `src/timer.rs`, `src/uart.rs`, `src/cpu.rs`: what to
  write to the registers of devices and processors, and what to do with what comes
  back.
- `src/user.rs`: the other side of system calls.
- `app/`: the kernel around the library. It contains the assembly, the statics of each
  processor, the access to ports and device memory, and the loop that runs threads. The
  image needs a linker script that defines the symbols named in `app/boot.rs`, and the
  linked applications that `app/apps.rs` lists.
- `tests/`: examples that run.

Where a function asks something of the kernel's state that a caller cannot know, another
one, such as `exit_possible` or `exec_possible`, tells whether it holds.

A function that would have to switch stacks, wait or touch a device returns what is to be
done instead, and `app/` does it.
