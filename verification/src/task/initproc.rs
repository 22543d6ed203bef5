//! The first process.
use vstd::prelude::*;
use super::check::can_start;
use super::create::process_made;
use super::kernel::{
    lemma_memory_kept, names_wf, processor_wf, lemma_processor_kept, references_wf,
    schedule_wf, Kernel, IDLE_PID,
};
use super::process::ProcessControlBlock;
use crate::config::NCPU;
use crate::mm::phys::PhysMemory;

verus! {

/// Make the first process of the program in `elf_data`. It adopts the children of
/// processes that end.
pub fn add_initproc<M: PhysMemory>(kernel: &mut Kernel<M>, elf_data: &[u8])
    requires
        old(kernel).wf(),
        can_start(old(kernel), elf_data@),
    ensures
        final(kernel).wf(),
        final(kernel).initproc == Some(IDLE_PID),
        process_made(
            &Kernel { initproc: None, ..*final(kernel) },
            old(kernel),
            IDLE_PID,
            elf_data@,
        ),
{
    let pid: usize = ProcessControlBlock::new(kernel, elf_data);
    let ghost k1 = *kernel;
    kernel.initproc = Some(pid);
    proof {
        lemma_memory_kept(kernel, &k1);
        reveal(references_wf);
        assert forall|c: int| 0 <= c < NCPU implies #[trigger] processor_wf(kernel, c) by {
            assert(processor_wf(&k1, c));
            lemma_processor_kept(kernel, &k1, c);
        }
        assert(schedule_wf(kernel));
        assert(names_wf(kernel));
    }
}

} // verus!
