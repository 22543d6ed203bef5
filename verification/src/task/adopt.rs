//! Orphans: the first process adopts the children of a process that ends.
use vstd::prelude::*;
use super::kernel::{
    children_wf, lemma_memory_kept, lemma_refs_kept, lemma_schedule_kept, references_wf, Kernel,
};
use super::process::{ProcessControlBlock, ProcessControlBlockInner};
use crate::mm::phys::PhysMemory;

verus! {

/// Process `q` after the first process, `init`, adopted the processes of `list`.
pub open spec fn adopted_process(
    p1: ProcessControlBlock,
    p0: ProcessControlBlock,
    q: usize,
    init: usize,
    list: Seq<usize>,
) -> bool {
    &&& p1.inner.parent == if list.contains(q) {
        Some(init)
    } else {
        p0.inner.parent
    }
    &&& p1.inner.children@ == if q == init {
        p0.inner.children@ + list
    } else {
        p0.inner.children@
    }
    &&& p1 == (ProcessControlBlock {
        inner: ProcessControlBlockInner {
            parent: p1.inner.parent,
            children: p1.inner.children,
            ..p0.inner
        },
        ..p0
    })
}

/// `kernel` came from `kernel0` by letting the first process, `init`, adopt the
/// processes of `list`.
pub open spec fn adopted<M: PhysMemory>(
    kernel: &Kernel<M>,
    kernel0: &Kernel<M>,
    init: usize,
    list: Seq<usize>,
) -> bool {
    &&& kernel.processes@.dom() == kernel0.processes@.dom()
    &&& forall|q: usize| #[trigger]
        kernel0.processes@.dom().contains(q) ==> adopted_process(
            kernel.processes@[q],
            kernel0.processes@[q],
            q,
            init,
            list,
        )
    &&& *kernel == (Kernel { processes: kernel.processes, ..*kernel0 })
}

proof fn lemma_adopted<M: PhysMemory>(
    kernel: &Kernel<M>,
    kernel0: &Kernel<M>,
    init: usize,
    list: Seq<usize>,
)
    requires
        kernel0.wf(),
        kernel0.initproc == Some(init),
        adopted(kernel, kernel0, init, list),
        forall|i: int| 0 <= i < list.len() ==> kernel0.processes@.dom().contains(#[trigger] list[i]),
    ensures
        kernel.wf(),
{
    reveal(references_wf);
    assert(kernel.spaces() =~= kernel0.spaces());
    lemma_memory_kept(kernel, kernel0);
    lemma_schedule_kept(kernel, kernel0);
    let children0 = kernel0.processes@[init].inner.children@;
    let children = kernel.processes@[init].inner.children@;
    assert(kernel0.processes@.dom().contains(init));
    assert forall|i: int| 0 <= i < children.len() implies kernel.processes@.dom().contains(
        #[trigger] children[i],
    ) by {
        if i < children0.len() {
            assert(kernel0.processes@.dom().contains(kernel0.processes@[init].inner.children@[i]));
        } else {
            assert(kernel0.processes@.dom().contains(list[i - children0.len()]));
        }
    }
    assert(children_wf(kernel, init));
    lemma_refs_kept(kernel, kernel0);
}

/// Let the first process, `init`, adopt the children of process `pid`.
pub fn adopt_children<M: PhysMemory>(kernel: &mut Kernel<M>, pid: usize, init: usize)
    requires
        old(kernel).wf(),
        old(kernel).processes@.dom().contains(pid),
        old(kernel).initproc == Some(init),
        pid != init,
    ensures
        final(kernel).wf(),
        adopted(final(kernel), old(kernel), init, old(kernel).processes@[pid].inner.children@),
{
    let ghost k0 = *kernel;
    let ghost all = k0.processes@[pid].inner.children@;
    proof {
        reveal(references_wf);
        assert(k0.processes@.dom().contains(init));
        assert(k0.processes@[init].inner.children@ + all.take(0)
            =~= k0.processes@[init].inner.children@);
        assert forall|i: int| 0 <= i < all.len() implies k0.processes@.dom().contains(
            #[trigger] all[i],
        ) by {
            assert(k0.processes@.dom().contains(k0.processes@[pid].inner.children@[i]));
        }
    }
    let n: usize = kernel.processes.get(&pid).unwrap().inner.children.len();
    let mut i: usize = 0;
    while i < n
        invariant
            i <= n == all.len(),
            all == k0.processes@[pid].inner.children@,
            pid != init,
            k0.processes@.dom().contains(pid),
            k0.processes@.dom().contains(init),
            forall|k: int| 0 <= k < all.len() ==> k0.processes@.dom().contains(#[trigger] all[k]),
            adopted(kernel, &k0, init, all.take(i as int)),
        decreases n - i,
    {
        let ghost k1 = *kernel;
        let ghost list1 = all.take(i as int);
        let ghost list2 = all.take(i + 1);
        let child: usize = kernel.processes.get(&pid).unwrap().inner.children[i];
        assert(child == all[i as int]);
        let mut c = kernel.processes.remove(&child).unwrap();
        c.inner.parent = Some(init);
        kernel.processes.insert(child, c);
        let mut ip = kernel.processes.remove(&init).unwrap();
        ip.inner.children.push(child);
        kernel.processes.insert(init, ip);
        i = i + 1;
        proof {
            assert(list2 =~= list1.push(child));
            assert(kernel.processes@.dom() =~= k0.processes@.dom());
            assert forall|q: usize| #[trigger] k0.processes@.dom().contains(q) implies adopted_process(
                kernel.processes@[q],
                k0.processes@[q],
                q,
                init,
                list2,
            ) by {
                assert(adopted_process(k1.processes@[q], k0.processes@[q], q, init, list1));
                if list2.contains(q) && q != child {
                    let k = choose|k: int| 0 <= k < list2.len() && list2[k] == q;
                    assert(list1[k] == q);
                }
                if list1.contains(q) {
                    let k = choose|k: int| 0 <= k < list1.len() && list1[k] == q;
                    assert(list2[k] == q);
                }
                assert(list2[i - 1] == child);
                if q == init {
                    assert(kernel.processes@[q].inner.children@ =~= k0.processes@[q].inner.children@
                        + list2);
                }
            }
        }
    }
    proof {
        assert(all.take(all.len() as int) =~= all);
        lemma_adopted(kernel, &k0, init, all);
    }
}

} // verus!
