//! The timer: the local APIC registers that program it, the count of its
//! periods, and the threads that sleep until a time.
use vstd::prelude::*;

verus! {

/// Timer interrupts per second.
pub const TICKS_PER_SEC: u64 = 1000;

/// The input frequency of the local APIC timer.
pub const APIC_TIMER_FREQ: u64 = 1_000_000_000;

/// The count of one period.
pub const INITIAL_COUNT: u32 = 1_000_000;

/// The register with the base and the state of the local APIC.
pub const APIC_BASE_MSR: u32 = 0x1B;

/// The bit of [`APIC_BASE_MSR`] that says that the x2APIC mode is on.
pub const APIC_BASE_X2: u64 = 0x400;

/// The end-of-interrupt register.
pub const LAPIC_EOI: u32 = 0x0B0;

/// The vector and mode of the timer.
pub const LAPIC_LVT_TIMER: u32 = 0x320;

/// The count the timer starts from.
pub const LAPIC_TIMER_INIT_COUNT: u32 = 0x380;

/// The present count.
pub const LAPIC_TIMER_CURRENT_COUNT: u32 = 0x390;

/// The divider of the input frequency.
pub const LAPIC_TIMER_DIVIDE: u32 = 0x3E0;

/// A value for a register of the local APIC.
#[derive(Copy, Clone, Debug, PartialEq, Eq, Structural)]
pub struct LapicWrite {
    pub offset: u32,
    pub value: u32,
}

/// How a register of the local APIC is reached.
#[derive(Copy, Clone, Debug, PartialEq, Eq, Structural)]
pub enum LapicPlace {
    /// by a model-specific register
    Msr(u32),
    /// at a physical address
    Physical(u64),
}

/// Where the register at `offset` is, given the value of the base register.
pub open spec fn register_place(apic_base: u64, offset: u32) -> LapicPlace {
    if apic_base & APIC_BASE_X2 != 0 {
        LapicPlace::Msr((0x800 + offset as int / 16) as u32)
    } else {
        LapicPlace::Physical((apic_base as int / 0x1000 * 0x1000 + offset) as u64)
    }
}

/// Where the register at `offset` is, by the value of [`APIC_BASE_MSR`]: in
/// x2APIC mode it is a model-specific register (offset 0x390 is register
/// 0x839), else it lies in the window at the base.
pub fn lapic_register(apic_base: u64, offset: u32) -> (r: LapicPlace)
    requires
        offset <= 0x3f0,
        offset % 16 == 0,
        apic_base < 0xffff_ffff_ffff_0000,
    ensures
        r == register_place(apic_base, offset),
{
    if apic_base & APIC_BASE_X2 != 0 {
        LapicPlace::Msr(0x800 + offset / 16)
    } else {
        LapicPlace::Physical(apic_base / 0x1000 * 0x1000 + offset as u64)
    }
}

/// The writes that start the timer.
pub open spec fn timer_writes() -> Seq<LapicWrite> {
    seq![
        LapicWrite { offset: LAPIC_TIMER_DIVIDE, value: 0x0B },
        LapicWrite { offset: LAPIC_LVT_TIMER, value: 0x2_0020 },
        LapicWrite { offset: LAPIC_TIMER_INIT_COUNT, value: INITIAL_COUNT },
    ]
}

/// The writes that start the timer in periodic mode on vector 32, in their
/// order: divide by 1, periodic mode, the count.
pub fn init() -> (r: [LapicWrite; 3])
    ensures
        r@ == timer_writes(),
        INITIAL_COUNT * TICKS_PER_SEC == APIC_TIMER_FREQ,
{
    assert(0x20u32 | (1u32 << 17) == 0x2_0020) by (bit_vector);
    let r = [
        LapicWrite { offset: LAPIC_TIMER_DIVIDE, value: 0x0B },
        LapicWrite { offset: LAPIC_LVT_TIMER, value: 0x20 | (1u32 << 17) },
        LapicWrite { offset: LAPIC_TIMER_INIT_COUNT, value: INITIAL_COUNT },
    ];
    assert(r@ =~= seq![
        LapicWrite { offset: LAPIC_TIMER_DIVIDE, value: 0x0B },
        LapicWrite { offset: LAPIC_LVT_TIMER, value: 0x2_0020 },
        LapicWrite { offset: LAPIC_TIMER_INIT_COUNT, value: INITIAL_COUNT },
    ]);
    r
}

/// The write that ends a timer interrupt.
pub fn timer_eoi() -> (r: LapicWrite)
    ensures
        r == (LapicWrite { offset: LAPIC_EOI, value: 0 }),
{
    LapicWrite { offset: LAPIC_EOI, value: 0 }
}

/// The timer reloads its count by itself: no write is needed per period.
pub fn set_next_trigger() -> (r: Option<LapicWrite>)
    ensures
        r is None,
{
    None
}

/// The count of periods after `ticks`: it starts over after the highest number.
pub open spec fn next_tick(ticks: int) -> int {
    if ticks == usize::MAX {
        0
    } else {
        ticks + 1
    }
}

/// The count of periods when `n` more have been counted since it was `ticks`.
pub open spec fn ticks_after(ticks: int, n: nat) -> int
    decreases n,
{
    if n == 0 {
        ticks
    } else {
        next_tick(ticks_after(ticks, (n - 1) as nat))
    }
}

/// The clock tells how many timer interrupts there were: `n` interrupts after time
/// `ticks` the time is `ticks + n`, as long as the signed result can hold it.
pub proof fn clock_counts_interrupts(ticks: int, n: nat)
    requires
        0 <= ticks,
        ticks + n <= isize::MAX,
    ensures
        ticks_after(ticks, n) == ticks + n,
        ticks_after(ticks, n) as isize == ticks + n,
    decreases n,
{
    if n > 0 {
        clock_counts_interrupts(ticks, (n - 1) as nat);
    }
}

/// A thread that sleeps until `expire_ms`.
#[derive(Copy, Clone, Debug, PartialEq, Eq, Structural)]
pub struct TimerCondVar {
    pub expire_ms: usize,
    pub task: usize,
}

/// The clock, and the threads that sleep until a time.
pub struct Timers {
    ticks: usize,
    events: Vec<TimerCondVar>,
}

/// The first `n` events without those of `task`.
pub open spec fn events_without(events: Seq<TimerCondVar>, n: int, task: usize) -> Seq<TimerCondVar>
    decreases n,
{
    if n <= 0 {
        Seq::empty()
    } else if events[n - 1].task == task {
        events_without(events, n - 1, task)
    } else {
        events_without(events, n - 1, task).push(events[n - 1])
    }
}

/// The position of the event that expires first; of several that expire at the
/// same time, the one added first.
pub open spec fn first_event(events: Seq<TimerCondVar>, n: int) -> int
    decreases n,
{
    if n <= 1 {
        0
    } else {
        let before = first_event(events, n - 1);
        if events[n - 1].expire_ms < events[before].expire_ms {
            n - 1
        } else {
            before
        }
    }
}

/// The threads whose time has come, the earliest first.
pub open spec fn expired_tasks(events: Seq<TimerCondVar>, now: int) -> Seq<usize>
    decreases events.len(),
{
    let i = first_event(events, events.len() as int);
    if events.len() == 0 || !(0 <= i < events.len()) || events[i].expire_ms > now {
        Seq::empty()
    } else {
        seq![events[i].task] + expired_tasks(events.remove(i), now)
    }
}

/// The events that are left when those whose time has come are taken out.
pub open spec fn pending_events(events: Seq<TimerCondVar>, now: int) -> Seq<TimerCondVar>
    decreases events.len(),
{
    let i = first_event(events, events.len() as int);
    if events.len() == 0 || !(0 <= i < events.len()) || events[i].expire_ms > now {
        events
    } else {
        pending_events(events.remove(i), now)
    }
}

proof fn lemma_first_event(events: Seq<TimerCondVar>, n: int)
    requires
        1 <= n <= events.len(),
    ensures
        0 <= first_event(events, n) < n,
        forall|k: int|
            0 <= k < n ==> events[first_event(events, n)].expire_ms <= (#[trigger] events[k]).expire_ms,
    decreases n,
{
    if n > 1 {
        lemma_first_event(events, n - 1);
    }
}

/// After [`Timers::check_timer`] exactly the events remain whose time has not
/// come.
pub proof fn pending_events_are_later(events: Seq<TimerCondVar>, now: int, e: TimerCondVar)
    ensures
        pending_events(events, now).contains(e) <==> events.contains(e) && e.expire_ms > now,
    decreases events.len(),
{
    if events.len() > 0 {
        let i = first_event(events, events.len() as int);
        lemma_first_event(events, events.len() as int);
        if events[i].expire_ms <= now {
            let rest = events.remove(i);
            pending_events_are_later(rest, now, e);
            if events.contains(e) && e.expire_ms > now {
                let k = choose|k: int| 0 <= k < events.len() && events[k] == e;
                if k < i {
                    assert(rest[k] == e);
                } else {
                    assert(rest[k - 1] == e);
                }
            }
            if rest.contains(e) {
                let k = choose|k: int| 0 <= k < rest.len() && rest[k] == e;
                if k < i {
                    assert(events[k] == e);
                } else {
                    assert(events[k + 1] == e);
                }
            }
        } else if events.contains(e) {
            let k = choose|k: int| 0 <= k < events.len() && events[k] == e;
        }
    }
}

/// Of events that are alike, as many remain as there were, or none if their time has
/// come.
pub proof fn pending_events_keep_their_count(events: Seq<TimerCondVar>, now: int, e: TimerCondVar)
    ensures
        pending_events(events, now).to_multiset().count(e) == (if e.expire_ms > now {
            events.to_multiset().count(e)
        } else {
            0
        }),
    decreases events.len(),
{
    broadcast use vstd::seq_lib::group_to_multiset_ensures;

    if events.len() > 0 {
        let i = first_event(events, events.len() as int);
        lemma_first_event(events, events.len() as int);
        if events[i].expire_ms <= now {
            pending_events_keep_their_count(events.remove(i), now, e);
            assert(events.remove(i).to_multiset() =~= events.to_multiset().remove(events[i]));
        } else if e.expire_ms <= now {
            assert(!events.contains(e));
        }
    } else {
        assert(!events.contains(e));
    }
}

/// A thread is woken exactly if one of its events has expired.
pub proof fn expired_tasks_have_events(events: Seq<TimerCondVar>, now: int, task: usize)
    ensures
        expired_tasks(events, now).contains(task) <==> exists|k: int|
            0 <= k < events.len() && (#[trigger] events[k]).task == task && events[k].expire_ms
                <= now,
    decreases events.len(),
{
    if events.len() > 0 {
        let i = first_event(events, events.len() as int);
        lemma_first_event(events, events.len() as int);
        if events[i].expire_ms <= now {
            let rest = events.remove(i);
            let all = expired_tasks(events, now);
            let tail = expired_tasks(rest, now);
            expired_tasks_have_events(rest, now, task);
            assert(all =~= seq![events[i].task] + tail);
            if all.contains(task) {
                let j = choose|j: int| 0 <= j < all.len() && all[j] == task;
                if j == 0 {
                    assert(events[i].task == task);
                } else {
                    assert(tail[j - 1] == task);
                    let k = choose|k: int|
                        0 <= k < rest.len() && (#[trigger] rest[k]).task == task
                            && rest[k].expire_ms <= now;
                    if k < i {
                        assert(events[k].task == task);
                    } else {
                        assert(events[k + 1].task == task);
                    }
                }
            }
            if exists|k: int|
                0 <= k < events.len() && (#[trigger] events[k]).task == task && events[k].expire_ms
                    <= now {
                let k = choose|k: int|
                    0 <= k < events.len() && (#[trigger] events[k]).task == task
                        && events[k].expire_ms <= now;
                if k == i {
                    assert(all[0] == task);
                } else {
                    if k < i {
                        assert(rest[k].task == task);
                    } else {
                        assert(rest[k - 1].task == task);
                    }
                    let j = choose|j: int| 0 <= j < tail.len() && tail[j] == task;
                    assert(all[j + 1] == task);
                }
            }
        }
    }
}

impl Timers {
    /// The number of periods since the start.
    pub closed spec fn ticks(&self) -> int {
        self.ticks as int
    }

    /// The events, in the order in which they were added.
    pub closed spec fn events(&self) -> Seq<TimerCondVar> {
        self.events@
    }

    /// A clock at 0, without events.
    pub fn new() -> (r: Self)
        ensures
            r.ticks() == 0,
            r.events() == Seq::<TimerCondVar>::empty(),
    {
        let r = Timers { ticks: 0, events: Vec::new() };
        assert(r.events() =~= Seq::empty());
        r
    }

    /// Count one timer interrupt of the first processor. The count starts over
    /// after the highest number.
    pub fn tick(&mut self)
        ensures
            final(self).ticks() == next_tick(old(self).ticks()),
            final(self).events() == old(self).events(),
    {
        if self.ticks == usize::MAX {
            self.ticks = 0;
        } else {
            self.ticks = self.ticks + 1;
        }
    }

    /// The time in milliseconds: one period is one millisecond.
    pub fn get_time_ms(&self) -> (r: usize)
        ensures
            r == self.ticks(),
    {
        self.ticks
    }

    /// Whether `task` is to be woken at some time.
    pub fn has_event(&self, task: usize) -> (r: bool)
        ensures
            r == exists|i: int| 0 <= i < self.events().len() && (#[trigger] self.events()[i]).task == task,
    {
        let mut i: usize = 0;
        while i < self.events.len()
            invariant
                i <= self.events@.len(),
                forall|j: int| 0 <= j < i ==> (#[trigger] self.events()[j]).task != task,
            decreases self.events@.len() - i,
        {
            if self.events[i].task == task {
                assert(self.events()[i as int].task == task);
                return true;
            }
            i = i + 1;
        }
        false
    }

    /// Let `task` be woken at `expire_ms`.
    pub fn add_timer(&mut self, expire_ms: usize, task: usize)
        requires
            expire_ms <= isize::MAX,
        ensures
            final(self).ticks() == old(self).ticks(),
            final(self).events() == old(self).events().push(TimerCondVar { expire_ms, task }),
    {
        self.events.push(TimerCondVar { expire_ms, task });
    }

    /// Take out all events of `task`.
    pub fn remove_timer(&mut self, task: usize)
        ensures
            final(self).ticks() == old(self).ticks(),
            final(self).events() == events_without(
                old(self).events(),
                old(self).events().len() as int,
                task,
            ),
    {
        let mut temp: Vec<TimerCondVar> = Vec::new();
        let mut i: usize = 0;
        while i < self.events.len()
            invariant
                i <= self.events@.len(),
                temp@ == events_without(self.events@, i as int, task),
                self.ticks == old(self).ticks,
                self.events@ == old(self).events@,
            decreases self.events@.len() - i,
        {
            let event: TimerCondVar = self.events[i];
            if event.task != task {
                temp.push(event);
            }
            i = i + 1;
        }
        self.events = temp;
    }

    /// Take out the event that expires first, if its time has come.
    fn pop_expired(&mut self, now: usize) -> (r: Option<usize>)
        ensures
            final(self).ticks() == old(self).ticks(),
            match r {
                Some(task) => {
                    let i = first_event(old(self).events(), old(self).events().len() as int);
                    &&& 0 <= i < old(self).events().len()
                    &&& old(self).events()[i].expire_ms <= now
                    &&& task == old(self).events()[i].task
                    &&& final(self).events() == old(self).events().remove(i)
                },
                None => {
                    let i = first_event(old(self).events(), old(self).events().len() as int);
                    &&& final(self).events() == old(self).events()
                    &&& old(self).events().len() == 0 || old(self).events()[i].expire_ms > now
                },
            },
    {
        if self.events.len() == 0 {
            return None;
        }
        let mut first: usize = 0;
        let mut i: usize = 1;
        while i < self.events.len()
            invariant
                1 <= i <= self.events@.len(),
                first < i,
                first == first_event(self.events@, i as int),
            decreases self.events@.len() - i,
        {
            if self.events[i].expire_ms < self.events[first].expire_ms {
                first = i;
            }
            i = i + 1;
        }
        if self.events[first].expire_ms <= now {
            let event: TimerCondVar = self.events.remove(first);
            Some(event.task)
        } else {
            None
        }
    }

    /// Take out every event whose time has come. Returns the threads to be
    /// woken up, the earliest first.
    pub fn check_timer(&mut self) -> (r: Vec<usize>)
        ensures
            final(self).ticks() == old(self).ticks(),
            r@ == expired_tasks(old(self).events(), old(self).ticks()),
            final(self).events() == pending_events(old(self).events(), old(self).ticks()),
    {
        let current_ms: usize = self.get_time_ms();
        let mut woken: Vec<usize> = Vec::new();
        let ghost all = expired_tasks(self.events(), current_ms as int);
        assert(woken@ + all =~= all);
        let mut done: bool = false;
        while !done
            invariant
                current_ms == old(self).ticks(),
                self.ticks() == old(self).ticks(),
                all == expired_tasks(old(self).events(), current_ms as int),
                woken@ + expired_tasks(self.events(), current_ms as int) == all,
                pending_events(self.events(), current_ms as int) == pending_events(
                    old(self).events(),
                    current_ms as int,
                ),
                done ==> expired_tasks(self.events(), current_ms as int).len() == 0
                    && pending_events(self.events(), current_ms as int) == self.events(),
            decreases
                self.events().len() + (if done {
                    0int
                } else {
                    1
                }),
        {
            let ghost events = self.events();
            let ghost before = woken@;
            match self.pop_expired(current_ms) {
                Some(task) => {
                    woken.push(task);
                    assert(woken@ + expired_tasks(self.events(), current_ms as int) =~= before
                        + expired_tasks(events, current_ms as int));
                },
                None => {
                    done = true;
                },
            }
        }
        assert(woken@ =~= all);
        woken
    }
}

} // verus!
