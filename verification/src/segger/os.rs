//! The OS abstraction of the stack (`USB_OS_*`) for a bare-metal firmware.
//!
//! Threading model: the stack runs as a single cooperative "task", while the OTG_FS
//! interrupt drives the driver and calls [`USB_OS_Signal`]. So:
//!   * waiting blocks the task until the matching `USB_OS_Signal`;
//!   * [`USB_OS_IncDI`] and [`USB_OS_DecRI`] form a nestable critical section;
//!   * the millisecond tick comes from SysTick (see [`tick`]).

use vstd::prelude::*;

verus! {

/// A latched transaction count and whether a signal is pending: a mailbox that holds
/// one signal.
#[derive(Clone, Copy)]
pub struct Event {
    pub cnt: u32,
    pub pending: bool,
}

impl Event {
    /// An event that has not been signaled.
    pub fn new() -> (event: Self)
        ensures
            event == quiet(),
    {
        Event { cnt: 0, pending: false }
    }
}

/// The event that has not been signaled.
pub open spec fn quiet() -> Event {
    Event { cnt: 0, pending: false }
}

/// The state of the OS layer.
pub struct Os {
    /// One slot per endpoint, and those of the extra events.
    pub events: Vec<Event>,
    /// Free-running millisecond counter. Wraps after ~49 days; only used for
    /// differences and timeouts.
    pub ticks: u32,
    /// Nesting depth of the critical section in task context.
    pub di_depth: u32,
}

/// The state of the OS layer as a mathematical value.
pub struct OsState {
    pub events: Seq<Event>,
    pub ticks: u32,
    pub di_depth: u32,
}

impl View for Os {
    type V = OsState;

    open spec fn view(&self) -> OsState {
        OsState { events: self.events@, ticks: self.ticks, di_depth: self.di_depth }
    }
}

/// What a task that waits does next.
#[derive(Debug, Clone, Copy, PartialEq, Eq)]
pub enum WaitStep {
    /// The signal has come.
    Signaled,
    /// The time is over.
    TimedOut,
    /// A signal of another transaction was discarded: look again.
    Again,
    /// Nothing has come: sleep until the next interrupt, then look again.
    Sleep,
}

/// The milliseconds from tick `start` to tick `now`, the counter having wrapped at most
/// once.
pub open spec fn elapsed(start: u32, now: u32) -> int {
    (now - start) % 0x1_0000_0000
}

/// The state once a slot has been signaled; signals of slots that are not there are
/// dropped.
pub open spec fn signaled(os: OsState, ep_index: u32, transact_cnt: u32) -> OsState {
    if ep_index < os.events.len() {
        OsState {
            events: os.events.update(
                ep_index as int,
                Event { cnt: transact_cnt, pending: true },
            ),
            ..os
        }
    } else {
        os
    }
}

/// The state once a task has looked at a slot: a pending signal is consumed.
pub open spec fn looked(os: OsState, ep_index: u32) -> OsState {
    if ep_index < os.events.len() && os.events[ep_index as int].pending {
        OsState {
            events: os.events.update(
                ep_index as int,
                Event { pending: false, ..os.events[ep_index as int] },
            ),
            ..os
        }
    } else {
        os
    }
}

/// What a task that waits for a transaction since tick `start` does next.
pub open spec fn wait_step(
    os: OsState,
    ep_index: u32,
    transact_cnt: u32,
    start: u32,
    timeout_ms: Option<u32>,
) -> WaitStep {
    if ep_index >= os.events.len() {
        WaitStep::Signaled
    } else if os.events[ep_index as int].pending {
        if os.events[ep_index as int].cnt == transact_cnt {
            WaitStep::Signaled
        } else {
            WaitStep::Again
        }
    } else {
        match timeout_ms {
            Some(ms) => if elapsed(start, os.ticks) >= ms {
                WaitStep::TimedOut
            } else {
                WaitStep::Sleep
            },
            None => WaitStep::Sleep,
        }
    }
}

impl Os {
    /// The OS layer with `num_events` slots, none of them signaled.
    pub fn new(num_events: usize) -> (os: Self)
        ensures
            os@.events == Seq::new(num_events as nat, |i: int| quiet()),
            os@.ticks == 0,
            os@.di_depth == 0,
    {
        let mut events: Vec<Event> = Vec::new();
        let mut i: usize = 0;
        while i < num_events
            invariant
                i <= num_events,
                events@ == Seq::new(i as nat, |j: int| quiet()),
            decreases num_events - i,
        {
            events.push(Event::new());
            i = i + 1;
        }
        Os { events, ticks: 0, di_depth: 0 }
    }
}

/// Advance the millisecond tick. Call once per ms from the SysTick handler.
pub fn tick(os: &mut Os)
    ensures
        final(os)@ == (OsState {
            ticks: ((old(os)@.ticks + 1) % 0x1_0000_0000) as u32,
            ..old(os)@
        }),
{
    os.ticks = os.ticks.wrapping_add(1);
}

/// Wake the task waiting on `ep_index` for transaction `transact_cnt`. Latches, so a
/// signal raised before the matching wait is not lost.
#[allow(non_snake_case)]
pub fn USB_OS_Signal(os: &mut Os, ep_index: u32, transact_cnt: u32)
    ensures
        final(os)@ == signaled(old(os)@, ep_index, transact_cnt),
{
    assert(os.events@.len() == os.events.len());
    if (ep_index as u64) < os.events.len() as u64 {
        os.events.set(ep_index as usize, Event { cnt: transact_cnt, pending: true });
    }
}

/// One look of a task that waits for `ep_index`/`transact_cnt` since tick `start`.
/// Signals for other transaction counts are discarded; a slot that is not there never
/// blocks.
///
/// The look is made with interrupts masked, and the task sleeps while they are still
/// masked: an interrupt that becomes pending wakes it, and only runs once interrupts are
/// enabled again, after which the task looks again. So no signal can slip between the
/// look and the sleep.
pub fn wait_inner(
    os: &mut Os,
    ep_index: u32,
    transact_cnt: u32,
    start: u32,
    timeout_ms: Option<u32>,
) -> (step: WaitStep)
    ensures
        step == wait_step(old(os)@, ep_index, transact_cnt, start, timeout_ms),
        final(os)@ == looked(old(os)@, ep_index),
{
    assert(os.events@.len() == os.events.len());
    if ep_index as u64 >= os.events.len() as u64 {
        return WaitStep::Signaled;
    }
    let event: Event = os.events[ep_index as usize];
    if event.pending {
        // Consume this signal regardless; only report success when it matches.
        os.events.set(ep_index as usize, Event { cnt: event.cnt, pending: false });
        if event.cnt == transact_cnt {
            return WaitStep::Signaled;
        }
        return WaitStep::Again;
    }
    if let Some(ms) = timeout_ms {
        if os.ticks.wrapping_sub(start) >= ms {
            return WaitStep::TimedOut;
        }
    }
    WaitStep::Sleep
}

/// A look of a task that waits without a time limit.
#[allow(non_snake_case)]
pub fn USB_OS_Wait(os: &mut Os, ep_index: u32, transact_cnt: u32, start: u32) -> (step: WaitStep)
    ensures
        step == wait_step(old(os)@, ep_index, transact_cnt, start, None),
        final(os)@ == looked(old(os)@, ep_index),
{
    wait_inner(os, ep_index, transact_cnt, start, None)
}

/// What a wait with a time limit comes to: 0 if signaled, 1 on timeout.
pub open spec fn timed_result(step: WaitStep) -> Result<i32, WaitStep> {
    match step {
        WaitStep::Signaled => Ok(0),
        WaitStep::TimedOut => Ok(1),
        _ => Err(step),
    }
}

/// A look of a task that waits at most `ms` milliseconds. Returns 0 if signaled, 1 on
/// timeout, and else how the task goes on waiting.
#[allow(non_snake_case)]
pub fn USB_OS_WaitTimed(os: &mut Os, ep_index: u32, ms: u32, transact_cnt: u32, start: u32) -> (res:
    Result<i32, WaitStep>)
    ensures
        res == timed_result(wait_step(old(os)@, ep_index, transact_cnt, start, Some(ms))),
        final(os)@ == looked(old(os)@, ep_index),
{
    let step = wait_inner(os, ep_index, transact_cnt, start, Some(ms));
    match step {
        WaitStep::Signaled => Ok(0),
        WaitStep::TimedOut => Ok(1),
        WaitStep::Again => Err(WaitStep::Again),
        WaitStep::Sleep => Err(WaitStep::Sleep),
    }
}

/// The nesting depth one level further in.
pub open spec fn deeper(depth: u32) -> u32 {
    ((depth + 1) % 0x1_0000_0000) as u32
}

/// The nesting depth one level further out.
pub open spec fn shallower(depth: u32) -> u32 {
    ((depth - 1) % 0x1_0000_0000) as u32
}

/// Enter a critical region (nestable). A no-op when called from interrupt context.
/// Returns whether interrupts are to be disabled.
#[allow(non_snake_case)]
pub fn USB_OS_IncDI(os: &mut Os, in_interrupt: bool) -> (disable: bool)
    ensures
        disable == !in_interrupt,
        final(os)@ == if in_interrupt {
            old(os)@
        } else {
            OsState { di_depth: deeper(old(os)@.di_depth), ..old(os)@ }
        },
{
    if in_interrupt {
        return false;
    }
    os.di_depth = os.di_depth.wrapping_add(1);
    true
}

/// Leave a critical region. A no-op when called from interrupt context. Returns whether
/// interrupts are to be enabled again: that is when the last level is released.
#[allow(non_snake_case)]
pub fn USB_OS_DecRI(os: &mut Os, in_interrupt: bool) -> (enable: bool)
    ensures
        enable == (!in_interrupt && old(os)@.di_depth == 1),
        final(os)@ == if in_interrupt {
            old(os)@
        } else {
            OsState { di_depth: shallower(old(os)@.di_depth), ..old(os)@ }
        },
{
    if in_interrupt {
        return false;
    }
    let last = os.di_depth == 1;
    os.di_depth = os.di_depth.wrapping_sub(1);
    last
}

/// Whether a delay of `ms` milliseconds that began at tick `start` is over.
#[allow(non_snake_case)]
pub fn USB_OS_Delay(os: &Os, start: u32, ms: i32) -> (over: bool)
    ensures
        over == (ms <= 0 || elapsed(start, os@.ticks) >= ms),
        forall|passed: int|
            0 <= passed < 0x1_0000_0000 && os@.ticks == #[trigger] ((start + passed)
                % 0x1_0000_0000) ==> (over <==> passed >= ms),
{
    if ms <= 0 {
        return true;
    }
    os.ticks.wrapping_sub(start) >= ms as u32
}

/// Current system time in milliseconds.
#[allow(non_snake_case)]
pub fn USB_OS_GetTickCnt(os: &Os) -> (ticks: u32)
    ensures
        ticks == os@.ticks,
{
    os.ticks
}

/// The one mutex: a single core is protected by the critical section already.
#[allow(non_snake_case)]
pub fn USB_OS_MutexAlloc() -> (idx: i32)
    ensures
        idx == 0,
{
    0
}

/// A signal raised before the matching wait is not lost: the next look of a task that
/// waits for it finds it, whatever the time, and consumes it.
pub proof fn signals_are_latched(
    os: OsState,
    ep_index: u32,
    transact_cnt: u32,
    start: u32,
    timeout_ms: Option<u32>,
)
    ensures
        wait_step(signaled(os, ep_index, transact_cnt), ep_index, transact_cnt, start, timeout_ms)
            == WaitStep::Signaled,
        ep_index < os.events.len() ==> !looked(
            signaled(os, ep_index, transact_cnt),
            ep_index,
        ).events[ep_index as int].pending,
{
}

/// A signal for another transaction is consumed and does not end a wait.
pub proof fn other_signals_are_discarded(
    os: OsState,
    ep_index: u32,
    signal: u32,
    transact_cnt: u32,
    start: u32,
    timeout_ms: Option<u32>,
)
    requires
        ep_index < os.events.len(),
        signal != transact_cnt,
    ensures
        ({
            let after = signaled(os, ep_index, signal);
            &&& wait_step(after, ep_index, transact_cnt, start, timeout_ms) == WaitStep::Again
            &&& !looked(after, ep_index).events[ep_index as int].pending
        }),
{
}

/// Slots are independent: a signal to one leaves what is waited for on another.
pub proof fn slots_are_independent(os: OsState, ep_index: u32, other: u32, transact_cnt: u32)
    requires
        ep_index != other,
        other < os.events.len(),
    ensures
        signaled(os, ep_index, transact_cnt).events[other as int] == os.events[other as int],
        looked(os, ep_index).events[other as int] == os.events[other as int],
{
}

/// The tick after `n` more ticks.
pub open spec fn ticks_after(start: u32, n: nat) -> u32
    decreases n,
{
    if n == 0 {
        start
    } else {
        ((ticks_after(start, (n - 1) as nat) + 1) % 0x1_0000_0000) as u32
    }
}

/// The time that has passed is measured right even where the tick counter wraps, so a
/// timeout of `ms` comes after `ms` ticks.
pub proof fn timeouts_survive_the_wrap(start: u32, n: nat)
    requires
        n < 0x1_0000_0000,
    ensures
        ticks_after(start, n) == (start + n) % 0x1_0000_0000,
        elapsed(start, ticks_after(start, n)) == n,
    decreases n,
{
    if n > 0 {
        timeouts_survive_the_wrap(start, (n - 1) as nat);
    }
}

/// Entering (`true`) or leaving (`false`) a critical region from task context.
pub open spec fn depth_after(regions: Seq<bool>) -> u32
    decreases regions.len(),
{
    if regions.len() == 0 {
        0
    } else if regions.last() {
        deeper(depth_after(regions.drop_last()))
    } else {
        shallower(depth_after(regions.drop_last()))
    }
}

/// Whether interrupts are disabled, going by what entering and leaving said.
pub open spec fn masked_after(regions: Seq<bool>) -> bool
    decreases regions.len(),
{
    if regions.len() == 0 {
        false
    } else if regions.last() {
        true
    } else if depth_after(regions.drop_last()) == 1 {
        false
    } else {
        masked_after(regions.drop_last())
    }
}

/// How many regions are open.
pub open spec fn open_regions(regions: Seq<bool>) -> int
    decreases regions.len(),
{
    if regions.len() == 0 {
        0
    } else if regions.last() {
        open_regions(regions.drop_last()) + 1
    } else {
        open_regions(regions.drop_last()) - 1
    }
}

/// No region is left that was not entered, and the depth fits its counter.
pub open spec fn balanced(regions: Seq<bool>) -> bool
    decreases regions.len(),
{
    regions.len() > 0 ==> {
        &&& balanced(regions.drop_last())
        &&& 0 <= open_regions(regions) <= u32::MAX
    }
}

/// Interrupts are disabled exactly while a region is open: they come back when the last
/// one is left, and not before.
pub proof fn interrupts_are_masked_inside_regions(regions: Seq<bool>)
    requires
        balanced(regions),
    ensures
        depth_after(regions) == open_regions(regions),
        masked_after(regions) == (open_regions(regions) > 0),
    decreases regions.len(),
{
    if regions.len() > 0 {
        interrupts_are_masked_inside_regions(regions.drop_last());
    }
}

/// A signal puts its count into its slot and touches nothing else; one for a slot that is
/// not there does nothing.
pub proof fn signals_reach_their_slot(os: OsState, ep_index: u32, transact_cnt: u32, i: int)
    requires
        0 <= i < os.events.len(),
    ensures
        ({
            let after = signaled(os, ep_index, transact_cnt);
            &&& after.events.len() == os.events.len()
            &&& after.ticks == os.ticks
            &&& after.di_depth == os.di_depth
            &&& i == ep_index ==> after.events[i].cnt == transact_cnt && after.events[i].pending
            &&& i != ep_index ==> after.events[i] == os.events[i]
            &&& ep_index >= os.events.len() ==> after == os
        }),
{
}

/// A look at a slot takes a pending signal away and touches nothing else; it leaves all as
/// it is where no signal is pending, and where there is no slot.
pub proof fn looks_take_signals_away(os: OsState, ep_index: u32, i: int)
    requires
        0 <= i < os.events.len(),
    ensures
        ({
            let after = looked(os, ep_index);
            &&& after.events.len() == os.events.len()
            &&& after.ticks == os.ticks
            &&& after.di_depth == os.di_depth
            &&& i == ep_index ==> !after.events[i].pending && after.events[i].cnt == os.events[i].cnt
            &&& i != ep_index ==> after.events[i] == os.events[i]
            &&& !(ep_index < os.events.len() && os.events[ep_index as int].pending) ==> after == os
        }),
{
}

/// A task that waits with a limit, and for which no signal has come, gives up as soon as so
/// many ticks have passed as the limit has milliseconds, and not before, even where the tick
/// counter has wrapped. Without a limit it sleeps on.
pub proof fn waits_end_in_time(
    os: OsState,
    ep_index: u32,
    transact_cnt: u32,
    start: u32,
    passed: nat,
    ms: u32,
)
    requires
        ep_index < os.events.len(),
        !os.events[ep_index as int].pending,
        passed < 0x1_0000_0000,
        os.ticks == (start + passed) % 0x1_0000_0000,
    ensures
        passed >= ms ==> wait_step(os, ep_index, transact_cnt, start, Some(ms))
            == WaitStep::TimedOut && timed_result(
            wait_step(os, ep_index, transact_cnt, start, Some(ms)),
        ) == Ok::<i32, WaitStep>(1),
        passed < ms ==> wait_step(os, ep_index, transact_cnt, start, Some(ms)) == WaitStep::Sleep
            && timed_result(wait_step(os, ep_index, transact_cnt, start, Some(ms))) == Err::<
            i32,
            WaitStep,
        >(WaitStep::Sleep),
        wait_step(os, ep_index, transact_cnt, start, None) == WaitStep::Sleep,
{
    timeouts_survive_the_wrap(start, passed);
}

/// A pending signal ends a wait exactly if it is the one that is waited for, whatever the
/// time; a slot that is not there ends every wait.
pub proof fn waits_end_with_their_signal(
    os: OsState,
    ep_index: u32,
    transact_cnt: u32,
    start: u32,
    timeout_ms: Option<u32>,
)
    ensures
        ep_index >= os.events.len() ==> timed_result(
            wait_step(os, ep_index, transact_cnt, start, timeout_ms),
        ) == Ok::<i32, WaitStep>(0),
        ep_index < os.events.len() && os.events[ep_index as int].pending ==> (timed_result(
            wait_step(os, ep_index, transact_cnt, start, timeout_ms),
        ) == if os.events[ep_index as int].cnt == transact_cnt {
            Ok::<i32, WaitStep>(0)
        } else {
            Err::<i32, WaitStep>(WaitStep::Again)
        }),
{
}

} // verus!
