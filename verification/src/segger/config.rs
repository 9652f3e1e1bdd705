//! Where the OTG_FS interrupt goes.

use vstd::prelude::*;

verus! {

/// The driver's ISR entry point, as a raw address (0 = not yet set).
#[derive(Clone, Copy)]
pub struct IsrSlot {
    pub handler: usize,
}

/// The routine that an interrupt is dispatched to.
pub open spec fn dispatched(slot: IsrSlot) -> Option<usize> {
    if slot.handler != 0 {
        Some(slot.handler)
    } else {
        None
    }
}

impl IsrSlot {
    /// A slot that no driver has registered with.
    pub fn new() -> (slot: Self)
        ensures
            dispatched(slot) is None,
    {
        IsrSlot { handler: 0 }
    }
}

/// The stack enables USB interrupts and registers the driver ISR, if it has one.
pub fn enable_isr(slot: &mut IsrSlot, handler: Option<usize>)
    ensures
        *final(slot) == match handler {
            Some(address) => IsrSlot { handler: address },
            None => *old(slot),
        },
{
    if let Some(address) = handler {
        slot.handler = address;
    }
}

/// The driver routine to call for a pending OTG_FS interrupt; none before the driver
/// has registered one.
pub fn dispatch_interrupt(slot: &IsrSlot) -> (handler: Option<usize>)
    ensures
        handler == dispatched(*slot),
{
    if slot.handler != 0 {
        Some(slot.handler)
    } else {
        None
    }
}

/// An interrupt goes to the routine that was registered last, at whatever address.
pub proof fn interrupts_go_to_the_driver(handler: usize)
    ensures
        handler != 0 ==> dispatched(IsrSlot { handler }) == Some(handler),
        handler == 0 ==> dispatched(IsrSlot { handler }) is None,
{
}

} // verus!
