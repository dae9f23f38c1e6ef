use crate::epoch_mirror::EpochMirror;
use crate::kernel::Kernel;
use vstd::prelude::*;

verus! {

/// Consumer-side entry point to the epoch mirror.
///
/// `acquire_mirror()` combines mirror acquisition with triple-buffer
/// consumption into a single call:
/// 1. It acknowledges the current generation on the control plane and takes
///    the current `EpochMirror`.
/// 2. It calls `swap()` on it to consume any pending updates on the default
///    triple buffer.
/// 3. It returns the ready-to-read mirror.
///
/// User TBs are **not** swapped by `acquire_mirror()`: to consume user TB
/// updates, call `swap_tb(id)` on the returned mirror.
pub struct EpochConsumer<const TB_COUNT: usize, const STORE_COUNT: usize, const LUT_COUNT: usize> {}

impl<const TB_COUNT: usize, const STORE_COUNT: usize, const LUT_COUNT: usize> EpochConsumer<TB_COUNT, STORE_COUNT, LUT_COUNT> {
    pub fn new() -> (r: Self) {
        EpochConsumer {}
    }

    /// Acquires the current mirror for this processing cycle: acknowledges
    /// the current generation, then consumes the pending default-buffer update.
    pub fn acquire_mirror<'a>(&mut self, kernel: &'a mut Kernel<TB_COUNT, STORE_COUNT, LUT_COUNT>) -> (r: &'a EpochMirror<
        TB_COUNT,
        STORE_COUNT,
        LUT_COUNT,
    >)
        requires
            old(kernel).wf(),
            old(kernel).epoch().gens_ackable(old(kernel).mem_view()),
        ensures
            final(kernel).wf(),
            final(kernel).cfg() == old(kernel).cfg(),
            final(kernel).epoch() == old(kernel).epoch(),
            final(kernel).pending() == old(kernel).pending(),
            final(kernel).plane().current() == old(kernel).plane().current(),
            final(kernel).plane().writer_gen() == old(kernel).plane().writer_gen(),
            final(kernel).plane().ack_gen() == old(kernel).plane().writer_gen(),
            final(kernel).mem_view() == old(kernel).plane().current().after_swap(old(kernel).mem_view()),
            *r == old(kernel).plane().current(),
    {
        kernel.consume()
    }
}

} // verus!
