use crate::epoch_mirror::EpochMirror;
use vstd::prelude::*;

verus! {

/// The control plane for initial delivery and later hot-swapping of the
/// active epoch.
///
/// Owns the current `Box<EpochMirror>` and acts as the sole source of truth
/// indicating which `EpochMirror` the consumer should traverse.
///
/// # Mechanism
/// The kernel initializes this with a `Box<EpochMirror>` via `new()`. When
/// `grow()` occurs, the kernel calls `swap_epoch()` with the new mirror.
/// `swap_epoch()` replaces the current mirror, advances the writer
/// generation, and returns the old mirror paired with the new generation: the
/// stamp for its deferred deletion. The kernel holds the pair in a deletion
/// queue and frees it only once the consumer's acknowledged generation
/// reaches the stamp.
///
/// On the consumer side, `acquire_mirror()` acknowledges the current
/// generation **before** handing out the mirror, so the consumer's
/// acknowledgement never exceeds the generation of the mirror it receives.
pub struct ControlPlane<const TB_COUNT: usize, const STORE_COUNT: usize, const LUT_COUNT: usize> {
    mirror: Box<EpochMirror<TB_COUNT, STORE_COUNT, LUT_COUNT>>,
    writer_generation: i32,
    reader_ack_generation: i32,
}

impl<const TB_COUNT: usize, const STORE_COUNT: usize, const LUT_COUNT: usize> ControlPlane<TB_COUNT, STORE_COUNT, LUT_COUNT> {
    /// The mirror the consumer is handed.
    pub closed spec fn current(&self) -> EpochMirror<TB_COUNT, STORE_COUNT, LUT_COUNT> {
        *self.mirror
    }

    /// How many times the epoch has been swapped.
    pub closed spec fn writer_gen(&self) -> i32 {
        self.writer_generation
    }

    /// The generation the consumer acknowledged last.
    pub closed spec fn ack_gen(&self) -> i32 {
        self.reader_ack_generation
    }

    pub fn new(mirror: Box<EpochMirror<TB_COUNT, STORE_COUNT, LUT_COUNT>>) -> (r: Self)
        ensures
            r.current() == *mirror,
            r.writer_gen() == 0,
            r.ack_gen() == 0,
    {
        ControlPlane { mirror, writer_generation: 0, reader_ack_generation: 0 }
    }

    /// Acknowledges the current generation, then hands out the current mirror.
    pub fn acquire_mirror(&mut self) -> (r: &EpochMirror<TB_COUNT, STORE_COUNT, LUT_COUNT>)
        ensures
            *r == old(self).current(),
            final(self).current() == old(self).current(),
            final(self).writer_gen() == old(self).writer_gen(),
            final(self).ack_gen() == old(self).writer_gen(),
    {
        self.ack();
        &self.mirror
    }

    /// Installs `new_epoch` and returns the old mirror with its deletion
    /// stamp: the advanced writer generation.
    pub fn swap_epoch(&mut self, new_epoch: Box<EpochMirror<TB_COUNT, STORE_COUNT, LUT_COUNT>>) -> (r: (
        Box<EpochMirror<TB_COUNT, STORE_COUNT, LUT_COUNT>>,
        i32,
    ))
        requires
            old(self).writer_gen() < i32::MAX,
        ensures
            *r.0 == old(self).current(),
            r.1 == old(self).writer_gen() + 1,
            final(self).current() == *new_epoch,
            final(self).writer_gen() == old(self).writer_gen() + 1,
            final(self).ack_gen() == old(self).ack_gen(),
    {
        let mut old_epoch = new_epoch;
        std::mem::swap(&mut self.mirror, &mut old_epoch);
        let prev_gen = self.writer_generation;
        self.writer_generation = prev_gen.wrapping_add(1);
        (old_epoch, prev_gen + 1)
    }

    pub fn get_writer_generation(&self) -> (r: i32)
        ensures
            r == self.writer_gen(),
    {
        self.writer_generation
    }

    pub fn get_reader_ack_generation(&self) -> (r: i32)
        ensures
            r == self.ack_gen(),
    {
        self.reader_ack_generation
    }

    fn ack(&mut self)
        ensures
            final(self).current() == old(self).current(),
            final(self).writer_gen() == old(self).writer_gen(),
            final(self).ack_gen() == old(self).writer_gen(),
    {
        let writer_generation = self.writer_generation;
        self.reader_ack_generation = writer_generation;
    }
}

} // verus!
