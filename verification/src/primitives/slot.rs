use vstd::prelude::*;

verus! {

/// Typed identifier for slots: a positive 1-based slot number.
#[derive(Copy, Clone, Debug, PartialEq, Eq, Structural, Hash, PartialOrd, Ord)]
pub struct SlotId(u32);

impl SlotId {
    #[verifier::type_invariant]
    spec fn positive(self) -> bool {
        self.0 != 0
    }

    /// The slot number.
    pub closed spec fn raw(self) -> u32 {
        self.0
    }

    #[inline]
    pub fn new(value: u32) -> (r: Option<SlotId>)
        ensures
            r is Some <==> value != 0,
            r matches Some(s) ==> s.raw() == value,
    {
        if value == 0 {
            None
        } else {
            Some(SlotId(value))
        }
    }

    #[inline]
    pub fn from_i32(value: i32) -> (r: Option<SlotId>)
        ensures
            r is Some <==> value > 0,
            r matches Some(s) ==> s.raw() == value,
    {
        if value <= 0 {
            None
        } else {
            Self::new(value as u32)
        }
    }

    #[inline]
    pub fn option_to_i32(slot: Option<SlotId>) -> (r: i32)
        ensures
            r == match slot {
                Some(s) => s.raw() as i32,
                None => 0i32,
            },
    {
        match slot {
            Some(s) => s.get() as i32,
            None => 0,
        }
    }

    #[inline]
    pub fn get(&self) -> (r: u32)
        ensures
            r == self.raw(),
            r > 0,
    {
        proof {
            use_type_invariant(self);
        }
        self.0
    }

    #[inline]
    pub fn to_i32(&self) -> (r: i32)
        ensures
            r == self.raw() as i32,
    {
        self.0 as i32
    }

    #[inline]
    pub fn to_usize(&self) -> (r: usize)
        ensures
            r == self.raw(),
            r > 0,
    {
        proof {
            use_type_invariant(self);
        }
        self.0 as usize
    }
}

/// The slot encoded by a cell value: positive values name a slot, others none.
pub open spec fn slot_of(v: i32) -> Option<u32> {
    if v > 0 {
        Some(v as u32)
    } else {
        None
    }
}

/// `r` is what `SlotId::from_i32` makes of the cell value `v`.
pub open spec fn decodes(r: Option<SlotId>, v: i32) -> bool {
    &&& (r is Some <==> v > 0)
    &&& (r matches Some(s) ==> s.raw() == v)
}

/// What a slot cell holds once decoded and encoded again: positive values
/// stay, the others become 0.
pub open spec fn norm_slot(v: i32) -> i32 {
    if v > 0 {
        v
    } else {
        0i32
    }
}

/// The cell value that encodes an optional slot.
pub open spec fn encode_slot(s: Option<SlotId>) -> i32 {
    match s {
        Some(x) => x.raw() as i32,
        None => 0i32,
    }
}

} // verus!
