//! Packing a pair of 32-bit values into one 64-bit value, the left one in
//! the high half, and back.
use vstd::prelude::*;

verus! {

/// A value that wraps packed data.
pub trait IsBitPacked {
    type Data;

    fn to_raw(self) -> Self::Data;
}

/// Packed data.
#[derive(Clone, Copy, Debug, PartialEq, Eq, Hash, PartialOrd, Ord, Default)]
pub struct BitPackedData<D>(pub D);

impl<T> IsBitPacked for BitPackedData<T> {
    type Data = T;

    fn to_raw(self) -> (r: T)
        ensures
            r == self.0,
    {
        self.0
    }
}

/// The packed value of `left` and `right`: `left` in the high 32 bits.
pub open spec fn packed(left: u32, right: u32) -> int {
    left as int * 0x1_0000_0000 + right as int
}

/// A pair of values that packs into one value of type `O`.
pub trait BitPackablePair<O> {
    type Left;

    type Right;

    fn pack_val_raw(left: Self::Left, right: Self::Right) -> O;

    fn pack_tup_raw(val: (Self::Left, Self::Right)) -> O;

    fn unpack_raw(val: O) -> (Self::Left, Self::Right);
}

impl BitPackablePair<u64> for (u32, u32) {
    type Left = u32;

    type Right = u32;

    fn pack_val_raw(left: u32, right: u32) -> (r: u64)
        ensures
            r == packed(left, right),
    {
        let l = left as u64;
        let rr = right as u64;
        let r = (l << 32u64) | rr;
        assert(r == l * 0x1_0000_0000 + rr) by (bit_vector)
            requires
                l < 0x1_0000_0000,
                rr < 0x1_0000_0000,
                r == (l << 32u64) | rr,
        ;
        r
    }

    fn pack_tup_raw(val: (u32, u32)) -> (r: u64)
        ensures
            r == packed(val.0, val.1),
    {
        Self::pack_val_raw(val.0, val.1)
    }

    fn unpack_raw(val: u64) -> (r: (u32, u32))
        ensures
            packed(r.0, r.1) == val,
    {
        let mask: u64 = 0xffff_ffff;
        let hi = (val & (mask << 32u64)) >> 32u64;
        let lo = val & mask;
        assert(hi < 0x1_0000_0000 && lo < 0x1_0000_0000 && hi * 0x1_0000_0000 + lo == val) by (bit_vector)
            requires
                mask == 0xffff_ffffu64,
                hi == (val & (mask << 32u64)) >> 32u64,
                lo == val & mask,
        ;
        (hi as u32, lo as u32)
    }
}

/// A position held as one packed value.
#[derive(Clone, Copy, Debug, PartialEq, Eq, Hash, PartialOrd, Ord, Default)]
pub struct BitPackedPosition<T> {
    pub pos: BitPackedData<T>,
}

impl<T> BitPackedPosition<T> {
    pub fn new(packed: BitPackedData<T>) -> (r: Self)
        ensures
            r.pos == packed,
    {
        Self { pos: packed }
    }

    pub fn new_const(packed: BitPackedData<T>) -> (r: Self)
        ensures
            r.pos == packed,
    {
        Self { pos: packed }
    }
}

} // verus!
