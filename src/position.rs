//! Grid coordinates: an integer coordinate type and two-dimensional positions.
use vstd::prelude::*;

verus! {

/// An integer type usable as one coordinate of a map position.
///
/// `value` is the mathematical integer that a coordinate stands for; the
/// bounds are those of the underlying machine type.
pub trait PositionKey: Copy + Sized {
    spec fn value(self) -> int;

    spec fn min_value() -> int;

    spec fn max_value() -> int;

    proof fn lemma_value_bounds(self)
        ensures
            Self::min_value() <= self.value() <= Self::max_value(),
            Self::min_value() <= 0 < Self::max_value(),
            Self::max_value() - Self::min_value() <= u64::MAX,
    ;

    proof fn lemma_value_injective(self, other: Self)
        ensures
            self.value() == other.value() ==> self == other,
    ;

    fn zero() -> (r: Self)
        ensures
            r.value() == 0,
    ;

    /// The largest value of the type.
    fn max_key() -> (r: Self)
        ensures
            r.value() == Self::max_value(),
    ;

    /// The smallest value of the type.
    fn min_key() -> (r: Self)
        ensures
            r.value() == Self::min_value(),
    ;

    /// The coordinate one below, unless that underflows.
    fn checked_dec(self) -> (r: Option<Self>)
        ensures
            self.value() == Self::min_value() <==> r is None,
            r matches Some(v) ==> v.value() == self.value() - 1,
    ;

    /// The coordinate one above, unless that overflows.
    fn checked_inc(self) -> (r: Option<Self>)
        ensures
            self.value() == Self::max_value() <==> r is None,
            r matches Some(v) ==> v.value() == self.value() + 1,
    ;

    fn same_key(self, other: Self) -> (r: bool)
        ensures
            r == (self.value() == other.value()),
    ;

    fn less_than(self, other: Self) -> (r: bool)
        ensures
            r == (self.value() < other.value()),
    ;

    /// `self - base`, where that is a `u32`.
    fn offset_from(self, base: Self) -> (r: Option<u32>)
        ensures
            r is Some <==> 0 <= self.value() - base.value() <= u32::MAX,
            r matches Some(d) ==> d == self.value() - base.value(),
    ;

    /// The distance of `self` above the least value of the type: an
    /// order-keeping key that is the same for two coordinates only when they
    /// are equal.
    fn key(self) -> (r: u64)
        ensures
            r == self.value() - Self::min_value(),
    ;

    /// The largest value of the type that is also a `u32`.
    fn max_as_u32() -> (r: u32)
        ensures
            r == if Self::max_value() <= u32::MAX {
                Self::max_value()
            } else {
                u32::MAX as int
            },
    ;

    /// `v` as a coordinate, or the largest coordinate where `v` does not fit.
    fn from_u32_saturating(v: u32) -> (r: Self)
        ensures
            v <= Self::max_value() ==> r.value() == v,
            v > Self::max_value() ==> r.value() == Self::max_value(),
    ;
}

impl PositionKey for u8 {
    open spec fn value(self) -> int {
        self as int
    }

    open spec fn min_value() -> int {
        u8::MIN as int
    }

    open spec fn max_value() -> int {
        u8::MAX as int
    }

    proof fn lemma_value_bounds(self) {
    }

    proof fn lemma_value_injective(self, other: Self) {
    }

    fn zero() -> (r: Self) {
        0
    }

    fn max_key() -> (r: Self) {
        u8::MAX
    }

    fn min_key() -> (r: Self) {
        u8::MIN
    }

    fn checked_dec(self) -> (r: Option<Self>) {
        self.checked_sub(1)
    }

    fn checked_inc(self) -> (r: Option<Self>) {
        self.checked_add(1)
    }

    fn same_key(self, other: Self) -> (r: bool) {
        self == other
    }

    fn less_than(self, other: Self) -> (r: bool) {
        self < other
    }

    fn offset_from(self, base: Self) -> (r: Option<u32>) {
        if base <= self {
            Some((self - base) as u32)
        } else {
            None
        }
    }

    fn key(self) -> (r: u64) {
        self as u64
    }

    fn max_as_u32() -> (r: u32) {
        u8::MAX as u32
    }

    fn from_u32_saturating(v: u32) -> (r: Self) {
        if v <= u8::MAX as u32 {
            v as u8
        } else {
            u8::MAX
        }
    }
}

impl PositionKey for u16 {
    open spec fn value(self) -> int {
        self as int
    }

    open spec fn min_value() -> int {
        u16::MIN as int
    }

    open spec fn max_value() -> int {
        u16::MAX as int
    }

    proof fn lemma_value_bounds(self) {
    }

    proof fn lemma_value_injective(self, other: Self) {
    }

    fn zero() -> (r: Self) {
        0
    }

    fn max_key() -> (r: Self) {
        u16::MAX
    }

    fn min_key() -> (r: Self) {
        u16::MIN
    }

    fn checked_dec(self) -> (r: Option<Self>) {
        self.checked_sub(1)
    }

    fn checked_inc(self) -> (r: Option<Self>) {
        self.checked_add(1)
    }

    fn same_key(self, other: Self) -> (r: bool) {
        self == other
    }

    fn less_than(self, other: Self) -> (r: bool) {
        self < other
    }

    fn offset_from(self, base: Self) -> (r: Option<u32>) {
        if base <= self {
            Some((self - base) as u32)
        } else {
            None
        }
    }

    fn key(self) -> (r: u64) {
        self as u64
    }

    fn max_as_u32() -> (r: u32) {
        u16::MAX as u32
    }

    fn from_u32_saturating(v: u32) -> (r: Self) {
        if v <= u16::MAX as u32 {
            v as u16
        } else {
            u16::MAX
        }
    }
}

impl PositionKey for u32 {
    open spec fn value(self) -> int {
        self as int
    }

    open spec fn min_value() -> int {
        u32::MIN as int
    }

    open spec fn max_value() -> int {
        u32::MAX as int
    }

    proof fn lemma_value_bounds(self) {
    }

    proof fn lemma_value_injective(self, other: Self) {
    }

    fn zero() -> (r: Self) {
        0
    }

    fn max_key() -> (r: Self) {
        u32::MAX
    }

    fn min_key() -> (r: Self) {
        u32::MIN
    }

    fn checked_dec(self) -> (r: Option<Self>) {
        self.checked_sub(1)
    }

    fn checked_inc(self) -> (r: Option<Self>) {
        self.checked_add(1)
    }

    fn same_key(self, other: Self) -> (r: bool) {
        self == other
    }

    fn less_than(self, other: Self) -> (r: bool) {
        self < other
    }

    fn offset_from(self, base: Self) -> (r: Option<u32>) {
        if base <= self {
            Some(self - base)
        } else {
            None
        }
    }

    fn key(self) -> (r: u64) {
        self as u64
    }

    fn max_as_u32() -> (r: u32) {
        u32::MAX
    }

    fn from_u32_saturating(v: u32) -> (r: Self) {
        v
    }
}

impl PositionKey for u64 {
    open spec fn value(self) -> int {
        self as int
    }

    open spec fn min_value() -> int {
        u64::MIN as int
    }

    open spec fn max_value() -> int {
        u64::MAX as int
    }

    proof fn lemma_value_bounds(self) {
    }

    proof fn lemma_value_injective(self, other: Self) {
    }

    fn zero() -> (r: Self) {
        0
    }

    fn max_key() -> (r: Self) {
        u64::MAX
    }

    fn min_key() -> (r: Self) {
        u64::MIN
    }

    fn checked_dec(self) -> (r: Option<Self>) {
        self.checked_sub(1)
    }

    fn checked_inc(self) -> (r: Option<Self>) {
        self.checked_add(1)
    }

    fn same_key(self, other: Self) -> (r: bool) {
        self == other
    }

    fn less_than(self, other: Self) -> (r: bool) {
        self < other
    }

    fn offset_from(self, base: Self) -> (r: Option<u32>) {
        if base <= self && self - base <= u32::MAX as u64 {
            Some((self - base) as u32)
        } else {
            None
        }
    }

    fn key(self) -> (r: u64) {
        self
    }

    fn max_as_u32() -> (r: u32) {
        u32::MAX
    }

    fn from_u32_saturating(v: u32) -> (r: Self) {
        v as u64
    }
}

impl PositionKey for i32 {
    open spec fn value(self) -> int {
        self as int
    }

    open spec fn min_value() -> int {
        i32::MIN as int
    }

    open spec fn max_value() -> int {
        i32::MAX as int
    }

    proof fn lemma_value_bounds(self) {
    }

    proof fn lemma_value_injective(self, other: Self) {
    }

    fn zero() -> (r: Self) {
        0
    }

    fn max_key() -> (r: Self) {
        i32::MAX
    }

    fn min_key() -> (r: Self) {
        i32::MIN
    }

    fn checked_dec(self) -> (r: Option<Self>) {
        self.checked_sub(1)
    }

    fn checked_inc(self) -> (r: Option<Self>) {
        self.checked_add(1)
    }

    fn same_key(self, other: Self) -> (r: bool) {
        self == other
    }

    fn less_than(self, other: Self) -> (r: bool) {
        self < other
    }

    fn offset_from(self, base: Self) -> (r: Option<u32>) {
        let d = self as i64 - base as i64;
        if 0 <= d && d <= u32::MAX as i64 {
            Some(d as u32)
        } else {
            None
        }
    }

    fn key(self) -> (r: u64) {
        (self as i64 - i32::MIN as i64) as u64
    }

    fn max_as_u32() -> (r: u32) {
        i32::MAX as u32
    }

    fn from_u32_saturating(v: u32) -> (r: Self) {
        if v <= i32::MAX as u32 {
            v as i32
        } else {
            i32::MAX
        }
    }
}

impl PositionKey for i64 {
    open spec fn value(self) -> int {
        self as int
    }

    open spec fn min_value() -> int {
        i64::MIN as int
    }

    open spec fn max_value() -> int {
        i64::MAX as int
    }

    proof fn lemma_value_bounds(self) {
    }

    proof fn lemma_value_injective(self, other: Self) {
    }

    fn zero() -> (r: Self) {
        0
    }

    fn max_key() -> (r: Self) {
        i64::MAX
    }

    fn min_key() -> (r: Self) {
        i64::MIN
    }

    fn checked_dec(self) -> (r: Option<Self>) {
        self.checked_sub(1)
    }

    fn checked_inc(self) -> (r: Option<Self>) {
        self.checked_add(1)
    }

    fn same_key(self, other: Self) -> (r: bool) {
        self == other
    }

    fn less_than(self, other: Self) -> (r: bool) {
        self < other
    }

    fn offset_from(self, base: Self) -> (r: Option<u32>) {
        let d = self as i128 - base as i128;
        if 0 <= d && d <= u32::MAX as i128 {
            Some(d as u32)
        } else {
            None
        }
    }

    fn key(self) -> (r: u64) {
        (self as i128 - i64::MIN as i128) as u64
    }

    fn max_as_u32() -> (r: u32) {
        u32::MAX
    }

    fn from_u32_saturating(v: u32) -> (r: Self) {
        v as i64
    }
}

/// A position on a two-dimensional map.
#[derive(Clone, Copy, Debug, PartialEq, Eq, Hash, PartialOrd, Ord, Default)]
pub struct Position2D<P: PositionKey> {
    pub x: P,
    pub y: P,
}

impl<P: PositionKey> Position2D<P> {
    pub fn new(x: P, y: P) -> (r: Self)
        ensures
            r.x == x,
            r.y == y,
    {
        Self { x, y }
    }

    /// Whether two positions hold the same coordinates.
    pub fn same_position(&self, other: &Self) -> (r: bool)
        ensures
            r == (self.x.value() == other.x.value() && self.y.value() == other.y.value()),
            r ==> *self == *other,
    {
        proof {
            self.x.lemma_value_injective(other.x);
            self.y.lemma_value_injective(other.y);
        }
        self.x.same_key(other.x) && self.y.same_key(other.y)
    }
}

} // verus!
