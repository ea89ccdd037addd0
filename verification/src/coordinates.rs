//! Grid cell addresses with saturating arithmetic.

use vstd::prelude::*;

verus! {

/// A 2D unsigned grid position. Arithmetic saturates at the ends of the
/// `u16` range instead of overflowing or panicking.
#[derive(Debug, Default, Copy, Clone, PartialEq, Eq, Structural, Hash, PartialOrd, Ord)]
pub struct Coordinates {
    pub x: u16,
    pub y: u16,
}

impl Coordinates {
    /// Component-wise addition, saturating at `u16::MAX`.
    pub fn add(self, rhs: Self) -> (r: Self)
        ensures
            r.x == if self.x + rhs.x <= u16::MAX { self.x + rhs.x } else { u16::MAX as int },
            r.y == if self.y + rhs.y <= u16::MAX { self.y + rhs.y } else { u16::MAX as int },
    {
        Coordinates { x: self.x.saturating_add(rhs.x), y: self.y.saturating_add(rhs.y) }
    }

    /// Component-wise subtraction, saturating at 0.
    pub fn sub(self, rhs: Self) -> (r: Self)
        ensures
            r.x == if self.x >= rhs.x { self.x - rhs.x } else { 0 },
            r.y == if self.y >= rhs.y { self.y - rhs.y } else { 0 },
    {
        Coordinates { x: self.x.saturating_sub(rhs.x), y: self.y.saturating_sub(rhs.y) }
    }

    /// Adds a signed offset to each component, clamping the result into the
    /// `u16` range instead of wrapping.
    pub fn add_signed(self, dx: i8, dy: i8) -> (r: Self)
        ensures
            r.x == Self::clamp_spec(self.x + dx),
            r.y == Self::clamp_spec(self.y + dy),
    {
        Coordinates { x: Self::clamp_i32(self.x as i32 + dx as i32), y: Self::clamp_i32(
            self.y as i32 + dy as i32,
        ) }
    }

    /// What a signed component sum clamps to: 0 below the range, `u16::MAX`
    /// above it, the value itself inside it.
    pub open spec fn clamp_spec(v: int) -> int {
        if v < 0 {
            0
        } else if v > u16::MAX {
            u16::MAX as int
        } else {
            v
        }
    }

    fn clamp_i32(v: i32) -> (r: u16)
        requires
            i32::MIN < v,
        ensures
            r == Self::clamp_spec(v as int),
    {
        if v < 0 {
            0
        } else if v > u16::MAX as i32 {
            u16::MAX
        } else {
            v as u16
        }
    }
}

impl From<(u16, u16)> for Coordinates {
    /// Reads a coordinate out of an `(x, y)` pair.
    fn from(tuple: (u16, u16)) -> (r: Self) {
        Coordinates { x: tuple.0, y: tuple.1 }
    }
}

impl vstd::std_specs::convert::FromSpecImpl<(u16, u16)> for Coordinates {
    open spec fn obeys_from_spec() -> bool {
        true
    }

    open spec fn from_spec(tuple: (u16, u16)) -> Coordinates {
        Coordinates { x: tuple.0, y: tuple.1 }
    }
}

} // verus!
