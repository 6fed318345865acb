//! Direction helpers shared by the transform-carrying tile model.

use vstd::prelude::*;

pub mod tile;
pub mod wfc;

verus! {

/// Represents one of four possible sides of a generator tile
#[derive(Clone, Copy, Debug, PartialEq, Eq, Structural)]
pub enum Side {
    Top,
    Left,
    Right,
    Bottom,
}

impl Side {
    /// The side opposite to the given one.
    pub open spec fn spec_opposite(self) -> Side {
        match self {
            Side::Top => Side::Bottom,
            Side::Left => Side::Right,
            Side::Right => Side::Left,
            Side::Bottom => Side::Top,
        }
    }

    /// Returns the side opposite to this one
    pub fn opposite(self) -> (r: Self)
        ensures
            r == self.spec_opposite(),
    {
        match self {
            Self::Top => Self::Bottom,
            Self::Left => Self::Right,
            Self::Right => Self::Left,
            Self::Bottom => Self::Top,
        }
    }

    /// Returns the side closest to the provided `end` value, relative to the `start` value
    pub fn relative_x(start: usize, end: usize) -> (r: Self)
        ensures
            r == if start <= end {
                Side::Left
            } else {
                Side::Right
            },
    {
        if start <= end {
            Self::Left
        } else {
            Self::Right
        }
    }

    /// Returns the side closest to the provided `end` value, relative to the `start` value
    pub fn relative_y(start: usize, end: usize) -> (r: Self)
        ensures
            r == if start <= end {
                Side::Top
            } else {
                Side::Bottom
            },
    {
        if start <= end {
            Self::Top
        } else {
            Self::Bottom
        }
    }

    /// Returns the side closest to the provided `end` position, relative to the `start` position
    pub fn relative(start: (usize, usize), end: (usize, usize)) -> (r: Self)
        ensures
            r == if start.0 == end.0 {
                if start.1 <= end.1 {
                    Side::Top
                } else {
                    Side::Bottom
                }
            } else {
                if start.0 <= end.0 {
                    Side::Left
                } else {
                    Side::Right
                }
            },
    {
        if start.0 == end.0 {
            Self::relative_y(start.1, end.1)
        } else {
            Self::relative_x(start.0, end.0)
        }
    }
}

/// Represents one of four possible rotations of a generator tile
#[derive(Clone, Copy, Debug, PartialEq, Eq, Structural)]
pub enum Rotation {
    D0,
    D90,
    D180,
    D270,
}

} // verus!
