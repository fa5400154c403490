//! Movement intents and the direction toward a column or a row.

use vstd::prelude::*;

verus! {

/// Which way to walk along a platform.
#[derive(Clone, Copy, Debug, Default, PartialEq, Eq, Structural)]
pub enum MoveIntendHorizontal {
    #[default]
    Stay,
    Left,
    Right,
}

/// Which way to take a stair.
#[derive(Clone, Copy, Debug, Default, PartialEq, Eq, Structural)]
pub enum MoveIntendVertical {
    #[default]
    Stay,
    Up,
    Down,
}

/// Walking from column `from` toward column `to`: right if it lies to the
/// right, left if to the left, nothing once there.
pub open spec fn horizontal_toward(from: int, to: int) -> MoveIntendHorizontal {
    if from < to {
        MoveIntendHorizontal::Right
    } else if from > to {
        MoveIntendHorizontal::Left
    } else {
        MoveIntendHorizontal::Stay
    }
}

/// Climbing from row `from` toward row `to`: up if it lies above, down otherwise.
pub open spec fn vertical_toward(from: int, to: int) -> MoveIntendVertical {
    if from < to {
        MoveIntendVertical::Up
    } else {
        MoveIntendVertical::Down
    }
}

pub fn horizontal_intent(from: i64, to: i64) -> (r: MoveIntendHorizontal)
    ensures
        r == horizontal_toward(from as int, to as int),
{
    if from < to {
        MoveIntendHorizontal::Right
    } else if from > to {
        MoveIntendHorizontal::Left
    } else {
        MoveIntendHorizontal::Stay
    }
}

pub fn vertical_intent(from: i32, to: i32) -> (r: MoveIntendVertical)
    ensures
        r == vertical_toward(from as int, to as int),
{
    if from < to {
        MoveIntendVertical::Up
    } else {
        MoveIntendVertical::Down
    }
}

} // verus!
