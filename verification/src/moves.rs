use vstd::prelude::*;

verus! {

/// A compass direction.
#[derive(Debug, Clone, Copy, PartialEq, Eq, Structural)]
pub enum Direction {
    Up,
    Left,
    Down,
    Right,
}

/// The direction numbered `i`, counting Up, Left, Down, Right from zero and
/// starting over every four.
pub open spec fn direction_of(i: u32) -> Direction {
    if i % 4 == 0 {
        Direction::Up
    } else if i % 4 == 1 {
        Direction::Left
    } else if i % 4 == 2 {
        Direction::Down
    } else {
        Direction::Right
    }
}

impl Direction {
    /// The direction numbered `i`, counting Up, Left, Down, Right from zero
    /// and starting over every four.
    pub fn from_int(i: u32) -> (d: Direction)
        ensures
            d == direction_of(i),
    {
        match i % 4 {
            0 => Direction::Up,
            1 => Direction::Left,
            2 => Direction::Down,
            _ => Direction::Right,
        }
    }
}

/// Numbers four apart name the same direction.
pub proof fn law_directions_repeat_every_four(i: u32)
    requires
        i <= u32::MAX - 4,
    ensures
        direction_of((i + 4) as u32) == direction_of(i),
{
}

} // verus!
