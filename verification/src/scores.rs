use vstd::prelude::*;

verus! {

/// A high score: the player's name and the time, in seconds, the game took.
#[derive(Debug, Clone)]
pub struct Score {
    pub name: String,
    pub time: i32,
}

} // verus!
