use vstd::prelude::*;

verus! {

/// The player's preferences: the difficulty level (0 to 5).
#[derive(Clone, Copy, Debug)]
pub struct Preferences {
    pub level: usize,
}

impl Default for Preferences {
    fn default() -> (r: Self)
        ensures
            r.level == 1,
    {
        Self { level: 1 }
    }
}

/// Width, height and number of cats of a difficulty level; an unknown level
/// gives a 15 x 15 board with 25 cats.
pub open spec fn level_dims(level: usize) -> (usize, usize, usize) {
    if level == 0 {
        (15, 10, 15)
    } else if level == 1 {
        (20, 15, 25)
    } else if level == 2 {
        (25, 15, 35)
    } else if level == 3 {
        (27, 20, 110)
    } else if level == 4 {
        (35, 22, 160)
    } else if level == 5 {
        (40, 25, 215)
    } else {
        (15, 15, 25)
    }
}

/// Name of a difficulty level; an unknown level is named "?".
pub open spec fn level_title(level: usize) -> Seq<char> {
    if level == 0 {
        "Débutant"@
    } else if level == 1 {
        "Normal"@
    } else if level == 2 {
        "Difficile"@
    } else if level == 3 {
        "Ultra Difficile"@
    } else if level == 4 {
        "Géant"@
    } else if level == 5 {
        "Chuck Norris"@
    } else {
        "?"@
    }
}

impl Preferences {
    /// Width, height and number of cats of a difficulty level.
    pub fn level_params(level: usize) -> (r: (usize, usize, usize))
        ensures
            r == level_dims(level),
    {
        match level {
            0 => (15, 10, 15),
            1 => (20, 15, 25),
            2 => (25, 15, 35),
            3 => (27, 20, 110),
            4 => (35, 22, 160),
            5 => (40, 25, 215),
            _ => (15, 15, 25),
        }
    }

    /// Name of a difficulty level.
    pub fn level_name(level: usize) -> (r: &'static str)
        ensures
            r@ == level_title(level),
    {
        match level {
            0 => "Débutant",
            1 => "Normal",
            2 => "Difficile",
            3 => "Ultra Difficile",
            4 => "Géant",
            5 => "Chuck Norris",
            _ => "?",
        }
    }

    /// Width, height and number of cats of the chosen level.
    pub fn effective_dims(&self) -> (r: (usize, usize, usize))
        ensures
            r == level_dims(self.level),
    {
        Self::level_params(self.level)
    }
}

/// Every level leaves room for its cats outside the cell clicked first and its
/// eight neighbours, so a board can always be laid out; and its board is at
/// least 3 x 3.
pub proof fn lemma_levels_leave_room(level: usize)
    ensures
        level_dims(level).0 >= 3,
        level_dims(level).1 >= 3,
        level_dims(level).2 + 9 <= level_dims(level).0 * level_dims(level).1,
        level_dims(level).0 * level_dims(level).1 <= 1000,
{
}

} // verus!
