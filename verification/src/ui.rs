use vstd::prelude::*;

use crate::game::GameState;
use crate::model::Field;
use crate::settings::{level_dims, level_title, Preferences};
use crate::text::{decimal, usize_text};

verus! {

/// The face on the button above the board.
#[derive(PartialEq, Eq, Clone, Copy, Debug, Structural)]
pub enum FaceKind {
    Normal,
    Fear,
    Happy,
    Sad,
}

/// The face for a game: happy when won, sad when lost, afraid while the
/// player holds the button down, plain otherwise.
pub fn face_for(state: GameState, pressing: bool) -> (r: FaceKind)
    ensures
        r == (match state {
            GameState::Won => FaceKind::Happy,
            GameState::Lost => FaceKind::Sad,
            _ => if pressing {
                FaceKind::Fear
            } else {
                FaceKind::Normal
            },
        }),
{
    match state {
        GameState::Won => FaceKind::Happy,
        GameState::Lost => FaceKind::Sad,
        _ => if pressing {
            FaceKind::Fear
        } else {
            FaceKind::Normal
        },
    }
}

/// What a release of the mouse buttons over a cell asks for.
#[derive(PartialEq, Eq, Clone, Copy, Debug, Structural)]
pub enum ClickKind {
    Left,
    Right,
    Chord,
}

/// Reads a release of the mouse buttons: the right button released alone marks
/// a cell, the left one released while the right one is held is a chord, the
/// left one released alone uncovers a cell.
pub fn release_action(
    primary_released: bool,
    secondary_released: bool,
    primary_down: bool,
    secondary_down: bool,
) -> (r: Option<ClickKind>)
    ensures
        r == (if secondary_released && !primary_down {
            Some(ClickKind::Right)
        } else if primary_released && secondary_down {
            Some(ClickKind::Chord)
        } else if primary_released && !secondary_down {
            Some(ClickKind::Left)
        } else {
            None
        }),
{
    if secondary_released && !primary_down {
        Some(ClickKind::Right)
    } else if primary_released && secondary_down {
        Some(ClickKind::Chord)
    } else if primary_released && !secondary_down {
        Some(ClickKind::Left)
    } else {
        None
    }
}

/// How a cell is drawn.
#[derive(PartialEq, Eq, Clone, Copy, Debug, Structural)]
pub enum CellLook {
    /// Raised and blank.
    Covered,
    /// Raised, with a flag.
    Flag,
    /// Raised, with a question mark.
    Question,
    /// Raised, with the cat it hides shown (the game is over).
    HiddenCat,
    /// Raised, with a flag on a cell without a cat (the game is over).
    WrongFlag,
    /// Sunken and blank.
    Open,
    /// Sunken, with its number.
    Number(u8),
    /// Sunken, with a cat.
    Cat,
    /// The cat that lost the game.
    Exploded,
}

/// The cell is drawn sunken, as an uncovered cell: blank, with its number, with
/// a cat, or as the cat that lost.
pub open spec fn sunken(l: CellLook) -> bool {
    l is Open || l is Number || l is Cat || l is Exploded
}

/// How `f` is drawn, with `active` telling whether the game still takes clicks
/// and `is_exploded` whether the cell lost the game.
pub open spec fn look_of(f: Field, active: bool, is_exploded: bool) -> CellLook {
    if f.discovered {
        if is_exploded {
            CellLook::Exploded
        } else if active && f.cat {
            CellLook::Cat
        } else if f.neighbours > 0 {
            CellLook::Number(f.neighbours)
        } else {
            CellLook::Open
        }
    } else if active {
        if f.flag == 1 {
            CellLook::Flag
        } else if f.flag == 2 {
            CellLook::Question
        } else {
            CellLook::Covered
        }
    } else if f.flag == 1 && f.cat {
        CellLook::Flag
    } else if f.flag == 1 {
        CellLook::WrongFlag
    } else if f.cat {
        CellLook::HiddenCat
    } else {
        CellLook::Covered
    }
}

/// An uncovered cell is drawn sunken and a covered one raised, during the game
/// and after it; an uncovered cell without a cat that did not lose the game
/// shows its number, or nothing when it is zero, whether the game is over or not.
pub proof fn lemma_uncovered_cells_look_sunken(f: Field, active: bool, is_exploded: bool)
    ensures
        f.discovered == sunken(look_of(f, active, is_exploded)),
        f.discovered && !is_exploded && !f.cat ==> look_of(f, active, is_exploded) == (if f.neighbours > 0 {
            CellLook::Number(f.neighbours)
        } else {
            CellLook::Open
        }),
{
}

/// How a cell is drawn: while the game takes clicks covered cells show their
/// marker; once it is over, hidden cats are shown and misplaced flags marked.
pub fn cell_look(field: &Field, active: bool, is_exploded: bool) -> (r: CellLook)
    ensures
        r == look_of(*field, active, is_exploded),
        field.discovered == sunken(r),
        field.discovered && !is_exploded && !field.cat ==> r == (if field.neighbours > 0 {
            CellLook::Number(field.neighbours)
        } else {
            CellLook::Open
        }),
{
    proof {
        lemma_uncovered_cells_look_sunken(*field, active, is_exploded);
    }
    if field.discovered {
        if is_exploded {
            CellLook::Exploded
        } else if active && field.cat {
            CellLook::Cat
        } else if field.neighbours > 0 {
            CellLook::Number(field.neighbours)
        } else {
            CellLook::Open
        }
    } else if active {
        if field.flag == 1 {
            CellLook::Flag
        } else if field.flag == 2 {
            CellLook::Question
        } else {
            CellLook::Covered
        }
    } else if field.flag == 1 && field.cat {
        CellLook::Flag
    } else if field.flag == 1 {
        CellLook::WrongFlag
    } else if field.cat {
        CellLook::HiddenCat
    } else {
        CellLook::Covered
    }
}

/// The line under the board: the outcome of a finished game, otherwise the
/// level, its cats and, once a board was generated, the number of tries it took.
pub open spec fn status_text(state: GameState, level: usize, attempts: u32) -> Seq<char> {
    match state {
        GameState::Lost => "Malheureusement, tu as perdu."@,
        GameState::Won => "Tu as gagné !"@,
        _ => {
            let head = level_title(level) + " — "@ + decimal(level_dims(level).2 as nat)
                + " BombaCat"@;
            if attempts == 0 {
                head
            } else {
                head + "  (grille résoluble générée en "@ + decimal(attempts as nat) + " essai"@
                    + (if attempts > 1 {
                    "s"@
                } else {
                    Seq::empty()
                }) + ".)"@
            }
        },
    }
}

/// The status line of a game in `state` names the tries a generated board took.
pub open spec fn tries_phrase(state: GameState, attempts: u32) -> bool {
    (state == GameState::NotStarted || state == GameState::Running) && attempts >= 1
}

/// The tries are counted with the plural from two on: the line ends in
/// "essais.)" exactly when at least two boards were tried, and in "essai.)"
/// exactly when one was.
pub proof fn lemma_tries_plural(state: GameState, level: usize, attempts: u32)
    ensures
        tries_phrase(state, attempts) ==> ({
            let t = status_text(state, level, attempts);
            &&& t.len() >= 8
            &&& (t.subrange(t.len() - 8, t.len() as int) == "essais.)"@) == (attempts >= 2)
            &&& (t.subrange(t.len() - 7, t.len() as int) == "essai.)"@) == (attempts == 1)
        }),
{
    if tries_phrase(state, attempts) {
        reveal_strlit("essais.)");
        reveal_strlit("essai.)");
        reveal_strlit(" essai");
        reveal_strlit("s");
        reveal_strlit(".)");
        let head = level_title(level) + " — "@ + decimal(level_dims(level).2 as nat) + " BombaCat"@;
        let pre = head + "  (grille résoluble générée en "@ + decimal(attempts as nat);
        let t = status_text(state, level, attempts);
        if attempts > 1 {
            assert(t == pre + " essai"@ + "s"@ + ".)"@);
            assert(t.subrange(t.len() - 8, t.len() as int) =~= "essais.)"@);
            assert(t.subrange(t.len() - 7, t.len() as int)[0] == 's');
            assert("essai.)"@[0] == 'e');
        } else {
            assert(t == pre + " essai"@ + Seq::<char>::empty() + ".)"@);
            assert(t.subrange(t.len() - 7, t.len() as int) =~= "essai.)"@);
            assert(t.subrange(t.len() - 8, t.len() as int)[0] == ' ');
            assert("essais.)"@[0] == 'e');
        }
    }
}

/// The line under the board for a game at `level` in `state`, whose board took
/// `attempts` tries to generate.
pub fn status_line(state: GameState, level: usize, attempts: u32) -> (r: String)
    ensures
        r@ == status_text(state, level, attempts),
        tries_phrase(state, attempts) ==> r@.len() >= 8 && (r@.subrange(r@.len() - 8, r@.len() as int)
            == "essais.)"@) == (attempts >= 2),
        tries_phrase(state, attempts) ==> (r@.subrange(r@.len() - 7, r@.len() as int) == "essai.)"@)
            == (attempts == 1),
{
    proof {
        lemma_tries_plural(state, level, attempts);
    }
    match state {
        GameState::Lost => String::from_str("Malheureusement, tu as perdu."),
        GameState::Won => String::from_str("Tu as gagné !"),
        _ => {
            let (_, _, cats) = Preferences::level_params(level);
            let mut s = String::from_str(Preferences::level_name(level));
            s.append(" — ");
            let c = usize_text(cats);
            s.append(c.as_str());
            s.append(" BombaCat");
            if attempts != 0 {
                s.append("  (grille résoluble générée en ");
                let a = usize_text(attempts as usize);
                s.append(a.as_str());
                s.append(" essai");
                if attempts > 1 {
                    s.append("s");
                }
                s.append(".)");
            }
            s
        },
    }
}


/// `d` preceded by as many zeros as make it `width` characters long.
pub open spec fn zero_padded(d: Seq<char>, width: int) -> Seq<char> {
    Seq::new((width - d.len()) as nat, |i: int| '0') + d
}

/// `v` held between -99 and 999.
pub open spec fn lcd_clamped(v: i32) -> int {
    if v < -99 {
        -99
    } else if v > 999 {
        999
    } else {
        v as int
    }
}

/// The three characters of a counter display showing `v`: the value held
/// between -99 and 999, padded with zeros after the sign.
pub open spec fn lcd_chars(v: i32) -> Seq<char> {
    let c = lcd_clamped(v);
    if c >= 0 {
        zero_padded(decimal(c as nat), 3)
    } else {
        "-"@ + zero_padded(decimal((-c) as nat), 2)
    }
}

proof fn lemma_decimal_len(n: nat)
    requires
        n < 1000,
    ensures
        n < 10 ==> decimal(n).len() == 1,
        10 <= n < 100 ==> decimal(n).len() == 2,
        100 <= n ==> decimal(n).len() == 3,
{
    if n >= 10 {
        if n >= 100 {
            assert(decimal(n / 10).len() == 2) by {
                assert(decimal((n / 10) / 10).len() == 1);
            }
        } else {
            assert(decimal(n / 10).len() == 1);
        }
    }
}

/// The text of a counter display (cats to find, seconds) showing `value`.
pub fn lcd_text(value: i32) -> (r: String)
    ensures
        r@ == lcd_chars(value),
        r@.len() == 3,
{
    let c: i32 = if value < -99 {
        -99
    } else if value > 999 {
        999
    } else {
        value
    };
    let mut s = String::new();
    if c < 0 {
        let m = (-c) as usize;
        proof {
            lemma_decimal_len(m as nat);
        }
        s.append("-");
        if m < 10 {
            s.append("0");
        }
        let t = usize_text(m);
        s.append(t.as_str());
        proof {
            reveal_strlit("-");
            reveal_strlit("0");
            if m < 10 {
                assert(Seq::new((2 - decimal(m as nat).len()) as nat, |i: int| '0') =~= "0"@);
            } else {
                assert(Seq::new((2 - decimal(m as nat).len()) as nat, |i: int| '0') =~= Seq::<char>::empty());
            }
        }
    } else {
        let m = c as usize;
        proof {
            lemma_decimal_len(m as nat);
        }
        if m < 10 {
            s.append("00");
        } else if m < 100 {
            s.append("0");
        }
        let t = usize_text(m);
        s.append(t.as_str());
        proof {
            reveal_strlit("00");
            reveal_strlit("0");
            if m < 10 {
                assert(Seq::new((3 - decimal(m as nat).len()) as nat, |i: int| '0') =~= "00"@);
            } else if m < 100 {
                assert(Seq::new((3 - decimal(m as nat).len()) as nat, |i: int| '0') =~= "0"@);
            } else {
                assert(Seq::new((3 - decimal(m as nat).len()) as nat, |i: int| '0') =~= Seq::<char>::empty());
            }
        }
    }
    s
}

} // verus!
