//! Turning the command-line choices into a board size and a mine count.
use vstd::prelude::*;

use crate::board::Difficulty;

verus! {

/// An option's value as read: absent, present but not understood, or present with a value.
#[derive(Clone, Copy, Debug, PartialEq, Eq)]
pub enum Given<T> {
    Absent,
    Invalid,
    Valid(T),
}

/// The command-line choices, each as read.
#[derive(Clone, Copy, Debug)]
pub struct OptionValues {
    pub help: bool,
    pub beginner: bool,
    pub intermediate: bool,
    pub expert: bool,
    pub width: Given<usize>,
    pub height: Given<usize>,
    pub mines: Given<usize>,
    /// The density itself is a decimal number, which the caller keeps.
    pub density: Given<()>,
}

/// How the number of mines is fixed.
#[derive(Clone, Copy, Debug, PartialEq, Eq)]
pub enum MineChoice {
    Count(usize),
    /// From the density given, over the chosen size.
    Density,
}

/// A board size (height, width) and how its mines are counted.
#[derive(Clone, Copy, Debug, PartialEq, Eq)]
pub struct Choice {
    pub size: (usize, usize),
    pub mines: MineChoice,
}

/// `r` is an error with the message `m`.
pub open spec fn fails_with(r: Result<Choice, Option<&'static str>>, m: Seq<char>) -> bool {
    match r {
        Err(Some(e)) => e@ == m,
        _ => false,
    }
}

pub open spec fn given_value<T>(g: Given<T>) -> Option<T> {
    match g {
        Given::Valid(v) => Some(v),
        _ => None,
    }
}

pub open spec fn flag_count(o: OptionValues) -> int {
    (if o.beginner { 1int } else { 0int }) + (if o.intermediate { 1int } else { 0int }) + (if o.expert {
        1int
    } else {
        0int
    })
}

/// The preset asked for, as (height, width, mines).
pub open spec fn preset_spec(o: OptionValues) -> Option<(usize, usize, usize)> {
    if o.beginner {
        Some((9, 9, 10))
    } else if o.intermediate {
        Some((16, 16, 40))
    } else if o.expert {
        Some((16, 30, 99))
    } else {
        None
    }
}

/// The size chosen: given values over the preset's; with no preset, one side given alone
/// makes a square.
pub open spec fn chosen_size(o: OptionValues) -> Option<(usize, usize)> {
    let h = given_value(o.height);
    let w = given_value(o.width);
    match preset_spec(o) {
        Some(p) => Some(
            (
                match h {
                    Some(v) => v,
                    None => p.0,
                },
                match w {
                    Some(v) => v,
                    None => p.1,
                },
            ),
        ),
        None => match (h, w) {
            (Some(a), Some(b)) => Some((a, b)),
            (Some(a), None) => Some((a, a)),
            (None, Some(b)) => Some((b, b)),
            (None, None) => None,
        },
    }
}

/// The mine count chosen: the given one, else the preset's.
pub open spec fn chosen_mines(o: OptionValues) -> Option<usize> {
    match given_value(o.mines) {
        Some(m) => Some(m),
        None => match preset_spec(o) {
            Some(p) => Some(p.2),
            None => None,
        },
    }
}

/// What the command line asks for. `Err(None)` asks for the usage text alone; `Err(Some(m))`
/// adds the message `m`. The checks come in this order: help; more than one preset; a width,
/// height, mine count or density that was not understood; a mine count (given or from the
/// preset) together with a density; no size; no mine count or density.
pub fn choose_difficulty(o: &OptionValues) -> (r: Result<Choice, Option<&'static str>>)
    ensures
        o.help ==> r == Err::<Choice, Option<&'static str>>(None),
        !o.help && flag_count(*o) >= 2 ==> fails_with(r, "Only one difficulty may be specified"@),
        !o.help && flag_count(*o) < 2 && o.width is Invalid ==> fails_with(r, "Width must be a positive integer"@),
        !o.help && flag_count(*o) < 2 && !(o.width is Invalid) && o.height is Invalid ==> fails_with(r, "Height must be a positive integer"@),
        !o.help && flag_count(*o) < 2 && !(o.width is Invalid) && !(o.height is Invalid) && o.mines is Invalid
            ==> fails_with(r, "Mine count must be a positive integer"@),
        !o.help && flag_count(*o) < 2 && !(o.width is Invalid) && !(o.height is Invalid) && !(o.mines is Invalid)
            && o.density is Invalid ==> fails_with(r, "Mine density must be a decimal number greater than 0.0 and no more than 0.5"@),
        ({
            let ok_so_far = !o.help && flag_count(*o) < 2 && !(o.width is Invalid) && !(o.height is Invalid)
                && !(o.mines is Invalid) && !(o.density is Invalid);
            &&& ok_so_far && chosen_mines(*o) is Some && o.density is Valid ==> fails_with(r, "Mine count and mine density are mutually exclusive"@)
            &&& ok_so_far && !(chosen_mines(*o) is Some && o.density is Valid) && chosen_size(*o) is None
                ==> fails_with(r, "A board size is required (use -1, -2, -3, -x, or -y)"@)
            &&& ok_so_far && chosen_size(*o) is Some && o.density is Valid && chosen_mines(*o) is None ==> r
                == Ok::<Choice, Option<&'static str>>(
                Choice { size: chosen_size(*o)->Some_0, mines: MineChoice::Density },
            )
            &&& ok_so_far && chosen_size(*o) is Some && o.density is Absent && chosen_mines(*o) is Some ==> r
                == Ok::<Choice, Option<&'static str>>(
                Choice { size: chosen_size(*o)->Some_0, mines: MineChoice::Count(chosen_mines(*o)->Some_0) },
            )
            &&& ok_so_far && chosen_size(*o) is Some && o.density is Absent && chosen_mines(*o) is None
                ==> fails_with(r, "A number or density of mines is required (use -m or -d)"@)
        }),
{
    if o.help {
        return Err(None);
    }
    let mut preset: Option<Difficulty> = None;
    if o.beginner {
        preset = Some(Difficulty::beginner());
    }
    if o.intermediate {
        if preset.is_none() {
            preset = Some(Difficulty::intermediate());
        } else {
            return Err(Some("Only one difficulty may be specified"));
        }
    }
    if o.expert {
        if preset.is_none() {
            preset = Some(Difficulty::expert());
        } else {
            return Err(Some("Only one difficulty may be specified"));
        }
    }
    let mut width: Option<usize> = match o.width {
        Given::Invalid => {
            return Err(Some("Width must be a positive integer"));
        },
        Given::Valid(n) => Some(n),
        Given::Absent => None,
    };
    let mut height: Option<usize> = match o.height {
        Given::Invalid => {
            return Err(Some("Height must be a positive integer"));
        },
        Given::Valid(n) => Some(n),
        Given::Absent => None,
    };
    let mut mines: Option<usize> = match o.mines {
        Given::Invalid => {
            return Err(Some("Mine count must be a positive integer"));
        },
        Given::Valid(n) => Some(n),
        Given::Absent => None,
    };
    let density = match o.density {
        Given::Invalid => {
            return Err(Some("Mine density must be a decimal number greater than 0.0 and no more than 0.5"));
        },
        Given::Valid(_) => true,
        Given::Absent => false,
    };
    match preset {
        Some(d) => {
            if height.is_none() {
                height = Some(d.size.0);
            }
            if width.is_none() {
                width = Some(d.size.1);
            }
            if mines.is_none() {
                mines = Some(d.mines);
            }
        },
        None => {
            if height.is_none() && width.is_some() {
                height = width;
            } else if height.is_some() && width.is_none() {
                width = height;
            }
        },
    }
    if mines.is_some() && density {
        return Err(Some("Mine count and mine density are mutually exclusive"));
    }
    match (width, height) {
        (Some(w), Some(h)) => {
            if density {
                Ok(Choice { size: (h, w), mines: MineChoice::Density })
            } else {
                match mines {
                    Some(m) => Ok(Choice { size: (h, w), mines: MineChoice::Count(m) }),
                    None => Err(Some("A number or density of mines is required (use -m or -d)")),
                }
            }
        },
        _ => Err(Some("A board size is required (use -1, -2, -3, -x, or -y)")),
    }
}

} // verus!
