//! Which picture each cell and the face show, and where it sits on the sprite sheet.
use vstd::prelude::*;

use crate::board::{Tile, TileState};
use crate::game::GameStage;

verus! {

/// The pictures a cell can show.
#[derive(Clone, Copy, Debug, PartialEq, Eq, Structural)]
pub enum TileSprite {
    Hidden,
    HiddenClick,
    Flagged,
    QuestionMark,
    QuestionMarkClick,
    Mine,
    MineExploded,
    IncorrectFlag,
    Safe0,
    Safe1,
    Safe2,
    Safe3,
    Safe4,
    Safe5,
    Safe6,
    Safe7,
    Safe8,
}

/// The pictures the face can show.
#[derive(Clone, Copy, Debug, PartialEq, Eq, Structural)]
pub enum FaceSprite {
    Happy,
    HappyPressed,
    Scared,
    Cool,
    Dead,
}

/// Side of a cell picture on the sheet, in pixels.
pub const TILE_SPRITE_SIZE: u32 = 16;

/// Side of a face picture on the sheet, in pixels.
pub const FACE_SPRITE_SIZE: u32 = 26;

/// Top-left corner of a cell picture on the sheet.
pub open spec fn tile_origin(s: TileSprite) -> (u32, u32) {
    match s {
        TileSprite::Hidden => (2, 53),
        TileSprite::HiddenClick => (19, 53),
        TileSprite::Flagged => (36, 53),
        TileSprite::QuestionMark => (53, 53),
        TileSprite::QuestionMarkClick => (70, 53),
        TileSprite::Mine => (87, 53),
        TileSprite::MineExploded => (104, 53),
        TileSprite::IncorrectFlag => (121, 53),
        TileSprite::Safe0 => (19, 53),
        TileSprite::Safe1 => (2, 70),
        TileSprite::Safe2 => (19, 70),
        TileSprite::Safe3 => (36, 70),
        TileSprite::Safe4 => (53, 70),
        TileSprite::Safe5 => (70, 70),
        TileSprite::Safe6 => (87, 70),
        TileSprite::Safe7 => (104, 70),
        TileSprite::Safe8 => (121, 70),
    }
}

/// Top-left corner of a face picture on the sheet.
pub open spec fn face_origin(s: FaceSprite) -> (u32, u32) {
    match s {
        FaceSprite::Happy => (2, 26),
        FaceSprite::HappyPressed => (29, 26),
        FaceSprite::Scared => (56, 26),
        FaceSprite::Cool => (83, 26),
        FaceSprite::Dead => (110, 26),
    }
}

/// The picture of a safe cell with `n` mines around it.
pub open spec fn number_sprite(n: u8) -> TileSprite {
    if n == 0 {
        TileSprite::Safe0
    } else if n == 1 {
        TileSprite::Safe1
    } else if n == 2 {
        TileSprite::Safe2
    } else if n == 3 {
        TileSprite::Safe3
    } else if n == 4 {
        TileSprite::Safe4
    } else if n == 5 {
        TileSprite::Safe5
    } else if n == 6 {
        TileSprite::Safe6
    } else if n == 7 {
        TileSprite::Safe7
    } else if n == 8 {
        TileSprite::Safe8
    } else {
        TileSprite::QuestionMark
    }
}

/// The picture of a cell: what its state shows, with mines given away once the game is lost
/// and the held-down look under a pressed left button.
pub open spec fn tile_sprite_spec(stage: GameStage, state: TileState, tile: Tile, pressed: bool) -> TileSprite {
    let lost = stage == GameStage::Exploded;
    match state {
        TileState::Hidden => if lost && tile is Mine {
            TileSprite::Mine
        } else if pressed {
            TileSprite::HiddenClick
        } else {
            TileSprite::Hidden
        },
        TileState::Flagged => if lost && !(tile is Mine) {
            TileSprite::IncorrectFlag
        } else {
            TileSprite::Flagged
        },
        TileState::QuestionMark => if lost && tile is Mine {
            TileSprite::MineExploded
        } else if pressed {
            TileSprite::QuestionMarkClick
        } else {
            TileSprite::QuestionMark
        },
        TileState::Uncovered => match tile {
            Tile::Mine => TileSprite::MineExploded,
            Tile::Safe(n) => number_sprite(n),
        },
    }
}

impl TileSprite {
    /// Top-left corner of this picture on the sprite sheet, in pixels.
    pub fn clip_origin(&self) -> (r: (u32, u32))
        ensures
            r == tile_origin(*self),
    {
        match self {
            TileSprite::Hidden => (2, 53),
            TileSprite::HiddenClick => (19, 53),
            TileSprite::Flagged => (36, 53),
            TileSprite::QuestionMark => (53, 53),
            TileSprite::QuestionMarkClick => (70, 53),
            TileSprite::Mine => (87, 53),
            TileSprite::MineExploded => (104, 53),
            TileSprite::IncorrectFlag => (121, 53),
            TileSprite::Safe0 => (19, 53),
            TileSprite::Safe1 => (2, 70),
            TileSprite::Safe2 => (19, 70),
            TileSprite::Safe3 => (36, 70),
            TileSprite::Safe4 => (53, 70),
            TileSprite::Safe5 => (70, 70),
            TileSprite::Safe6 => (87, 70),
            TileSprite::Safe7 => (104, 70),
            TileSprite::Safe8 => (121, 70),
        }
    }

    /// The picture of a safe cell with `n` mines around it.
    pub fn for_number(n: u8) -> (r: TileSprite)
        ensures
            r == number_sprite(n),
    {
        match n {
            0 => TileSprite::Safe0,
            1 => TileSprite::Safe1,
            2 => TileSprite::Safe2,
            3 => TileSprite::Safe3,
            4 => TileSprite::Safe4,
            5 => TileSprite::Safe5,
            6 => TileSprite::Safe6,
            7 => TileSprite::Safe7,
            8 => TileSprite::Safe8,
            _ => TileSprite::QuestionMark,
        }
    }

    /// The picture of a cell in `state` holding `tile` at `stage` of the game; `pressed` when
    /// the left button is held on it.
    pub fn for_cell(stage: GameStage, state: TileState, tile: Tile, pressed: bool) -> (r: TileSprite)
        ensures
            r == tile_sprite_spec(stage, state, tile, pressed),
    {
        let lost = stage == GameStage::Exploded;
        let mine = tile == Tile::Mine;
        match state {
            TileState::Hidden => {
                if lost && mine {
                    TileSprite::Mine
                } else if pressed {
                    TileSprite::HiddenClick
                } else {
                    TileSprite::Hidden
                }
            },
            TileState::Flagged => {
                if lost && !mine {
                    TileSprite::IncorrectFlag
                } else {
                    TileSprite::Flagged
                }
            },
            TileState::QuestionMark => {
                if lost && mine {
                    TileSprite::MineExploded
                } else if pressed {
                    TileSprite::QuestionMarkClick
                } else {
                    TileSprite::QuestionMark
                }
            },
            TileState::Uncovered => match tile {
                Tile::Mine => TileSprite::MineExploded,
                Tile::Safe(n) => TileSprite::for_number(n),
            },
        }
    }
}

/// The face: pressed while the button is held on it; otherwise scared while a covered cell
/// is held down, dead after a loss, cool after a win, happy else.
pub open spec fn face_sprite_spec(stage: GameStage, face_pressed: bool, held: Option<TileState>) -> FaceSprite {
    if face_pressed {
        FaceSprite::HappyPressed
    } else {
        match stage {
            GameStage::Exploded => FaceSprite::Dead,
            GameStage::Complete => FaceSprite::Cool,
            _ => match held {
                Some(TileState::Hidden) | Some(TileState::QuestionMark) => FaceSprite::Scared,
                _ => FaceSprite::Happy,
            },
        }
    }
}

impl FaceSprite {
    /// Top-left corner of this picture on the sprite sheet, in pixels.
    pub fn clip_origin(&self) -> (r: (u32, u32))
        ensures
            r == face_origin(*self),
    {
        match self {
            FaceSprite::Happy => (2, 26),
            FaceSprite::HappyPressed => (29, 26),
            FaceSprite::Scared => (56, 26),
            FaceSprite::Cool => (83, 26),
            FaceSprite::Dead => (110, 26),
        }
    }

    /// The face to show. `face_pressed` when the left button is held on the face; `held` is
    /// the state of the cell under a held left button, if any.
    pub fn for_game(stage: GameStage, face_pressed: bool, held: Option<TileState>) -> (r: FaceSprite)
        ensures
            r == face_sprite_spec(stage, face_pressed, held),
    {
        if face_pressed {
            return FaceSprite::HappyPressed;
        }
        match stage {
            GameStage::Exploded => FaceSprite::Dead,
            GameStage::Complete => FaceSprite::Cool,
            _ => match held {
                Some(TileState::Hidden) | Some(TileState::QuestionMark) => FaceSprite::Scared,
                _ => FaceSprite::Happy,
            },
        }
    }
}

/// Frame of a seven-segment digit on the sheet: the sheet starts with 1 and ends with 0.
pub fn get_7seg_frame(digit: usize) -> (r: usize)
    requires
        digit <= 9,
    ensures
        r == (digit + 9) % 10,
        r < 10,
{
    (digit + 9) % 10
}

/// The three digits a counter shows: hundreds, tens and ones of `number`.
pub fn counter_digits(number: usize) -> (r: (usize, usize, usize))
    ensures
        r == ((number / 100) % 10, (number / 10) % 10, number % 10),
{
    ((number / 100) % 10, (number / 10) % 10, number % 10)
}

} // verus!
