//! What the input layer remembers between frames.
use vstd::prelude::*;

verus! {

/// The pointer's pending presses: the cell under a held left or right button, and whether
/// the face was pressed.
pub struct UIState {
    pub left_clicked_tile: Option<(usize, usize)>,
    pub right_clicked_tile: Option<(usize, usize)>,
    pub face_clicked: bool,
}

impl UIState {
    /// Nothing pressed.
    pub fn new() -> (s: Self)
        ensures
            s.left_clicked_tile is None,
            s.right_clicked_tile is None,
            !s.face_clicked,
    {
        Self { left_clicked_tile: None, right_clicked_tile: None, face_clicked: false }
    }
}

} // verus!
