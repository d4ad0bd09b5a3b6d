//! Cursor state and styled-cell values handed to a terminal renderer.
//!
//! The renderer itself (drawing, scrolling, key polling) is an external
//! collaborator; what stands here is the state it reads and the colour
//! decisions it must make, stated exactly.
use vstd::prelude::*;

verus! {

/// A failure to bring the terminal user interface up.
#[derive(Clone, Copy, Debug, PartialEq, Eq, Structural)]
pub enum UIError {
    UiInitialisationFailed,
}

/// A terminal colour.
#[derive(Clone, Copy, Debug, PartialEq, Eq, Structural)]
pub enum Color {
    Default,
    Black,
    Red,
    Green,
    Yellow,
    Blue,
    Magenta,
    Cyan,
    White,
}

/// A text weight.
#[derive(Clone, Copy, Debug, PartialEq, Eq, Structural)]
pub enum TextStyle {
    Normal,
    Bold,
}

/// One positioned, styled run of text, ready for a renderer to draw.
#[derive(Clone, Debug, PartialEq)]
pub struct StyledText {
    pub x: usize,
    pub y: usize,
    pub style: TextStyle,
    pub fg: Color,
    pub bg: Color,
    pub text: Vec<u8>,
}

/// The position the next cell is drawn at.
#[derive(Clone, Copy, Debug, PartialEq, Eq, Structural)]
pub struct Cursor {
    pub x: usize,
    pub y: usize,
}

impl Cursor {
    pub fn new(x: usize, y: usize) -> (r: Cursor)
        ensures
            r == (Cursor { x, y }),
    {
        Cursor { x, y }
    }
}

/// The line the user has selected; the selected line is drawn inverted.
#[derive(Clone, Copy, Debug, PartialEq, Eq, Structural)]
pub struct UserCursor {
    pub x: usize,
    pub y: usize,
}

impl UserCursor {
    pub fn new(x: usize, y: usize) -> (r: UserCursor)
        ensures
            r == (UserCursor { x, y }),
    {
        UserCursor { x, y }
    }

    /// The background at `(x, y)`: white on the selected line, else the
    /// terminal default.
    pub fn bg(&self, x: usize, y: usize) -> (c: Color)
        ensures
            c == (if y == self.y {
                Color::White
            } else {
                Color::Default
            }),
    {
        self.bg_or(Color::Default, x, y)
    }

    /// The background at `(x, y)`: white on the selected line, else
    /// `default`.
    pub fn bg_or(&self, default: Color, _x: usize, y: usize) -> (c: Color)
        ensures
            c == (if y == self.y {
                Color::White
            } else {
                default
            }),
    {
        if y == self.y {
            Color::White
        } else {
            default
        }
    }

    /// The foreground at `(x, y)`: black on the selected line, else
    /// `default`.
    pub fn fg_or(&self, default: Color, _x: usize, y: usize) -> (c: Color)
        ensures
            c == (if y == self.y {
                Color::Black
            } else {
                default
            }),
    {
        if y == self.y {
            Color::Black
        } else {
            default
        }
    }

    /// The foreground at `(x, y)`: black on the selected line, else white.
    pub fn fg(&self, x: usize, y: usize) -> (c: Color)
        ensures
            c == (if y == self.y {
                Color::Black
            } else {
                Color::White
            }),
    {
        self.fg_or(Color::White, x, y)
    }
}

/// The drawing state a renderer threads through: the user's selection and
/// the draw position.
#[derive(Clone, Copy, Debug, PartialEq, Eq, Structural)]
pub struct TuiContext {
    pub user_cursor: UserCursor,
    pub draw_cursor: Cursor,
}

} // verus!
