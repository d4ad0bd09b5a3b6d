//! The interactive view's state machine.
//!
//! Drawing and event polling are an external collaborator's work; what is
//! decided here, exactly, is how the view's state answers each key: which
//! key quits, and how the selected line moves.
use vstd::prelude::*;

pub mod style;
pub mod types;

pub use types::Color;
pub use types::Cursor;
pub use types::StyledText;
pub use types::TextStyle;
pub use types::TuiContext;
pub use types::UIError;
pub use types::UserCursor;
pub use style::heat_line;
pub use style::normal_line;
pub use style::styled_line;
pub use style::Temperature;

verus! {

/// One key event, as the view's state machine distinguishes them.
#[derive(Clone, Copy, Debug, PartialEq, Eq, Structural)]
pub enum Key {
    Char(char),
    Ctrl(char),
    Up,
    Down,
    Other,
}

/// The view's state: the user's selected line and the draw position. The
/// selected line never moves above line one.
#[derive(Clone, Copy, Debug, PartialEq, Eq, Structural)]
pub struct UI {
    pub ctx: TuiContext,
}

impl UI {
    /// A fresh view: the selection on line one, drawing from column one.
    pub fn new() -> (r: Result<UI, UIError>)
        ensures
            (r matches Ok(u) && u.ctx == (TuiContext {
                user_cursor: UserCursor { x: 0, y: 1 },
                draw_cursor: Cursor { x: 1, y: 1 },
            })),
    {
        Ok(
            UI {
                ctx: TuiContext {
                    user_cursor: UserCursor::new(0, 1),
                    draw_cursor: Cursor::new(1, 1),
                },
            },
        )
    }

    /// Answers one key: `q` quits; down moves the selection one line down;
    /// up moves it one line up but never above line one; any other key
    /// (the scroll chords included) leaves the selection in place.
    pub fn handle_key(&mut self, key: Key) -> (quit: bool)
        requires
            1 <= old(self).ctx.user_cursor.y < usize::MAX,
        ensures
            quit == (key == Key::Char('q')),
            final(self).ctx.user_cursor.y as int == (if key == Key::Down {
                old(self).ctx.user_cursor.y + 1
            } else if key == Key::Up && old(self).ctx.user_cursor.y > 1 {
                old(self).ctx.user_cursor.y - 1
            } else {
                old(self).ctx.user_cursor.y as int
            }),
            final(self).ctx.user_cursor.x == old(self).ctx.user_cursor.x,
            final(self).ctx.draw_cursor == old(self).ctx.draw_cursor,
            final(self).ctx.user_cursor.y >= 1,
    {
        match key {
            Key::Char(c) => {
                if c == 'q' {
                    return true;
                }
            },
            Key::Down => {
                self.ctx.user_cursor.y = self.ctx.user_cursor.y + 1;
            },
            Key::Up => {
                if self.ctx.user_cursor.y > 1 {
                    self.ctx.user_cursor.y = self.ctx.user_cursor.y - 1;
                }
            },
            _ => {
            },
        }
        false
    }
}

} // verus!
