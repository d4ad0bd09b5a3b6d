//! The view's state machine, heat binning and cell styling.
use ghcprof::parser::Decimal;
use ghcprof::ui::{
    heat_line, normal_line, styled_line, Color, Cursor, Key, Temperature, TextStyle, TuiContext,
    UserCursor, UI,
};

#[test]
fn temperature_bins_percentages() {
    assert_eq!(Temperature::from(Decimal::new(0, 0)), Temperature::Cold);
    assert_eq!(Temperature::from(Decimal::new(100, 1)), Temperature::Cold);
    assert_eq!(Temperature::from(Decimal::new(101, 1)), Temperature::Warm);
    assert_eq!(Temperature::from(Decimal::new(500, 1)), Temperature::Warm);
    assert_eq!(Temperature::from(Decimal::new(501, 1)), Temperature::Hot);
    // A value in the gap between the cold and warm bins runs hot.
    assert_eq!(Temperature::from(Decimal::new(1005, 2)), Temperature::Hot);
    assert_eq!(Temperature::from(Decimal::new(999, 0)), Temperature::Hot);
    // A very fine fraction of a percent stays cold.
    assert_eq!(Temperature::from(Decimal::new(u64::MAX, 25)), Temperature::Cold);
}

#[test]
fn temperature_append_prefers_the_hotter() {
    assert_eq!(
        Temperature::append(&Temperature::Cold, &Temperature::Cold),
        Temperature::Cold
    );
    assert_eq!(
        Temperature::append(&Temperature::Cold, &Temperature::Warm),
        Temperature::Warm
    );
    assert_eq!(
        Temperature::append(&Temperature::Hot, &Temperature::Warm),
        Temperature::Hot
    );
    assert_eq!(
        Temperature::append(&Temperature::Warm, &Temperature::Hot),
        Temperature::Hot
    );
}

#[test]
fn user_cursor_inverts_the_selected_line() {
    let c = UserCursor::new(0, 3);
    assert_eq!(c.fg(5, 3), Color::Black);
    assert_eq!(c.bg(5, 3), Color::White);
    assert_eq!(c.fg(5, 4), Color::White);
    assert_eq!(c.bg(5, 4), Color::Default);
    assert_eq!(c.fg_or(Color::Red, 5, 4), Color::Red);
    assert_eq!(c.fg_or(Color::Red, 5, 3), Color::Black);
    assert_eq!(c.bg_or(Color::Green, 5, 4), Color::Green);
    assert_eq!(c.bg_or(Color::Green, 5, 3), Color::White);
}

#[test]
fn styled_cells_carry_position_and_colour() {
    let ctx = TuiContext {
        user_cursor: UserCursor::new(0, 1),
        draw_cursor: Cursor::new(1, 1),
    };
    let plain = normal_line(&ctx, 4, 7, b"abc".to_vec());
    assert_eq!(plain.x, 4);
    assert_eq!(plain.y, 7);
    assert_eq!(plain.style, TextStyle::Normal);
    assert_eq!(plain.fg, Color::White);
    assert_eq!(plain.bg, Color::Default);
    assert_eq!(plain.text, b"abc".to_vec());

    let hot = heat_line(&ctx, 2, 5, &Temperature::Hot, b"99.9".to_vec());
    assert_eq!(hot.style, TextStyle::Bold);
    assert_eq!(hot.fg, Color::Red);
    let warm_selected = heat_line(&ctx, 2, 1, &Temperature::Warm, b"20.0".to_vec());
    assert_eq!(warm_selected.fg, Color::Black);
    assert_eq!(warm_selected.bg, Color::White);

    let styled = styled_line(&ctx, 2, 5, &Temperature::Warm, b"20.0".to_vec());
    assert_eq!(styled.style, TextStyle::Normal);
    assert_eq!(styled.fg, Color::White);
}

#[test]
fn view_state_answers_keys() {
    let mut ui = UI::new().unwrap();
    assert_eq!(ui.ctx.user_cursor.y, 1);
    assert!(!ui.handle_key(Key::Down));
    assert_eq!(ui.ctx.user_cursor.y, 2);
    assert!(!ui.handle_key(Key::Up));
    assert_eq!(ui.ctx.user_cursor.y, 1);
    // The selection never moves above line one.
    assert!(!ui.handle_key(Key::Up));
    assert_eq!(ui.ctx.user_cursor.y, 1);
    assert!(!ui.handle_key(Key::Ctrl('d')));
    assert_eq!(ui.ctx.user_cursor.y, 1);
    assert!(!ui.handle_key(Key::Char('x')));
    assert!(ui.handle_key(Key::Char('q')));
}
