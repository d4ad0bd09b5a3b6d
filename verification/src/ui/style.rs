//! Heat colouring: percentages are binned into temperatures, and styled
//! cells are built from a temperature and the user's selection.
use vstd::prelude::*;
use crate::parser::num::{pow10, Decimal};
use crate::ui::types::{Color, StyledText, TextStyle, TuiContext};

verus! {

/// The value of `d` is at most `t` tenths.
pub open spec fn dec_le_tenths(d: Decimal, t: int) -> bool {
    10 * (d.mantissa as int) <= t * pow10(d.scale as nat)
}

/// The value of `d` is at least `t` tenths.
pub open spec fn dec_ge_tenths(d: Decimal, t: int) -> bool {
    10 * (d.mantissa as int) >= t * pow10(d.scale as nat)
}

/// How hot a percentage runs: up to 10.0 is cold, 10.1 to 50.0 is warm,
/// anything else is hot.
#[derive(Clone, Copy, Debug, PartialEq, Eq, Structural)]
pub enum Temperature {
    Hot,
    Warm,
    Cold,
}

/// The temperature of a percentage value.
pub open spec fn spec_temp_of(d: Decimal) -> Temperature {
    if dec_le_tenths(d, 100) {
        Temperature::Cold
    } else if dec_ge_tenths(d, 101) && dec_le_tenths(d, 500) {
        Temperature::Warm
    } else {
        Temperature::Hot
    }
}

/// The text weight of a temperature: hot runs bold.
pub open spec fn spec_style_of(t: Temperature) -> TextStyle {
    match t {
        Temperature::Hot => TextStyle::Bold,
        _ => TextStyle::Normal,
    }
}

/// The colour of a temperature.
pub open spec fn spec_colour_of(t: Temperature) -> Color {
    match t {
        Temperature::Cold => Color::White,
        Temperature::Warm => Color::Yellow,
        Temperature::Hot => Color::Red,
    }
}

/// The first twenty-odd powers of ten, spelled out.
proof fn lemma_pow10_values()
    ensures
        pow10(20) == 100000000000000000000,
        pow10(21) == 1000000000000000000000,
{
    assert(pow10(0) == 1);
    assert(pow10(1) == 10);
    assert(pow10(2) == 100);
    assert(pow10(3) == 1000);
    assert(pow10(4) == 10000);
    assert(pow10(5) == 100000);
    assert(pow10(6) == 1000000);
    assert(pow10(7) == 10000000);
    assert(pow10(8) == 100000000);
    assert(pow10(9) == 1000000000);
    assert(pow10(10) == 10000000000);
    assert(pow10(11) == 100000000000);
    assert(pow10(12) == 1000000000000);
    assert(pow10(13) == 10000000000000);
    assert(pow10(14) == 100000000000000);
    assert(pow10(15) == 1000000000000000);
    assert(pow10(16) == 10000000000000000);
    assert(pow10(17) == 100000000000000000);
    assert(pow10(18) == 1000000000000000000);
    assert(pow10(19) == 10000000000000000000);
    assert(pow10(20) == 100000000000000000000);
    assert(pow10(21) == 1000000000000000000000);
}

/// `pow10` never decreases.
proof fn lemma_pow10_increases(a: nat, b: nat)
    requires
        a <= b,
    ensures
        pow10(a) <= pow10(b),
    decreases b - a,
{
    crate::parser::num::lemma_pow10_pos(a);
    if a < b {
        lemma_pow10_increases(a, (b - 1) as nat);
        crate::parser::num::lemma_pow10_pos((b - 1) as nat);
    }
}

impl Temperature {
    /// Bins a percentage: at most 10.0 is cold, between 10.1 and 50.0 is
    /// warm, everything else (a gap value such as 10.05 included) is hot.
    pub fn from(temp_c: Decimal) -> (r: Temperature)
        ensures
            r == spec_temp_of(temp_c),
    {
        if temp_c.scale >= 21 {
            // The mantissa is below 10^20, so the value is under one tenth.
            proof {
                lemma_pow10_values();
                lemma_pow10_increases(21, temp_c.scale as nat);
                assert(10 * (temp_c.mantissa as int) < pow10(temp_c.scale as nat));
                assert(100 * pow10(temp_c.scale as nat) >= pow10(temp_c.scale as nat)) by {
                    crate::parser::num::lemma_pow10_pos(temp_c.scale as nat);
                    assert(99 * pow10(temp_c.scale as nat) >= 0) by (nonlinear_arith)
                        requires
                            pow10(temp_c.scale as nat) >= 1,
                    ;
                }
            }
            return Temperature::Cold;
        }
        let mut p: u128 = 1;
        let mut k: usize = 0;
        while k < temp_c.scale
            invariant
                0 <= k <= temp_c.scale <= 20,
                p as int == pow10(k as nat),
            decreases temp_c.scale - k,
        {
            proof {
                lemma_pow10_values();
                lemma_pow10_increases((k + 1) as nat, 20);
                crate::parser::num::lemma_pow10_pos(k as nat);
            }
            p = p * 10;
            k = k + 1;
        }
        proof {
            lemma_pow10_values();
            lemma_pow10_increases(temp_c.scale as nat, 20);
        }
        let m10: u128 = 10 * (temp_c.mantissa as u128);
        if m10 <= 100 * p {
            Temperature::Cold
        } else if 101 * p <= m10 && m10 <= 500 * p {
            Temperature::Warm
        } else {
            Temperature::Hot
        }
    }

    /// Combines two temperatures, the hotter winning.
    pub fn append(t1: &Temperature, t2: &Temperature) -> (r: Temperature)
        ensures
            r == (match (*t1, *t2) {
                (Temperature::Hot, _) => Temperature::Hot,
                (_, Temperature::Hot) => Temperature::Hot,
                (Temperature::Warm, _) => Temperature::Warm,
                (_, Temperature::Warm) => Temperature::Warm,
                _ => Temperature::Cold,
            }),
    {
        match (*t1, *t2) {
            (Temperature::Hot, _) => Temperature::Hot,
            (_, Temperature::Hot) => Temperature::Hot,
            (Temperature::Warm, _) => Temperature::Warm,
            (_, Temperature::Warm) => Temperature::Warm,
            _ => Temperature::Cold,
        }
    }

    /// The text weight this temperature is drawn with.
    pub fn to_style(&self) -> (r: TextStyle)
        ensures
            r == spec_style_of(*self),
    {
        match *self {
            Temperature::Cold => TextStyle::Normal,
            Temperature::Warm => TextStyle::Normal,
            Temperature::Hot => TextStyle::Bold,
        }
    }

    /// The colour this temperature is drawn with.
    pub fn to_colour(&self) -> (r: Color)
        ensures
            r == spec_colour_of(*self),
    {
        match *self {
            Temperature::Cold => Color::White,
            Temperature::Warm => Color::Yellow,
            Temperature::Hot => Color::Red,
        }
    }
}

/// A plain cell: normal weight, selection-aware foreground and background.
pub fn normal_line(ctx: &TuiContext, x: usize, y: usize, text: Vec<u8>) -> (r: StyledText)
    ensures
        r.x == x,
        r.y == y,
        r.style == TextStyle::Normal,
        r.fg == (if y == ctx.user_cursor.y {
            Color::Black
        } else {
            Color::White
        }),
        r.bg == (if y == ctx.user_cursor.y {
            Color::White
        } else {
            Color::Default
        }),
        r.text@ == text@,
{
    let fg = ctx.user_cursor.fg(x, y);
    let bg = ctx.user_cursor.bg(x, y);
    StyledText { x, y, style: TextStyle::Normal, fg, bg, text }
}

/// A heat-coloured cell: the temperature's weight and colour, except that
/// the selected line keeps its inverted foreground.
pub fn heat_line(ctx: &TuiContext, x: usize, y: usize, temp: &Temperature, text: Vec<u8>) -> (r:
    StyledText)
    ensures
        r.x == x,
        r.y == y,
        r.style == spec_style_of(*temp),
        r.fg == (if y == ctx.user_cursor.y {
            Color::Black
        } else {
            spec_colour_of(*temp)
        }),
        r.bg == (if y == ctx.user_cursor.y {
            Color::White
        } else {
            Color::Default
        }),
        r.text@ == text@,
{
    let style = temp.to_style();
    let fg = ctx.user_cursor.fg_or(temp.to_colour(), x, y);
    let bg = ctx.user_cursor.bg(x, y);
    StyledText { x, y, style, fg, bg, text }
}

/// A cell with the temperature's weight but the plain selection-aware
/// colours.
pub fn styled_line(ctx: &TuiContext, x: usize, y: usize, temp: &Temperature, text: Vec<u8>) -> (r:
    StyledText)
    ensures
        r.x == x,
        r.y == y,
        r.style == spec_style_of(*temp),
        r.fg == (if y == ctx.user_cursor.y {
            Color::Black
        } else {
            Color::White
        }),
        r.bg == (if y == ctx.user_cursor.y {
            Color::White
        } else {
            Color::Default
        }),
        r.text@ == text@,
{
    let style = temp.to_style();
    let fg = ctx.user_cursor.fg(x, y);
    let bg = ctx.user_cursor.bg(x, y);
    StyledText { x, y, style, fg, bg, text }
}

} // verus!
