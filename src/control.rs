//! The decisions of the interactive loop: speed keys, automatic pausing,
//! and where the ticker line goes on screen.
use crate::config::PauseMode;
use vstd::prelude::*;

verus! {

/// The fastest speed the speed keys reach, in characters per second.
pub const MAX_KEY_SPEED: u32 = 100;

/// The slowest speed the speed keys reach, in characters per second.
pub const MIN_KEY_SPEED: u32 = 1;

/// The step of the speed keys, in characters per second.
pub const SPEED_STEP: u32 = 2;

/// The speed after the faster key: one step up, at most `MAX_KEY_SPEED`.
pub fn speed_up(speed: u32) -> (r: u32)
    ensures
        r == (if speed + SPEED_STEP > MAX_KEY_SPEED {
            MAX_KEY_SPEED as int
        } else {
            speed + SPEED_STEP
        }),
{
    if speed > MAX_KEY_SPEED - SPEED_STEP {
        MAX_KEY_SPEED
    } else {
        speed + SPEED_STEP
    }
}

/// The speed after the slower key: one step down, at least `MIN_KEY_SPEED`.
pub fn speed_down(speed: u32) -> (r: u32)
    ensures
        r == (if speed - SPEED_STEP < MIN_KEY_SPEED {
            MIN_KEY_SPEED as int
        } else {
            speed - SPEED_STEP
        }),
{
    if speed < MIN_KEY_SPEED + SPEED_STEP {
        MIN_KEY_SPEED
    } else {
        speed - SPEED_STEP
    }
}

/// Whether the ticker holds still on its own: under the mouse pointer in a
/// focused terminal (`Hover`), whenever the terminal is focused (`Focus`),
/// or never.
pub fn auto_paused(mode: PauseMode, focused: bool, mouse_row: Option<u16>, ticker_row: u16) -> (r:
    bool)
    ensures
        r == match mode {
            PauseMode::Hover => focused && mouse_row == Some(ticker_row),
            PauseMode::Focus => focused,
            PauseMode::Never => false,
        },
{
    match mode {
        PauseMode::Hover => focused && match mouse_row {
            Some(y) => y == ticker_row,
            None => false,
        },
        PauseMode::Focus => focused,
        PauseMode::Never => false,
    }
}

/// The row of the ticker line on a screen of `height` rows: the ticker
/// (and the status bar below it, if shown) centred vertically.
pub fn ticker_row(height: u16, show_status: bool) -> (r: u16)
    ensures
        r == (if height < (if show_status {
            2int
        } else {
            1int
        }) {
            0
        } else {
            (height - (if show_status {
                2int
            } else {
                1int
            })) / 2
        }),
{
    let content: u16 = if show_status {
        2
    } else {
        1
    };
    if height < content {
        0
    } else {
        (height - content) / 2
    }
}

} // verus!
