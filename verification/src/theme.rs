//! The colours of the window.

use vstd::prelude::*;

use crate::app_state::{event_line_tone, tone, EventTone};

verus! {

#[derive(Debug, Clone, Copy, PartialEq, Eq, Structural)]
pub struct Rgb {
    pub r: u8,
    pub g: u8,
    pub b: u8,
}

#[derive(Debug, Clone, Copy, PartialEq, Eq, Structural)]
pub struct UiPalette {
    pub background: Rgb,
    pub topbar: Rgb,
    pub surface: Rgb,
    pub surface_alt: Rgb,
    pub border: Rgb,
    pub text: Rgb,
    pub muted: Rgb,
    pub accent: Rgb,
    pub accent_hover: Rgb,
    pub danger: Rgb,
}

pub open spec fn rgb(r: u8, g: u8, b: u8) -> Rgb {
    Rgb { r, g, b }
}

fn new_rgb(r: u8, g: u8, b: u8) -> (c: Rgb)
    ensures
        c == rgb(r, g, b),
{
    Rgb { r, g, b }
}

pub open spec fn dark_colors() -> UiPalette {
    UiPalette {
        background: rgb(30, 31, 34),
        topbar: rgb(35, 36, 40),
        surface: rgb(43, 45, 49),
        surface_alt: rgb(54, 57, 63),
        border: rgb(67, 70, 77),
        text: rgb(242, 243, 245),
        muted: rgb(174, 178, 185),
        accent: rgb(88, 101, 242),
        accent_hover: rgb(71, 82, 196),
        danger: rgb(240, 71, 71),
    }
}

pub open spec fn light_colors() -> UiPalette {
    UiPalette {
        background: rgb(244, 246, 248),
        topbar: rgb(236, 240, 246),
        surface: rgb(255, 255, 255),
        surface_alt: rgb(248, 250, 252),
        border: rgb(223, 228, 235),
        text: rgb(23, 31, 42),
        muted: rgb(96, 111, 128),
        accent: rgb(45, 96, 235),
        accent_hover: rgb(31, 75, 197),
        danger: rgb(189, 47, 47),
    }
}

pub fn dark_palette() -> (r: UiPalette)
    ensures
        r == dark_colors(),
{
    UiPalette {
        background: new_rgb(30, 31, 34),
        topbar: new_rgb(35, 36, 40),
        surface: new_rgb(43, 45, 49),
        surface_alt: new_rgb(54, 57, 63),
        border: new_rgb(67, 70, 77),
        text: new_rgb(242, 243, 245),
        muted: new_rgb(174, 178, 185),
        accent: new_rgb(88, 101, 242),
        accent_hover: new_rgb(71, 82, 196),
        danger: new_rgb(240, 71, 71),
    }
}

pub fn light_palette() -> (r: UiPalette)
    ensures
        r == light_colors(),
{
    UiPalette {
        background: new_rgb(244, 246, 248),
        topbar: new_rgb(236, 240, 246),
        surface: new_rgb(255, 255, 255),
        surface_alt: new_rgb(248, 250, 252),
        border: new_rgb(223, 228, 235),
        text: new_rgb(23, 31, 42),
        muted: new_rgb(96, 111, 128),
        accent: new_rgb(45, 96, 235),
        accent_hover: new_rgb(31, 75, 197),
        danger: new_rgb(189, 47, 47),
    }
}

pub fn palette(is_dark_theme: bool) -> (r: UiPalette)
    ensures
        r == if is_dark_theme {
            dark_colors()
        } else {
            light_colors()
        },
{
    if is_dark_theme {
        dark_palette()
    } else {
        light_palette()
    }
}

/// The colour of a tone.
pub open spec fn tone_color(t: EventTone, colors: UiPalette) -> Rgb {
    match t {
        EventTone::Danger => colors.danger,
        EventTone::Renamed => rgb(230, 197, 92),
        EventTone::Changed => rgb(138, 186, 255),
        EventTone::Warning => rgb(241, 171, 89),
        EventTone::Success => rgb(127, 210, 144),
        EventTone::Muted => colors.muted,
    }
}

/// The colour of a line of the log of events.
pub fn event_line_color(line: &str, colors: UiPalette) -> (r: Rgb)
    ensures
        r == tone_color(tone(line@), colors),
{
    match event_line_tone(line) {
        EventTone::Danger => colors.danger,
        EventTone::Renamed => new_rgb(230, 197, 92),
        EventTone::Changed => new_rgb(138, 186, 255),
        EventTone::Warning => new_rgb(241, 171, 89),
        EventTone::Success => new_rgb(127, 210, 144),
        EventTone::Muted => colors.muted,
    }
}

} // verus!
