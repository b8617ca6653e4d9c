//! The color themes and their palettes. Solid colors only.

use vstd::prelude::*;
use crate::text::{chars_of, same_chars, trim, trim_bounds, push_range};

verus! {

/// The available color themes, cycled by the toolbar button.
#[derive(Clone, Copy, PartialEq, Eq, Structural, Debug)]
pub enum Theme {
    Light,
    Dark,
    Brown,
}

/// The theme after `t` in the cycle Light -> Dark -> Brown -> Light.
pub open spec fn next_of(t: Theme) -> Theme {
    match t {
        Theme::Light => Theme::Dark,
        Theme::Dark => Theme::Brown,
        Theme::Brown => Theme::Light,
    }
}

/// The display name of a theme.
pub open spec fn label_of(t: Theme) -> Seq<char> {
    match t {
        Theme::Light => seq!['L', 'i', 'g', 'h', 't'],
        Theme::Dark => seq!['D', 'a', 'r', 'k'],
        Theme::Brown => seq!['B', 'r', 'o', 'w', 'n'],
    }
}

/// ASCII letters made lowercase; every other character kept.
pub open spec fn ascii_lower(c: char) -> char {
    if 'A' <= c <= 'Z' {
        ((c as u32) + 32) as char
    } else {
        c
    }
}

pub open spec fn ascii_lowercase(t: Seq<char>) -> Seq<char> {
    t.map_values(|c: char| ascii_lower(c))
}

/// The theme a preference value names: `dark` or `brown` (ignoring ASCII case
/// and surrounding whitespace), anything else Light.
pub open spec fn theme_named(s: Seq<char>) -> Theme {
    let k = ascii_lowercase(trim(s));
    if k == seq!['d', 'a', 'r', 'k'] {
        Theme::Dark
    } else if k == seq!['b', 'r', 'o', 'w', 'n'] {
        Theme::Brown
    } else {
        Theme::Light
    }
}

fn lower_ascii_char(c: char) -> (r: char)
    ensures
        r == ascii_lower(c),
{
    if 'A' <= c && c <= 'Z' {
        let u = (c as u8) + 32;
        let r = u as char;
        assert(r == ((c as u32) + 32) as char);
        r
    } else {
        c
    }
}

impl Theme {
    /// Whether this theme is built on a dark base (affects widget defaults).
    pub fn is_dark(self) -> (r: bool)
        ensures
            r == (self != Theme::Light),
    {
        !matches!(self, Theme::Light)
    }

    /// The next theme when the toggle is clicked: Light -> Dark -> Brown -> Light.
    pub fn next(self) -> (r: Theme)
        ensures
            r == next_of(self),
    {
        match self {
            Theme::Light => Theme::Dark,
            Theme::Dark => Theme::Brown,
            Theme::Brown => Theme::Light,
        }
    }

    /// Display name (also what the toggle button shows for the next theme).
    pub fn label(self) -> (r: &'static str)
        ensures
            r@ == label_of(self),
    {
        match self {
            Theme::Light => {
                proof {
                    reveal_strlit("Light");
                }
                "Light"
            },
            Theme::Dark => {
                proof {
                    reveal_strlit("Dark");
                }
                "Dark"
            },
            Theme::Brown => {
                proof {
                    reveal_strlit("Brown");
                }
                "Brown"
            },
        }
    }

    /// The theme named by a preference value (see [`theme_named`]).
    pub fn from_str(s: &str) -> (r: Theme)
        ensures
            r == theme_named(s@),
    {
        let v = chars_of(s);
        let (a, b) = trim_bounds(&v, 0, v.len());
        proof {
            assert(v@.subrange(0, v@.len() as int) =~= v@);
        }
        let mut k: Vec<char> = Vec::new();
        let mut i = a;
        while i < b
            invariant
                a <= i <= b <= v.len(),
                k@ == ascii_lowercase(v@.subrange(a as int, i as int)),
            decreases b - i,
        {
            k.push(lower_ascii_char(v[i]));
            proof {
                assert(ascii_lowercase(v@.subrange(a as int, i + 1)) =~= ascii_lowercase(
                    v@.subrange(a as int, i as int),
                ).push(ascii_lower(v@[i as int])));
            }
            i = i + 1;
        }
        let dark = vec!['d', 'a', 'r', 'k'];
        let brown = vec!['b', 'r', 'o', 'w', 'n'];
        proof {
            assert(dark@ =~= seq!['d', 'a', 'r', 'k']);
            assert(brown@ =~= seq!['b', 'r', 'o', 'w', 'n']);
        }
        if same_chars(&k, &dark) {
            Theme::Dark
        } else if same_chars(&k, &brown) {
            Theme::Brown
        } else {
            Theme::Light
        }
    }
}

/// Cycling three times returns to the starting theme, and the cycle visits
/// every theme.
pub proof fn lemma_next_cycles(t: Theme)
    ensures
        next_of(next_of(next_of(t))) == t,
        next_of(t) != t,
        next_of(next_of(t)) != t,
{
}

/// Reading back a theme's name, as written in lowercase to the preferences
/// file, gives the theme again.
pub proof fn lemma_label_round_trip(t: Theme)
    ensures
        theme_named(ascii_lowercase(label_of(t))) == t,
{
    let l = label_of(t);
    assert(crate::text::skip_ws(l, 0) == 0);
    assert(crate::text::skip_ws_back(l, 0, l.len() as int) == l.len());
    assert(trim(l) =~= l);
    let low = ascii_lowercase(l);
    assert(crate::text::skip_ws(low, 0) == 0);
    assert(crate::text::skip_ws_back(low, 0, low.len() as int) == low.len());
    assert(trim(low) =~= low);
    assert(ascii_lowercase(low) =~= low);
    match t {
        Theme::Light => {
            assert(low =~= seq!['l', 'i', 'g', 'h', 't']);
            assert(low[0] != 'd' && low[0] != 'b');
        },
        Theme::Dark => {
            assert(low =~= seq!['d', 'a', 'r', 'k']);
        },
        Theme::Brown => {
            assert(low =~= seq!['b', 'r', 'o', 'w', 'n']);
        },
    }
}

/// An opaque 8-bit-per-channel color.
#[derive(Clone, Copy, PartialEq, Eq, Structural, Debug)]
pub struct Rgb {
    pub r: u8,
    pub g: u8,
    pub b: u8,
}

pub open spec fn rgb(r: u8, g: u8, b: u8) -> Rgb {
    Rgb { r, g, b }
}

/// The colors of a theme.
#[derive(Clone, Copy, PartialEq, Eq, Structural, Debug)]
pub struct Palette {
    pub editor_bg: Rgb,
    pub panel_bg: Rgb,
    pub card_bg: Rgb,
    /// Selected note background.
    pub accent: Rgb,
    /// Text on the accent.
    pub accent_text: Rgb,
    pub text: Rgb,
    pub subtle: Rgb,
    pub border: Rgb,
    pub link: Rgb,
    pub btn: Rgb,
    pub btn_hover: Rgb,
    pub btn_active: Rgb,
}

/// The palette of each theme.
pub open spec fn palette_of(t: Theme) -> Palette {
    match t {
        Theme::Dark => Palette {
            editor_bg: rgb(0x0E, 0x0E, 0x10),
            panel_bg: rgb(0x16, 0x16, 0x18),
            card_bg: rgb(0x1D, 0x1D, 0x20),
            accent: rgb(0xF2, 0xF2, 0xF4),
            accent_text: rgb(0x12, 0x12, 0x14),
            text: rgb(0xEC, 0xEC, 0xEE),
            subtle: rgb(0x8C, 0x8C, 0x93),
            border: rgb(0x2C, 0x2C, 0x31),
            link: rgb(0x6E, 0x9B, 0xFF),
            btn: rgb(0x24, 0x24, 0x28),
            btn_hover: rgb(0x30, 0x30, 0x36),
            btn_active: rgb(0x3B, 0x3B, 0x42),
        },
        Theme::Light => Palette {
            editor_bg: rgb(0xFF, 0xFF, 0xFF),
            panel_bg: rgb(0xF4, 0xF4, 0xF5),
            card_bg: rgb(0xFF, 0xFF, 0xFF),
            accent: rgb(0x11, 0x11, 0x13),
            accent_text: rgb(0xFA, 0xFA, 0xFA),
            text: rgb(0x18, 0x18, 0x1B),
            subtle: rgb(0x70, 0x70, 0x78),
            border: rgb(0xE2, 0xE2, 0xE5),
            link: rgb(0x1A, 0x66, 0xFF),
            btn: rgb(0xFF, 0xFF, 0xFF),
            btn_hover: rgb(0xEC, 0xEC, 0xEE),
            btn_active: rgb(0xDD, 0xDD, 0xE0),
        },
        Theme::Brown => Palette {
            editor_bg: rgb(0x1F, 0x18, 0x11),
            panel_bg: rgb(0x27, 0x1E, 0x15),
            card_bg: rgb(0x32, 0x26, 0x19),
            accent: rgb(0xE7, 0xC9, 0xA0),
            accent_text: rgb(0x2A, 0x1D, 0x10),
            text: rgb(0xED, 0xE2, 0xD2),
            subtle: rgb(0xA9, 0x95, 0x7C),
            border: rgb(0x40, 0x30, 0x1F),
            link: rgb(0xF0, 0xB4, 0x58),
            btn: rgb(0x35, 0x28, 0x18),
            btn_hover: rgb(0x42, 0x33, 0x1F),
            btn_active: rgb(0x4F, 0x3D, 0x26),
        },
    }
}

impl Palette {
    /// The palette of `theme`.
    pub fn for_theme(theme: Theme) -> (r: Palette)
        ensures
            r == palette_of(theme),
    {
        match theme {
            Theme::Dark => Palette {
                editor_bg: Rgb { r: 0x0E, g: 0x0E, b: 0x10 },
                panel_bg: Rgb { r: 0x16, g: 0x16, b: 0x18 },
                card_bg: Rgb { r: 0x1D, g: 0x1D, b: 0x20 },
                accent: Rgb { r: 0xF2, g: 0xF2, b: 0xF4 },
                accent_text: Rgb { r: 0x12, g: 0x12, b: 0x14 },
                text: Rgb { r: 0xEC, g: 0xEC, b: 0xEE },
                subtle: Rgb { r: 0x8C, g: 0x8C, b: 0x93 },
                border: Rgb { r: 0x2C, g: 0x2C, b: 0x31 },
                link: Rgb { r: 0x6E, g: 0x9B, b: 0xFF },
                btn: Rgb { r: 0x24, g: 0x24, b: 0x28 },
                btn_hover: Rgb { r: 0x30, g: 0x30, b: 0x36 },
                btn_active: Rgb { r: 0x3B, g: 0x3B, b: 0x42 },
            },
            Theme::Light => Palette {
                editor_bg: Rgb { r: 0xFF, g: 0xFF, b: 0xFF },
                panel_bg: Rgb { r: 0xF4, g: 0xF4, b: 0xF5 },
                card_bg: Rgb { r: 0xFF, g: 0xFF, b: 0xFF },
                accent: Rgb { r: 0x11, g: 0x11, b: 0x13 },
                accent_text: Rgb { r: 0xFA, g: 0xFA, b: 0xFA },
                text: Rgb { r: 0x18, g: 0x18, b: 0x1B },
                subtle: Rgb { r: 0x70, g: 0x70, b: 0x78 },
                border: Rgb { r: 0xE2, g: 0xE2, b: 0xE5 },
                link: Rgb { r: 0x1A, g: 0x66, b: 0xFF },
                btn: Rgb { r: 0xFF, g: 0xFF, b: 0xFF },
                btn_hover: Rgb { r: 0xEC, g: 0xEC, b: 0xEE },
                btn_active: Rgb { r: 0xDD, g: 0xDD, b: 0xE0 },
            },
            Theme::Brown => Palette {
                editor_bg: Rgb { r: 0x1F, g: 0x18, b: 0x11 },
                panel_bg: Rgb { r: 0x27, g: 0x1E, b: 0x15 },
                card_bg: Rgb { r: 0x32, g: 0x26, b: 0x19 },
                accent: Rgb { r: 0xE7, g: 0xC9, b: 0xA0 },
                accent_text: Rgb { r: 0x2A, g: 0x1D, b: 0x10 },
                text: Rgb { r: 0xED, g: 0xE2, b: 0xD2 },
                subtle: Rgb { r: 0xA9, g: 0x95, b: 0x7C },
                border: Rgb { r: 0x40, g: 0x30, b: 0x1F },
                link: Rgb { r: 0xF0, g: 0xB4, b: 0x58 },
                btn: Rgb { r: 0x35, g: 0x28, b: 0x18 },
                btn_hover: Rgb { r: 0x42, g: 0x33, b: 0x1F },
                btn_active: Rgb { r: 0x4F, g: 0x3D, b: 0x26 },
            },
        }
    }
}

/// The text-selection highlight inside the editor for each theme.
pub open spec fn selection_of(t: Theme) -> Rgb {
    match t {
        Theme::Light => rgb(0xC7, 0xDB, 0xFF),
        Theme::Dark => rgb(0x33, 0x4A, 0x6B),
        Theme::Brown => rgb(0x5E, 0x46, 0x2A),
    }
}

/// The text-selection highlight of `theme`.
pub fn selection_fill(theme: Theme) -> (r: Rgb)
    ensures
        r == selection_of(theme),
{
    match theme {
        Theme::Light => Rgb { r: 0xC7, g: 0xDB, b: 0xFF },
        Theme::Dark => Rgb { r: 0x33, g: 0x4A, b: 0x6B },
        Theme::Brown => Rgb { r: 0x5E, g: 0x46, b: 0x2A },
    }
}

} // verus!
