//! The colour themes of the viewer and how a theme is written to and read
//! back from its settings store.

use vstd::prelude::*;
use crate::text::{chars_eq_str, chars_of, is_ws, trim, trim_chars};

verus! {

/// A colour theme of the viewer. `Dark` is the default.
#[derive(Clone, Copy, Debug, PartialEq, Eq, Structural)]
pub enum Theme {
    Dark,
    Light,
    Solarized,
    Dracula,
    Nord,
}

impl Default for Theme {
    fn default() -> (r: Theme)
        ensures
            r == Theme::Dark,
    {
        Theme::Dark
    }
}

/// The name of a theme, as the settings show and store it.
pub open spec fn label_of(t: Theme) -> Seq<char> {
    match t {
        Theme::Dark => "Dark"@,
        Theme::Light => "Light"@,
        Theme::Solarized => "Solarized"@,
        Theme::Dracula => "Dracula"@,
        Theme::Nord => "Nord"@,
    }
}

/// The theme that a stored name stands for: the theme with that exact
/// name, and `Dark` for any other text.
pub open spec fn theme_named(s: Seq<char>) -> Theme {
    if s == "Light"@ {
        Theme::Light
    } else if s == "Solarized"@ {
        Theme::Solarized
    } else if s == "Dracula"@ {
        Theme::Dracula
    } else if s == "Nord"@ {
        Theme::Nord
    } else {
        Theme::Dark
    }
}

/// Every theme, in the order the settings list them.
pub open spec fn all_themes() -> Seq<Theme> {
    seq![Theme::Dark, Theme::Light, Theme::Solarized, Theme::Dracula, Theme::Nord]
}

impl Theme {
    /// Every theme, in the order the settings list them.
    pub fn all() -> (r: Vec<Theme>)
        ensures
            r@ == all_themes(),
    {
        let v = vec![Theme::Dark, Theme::Light, Theme::Solarized, Theme::Dracula, Theme::Nord];
        assert(v@ =~= all_themes());
        v
    }

    /// The theme's name.
    pub fn label(&self) -> (r: &'static str)
        ensures
            r@ == label_of(*self),
    {
        match self {
            Theme::Dark => "Dark",
            Theme::Light => "Light",
            Theme::Solarized => "Solarized",
            Theme::Dracula => "Dracula",
            Theme::Nord => "Nord",
        }
    }
}

/// The theme whose name is the characters `cs`; `Dark` when none is.
fn theme_of_chars(cs: &Vec<char>) -> (r: Theme)
    ensures
        r == theme_named(cs@),
{
    if chars_eq_str(cs, "Light") {
        Theme::Light
    } else if chars_eq_str(cs, "Solarized") {
        Theme::Solarized
    } else if chars_eq_str(cs, "Dracula") {
        Theme::Dracula
    } else if chars_eq_str(cs, "Nord") {
        Theme::Nord
    } else {
        Theme::Dark
    }
}

/// The theme that the stored text `s` names; `Dark` when it names none.
pub fn parse_theme(s: &str) -> (r: Theme)
    ensures
        r == theme_named(s@),
{
    let cs = chars_of(s);
    theme_of_chars(&cs)
}

/// The theme stored in the native settings file whose contents are
/// `contents`: surrounding whitespace is ignored.
pub fn theme_from_config(contents: &str) -> (r: Theme)
    ensures
        r == theme_named(trim(contents@)),
{
    let cs = chars_of(contents);
    let t = trim_chars(&cs);
    theme_of_chars(&t)
}

/// Reading back the name a theme was stored under gives that theme.
pub proof fn lemma_label_round_trip(t: Theme)
    ensures
        theme_named(label_of(t)) == t,
{
    reveal_strlit("Dark");
    reveal_strlit("Light");
    reveal_strlit("Solarized");
    reveal_strlit("Dracula");
    reveal_strlit("Nord");
    assert("Dark"@[0] != "Light"@[0]);
    assert("Dark"@[0] != "Solarized"@[0]);
    assert("Dark"@[0] != "Nord"@[0]);
    assert("Light"@[0] != "Solarized"@[0]);
    assert("Light"@[0] != "Dracula"@[0]);
    assert("Light"@[0] != "Nord"@[0]);
    assert("Solarized"@[0] != "Dracula"@[0]);
    assert("Solarized"@[0] != "Nord"@[0]);
    assert("Dracula"@[0] != "Nord"@[0]);
    assert("Dark"@[1] != "Dracula"@[1]);
}

/// What the native settings file holds after a theme was stored, read back
/// with surrounding whitespace ignored, is that theme.
pub proof fn lemma_stored_theme_round_trip(t: Theme)
    ensures
        theme_named(trim(label_of(t))) == t,
{
    reveal_strlit("Dark");
    reveal_strlit("Light");
    reveal_strlit("Solarized");
    reveal_strlit("Dracula");
    reveal_strlit("Nord");
    let l = label_of(t);
    assert(!is_ws(l[0]) && !is_ws(l.last()));
    lemma_label_round_trip(t);
}


/// A colour given by its red, green and blue components.
#[derive(Clone, Copy, Debug, PartialEq, Eq, Structural)]
pub struct Rgb {
    pub r: u8,
    pub g: u8,
    pub b: u8,
}

/// The colours of a theme: whether it starts from egui's light visuals (or
/// its dark ones), the panel, background and widget fills, the text colour,
/// the selection fill and stroke colours and the window stroke colour.
#[derive(Clone, Copy, Debug, PartialEq, Eq, Structural)]
pub struct Palette {
    pub light_base: bool,
    pub panel_fill: Rgb,
    pub extreme_bg: Rgb,
    pub faint_bg: Rgb,
    pub inactive_bg: Rgb,
    pub hovered_bg: Rgb,
    pub active_bg: Rgb,
    pub text: Rgb,
    pub selection_bg: Rgb,
    pub selection_stroke: Rgb,
    pub window_stroke: Rgb,
}

/// The colour table of the themes.
pub open spec fn palette_of(t: Theme) -> Palette {
    match t {
        Theme::Dark => Palette {
            light_base: false,
            panel_fill: Rgb { r: 18, g: 18, b: 26 },
            extreme_bg: Rgb { r: 12, g: 12, b: 18 },
            faint_bg: Rgb { r: 24, g: 24, b: 34 },
            inactive_bg: Rgb { r: 30, g: 30, b: 44 },
            hovered_bg: Rgb { r: 45, g: 45, b: 65 },
            active_bg: Rgb { r: 60, g: 60, b: 90 },
            text: Rgb { r: 215, g: 215, b: 200 },
            selection_bg: Rgb { r: 55, g: 75, b: 140 },
            selection_stroke: Rgb { r: 100, g: 130, b: 220 },
            window_stroke: Rgb { r: 40, g: 40, b: 60 },
        },
        Theme::Light => Palette {
            light_base: true,
            panel_fill: Rgb { r: 245, g: 245, b: 240 },
            extreme_bg: Rgb { r: 255, g: 255, b: 255 },
            faint_bg: Rgb { r: 235, g: 235, b: 228 },
            inactive_bg: Rgb { r: 220, g: 220, b: 210 },
            hovered_bg: Rgb { r: 200, g: 200, b: 188 },
            active_bg: Rgb { r: 180, g: 180, b: 165 },
            text: Rgb { r: 40, g: 40, b: 40 },
            selection_bg: Rgb { r: 180, g: 200, b: 240 },
            selection_stroke: Rgb { r: 80, g: 120, b: 200 },
            window_stroke: Rgb { r: 180, g: 180, b: 170 },
        },
        Theme::Solarized => Palette {
            light_base: false,
            panel_fill: Rgb { r: 0, g: 43, b: 54 },
            extreme_bg: Rgb { r: 7, g: 54, b: 66 },
            faint_bg: Rgb { r: 0, g: 43, b: 54 },
            inactive_bg: Rgb { r: 7, g: 54, b: 66 },
            hovered_bg: Rgb { r: 88, g: 110, b: 117 },
            active_bg: Rgb { r: 101, g: 123, b: 131 },
            text: Rgb { r: 131, g: 148, b: 150 },
            selection_bg: Rgb { r: 38, g: 139, b: 210 },
            selection_stroke: Rgb { r: 147, g: 161, b: 161 },
            window_stroke: Rgb { r: 7, g: 54, b: 66 },
        },
        Theme::Dracula => Palette {
            light_base: false,
            panel_fill: Rgb { r: 40, g: 42, b: 54 },
            extreme_bg: Rgb { r: 33, g: 34, b: 44 },
            faint_bg: Rgb { r: 48, g: 50, b: 65 },
            inactive_bg: Rgb { r: 55, g: 57, b: 74 },
            hovered_bg: Rgb { r: 68, g: 71, b: 90 },
            active_bg: Rgb { r: 98, g: 114, b: 164 },
            text: Rgb { r: 248, g: 248, b: 242 },
            selection_bg: Rgb { r: 98, g: 114, b: 164 },
            selection_stroke: Rgb { r: 189, g: 147, b: 249 },
            window_stroke: Rgb { r: 68, g: 71, b: 90 },
        },
        Theme::Nord => Palette {
            light_base: false,
            panel_fill: Rgb { r: 46, g: 52, b: 64 },
            extreme_bg: Rgb { r: 36, g: 41, b: 51 },
            faint_bg: Rgb { r: 59, g: 66, b: 82 },
            inactive_bg: Rgb { r: 67, g: 76, b: 94 },
            hovered_bg: Rgb { r: 76, g: 86, b: 106 },
            active_bg: Rgb { r: 129, g: 161, b: 193 },
            text: Rgb { r: 216, g: 222, b: 233 },
            selection_bg: Rgb { r: 94, g: 129, b: 172 },
            selection_stroke: Rgb { r: 136, g: 192, b: 208 },
            window_stroke: Rgb { r: 76, g: 86, b: 106 },
        },
    }
}

/// Only the light theme starts from egui's light visuals.
pub proof fn lemma_light_base(t: Theme)
    ensures
        palette_of(t).light_base == (t == Theme::Light),
{
}

impl Theme {
    /// The colours of this theme.
    pub fn palette(&self) -> (r: Palette)
        ensures
            r == palette_of(*self),
    {
        match self {
            Theme::Dark => Palette {
                light_base: false,
                panel_fill: Rgb { r: 18, g: 18, b: 26 },
                extreme_bg: Rgb { r: 12, g: 12, b: 18 },
                faint_bg: Rgb { r: 24, g: 24, b: 34 },
                inactive_bg: Rgb { r: 30, g: 30, b: 44 },
                hovered_bg: Rgb { r: 45, g: 45, b: 65 },
                active_bg: Rgb { r: 60, g: 60, b: 90 },
                text: Rgb { r: 215, g: 215, b: 200 },
                selection_bg: Rgb { r: 55, g: 75, b: 140 },
                selection_stroke: Rgb { r: 100, g: 130, b: 220 },
                window_stroke: Rgb { r: 40, g: 40, b: 60 },
            },
            Theme::Light => Palette {
                light_base: true,
                panel_fill: Rgb { r: 245, g: 245, b: 240 },
                extreme_bg: Rgb { r: 255, g: 255, b: 255 },
                faint_bg: Rgb { r: 235, g: 235, b: 228 },
                inactive_bg: Rgb { r: 220, g: 220, b: 210 },
                hovered_bg: Rgb { r: 200, g: 200, b: 188 },
                active_bg: Rgb { r: 180, g: 180, b: 165 },
                text: Rgb { r: 40, g: 40, b: 40 },
                selection_bg: Rgb { r: 180, g: 200, b: 240 },
                selection_stroke: Rgb { r: 80, g: 120, b: 200 },
                window_stroke: Rgb { r: 180, g: 180, b: 170 },
            },
            Theme::Solarized => Palette {
                light_base: false,
                panel_fill: Rgb { r: 0, g: 43, b: 54 },
                extreme_bg: Rgb { r: 7, g: 54, b: 66 },
                faint_bg: Rgb { r: 0, g: 43, b: 54 },
                inactive_bg: Rgb { r: 7, g: 54, b: 66 },
                hovered_bg: Rgb { r: 88, g: 110, b: 117 },
                active_bg: Rgb { r: 101, g: 123, b: 131 },
                text: Rgb { r: 131, g: 148, b: 150 },
                selection_bg: Rgb { r: 38, g: 139, b: 210 },
                selection_stroke: Rgb { r: 147, g: 161, b: 161 },
                window_stroke: Rgb { r: 7, g: 54, b: 66 },
            },
            Theme::Dracula => Palette {
                light_base: false,
                panel_fill: Rgb { r: 40, g: 42, b: 54 },
                extreme_bg: Rgb { r: 33, g: 34, b: 44 },
                faint_bg: Rgb { r: 48, g: 50, b: 65 },
                inactive_bg: Rgb { r: 55, g: 57, b: 74 },
                hovered_bg: Rgb { r: 68, g: 71, b: 90 },
                active_bg: Rgb { r: 98, g: 114, b: 164 },
                text: Rgb { r: 248, g: 248, b: 242 },
                selection_bg: Rgb { r: 98, g: 114, b: 164 },
                selection_stroke: Rgb { r: 189, g: 147, b: 249 },
                window_stroke: Rgb { r: 68, g: 71, b: 90 },
            },
            Theme::Nord => Palette {
                light_base: false,
                panel_fill: Rgb { r: 46, g: 52, b: 64 },
                extreme_bg: Rgb { r: 36, g: 41, b: 51 },
                faint_bg: Rgb { r: 59, g: 66, b: 82 },
                inactive_bg: Rgb { r: 67, g: 76, b: 94 },
                hovered_bg: Rgb { r: 76, g: 86, b: 106 },
                active_bg: Rgb { r: 129, g: 161, b: 193 },
                text: Rgb { r: 216, g: 222, b: 233 },
                selection_bg: Rgb { r: 94, g: 129, b: 172 },
                selection_stroke: Rgb { r: 136, g: 192, b: 208 },
                window_stroke: Rgb { r: 76, g: 86, b: 106 },
            },
        }
    }
}


/// How bright a colour is: the sum of its three channels, from 0 (black)
/// to 765 (white).
pub open spec fn brightness(c: Rgb) -> int {
    c.r + c.g + c.b
}

/// How far apart two colours are in brightness.
pub open spec fn brightness_gap(a: Rgb, b: Rgb) -> int {
    if brightness(a) >= brightness(b) {
        brightness(a) - brightness(b)
    } else {
        brightness(b) - brightness(a)
    }
}

/// Every theme reads well: going from the panel to the idle, hovered and
/// pressed widgets and on to the text, colours only get darker in the
/// light theme and only get brighter in the others; and the text differs
/// in brightness from the panel and from both other backgrounds by at least
/// 300 of the 765 steps; a selection stands out from the panel by at least
/// 100 steps, and its outline from its fill by at least 80.
pub proof fn lemma_palette_contrast(t: Theme)
    ensures
        ({
            let p = palette_of(t);
            if p.light_base {
                &&& brightness(p.panel_fill) > brightness(p.inactive_bg)
                &&& brightness(p.inactive_bg) > brightness(p.hovered_bg)
                &&& brightness(p.hovered_bg) > brightness(p.active_bg)
                &&& brightness(p.active_bg) > brightness(p.text)
            } else {
                &&& brightness(p.panel_fill) < brightness(p.inactive_bg)
                &&& brightness(p.inactive_bg) < brightness(p.hovered_bg)
                &&& brightness(p.hovered_bg) < brightness(p.active_bg)
                &&& brightness(p.active_bg) < brightness(p.text)
            }
        }),
        brightness_gap(palette_of(t).text, palette_of(t).panel_fill) >= 300,
        brightness_gap(palette_of(t).text, palette_of(t).extreme_bg) >= 300,
        brightness_gap(palette_of(t).text, palette_of(t).faint_bg) >= 300,
        brightness_gap(palette_of(t).selection_bg, palette_of(t).panel_fill) >= 100,
        brightness_gap(palette_of(t).selection_stroke, palette_of(t).selection_bg) >= 80,
{
}

} // verus!
