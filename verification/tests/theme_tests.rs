use unfurl::theme::{parse_theme, theme_from_config, Rgb, Theme};

#[test]
fn every_theme_reads_back_from_its_label() {
    for t in Theme::all() {
        assert_eq!(parse_theme(t.label()), t);
        assert_eq!(theme_from_config(t.label()), t);
    }
}

#[test]
fn labels_are_the_theme_names() {
    assert_eq!(Theme::Dark.label(), "Dark");
    assert_eq!(Theme::Light.label(), "Light");
    assert_eq!(Theme::Solarized.label(), "Solarized");
    assert_eq!(Theme::Dracula.label(), "Dracula");
    assert_eq!(Theme::Nord.label(), "Nord");
}

#[test]
fn themes_are_listed_in_settings_order() {
    assert_eq!(
        Theme::all(),
        vec![Theme::Dark, Theme::Light, Theme::Solarized, Theme::Dracula, Theme::Nord]
    );
}

#[test]
fn unknown_names_give_the_dark_theme() {
    assert_eq!(parse_theme(""), Theme::Dark);
    assert_eq!(parse_theme("light"), Theme::Dark);
    assert_eq!(parse_theme("Purple"), Theme::Dark);
    assert_eq!(parse_theme("Dark"), Theme::Dark);
}

#[test]
fn stored_file_contents_ignore_surrounding_whitespace() {
    assert_eq!(theme_from_config("Nord\n"), Theme::Nord);
    assert_eq!(theme_from_config("  Dracula \t\r\n"), Theme::Dracula);
    assert_eq!(theme_from_config("\u{a0}Light\u{3000}"), Theme::Light);
    assert_eq!(theme_from_config("Sol arized"), Theme::Dark);
}

#[test]
fn web_storage_values_are_not_trimmed() {
    assert_eq!(parse_theme("Nord\n"), Theme::Dark);
}

#[test]
fn default_theme_is_dark() {
    assert_eq!(Theme::default(), Theme::Dark);
}

#[test]
fn only_the_light_theme_starts_from_light_visuals() {
    for t in Theme::all() {
        assert_eq!(t.palette().light_base, t == Theme::Light);
    }
}

#[test]
fn nord_palette_uses_the_nord_colours() {
    let p = Theme::Nord.palette();
    assert_eq!(p.panel_fill, Rgb { r: 46, g: 52, b: 64 });
    assert_eq!(p.extreme_bg, Rgb { r: 36, g: 41, b: 51 });
    assert_eq!(p.text, Rgb { r: 216, g: 222, b: 233 });
    assert_eq!(p.selection_stroke, Rgb { r: 136, g: 192, b: 208 });
    assert_eq!(p.window_stroke, Rgb { r: 76, g: 86, b: 106 });
}

#[test]
fn dark_and_light_palettes_differ_in_every_background() {
    let d = Theme::Dark.palette();
    let l = Theme::Light.palette();
    assert_eq!(d.panel_fill, Rgb { r: 18, g: 18, b: 26 });
    assert_eq!(l.panel_fill, Rgb { r: 245, g: 245, b: 240 });
    assert_eq!(l.extreme_bg, Rgb { r: 255, g: 255, b: 255 });
    assert_ne!(d.faint_bg, l.faint_bg);
    assert_eq!(Theme::Solarized.palette().faint_bg, Theme::Solarized.palette().panel_fill);
    assert_eq!(Theme::Dracula.palette().active_bg, Theme::Dracula.palette().selection_bg);
}
