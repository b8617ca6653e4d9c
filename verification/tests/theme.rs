use litepad::theme::{selection_fill, Palette, Rgb, Theme};

#[test]
fn themes_cycle() {
    assert!(Theme::Light.next() == Theme::Dark);
    assert!(Theme::Dark.next() == Theme::Brown);
    assert!(Theme::Brown.next() == Theme::Light);
    assert!(!Theme::Light.is_dark());
    assert!(Theme::Dark.is_dark());
    assert!(Theme::Brown.is_dark());
}

#[test]
fn theme_names_round_trip() {
    for t in [Theme::Light, Theme::Dark, Theme::Brown] {
        assert!(Theme::from_str(&t.label().to_lowercase()) == t);
        assert!(Theme::from_str(t.label()) == t);
    }
    assert!(Theme::from_str("  DARK \n") == Theme::Dark);
    assert!(Theme::from_str("bRoWn") == Theme::Brown);
    assert!(Theme::from_str("sepia") == Theme::Light);
    assert!(Theme::from_str("") == Theme::Light);
    assert_eq!(Theme::Brown.label(), "Brown");
}

#[test]
fn palettes() {
    let d = Palette::for_theme(Theme::Dark);
    assert!(d.editor_bg == Rgb { r: 0x0E, g: 0x0E, b: 0x10 });
    assert!(d.link == Rgb { r: 0x6E, g: 0x9B, b: 0xFF });
    let l = Palette::for_theme(Theme::Light);
    assert!(l.editor_bg == Rgb { r: 0xFF, g: 0xFF, b: 0xFF });
    assert!(l.accent == Rgb { r: 0x11, g: 0x11, b: 0x13 });
    let b = Palette::for_theme(Theme::Brown);
    assert!(b.btn_active == Rgb { r: 0x4F, g: 0x3D, b: 0x26 });
    assert!(selection_fill(Theme::Dark) == Rgb { r: 0x33, g: 0x4A, b: 0x6B });
}
