use synless::style::{prioritize, Base16Color, ColorTheme, CursorHalf, Priority, Rgb, Style};

#[test]
fn high_outer_beats_low_inner() {
    let r = prioritize(Some((1, Priority::High)), Some((2, Priority::Low)));
    assert!(matches!(r, Some((1, Priority::High))));
}

#[test]
fn inner_wins_otherwise() {
    assert!(matches!(
        prioritize(Some((1, Priority::Low)), Some((2, Priority::High))),
        Some((2, Priority::High))
    ));
    assert!(matches!(
        prioritize(Some((1, Priority::High)), Some((2, Priority::High))),
        Some((2, Priority::High))
    ));
    assert!(matches!(prioritize(Some((1, Priority::Low)), None), Some((1, Priority::Low))));
    assert!(matches!(prioritize::<u8>(None, None), None));
}

#[test]
fn combine_keeps_outer_cursor_and_merges_properties() {
    let outer = Style {
        color: Some((Base16Color::Base08, Priority::High)),
        bold: Some((true, Priority::Low)),
        italic: None,
        underlined: None,
        cursor: Some(CursorHalf::Left),
    };
    let inner = Style {
        color: Some((Base16Color::Base0B, Priority::Low)),
        bold: Some((false, Priority::Low)),
        italic: Some((true, Priority::Low)),
        underlined: None,
        cursor: Some(CursorHalf::Right),
    };
    let c = Style::combine(&outer, &inner);
    assert!(matches!(c.color, Some((Base16Color::Base08, Priority::High))));
    assert!(matches!(c.bold, Some((false, Priority::Low))));
    assert!(matches!(c.italic, Some((true, Priority::Low))));
    assert!(c.underlined.is_none());
    assert!(matches!(c.cursor, Some(CursorHalf::Left)));
}

#[test]
fn hex_colors_parse() {
    assert_eq!(Rgb::from_hex("#ab4642"), Some(Rgb { red: 0xab, green: 0x46, blue: 0x42 }));
    assert_eq!(Rgb::from_hex("#A1B56C"), Some(Rgb { red: 0xa1, green: 0xb5, blue: 0x6c }));
    assert_eq!(Rgb::from_hex("#+f0010"), Some(Rgb { red: 0x0f, green: 0x00, blue: 0x10 }));
}

#[test]
fn bad_hex_colors_are_refused() {
    assert_eq!(Rgb::from_hex("#12345"), None);
    assert_eq!(Rgb::from_hex("#12g456"), None);
    assert_eq!(Rgb::from_hex(""), None);
}

#[test]
fn default_dark_theme_colors() {
    let t = ColorTheme::default_dark();
    assert_eq!(t.color(Base16Color::Base00), Rgb { red: 0x18, green: 0x18, blue: 0x18 });
    assert_eq!(t.color(Base16Color::Base0D), Rgb { red: 0x7c, green: 0xaf, blue: 0xc2 });
    assert_eq!(t.base0F, Rgb { red: 0xa1, green: 0x69, blue: 0x46 });
}
