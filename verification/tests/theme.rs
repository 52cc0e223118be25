use aurora::theme::{argb, find, image_choice, parse_color, parse_pair, parse, resolved_accents, Argb, ColorError, ImageChoice, ThemeError};

#[test]
fn colours_in_every_width() {
    assert_eq!(parse_color("#fff"), Ok(Argb { a: 0xff, r: 0xff, g: 0xff, b: 0xff }));
    assert_eq!(parse_color(" #1234 "), Ok(Argb { a: 0x44, r: 0x11, g: 0x22, b: 0x33 }));
    assert_eq!(parse_color("102030"), Ok(Argb { a: 0xff, r: 0x10, g: 0x20, b: 0x30 }));
    assert_eq!(parse_color("##10203040"), Ok(Argb { a: 0x40, r: 0x10, g: 0x20, b: 0x30 }));
    assert_eq!(parse_color("#12"), Err(ColorError::BadLength));
    assert_eq!(parse_color("#xyz"), Err(ColorError::NotHex));
    assert_eq!(argb(0x8011_2233), Argb { a: 0x80, r: 0x11, g: 0x22, b: 0x33 });
}

#[test]
fn pairs_repeat_a_single_colour() {
    let red = Argb { a: 0xff, r: 0xff, g: 0, b: 0 };
    let blue = Argb { a: 0xff, r: 0, g: 0, b: 0xff };
    assert_eq!(parse_pair("#f00"), Ok((red, red)));
    assert_eq!(parse_pair("#f00, #00f"), Ok((red, blue)));
    assert_eq!(parse_pair("#f00, nope"), Err(ColorError::NotHex));
}

#[test]
fn theme_files() {
    let t = parse("\u{feff}# comment\nname | Night\nbackground|#000000,#111111\nIMAGE|a.png\nImage|b.png\naccent|#f00\njunk\n")
        .ok()
        .unwrap();
    assert_eq!(t.name, Some("Night".to_string()));
    assert_eq!(t.image, Some("b.png".to_string()));
    assert_eq!(t.background.1, Argb { a: 0xff, r: 0x11, g: 0x11, b: 0x11 });
    assert!(t.required_seen);
    let (accent, strong, danger, _, _) = resolved_accents(&t);
    assert_eq!(accent, Argb { a: 0xff, r: 0xff, g: 0, b: 0 });
    assert_eq!(strong, accent);
    assert_eq!(danger, argb(0xffee_4937));
    assert_eq!(parse("NAME|x\nBACKGROUND|oops\n").err(), Some(ThemeError::NotATheme));
}

#[test]
fn images_and_saved_choices() {
    assert!(matches!(image_choice("  NONE "), ImageChoice::NoImage));
    assert!(matches!(image_choice(""), ImageChoice::NoImage));
    assert!(matches!(image_choice(" https://x/y.png "), ImageChoice::Remote(u) if u == "https://x/y.png"));
    assert!(matches!(image_choice("bg.png"), ImageChoice::Path(p) if p == "bg.png"));
    let ids = vec!["a".to_string(), "b".to_string()];
    assert_eq!(find(&ids, "b"), Some(1));
    assert_eq!(find(&ids, "z"), Some(0));
    assert_eq!(find(&vec![], "z"), None);
}
