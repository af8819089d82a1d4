use gat::config::{
    default_text, opens_viewer, parse, parse_pixels, path, settle, strip_comment, Config, Mode,
    Settled, MAX_PX,
};

#[test]
fn a_pixel_count_takes_a_suffix_or_none() {
    assert_eq!(parse_pixels("1048576").unwrap(), 1_048_576);
    assert_eq!(parse_pixels("2M").unwrap(), 2_000_000);
    assert_eq!(parse_pixels("1.5m").unwrap(), 1_500_000);
    assert_eq!(parse_pixels("500K").unwrap(), 500_000);
    for bad in ["", "0", "M", "-1", "2G", "1e30M", "NaN"] {
        assert!(parse_pixels(bad).is_err(), "{bad:?} parsed");
    }
}

#[test]
fn a_pixel_count_rounds_to_a_whole_one() {
    assert_eq!(parse_pixels("1.0005K").unwrap(), 1001);
    assert_eq!(parse_pixels("1.0004K").unwrap(), 1000);
    assert_eq!(parse_pixels("0.0005K").unwrap(), 1);
    assert!(parse_pixels("0.0004K").is_err());
    assert_eq!(
        parse_pixels("2G").unwrap_err(),
        "cap wants a pixel count such as 1048576 or 2M, not \"2G\""
    );
}

#[test]
fn both_settings_are_read() {
    let text = "# gat\n\nmode = \"print\"  # one-shot\ncap = 2_000_000\n";
    assert_eq!(
        parse(text),
        Ok(Config {
            mode: Some(Mode::Print),
            max_px: Some(2_000_000),
        })
    );
    assert_eq!(parse("cap = \"1.5M\"").unwrap().max_px, Some(1_500_000));
    assert_eq!(parse("").unwrap(), Config::default());
}

#[test]
fn a_mistake_names_its_line() {
    for (text, line) in [
        ("mode = \"view\"\ncolour = 3", 2),
        ("\n\nmode = \"alt\"", 3),
        ("mode = view", 1),
        ("cap = 2G", 1),
        ("cap = 2M", 1),
        ("cap = 1e9", 1),
        ("cap = 1\ncap = 2", 2),
        ("[viewer]\nmode = \"view\"", 1),
        ("just words", 1),
    ] {
        let got = parse(text);
        assert!(matches!(got, Err((n, _)) if n == line), "{text:?} gave {got:?}");
    }
}

#[test]
fn the_default_file_sets_nothing_and_uncommented_gives_the_defaults() {
    // commented out, so a later default reaches a user who
    // never edited the file
    assert_eq!(parse(default_text()), Ok(Config::default()));

    let live: String = default_text()
        .lines()
        .map(|l| l.strip_prefix("# ").filter(|l| l.contains(" = ")).unwrap_or(l))
        .collect::<Vec<_>>()
        .join("\n");
    assert_eq!(
        parse(&live),
        Ok(Config {
            mode: Some(Mode::View),
            max_px: Some(MAX_PX),
        })
    );
}

#[test]
fn a_hash_inside_a_string_is_not_a_comment() {
    assert_eq!(strip_comment("mode = \"a#b\" # c"), "mode = \"a#b\" ");
}

#[test]
fn a_comment_changes_no_setting() {
    let plain = parse("mode = \"print\"\ncap = 9\n");
    let noted = parse("# one\nmode = \"print\" # two\n# three\ncap = 9\n");
    assert_eq!(plain, noted);
}

#[test]
fn a_mistake_quotes_what_it_is_about() {
    let Err((_, said)) = parse("mode = \"a\tb\"") else {
        panic!("a mode there is not was taken");
    };
    assert!(said.contains("a\\tb"), "{said}");
}

#[test]
fn the_settings_live_in_the_home_directory_unless_told_otherwise() {
    let at = |xdg: Option<&str>, home: Option<&str>| {
        let bytes = |s: &str| s.as_bytes().to_vec();
        path(xdg.map(bytes), home.map(bytes)).map(|p| String::from_utf8(p).unwrap())
    };
    assert_eq!(at(Some("/etc/x"), None).as_deref(), Some("/etc/x/gat/config.toml"));
    assert_eq!(at(Some("/x/"), Some("/home/a")).as_deref(), Some("/x/gat/config.toml"));
    assert_eq!(at(None, Some("/home/a")).as_deref(), Some("/home/a/.config/gat/config.toml"));
    assert_eq!(at(None, None), None);

    // a relative directory is invalid and is ignored
    assert_eq!(at(Some("x"), Some("/a")).as_deref(), Some("/a/.config/gat/config.toml"));
    assert_eq!(at(Some(""), None), None);
}

#[test]
fn a_flag_wins_over_the_file() {
    let of = |print, insists, cap| Settled { print, insists, cap };
    let file = Config { mode: Some(Mode::Print), max_px: Some(2_000_000) };
    assert_eq!(settle(false, false, Some(300), &file), of(true, false, 300));
    assert_eq!(settle(false, false, None, &file), of(true, false, 2_000_000));
    assert_eq!(settle(false, true, None, &file), of(false, true, 2_000_000));
    let unset = Config::default();
    assert_eq!(settle(true, false, Some(300), &unset), of(true, false, 300));
    assert_eq!(settle(false, false, None, &unset), of(false, false, MAX_PX));
    assert_eq!(MAX_PX, 1_048_576);
    let said = Config { mode: Some(Mode::View), max_px: Some(MAX_PX) };
    assert_eq!(settle(false, false, None, &said), settle(false, false, None, &unset));
}

#[test]
fn only_a_run_told_to_view_insists_on_a_terminal() {
    let unset = Config::default();
    let plain = settle(false, false, None, &unset);
    assert_eq!(opens_viewer(&plain, true), Ok(true));
    assert_eq!(opens_viewer(&plain, false), Ok(false));
    let told = settle(false, true, None, &unset);
    assert_eq!(opens_viewer(&told, true), Ok(true));
    assert_eq!(
        opens_viewer(&told, false),
        Err("the viewer needs a terminal to draw on".to_owned())
    );
    let printing = settle(true, false, None, &unset);
    assert_eq!(opens_viewer(&printing, true), Ok(false));
}
