use gat::args::{
    help, parse_args, parse_color, parse_from, take_plain, take_value, wanted, Args, Given, Run, Wants,
};

fn read(args: &[&str]) -> Result<Run, String> {
    parse_args(&args.iter().map(|a| (*a).to_owned()).collect())
}

fn shown(args: &[&str]) -> Args {
    match read(args) {
        Ok(Run::Show(a)) => a,
        other => panic!("{args:?} gave {other:?}"),
    }
}

#[test]
fn a_file_is_shown_with_nothing_else_asked() {
    let a = shown(&["photo.png"]);
    assert_eq!(a.files, vec![b"photo.png".to_vec()]);
    assert_eq!((a.geometry, a.cap, a.background), (None, None, [0, 0, 0]));
    assert!(!a.upscale && !a.fill_width && !a.fill_height && !a.force && !a.print && !a.keep);
    assert!(!a.interactive);
}

#[test]
fn options_are_read_long_and_short() {
    let a = shown(&[
        "-g", "80x24", "-U", "-W", "--fit-height", "--force-kitty", "-p", "--keep", "--cap=2048",
        "-b", "#0aFf10", "a", "b",
    ]);
    assert_eq!(a.geometry, Some((80, 24)));
    assert_eq!((a.cap, a.background), (Some(2048), [0x0a, 0xff, 0x10]));
    assert!(a.upscale && a.fill_width && a.fill_height && a.force && a.print && a.keep);
    assert_eq!(a.files, vec![b"a".to_vec(), b"b".to_vec()]);
    assert_eq!(shown(&["--geometry", "3X4", "x"]).geometry, Some((3, 4)));
}

#[test]
fn a_cap_is_a_count_of_pixels() {
    assert_eq!(shown(&["--cap", "2M", "x"]).cap, Some(2_000_000));
    assert_eq!(shown(&["--cap=1.5k", "x"]).cap, Some(1500));
}

#[test]
fn the_last_of_print_and_interactive_counts() {
    let a = shown(&["-i", "x"]);
    assert!(a.interactive && !a.print);
    let a = shown(&["--interactive", "-p", "x"]);
    assert!(!a.interactive && a.print);
    let a = shown(&["--print", "--interactive", "x"]);
    assert!(a.interactive && !a.print);
    assert!(help().contains("-i, --interactive"));
}

#[test]
fn files_keep_their_order_between_options() {
    let a = shown(&["one", "-p", "two", "--", "-three"]);
    assert_eq!(a.files, vec![b"one".to_vec(), b"two".to_vec(), b"-three".to_vec()]);
}

#[test]
fn a_command_line_reads_the_same_from_a_parser() {
    let given = ["-g=80x24", "x", "--cap", "2M"];
    let mut p = lexopt::Parser::from_args(given);
    let Ok(Run::Show(a)) = parse_from(&mut p) else {
        panic!("a file was asked for");
    };
    let b = shown(&given);
    assert_eq!((a.files, a.geometry, a.cap), (b.files, b.geometry, b.cap));
    assert_eq!((b.geometry, b.cap), (Some((80, 24)), Some(2_000_000)));
}

#[test]
fn nothing_given_is_a_call_for_help() {
    assert!(matches!(read(&[]), Ok(Run::Help)));
    assert!(matches!(read(&["-p"]), Ok(Run::Help)));
    assert!(matches!(read(&["x", "-h"]), Ok(Run::Help)));
    assert!(matches!(read(&["-V", "x"]), Ok(Run::Version)));
    assert!(matches!(read(&["--probe"]), Ok(Run::Probe)));
    assert!(help().starts_with("usage: gat [options] <file>...\n\n  -g, --geometry WxH"));
    assert!(help().ends_with("  -V, --version        version\n"));
}

#[test]
fn a_mistake_on_the_command_line_is_named() {
    for (args, said) in [
        (&["-g", "80"][..], "geometry wants WxH"),
        (&["-g", "ax24"], "bad width"),
        (&["-g", "80x"], "bad height"),
        (&["--cap", "0"], "cap wants a pixel count such as 1048576 or 2M, not \"0\""),
        (&["--cap", "many"], "cap wants a pixel count such as 1048576 or 2M, not \"many\""),
        (&["-b", "red"], "colors look like #rrggbb"),
        (&["-b", "#gggggg"], "colors look like #rrggbb"),
        (&["--what"], "invalid option '--what'"),
        (&["-x"], "invalid option '-x'"),
    ] {
        assert_eq!(read(args).unwrap_err(), said, "{args:?}");
    }
    assert!(read(&["-g"]).unwrap_err().contains("-g"));
}

#[test]
fn a_colour_is_three_bytes_with_a_hash_or_without() {
    assert_eq!(parse_color("#010203"), Ok([1, 2, 3]));
    assert_eq!(parse_color("fFeE00"), Ok([255, 238, 0]));
    assert!(parse_color("#01020").is_err());
    assert!(parse_color("##10203").is_err());
    for signed in ["+1+2+3", "#+f+f+f", "0+0000"] {
        assert_eq!(parse_color(signed), Err("colors look like #rrggbb".to_owned()));
    }
}

#[test]
fn an_option_waits_for_its_value_only_where_it_takes_one() {
    assert_eq!(wanted(&Given::Short('g')), Some(Wants::Geometry));
    assert_eq!(wanted(&Given::Long("cap".into())), Some(Wants::Cap));
    assert_eq!(wanted(&Given::Short('b')), Some(Wants::Background));
    assert_eq!(wanted(&Given::Short('p')), None);
    assert_eq!(wanted(&Given::Value(b"g".to_vec())), None);
    let mut a = shown(&["x"]);
    assert!(matches!(take_plain(&mut a, Given::Short('p')), Ok(None)));
    assert!(a.print);
    assert!(take_value(&mut a, Wants::Cap, "+7").is_ok());
    assert_eq!(a.cap, Some(7));
}
