//! The command line.

use vstd::prelude::*;

use crate::config;
use crate::config::parse_pixels;
use crate::text;
use crate::text::{chars_of, read_number};

verus! {

/// What the command line asks for.
#[derive(Debug)]
pub struct Args {
    /// The files' paths, as the bytes they were given in.
    pub files: Vec<Vec<u8>>,
    pub geometry: Option<(u32, u32)>,
    pub upscale: bool,
    pub fill_width: bool,
    pub fill_height: bool,
    pub background: [u8; 3],
    pub force: bool,
    /// Whether to print, where that was said last.
    pub print: bool,
    /// Whether to open the viewer, where that was said last.
    pub interactive: bool,
    pub keep: bool,
    /// The most pixels an image sent to the terminal may have, where that was said.
    pub cap: Option<u64>,
}

/// `Args`, with its files as sequences of bytes.
#[verifier::ext_equal]
pub struct ArgsModel {
    pub files: Seq<Seq<u8>>,
    pub geometry: Option<(u32, u32)>,
    pub upscale: bool,
    pub fill_width: bool,
    pub fill_height: bool,
    pub background: Seq<u8>,
    pub force: bool,
    pub print: bool,
    pub interactive: bool,
    pub keep: bool,
    pub cap: Option<u64>,
}

/// The bytes of each path.
pub open spec fn paths(s: Seq<Vec<u8>>) -> Seq<Seq<u8>> {
    s.map_values(|p: Vec<u8>| p@)
}

impl View for Args {
    type V = ArgsModel;

    open spec fn view(&self) -> ArgsModel {
        ArgsModel {
            files: paths(self.files@),
            geometry: self.geometry,
            upscale: self.upscale,
            fill_width: self.fill_width,
            fill_height: self.fill_height,
            background: self.background@,
            force: self.force,
            print: self.print,
            interactive: self.interactive,
            keep: self.keep,
            cap: self.cap,
        }
    }
}

/// One argument: an option, or a file.
#[derive(Debug)]
pub enum Given {
    Short(char),
    Long(String),
    Value(Vec<u8>),
}

/// A `Given`, with its text as characters.
#[verifier::ext_equal]
pub enum GivenModel {
    Short(char),
    Long(Seq<char>),
    Value(Seq<u8>),
}

impl View for Given {
    type V = GivenModel;

    open spec fn view(&self) -> GivenModel {
        match *self {
            Given::Short(c) => GivenModel::Short(c),
            Given::Long(s) => GivenModel::Long(s@),
            Given::Value(v) => GivenModel::Value(v@),
        }
    }
}

/// An option that takes a value.
#[derive(Clone, Copy, Debug, PartialEq, Eq, Structural)]
pub enum Wants {
    Geometry,
    Cap,
    Background,
}

/// What a run is to do.
#[derive(Debug)]
pub enum Run {
    /// Show the files.
    Show(Args),
    /// Say how to use the program.
    Help,
    /// Say which version it is.
    Version,
    /// Say what detection saw.
    Probe,
}

/// A `Run`, with its arguments as a model.
#[verifier::ext_equal]
pub enum RunModel {
    Show(ArgsModel),
    Help,
    Version,
    Probe,
}

impl View for Run {
    type V = RunModel;

    open spec fn view(&self) -> RunModel {
        match *self {
            Run::Show(a) => RunModel::Show(a@),
            Run::Help => RunModel::Help,
            Run::Version => RunModel::Version,
            Run::Probe => RunModel::Probe,
        }
    }
}

/// What is asked for where nothing is.
pub open spec fn default_args() -> ArgsModel {
    ArgsModel {
        files: seq![],
        geometry: None,
        upscale: false,
        fill_width: false,
        fill_height: false,
        background: seq![0, 0, 0],
        force: false,
        print: false,
        interactive: false,
        keep: false,
        cap: None,
    }
}

/// Where the first `x` or `X` stands.
pub open spec fn cross_at(s: Seq<char>, i: int) -> Option<int>
    decreases s.len() - i,
{
    if i < 0 || i >= s.len() {
        None
    } else if s[i] == 'x' || s[i] == 'X' {
        Some(i)
    } else {
        cross_at(s, i + 1)
    }
}

/// Columns and rows, with an `x` between them.
pub open spec fn box_of(s: Seq<char>) -> Result<(u32, u32), Seq<char>> {
    match cross_at(s, 0) {
        None => Err("geometry wants WxH"@),
        Some(at) => match text::whole_number(s.take(at)) {
            None => Err("bad width"@),
            Some(w) => match text::whole_number(s.skip(at + 1)) {
                None => Err("bad height"@),
                Some(h) => Ok((w, h)),
            },
        },
    }
}

/// The value of a hexadecimal digit.
pub open spec fn hex_value(c: char) -> Option<u8> {
    let u = c as int;
    if 48 <= u <= 57 {
        Some((u - 48) as u8)
    } else if 97 <= u <= 102 {
        Some((u - 97 + 10) as u8)
    } else if 65 <= u <= 70 {
        Some((u - 65 + 10) as u8)
    } else {
        None
    }
}

/// The byte that two characters write in hexadecimal.
//
// digits alone: a number may be written with a plus, a colour
// may not
pub open spec fn hex_pair(a: char, b: char) -> Option<u8> {
    match (hex_value(a), hex_value(b)) {
        (Some(hi), Some(lo)) => Some((hi * 16 + lo) as u8),
        _ => None,
    }
}

/// A colour as `#rrggbb`, the sign left out or not.
pub open spec fn colour_of(s: Seq<char>) -> Option<Seq<u8>> {
    let h = if s.len() > 0 && s[0] == '#' {
        s.skip(1)
    } else {
        s
    };
    if h.len() != 6 {
        None
    } else {
        match (hex_pair(h[0], h[1]), hex_pair(h[2], h[3]), hex_pair(h[4], h[5])) {
            (Some(r), Some(g), Some(b)) => Some(seq![r, g, b]),
            _ => None,
        }
    }
}

/// The option an argument is, if it takes a value.
pub open spec fn wants(g: GivenModel) -> Option<Wants> {
    match g {
        GivenModel::Short(c) => if c == 'g' {
            Some(Wants::Geometry)
        } else if c == 'b' {
            Some(Wants::Background)
        } else {
            None
        },
        GivenModel::Long(s) => if s == "geometry"@ {
            Some(Wants::Geometry)
        } else if s == "cap"@ {
            Some(Wants::Cap)
        } else if s == "background"@ {
            Some(Wants::Background)
        } else {
            None
        },
        GivenModel::Value(_) => None,
    }
}

/// What an argument without a value does: it changes what is asked for, settles what the run does,
/// or is none that there is.
pub open spec fn plain(a: ArgsModel, g: GivenModel) -> Result<
    (ArgsModel, Option<RunModel>),
    Seq<char>,
> {
    match g {
        GivenModel::Value(v) => Ok((ArgsModel { files: a.files.push(v), ..a }, None)),
        GivenModel::Short(c) => if c == 'U' {
            Ok((ArgsModel { upscale: true, ..a }, None))
        } else if c == 'W' {
            Ok((ArgsModel { fill_width: true, ..a }, None))
        } else if c == 'p' {
            Ok((ArgsModel { print: true, interactive: false, ..a }, None))
        } else if c == 'i' {
            Ok((ArgsModel { print: false, interactive: true, ..a }, None))
        } else if c == 'h' {
            Ok((a, Some(RunModel::Help)))
        } else if c == 'V' {
            Ok((a, Some(RunModel::Version)))
        } else {
            Err("invalid option '-"@ + seq![c] + "'"@)
        },
        GivenModel::Long(s) => if s == "upscale"@ {
            Ok((ArgsModel { upscale: true, ..a }, None))
        } else if s == "fit-width"@ {
            Ok((ArgsModel { fill_width: true, ..a }, None))
        } else if s == "fit-height"@ {
            Ok((ArgsModel { fill_height: true, ..a }, None))
        } else if s == "force-kitty"@ {
            Ok((ArgsModel { force: true, ..a }, None))
        } else if s == "print"@ {
            Ok((ArgsModel { print: true, interactive: false, ..a }, None))
        } else if s == "interactive"@ {
            Ok((ArgsModel { print: false, interactive: true, ..a }, None))
        } else if s == "keep"@ {
            Ok((ArgsModel { keep: true, ..a }, None))
        } else if s == "probe"@ {
            Ok((a, Some(RunModel::Probe)))
        } else if s == "help"@ {
            Ok((a, Some(RunModel::Help)))
        } else if s == "version"@ {
            Ok((a, Some(RunModel::Version)))
        } else {
            Err("invalid option '--"@ + s + "'"@)
        },
    }
}

/// What an option's value does.
pub open spec fn valued(a: ArgsModel, w: Wants, v: Seq<char>) -> Result<ArgsModel, Seq<char>> {
    match w {
        Wants::Geometry => match box_of(v) {
            Ok(b) => Ok(ArgsModel { geometry: Some(b), ..a }),
            Err(e) => Err(e),
        },
        Wants::Cap => match config::pixels(v) {
            Some(px) => Ok(ArgsModel { cap: Some(px), ..a }),
            None => Err(config::bad_pixels(v)),
        },
        Wants::Background => match colour_of(v) {
            Some(c) => Ok(ArgsModel { background: c, ..a }),
            None => Err("colors look like #rrggbb"@),
        },
    }
}

/// What a run does once every argument was read: without files, it says how to use the program.
pub open spec fn ended(a: ArgsModel) -> RunModel {
    if a.files.len() == 0 {
        RunModel::Help
    } else {
        RunModel::Show(a)
    }
}

fn read_box(s: &[char]) -> (r: Result<(u32, u32), String>)
    ensures
        r matches Ok(b) ==> box_of(s@) == Ok::<(u32, u32), Seq<char>>(b),
        r matches Err(e) ==> box_of(s@) == Err::<(u32, u32), Seq<char>>(e@),
{
    let mut i: usize = 0;
    while i < s.len() && s[i] != 'x' && s[i] != 'X'
        invariant
            i <= s@.len(),
            cross_at(s@, 0) == cross_at(s@, i as int),
        decreases s.len() - i,
    {
        i += 1;
    }
    if i == s.len() {
        return Err("geometry wants WxH".to_owned());
    }
    let before = vstd::slice::slice_subrange(s, 0, i);
    let behind = vstd::slice::slice_subrange(s, i + 1, s.len());
    assert(before@ =~= s@.take(i as int));
    assert(behind@ =~= s@.skip(i + 1));
    match read_number(before) {
        None => Err("bad width".to_owned()),
        Some(w) => match read_number(behind) {
            None => Err("bad height".to_owned()),
            Some(h) => Ok((w, h)),
        },
    }
}

fn hex_digit(c: char) -> (r: Option<u8>)
    ensures
        r == hex_value(c),
        r matches Some(v) ==> v < 16,
{
    let u: u32 = c as u32;
    if 48 <= u && u <= 57 {
        Some((u - 48) as u8)
    } else if 97 <= u && u <= 102 {
        Some((u - 97 + 10) as u8)
    } else if 65 <= u && u <= 70 {
        Some((u - 65 + 10) as u8)
    } else {
        None
    }
}

fn hex_byte(a: char, b: char) -> (r: Option<u8>)
    ensures
        r == hex_pair(a, b),
{
    match (hex_digit(a), hex_digit(b)) {
        (Some(hi), Some(lo)) => Some(hi * 16 + lo),
        _ => None,
    }
}

/// A colour as `#rrggbb`, the sign left out or not.
pub fn parse_color(s: &str) -> (r: Result<[u8; 3], String>)
    ensures
        r matches Ok(c) ==> colour_of(s@) == Some(c@),
        r matches Err(e) ==> colour_of(s@) is None && e@ == "colors look like #rrggbb"@,
{
    let chars = chars_of(s);
    let from: usize = if chars.len() > 0 && chars[0] == '#' {
        1
    } else {
        0
    };
    let h = vstd::slice::slice_subrange(chars.as_slice(), from, chars.len());
    assert(h@ =~= if s@.len() > 0 && s@[0] == '#' {
        s@.skip(1)
    } else {
        s@
    });
    if h.len() == 6 {
        if let (Some(r), Some(g), Some(b)) = (
            hex_byte(h[0], h[1]),
            hex_byte(h[2], h[3]),
            hex_byte(h[4], h[5]),
        ) {
            let out = [r, g, b];
            assert(out@ =~= seq![r, g, b]);
            return Ok(out);
        }
    }
    Err("colors look like #rrggbb".to_owned())
}

/// The option an argument is, if it takes a value.
pub fn wanted(g: &Given) -> (r: Option<Wants>)
    ensures
        r == wants(g@),
{
    match g {
        Given::Short(c) => if *c == 'g' {
            Some(Wants::Geometry)
        } else if *c == 'b' {
            Some(Wants::Background)
        } else {
            None
        },
        Given::Long(s) => if text::same(s.as_str(), "geometry") {
            Some(Wants::Geometry)
        } else if text::same(s.as_str(), "cap") {
            Some(Wants::Cap)
        } else if text::same(s.as_str(), "background") {
            Some(Wants::Background)
        } else {
            None
        },
        Given::Value(_) => None,
    }
}

/// What is said of an option there is none of.
fn invalid(dashes: &str, name: &str) -> (r: String)
    ensures
        r@ == dashes@ + name@ + "'"@,
{
    let mut out = dashes.to_owned();
    out.push_str(name);
    out.push_str("'");
    out
}

/// Take in an argument that has no value.
pub fn take_plain(args: &mut Args, g: Given) -> (r: Result<Option<Run>, String>)
    ensures
        match r {
            Ok(done) => plain(old(args)@, g@) == Ok::<(ArgsModel, Option<RunModel>), Seq<char>>(
                (
                    final(args)@,
                    match done {
                        Some(run) => Some(run@),
                        None => None,
                    },
                ),
            ),
            Err(e) => plain(old(args)@, g@) == Err::<(ArgsModel, Option<RunModel>), Seq<char>>(
                e@,
            ) && final(args)@ == old(args)@,
        },
{
    match g {
        Given::Value(v) => {
            let ghost had = args.files@;
            args.files.push(v);
            assert(paths(args.files@) =~= paths(had).push(v@));
            Ok(None)
        },
        Given::Short(c) => {
            if c == 'U' {
                args.upscale = true;
                Ok(None)
            } else if c == 'W' {
                args.fill_width = true;
                Ok(None)
            } else if c == 'p' {
                args.print = true;
                args.interactive = false;
                Ok(None)
            } else if c == 'i' {
                args.print = false;
                args.interactive = true;
                Ok(None)
            } else if c == 'h' {
                Ok(Some(Run::Help))
            } else if c == 'V' {
                Ok(Some(Run::Version))
            } else {
                let mut name = String::new();
                name.push(c);
                assert(name@ =~= seq![c]);
                Err(invalid("invalid option '-", name.as_str()))
            }
        },
        Given::Long(s) => {
            if text::same(s.as_str(), "upscale") {
                args.upscale = true;
                Ok(None)
            } else if text::same(s.as_str(), "fit-width") {
                args.fill_width = true;
                Ok(None)
            } else if text::same(s.as_str(), "fit-height") {
                args.fill_height = true;
                Ok(None)
            } else if text::same(s.as_str(), "force-kitty") {
                args.force = true;
                Ok(None)
            } else if text::same(s.as_str(), "print") {
                args.print = true;
                args.interactive = false;
                Ok(None)
            } else if text::same(s.as_str(), "interactive") {
                args.print = false;
                args.interactive = true;
                Ok(None)
            } else if text::same(s.as_str(), "keep") {
                args.keep = true;
                Ok(None)
            } else if text::same(s.as_str(), "probe") {
                Ok(Some(Run::Probe))
            } else if text::same(s.as_str(), "help") {
                Ok(Some(Run::Help))
            } else if text::same(s.as_str(), "version") {
                Ok(Some(Run::Version))
            } else {
                Err(invalid("invalid option '--", s.as_str()))
            }
        },
    }
}

/// Take in an option's value.
pub fn take_value(args: &mut Args, w: Wants, v: &str) -> (r: Result<(), String>)
    ensures
        match r {
            Ok(_) => valued(old(args)@, w, v@) == Ok::<ArgsModel, Seq<char>>(final(args)@),
            Err(e) => valued(old(args)@, w, v@) == Err::<ArgsModel, Seq<char>>(e@) && final(args)@
                == old(args)@,
        },
{
    match w {
        Wants::Geometry => {
            let chars = chars_of(v);
            match read_box(&chars) {
                Ok(b) => {
                    args.geometry = Some(b);
                    Ok(())
                },
                Err(e) => Err(e),
            }
        },
        Wants::Cap => match parse_pixels(v) {
            Ok(px) => {
                args.cap = Some(px);
                Ok(())
            },
            Err(e) => Err(e),
        },
        Wants::Background => match parse_color(v) {
            Ok(c) => {
                args.background = c;
                Ok(())
            },
            Err(e) => Err(e),
        },
    }
}

/// The parser of `lexopt`, part of the way through a command line.
#[verifier::external_type_specification]
#[verifier::external_body]
pub struct ExLexer(lexopt::Parser);

/// The command line a parser reads, and the calls made of it so far. A command line is its arguments,
/// and whether an equals sign sets off the value of a short option. Of a call it is said whether it
/// was for a value, rather than for the next argument.
pub uninterp spec fn reading(p: lexopt::Parser) -> ((Seq<Seq<u8>>, bool), Seq<bool>);

/// The command line that those arguments make: an equals sign sets off the value of a short option.
pub open spec fn command_line(given: Seq<String>) -> (Seq<Seq<u8>>, bool) {
    (given.map_values(|a: String| vstd::utf8::encode_utf8(a@)), true)
}

/// `lexopt::Parser::from_args`: a parser of those arguments that nothing was asked of, with the
/// settings a parser has by default.
#[verifier::external_body]
fn lexer(given: &Vec<String>) -> (r: lexopt::Parser)
    ensures
        reading(r) == (command_line(given@), Seq::<bool>::empty()),
{
    lexopt::Parser::from_args(given.iter())
}

/// What `lexopt` says to a call for the next argument of a command line, after the calls made
/// before.
pub uninterp spec fn next_reply(given: (Seq<Seq<u8>>, bool), calls: Seq<bool>) -> Result<
    Option<GivenModel>,
    Seq<char>,
>;

/// What `lexopt` says to a call for an option's value.
pub uninterp spec fn value_reply(given: (Seq<Seq<u8>>, bool), calls: Seq<bool>) -> Result<
    Seq<char>,
    Seq<char>,
>;

/// How many bytes of a command line are unread, an end counted with each argument.
pub uninterp spec fn unread(p: lexopt::Parser) -> nat;

/// `lexopt::Parser::next`: an option or a positional argument, nothing at the end of the command
/// line, or what is wrong with it as the error's `Display` says it. The reply is a function of the
/// command line and of the calls made before, and to give an argument the parser reads on.
#[verifier::external_body]
fn next_given(p: &mut lexopt::Parser) -> (r: Result<Option<Given>, String>)
    ensures
        reading(*final(p)) == (reading(*old(p)).0, reading(*old(p)).1.push(false)),
        match r {
            Ok(Some(g)) => next_reply(reading(*old(p)).0, reading(*old(p)).1) == Ok::<
                Option<GivenModel>,
                Seq<char>,
            >(Some(g@)) && unread(*final(p)) < unread(*old(p)),
            Ok(None) => next_reply(reading(*old(p)).0, reading(*old(p)).1) == Ok::<
                Option<GivenModel>,
                Seq<char>,
            >(None),
            Err(e) => next_reply(reading(*old(p)).0, reading(*old(p)).1) == Err::<
                Option<GivenModel>,
                Seq<char>,
            >(e@),
        },
{
    match p.next().map_err(|e| e.to_string())? {
        Some(lexopt::Arg::Short(c)) => Ok(Some(Given::Short(c))),
        Some(lexopt::Arg::Long(s)) => Ok(Some(Given::Long(s.to_owned()))),
        Some(lexopt::Arg::Value(v)) => Ok(Some(Given::Value(v.into_encoded_bytes()))),
        None => Ok(None),
    }
}

/// `lexopt::Parser::value` and `lexopt::ValueExt::string`: the value of the option that came last,
/// or what is wrong with it as the error's `Display` says it. The reply is a function of the
/// command line and of the calls made before, and nothing is unread again.
#[verifier::external_body]
fn next_value(p: &mut lexopt::Parser) -> (r: Result<String, String>)
    ensures
        reading(*final(p)) == (reading(*old(p)).0, reading(*old(p)).1.push(true)),
        match r {
            Ok(s) => value_reply(reading(*old(p)).0, reading(*old(p)).1) == Ok::<
                Seq<char>,
                Seq<char>,
            >(s@),
            Err(e) => value_reply(reading(*old(p)).0, reading(*old(p)).1) == Err::<
                Seq<char>,
                Seq<char>,
            >(e@),
        },
        unread(*final(p)) <= unread(*old(p)),
{
    let value = p.value().map_err(|e| e.to_string())?;
    lexopt::ValueExt::string(value).map_err(|e| e.to_string())
}

/// Where reading a command line stands.
#[verifier::ext_equal]
pub struct Progress {
    pub calls: Seq<bool>,
    pub args: ArgsModel,
    pub done: Option<Result<RunModel, Seq<char>>>,
}

/// One argument is read, with its value where it takes one, unless reading is done.
pub open spec fn read_on(given: (Seq<Seq<u8>>, bool), p: Progress) -> Progress {
    let calls = p.calls.push(false);
    if p.done is Some {
        p
    } else {
        match next_reply(given, p.calls) {
            Err(e) => Progress { calls, done: Some(Err(e)), ..p },
            Ok(None) => Progress { calls, done: Some(Ok(ended(p.args))), ..p },
            Ok(Some(g)) => match wants(g) {
                None => match plain(p.args, g) {
                    Err(e) => Progress { calls, done: Some(Err(e)), ..p },
                    Ok((args, None)) => Progress { calls, args, ..p },
                    Ok((args, Some(run))) => Progress { calls, args, done: Some(Ok(run)) },
                },
                Some(w) => match value_reply(given, calls) {
                    Err(e) => Progress { calls: calls.push(true), done: Some(Err(e)), ..p },
                    Ok(v) => match valued(p.args, w, v) {
                        Err(e) => Progress { calls: calls.push(true), done: Some(Err(e)), ..p },
                        Ok(args) => Progress { calls: calls.push(true), args, ..p },
                    },
                },
            },
        }
    }
}

/// `n` arguments are read.
pub open spec fn read_args(given: (Seq<Seq<u8>>, bool), p: Progress, n: nat) -> Progress
    decreases n,
{
    if n == 0 {
        p
    } else {
        read_on(given, read_args(given, p, (n - 1) as nat))
    }
}

/// What a run is to do, as a model of what is returned.
pub open spec fn outcome(r: Result<Run, String>) -> Result<RunModel, Seq<char>> {
    match r {
        Ok(run) => Ok(run@),
        Err(e) => Err(e@),
    }
}

/// Nothing of a command line is read yet but what `calls` read.
pub open spec fn unstarted(calls: Seq<bool>) -> Progress {
    Progress { calls, args: default_args(), done: None }
}

/// Reading a command line comes to `r`.
pub open spec fn comes_to(
    given: (Seq<Seq<u8>>, bool),
    calls: Seq<bool>,
    r: Result<RunModel, Seq<char>>,
) -> bool {
    exists|n: nat| (#[trigger] read_args(given, unstarted(calls), n)).done == Some(r)
}

/// Read the command line.
pub fn parse_args(given: &Vec<String>) -> (r: Result<Run, String>)
    ensures
        comes_to(command_line(given@), seq![], outcome(r)),
{
    let mut p = lexer(given);
    parse_from(&mut p)
}

/// Read what a parser has before it, for a command line that the system hands over as it is: a file's
/// name need not be text.
pub fn parse_from(p: &mut lexopt::Parser) -> (r: Result<Run, String>)
    ensures
        comes_to(reading(*old(p)).0, reading(*old(p)).1, outcome(r)),
{
    let mut args = Args {
        files: Vec::new(),
        geometry: None,
        upscale: false,
        fill_width: false,
        fill_height: false,
        background: [0, 0, 0],
        force: false,
        print: false,
        interactive: false,
        keep: false,
        cap: None,
    };
    assert(args.background@ =~= seq![0, 0, 0]);
    assert(args@ =~= default_args());
    let ghost (given, calls) = reading(*p);
    let ghost start = unstarted(calls);
    let ghost mut n: nat = 0;
    loop
        invariant
            reading(*p).0 == given,
            read_args(given, start, n) == (Progress { calls: reading(*p).1, args: args@, done: None
            }),
            (given, calls) == reading(*old(p)),
            start == unstarted(calls),
        decreases unread(*p),
    {
        let ghost before = read_args(given, start, n);
        let ghost after = read_args(given, start, n + 1);
        let g = match next_given(p) {
            Err(e) => {
                assert(after.done == Some(outcome(Err(e))));
                return Err(e);
            },
            Ok(None) => {
                if args.files.len() == 0 {
                    assert(after.done == Some(outcome(Ok(Run::Help))));
                    return Ok(Run::Help);
                }
                assert(after.done == Some(outcome(Ok(Run::Show(args)))));
                return Ok(Run::Show(args));
            },
            Ok(Some(g)) => g,
        };
        match wanted(&g) {
            None => match take_plain(&mut args, g) {
                Err(e) => {
                    assert(after.done == Some(outcome(Err(e))));
                    return Err(e);
                },
                Ok(Some(run)) => {
                    assert(after.done == Some(outcome(Ok(run))));
                    return Ok(run);
                },
                Ok(None) => {},
            },
            Some(w) => match next_value(p) {
                Err(e) => {
                    assert(after.done == Some(outcome(Err(e))));
                    return Err(e);
                },
                Ok(v) => match take_value(&mut args, w, v.as_str()) {
                    Err(e) => {
                        assert(after.done == Some(outcome(Err(e))));
                        return Err(e);
                    },
                    Ok(_) => {},
                },
            },
        }
        proof {
            n = n + 1;
        }
    }
}

/// Reading settles on one outcome: once it is done, reading on changes nothing.
pub proof fn law_reading_settles(given: (Seq<Seq<u8>>, bool), p: Progress, n: nat, m: nat)
    requires
        n <= m,
        read_args(given, p, n).done is Some,
    ensures
        read_args(given, p, m) == read_args(given, p, n),
    decreases m - n,
{
    if n < m {
        law_reading_settles(given, p, n, (m - 1) as nat);
    }
}

/// A command line comes to one outcome.
pub proof fn law_one_outcome(
    given: (Seq<Seq<u8>>, bool),
    calls: Seq<bool>,
    a: Result<RunModel, Seq<char>>,
    b: Result<RunModel, Seq<char>>,
)
    requires
        comes_to(given, calls, a),
        comes_to(given, calls, b),
    ensures
        a == b,
{
    let p = unstarted(calls);
    let n = choose|n: nat| (#[trigger] read_args(given, p, n)).done == Some(a);
    let m = choose|m: nat| (#[trigger] read_args(given, p, m)).done == Some(b);
    if n <= m {
        law_reading_settles(given, p, n, m);
    } else {
        law_reading_settles(given, p, m, n);
    }
}

/// Files are shown in the order they were given, and none is lost to an option.
pub proof fn law_files_keep_their_order(a: ArgsModel, g: GivenModel)
    ensures
        plain(a, g) matches Ok((after, done)) ==> {
            &&& a.files.is_prefix_of(after.files)
            &&& g matches GivenModel::Value(v) ==> after.files == a.files.push(v) && done is None
            &&& !(g is Value) ==> after.files == a.files
        },
{
    if let GivenModel::Value(v) = g {
        assert(a.files.is_prefix_of(a.files.push(v)));
    }
}

/// How to use the program.
pub fn help() -> (r: &'static str)
    ensures
        r@ == "\
usage: gat [options] <file>...

  -g, --geometry WxH   fit within W columns by H rows
  -U, --upscale        enlarge images smaller than the available space
  -W, --fit-width      use the full width, letting height overflow
      --fit-height     use the full height, letting width overflow
  -b, --background C   composite transparency over color C (#rrggbb)
  -p, --print          write the image to stdout and exit, no viewer
  -i, --interactive    open the viewer, whatever the settings file says
      --cap N          send no image of more than N pixels (1048576), as a
                       count or with K or M, as in 2M; a document's width is
                       held to the square root
      --keep           leave images from earlier runs in the terminal
      --force-kitty    emit kitty sequences even if detection says no
      --probe          report what terminal detection sees, then exit
  -h, --help           this text
  -V, --version        version
"@,
{
    "\
usage: gat [options] <file>...

  -g, --geometry WxH   fit within W columns by H rows
  -U, --upscale        enlarge images smaller than the available space
  -W, --fit-width      use the full width, letting height overflow
      --fit-height     use the full height, letting width overflow
  -b, --background C   composite transparency over color C (#rrggbb)
  -p, --print          write the image to stdout and exit, no viewer
  -i, --interactive    open the viewer, whatever the settings file says
      --cap N          send no image of more than N pixels (1048576), as a
                       count or with K or M, as in 2M; a document's width is
                       held to the square root
      --keep           leave images from earlier runs in the terminal
      --force-kitty    emit kitty sequences even if detection says no
      --probe          report what terminal detection sees, then exit
  -h, --help           this text
  -V, --version        version
"
}

/// Each flag sets what it names and leaves all else as it was asked for: growing, filling the width or
/// the height, sending whatever the terminal is, keeping what was sent, printing or viewing. Others ask
/// for something else instead, and a flag that there is none of is refused.
pub proof fn law_each_flag_sets_what_it_names(a: ArgsModel, other: Seq<char>)
    ensures
        ({
            let short = |c: char| plain(a, GivenModel::Short(c));
            let long = |s: Seq<char>| plain(a, GivenModel::Long(s));
            let set = |b: ArgsModel|
                Ok::<(ArgsModel, Option<RunModel>), Seq<char>>((b, None));
            let done = |r: RunModel|
                Ok::<(ArgsModel, Option<RunModel>), Seq<char>>((a, Some(r)));
            &&& short('U') == set(ArgsModel { upscale: true, ..a })
            &&& short('W') == set(ArgsModel { fill_width: true, ..a })
            &&& short('p') == set(ArgsModel { print: true, interactive: false, ..a })
            &&& short('i') == set(ArgsModel { print: false, interactive: true, ..a })
            &&& short('h') == done(RunModel::Help)
            &&& short('V') == done(RunModel::Version)
            &&& long("upscale"@) == set(ArgsModel { upscale: true, ..a })
            &&& long("fit-width"@) == set(ArgsModel { fill_width: true, ..a })
            &&& long("fit-height"@) == set(ArgsModel { fill_height: true, ..a })
            &&& long("force-kitty"@) == set(ArgsModel { force: true, ..a })
            &&& long("keep"@) == set(ArgsModel { keep: true, ..a })
            &&& long("print"@) == set(ArgsModel { print: true, interactive: false, ..a })
            &&& long("interactive"@) == set(ArgsModel { print: false, interactive: true, ..a })
            &&& long("probe"@) == done(RunModel::Probe)
            &&& long("help"@) == done(RunModel::Help)
            &&& long("version"@) == done(RunModel::Version)
            &&& wants(GivenModel::Short('g')) == Some(Wants::Geometry)
            &&& wants(GivenModel::Long("geometry"@)) == Some(Wants::Geometry)
            &&& wants(GivenModel::Short('b')) == Some(Wants::Background)
            &&& wants(GivenModel::Long("background"@)) == Some(Wants::Background)
            &&& wants(GivenModel::Long("cap"@)) == Some(Wants::Cap)
        }),
        !seq![
            "upscale"@,
            "fit-width"@,
            "fit-height"@,
            "force-kitty"@,
            "keep"@,
            "print"@,
            "interactive"@,
            "probe"@,
            "help"@,
            "version"@,
        ].contains(other) ==> plain(a, GivenModel::Long(other)) is Err,
{
    reveal_strlit("upscale");
    reveal_strlit("fit-width");
    reveal_strlit("fit-height");
    reveal_strlit("force-kitty");
    reveal_strlit("keep");
    reveal_strlit("print");
    reveal_strlit("interactive");
    reveal_strlit("probe");
    reveal_strlit("help");
    reveal_strlit("version");
    reveal_strlit("geometry");
    reveal_strlit("background");
    reveal_strlit("cap");
    assert("upscale"@.len() == 7);
    assert("fit-width"@.len() == 9);
    assert("fit-height"@.len() == 10);
    assert("force-kitty"@.len() == 11);
    assert("keep"@.len() == 4);
    assert("print"@.len() == 5);
    assert("interactive"@.len() == 11);
    assert("probe"@.len() == 5);
    assert("help"@.len() == 4);
    assert("version"@.len() == 7);
    assert("geometry"@.len() == 8);
    assert("background"@.len() == 10);
    assert("cap"@.len() == 3);
    assert("print"@[0] != "probe"@[0] || "print"@[1] != "probe"@[1] || "print"@[2] != "probe"@[2]);
    assert("upscale"@[0] != "version"@[0]);
    assert("keep"@[0] != "help"@[0]);
    assert("fit-height"@[4] != "background"@[4]);
    let all = seq![
        "upscale"@,
        "fit-width"@,
        "fit-height"@,
        "force-kitty"@,
        "keep"@,
        "print"@,
        "interactive"@,
        "probe"@,
        "help"@,
        "version"@,
    ];
    if !all.contains(other) {
        assert(all[0] != other && all[1] != other && all[2] != other && all[3] != other && all[4]
            != other && all[5] != other && all[6] != other && all[7] != other && all[8] != other
            && all[9] != other) by {
            assert forall|i: int| 0 <= i < all.len() implies all[i] != other by {
                assert(all.contains(all[i]));
            }
        }
    }
    assert("force-kitty"@[0] != "interactive"@[0]);
}

/// A geometry is columns and rows with an x between them, and the last one asked for counts. What an
/// option's value sets is that and nothing else.
pub proof fn law_a_value_sets_its_own_option(a: ArgsModel, w: u32, h: u32, n: nat, v: Seq<char>)
    requires
        1 <= n <= u64::MAX,
    ensures
        valued(a, Wants::Geometry, text::dec(w as nat) + seq!['x'] + text::dec(h as nat)) == Ok::<
            ArgsModel,
            Seq<char>,
        >(ArgsModel { geometry: Some((w, h)), ..a }),
        valued(a, Wants::Geometry, text::dec(w as nat) + seq!['X'] + text::dec(h as nat)) == Ok::<
            ArgsModel,
            Seq<char>,
        >(ArgsModel { geometry: Some((w, h)), ..a }),
        valued(a, Wants::Cap, text::dec(n)) == Ok::<ArgsModel, Seq<char>>(
            ArgsModel { cap: Some(n as u64), ..a },
        ),
        colour_of(v) matches Some(c) ==> valued(a, Wants::Background, v) == Ok::<ArgsModel, Seq<char>>(
            ArgsModel { background: c, ..a },
        ),
        colour_of(v) is None ==> valued(a, Wants::Background, v) is Err,
{
    lemma_box(w, h, 'x');
    lemma_box(w, h, 'X');
    config::law_a_count_is_what_is_written(n);
}

proof fn lemma_box(w: u32, h: u32, x: char)
    requires
        x == 'x' || x == 'X',
    ensures
        box_of(text::dec(w as nat) + seq![x] + text::dec(h as nat)) == Ok::<(u32, u32), Seq<char>>(
            (w, h),
        ),
{
    let (a, b) = (text::dec(w as nat), text::dec(h as nat));
    let s = a + seq![x] + b;
    text::law_a_number_reads_back(w as nat);
    text::law_a_number_reads_back(h as nat);
    let at = a.len() as int;
    assert forall|i: int| 0 <= i < at implies s[i] != 'x' && s[i] != 'X' by {
        assert(s[i] == a[i]);
        assert(text::is_digit(a[i]));
    }
    assert(s[at] == x);
    lemma_cross(s, 0, at);
    assert(s.take(at) =~= a);
    assert(s.skip(at + 1) =~= b);
    assert(text::is_digit(a[0]) && text::is_digit(b[0]));
}

proof fn lemma_cross(s: Seq<char>, i: int, at: int)
    requires
        0 <= i <= at < s.len(),
        s[at] == 'x' || s[at] == 'X',
        forall|j: int| i <= j < at ==> s[j] != 'x' && s[j] != 'X',
    ensures
        cross_at(s, i) == Some(at),
    decreases at - i,
{
    if i < at {
        lemma_cross(s, i + 1, at);
    }
}

/// A colour is three bytes, red, green and blue, two digits each, with a sign in front or without, and
/// nothing else is one.
pub proof fn law_a_colour_is_six_digits(s: Seq<char>)
    requires
        s.len() == 6,
        s[0] != '#',
    ensures
        colour_of(seq!['#'] + s) == colour_of(s),
        colour_of(s) matches Some(c) ==> c.len() == 3 && forall|i: int|
            0 <= i < 3 ==> #[trigger] c[i] == 16 * hex_value(s[2 * i])->0 + hex_value(s[2 * i + 1])->0,
        colour_of(s) is Some <==> forall|i: int| 0 <= i < 6 ==> hex_value(#[trigger] s[i]) is Some,
        forall|c: char| #[trigger]
            hex_value(c) == (if '0' as int <= c as int <= '9' as int {
                Some((c as int - '0' as int) as u8)
            } else if 'a' as int <= c as int <= 'f' as int {
                Some((c as int - 'a' as int + 10) as u8)
            } else if 'A' as int <= c as int <= 'F' as int {
                Some((c as int - 'A' as int + 10) as u8)
            } else {
                None
            }),
{
    let t = seq!['#'] + s;
    assert(t.skip(1) =~= s);
    if forall|i: int| 0 <= i < 6 ==> hex_value(#[trigger] s[i]) is Some {
        assert(hex_value(s[0]) is Some && hex_value(s[1]) is Some && hex_value(s[2]) is Some
            && hex_value(s[3]) is Some && hex_value(s[4]) is Some && hex_value(s[5]) is Some);
    }
}

/// A run without files says how the program is used; one with files shows them as it was asked to.
pub proof fn law_files_are_shown(a: ArgsModel)
    ensures
        a.files.len() == 0 ==> ended(a) == RunModel::Help,
        a.files.len() > 0 ==> ended(a) == RunModel::Show(a),
{
}

/// A command line is read argument by argument: one without a value does what it does by itself, one
/// with a value takes the next, and the first mistake, the first that asks for something else or the end
/// settles what the run does.
pub proof fn law_arguments_are_read_one_by_one(
    given: (Seq<Seq<u8>>, bool),
    p: Progress,
    g: GivenModel,
    v: Seq<char>,
)
    requires
        p.done is None,
        next_reply(given, p.calls) == Ok::<Option<GivenModel>, Seq<char>>(Some(g)),
    ensures
        ({
            let after = read_on(given, p);
            &&& wants(g) is None ==> (plain(p.args, g) matches Ok((args, None)) ==> after.args == args
                && after.done is None && after.calls == p.calls.push(false))
            &&& wants(g) is None ==> (plain(p.args, g) matches Ok((args, Some(run))) ==> after.done == Some(
                Ok::<RunModel, Seq<char>>(run),
            ))
            &&& wants(g) is None ==> (plain(p.args, g) matches Err(e) ==> after.done == Some(
                Err::<RunModel, Seq<char>>(e),
            ))
            &&& wants(g) matches Some(w) ==> (value_reply(given, p.calls.push(false)) == Ok::<
                Seq<char>,
                Seq<char>,
            >(v) ==> (valued(p.args, w, v) matches Ok(args) ==> after.args == args && after.done is None
                && after.calls == p.calls.push(false).push(true)))
            &&& wants(g) matches Some(w) ==> (value_reply(given, p.calls.push(false)) == Ok::<
                Seq<char>,
                Seq<char>,
            >(v) ==> (valued(p.args, w, v) matches Err(e) ==> after.done == Some(
                Err::<RunModel, Seq<char>>(e),
            )))
        }),
{
}

/// At the end of a command line the run does what was asked for; and nothing is asked for to begin with.
pub proof fn law_a_command_line_ends_in_a_run(given: (Seq<Seq<u8>>, bool), p: Progress)
    requires
        p.done is None,
        next_reply(given, p.calls) == Ok::<Option<GivenModel>, Seq<char>>(None),
    ensures
        p.args.files.len() > 0 ==> read_on(given, p).done == Some(
            Ok::<RunModel, Seq<char>>(RunModel::Show(p.args)),
        ),
        p.args.files.len() == 0 ==> read_on(given, p).done == Some(
            Ok::<RunModel, Seq<char>>(RunModel::Help),
        ),
        ({
            let a = unstarted(seq![]).args;
            &&& a.files.len() == 0
            &&& a.geometry is None && a.cap is None
            &&& !a.upscale && !a.fill_width && !a.fill_height
            &&& !a.force && !a.print && !a.interactive && !a.keep
            &&& a.background == seq![0u8, 0, 0]
        }),
{
}

} // verus!
