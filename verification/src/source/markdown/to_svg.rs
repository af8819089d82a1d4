//! A laid-out page as an SVG document.

use vstd::prelude::*;

use crate::args;
use crate::source::markdown::layout::Rgb;
use crate::text;
use crate::text::chars_of;

verus! {

/// The family name the faces register under, and that the document asks for.
pub fn family() -> (r: &'static str)
    ensures
        r@ == "Liberation Mono"@,
{
    "Liberation Mono"
}

/// A hexadecimal digit.
pub open spec fn hex_digit(d: int) -> char {
    if d < 10 {
        (48 + d) as char
    } else {
        (97 + d - 10) as char
    }
}

/// A byte as two hexadecimal digits.
pub open spec fn hex_byte(b: u8) -> Seq<char> {
    seq![hex_digit(b as int / 16), hex_digit(b as int % 16)]
}

/// A colour as a document writes it.
pub open spec fn hex_of(c: Rgb) -> Seq<char> {
    seq!['#'] + hex_byte(c.0) + hex_byte(c.1) + hex_byte(c.2)
}

fn push_hex(out: &mut String, b: u8)
    ensures
        final(out)@ == old(out)@ + hex_byte(b),
{
    let hi: u8 = b / 16;
    let lo: u8 = b % 16;
    let a: char = if hi < 10 {
        (48 + hi) as char
    } else {
        (87 + hi) as char
    };
    let z: char = if lo < 10 {
        (48 + lo) as char
    } else {
        (87 + lo) as char
    };
    out.push(a);
    out.push(z);
    assert(out@ =~= old(out)@ + hex_byte(b));
}

/// A colour as a document writes it.
pub fn hex(c: Rgb) -> (r: String)
    ensures
        r@ == hex_of(c),
{
    let mut out = String::new();
    out.push('#');
    push_hex(&mut out, c.0);
    push_hex(&mut out, c.1);
    push_hex(&mut out, c.2);
    assert(out@ =~= hex_of(c));
    out
}

/// What stands for a character in XML character data: an entity for markup, nothing for what XML
/// 1.0 forbids outright, the character itself otherwise.
//
// XML 1.0 permits almost no C0, and roxmltree
// rejects a whole document over one stray control
// character, so these are dropped, not escaped
pub open spec fn escaped_char(c: char) -> Seq<char> {
    let u = c as u32;
    if c == '&' {
        "&amp;"@
    } else if c == '<' {
        "&lt;"@
    } else if c == '>' {
        "&gt;"@
    } else if c == '"' {
        "&quot;"@
    } else if c == '\t' || c == '\n' || c == '\r' {
        seq![c]
    } else if u < 0x20 || 0x7f <= u <= 0x9f || u == 0xfffe || u == 0xffff {
        seq![]
    } else {
        seq![c]
    }
}

/// `s` as XML character data.
pub open spec fn escaped(s: Seq<char>) -> Seq<char>
    decreases s.len(),
{
    if s.len() == 0 {
        seq![]
    } else {
        escaped(s.drop_last()) + escaped_char(s.last())
    }
}

/// Escape `s` for use as XML character data, dropping anything XML 1.0 forbids outright.
pub fn escape(s: &str) -> (r: String)
    ensures
        r@ == escaped(s@),
{
    let chars = chars_of(s);
    let mut out = String::new();
    let mut i: usize = 0;
    while i < chars.len()
        invariant
            chars@ == s@,
            i <= chars@.len(),
            out@ == escaped(s@.take(i as int)),
        decreases chars.len() - i,
    {
        let ghost had = out@;
        assert(s@.take(i + 1).drop_last() =~= s@.take(i as int));
        let c = chars[i];
        let u: u32 = c as u32;
        if c == '&' {
            out.push_str("&amp;");
        } else if c == '<' {
            out.push_str("&lt;");
        } else if c == '>' {
            out.push_str("&gt;");
        } else if c == '"' {
            out.push_str("&quot;");
        } else if c == '\t' || c == '\n' || c == '\r' {
            out.push(c);
        } else if u < 0x20 || (0x7f <= u && u <= 0x9f) || u == 0xfffe || u == 0xffff {
        } else {
            out.push(c);
        }
        assert(out@ =~= had + escaped_char(c));
        i += 1;
    }
    assert(s@.take(i as int) =~= s@);
    out
}

/// Whether XML character data may hold `c` as it is.
pub open spec fn is_data(c: char) -> bool {
    let u = c as u32;
    &&& c != '<' && c != '>' && c != '"'
    &&& c == '\t' || c == '\n' || c == '\r' || !(u < 0x20 || 0x7f <= u <= 0x9f || u == 0xfffe || u
        == 0xffff)
}

/// Whatever a document says, its text stays text: nothing that was escaped opens or closes an
/// element, and nothing in it is forbidden.
pub proof fn law_escaped_text_is_data(s: Seq<char>)
    ensures
        forall|i: int| 0 <= i < escaped(s).len() ==> is_data(#[trigger] escaped(s)[i]),
    decreases s.len(),
{
    if s.len() > 0 {
        law_escaped_text_is_data(s.drop_last());
        reveal_strlit("&amp;");
        reveal_strlit("&lt;");
        reveal_strlit("&gt;");
        reveal_strlit("&quot;");
        let before = escaped(s.drop_last());
        let more = escaped_char(s.last());
        assert forall|i: int| 0 <= i < escaped(s).len() implies is_data(
            #[trigger] escaped(s)[i],
        ) by {
            if i < before.len() {
                assert(escaped(s)[i] == before[i]);
            } else {
                assert(escaped(s)[i] == more[i - before.len()]);
            }
        }
    }
}

/// Text that holds neither markup nor anything forbidden is left alone.
pub proof fn law_plain_text_is_left_alone(s: Seq<char>)
    requires
        forall|i: int| 0 <= i < s.len() ==> is_data(#[trigger] s[i]) && s[i] != '&',
    ensures
        escaped(s) == s,
    decreases s.len(),
{
    if s.len() > 0 {
        assert(is_data(s[s.len() - 1]));
        assert forall|i: int| 0 <= i < s.drop_last().len() implies is_data(
            #[trigger] s.drop_last()[i],
        ) && s.drop_last()[i] != '&' by {
            assert(is_data(s[i]));
        }
        law_plain_text_is_left_alone(s.drop_last());
        assert(escaped(s) =~= s);
    }
}

/// The opening of a document of `w` by `h` pixels, drawn `width` by `height`, with everything moved
/// down by `shift`. Numbers are
/// given as they are to be written.
//
// xml:space: usvg collapses whitespace and would strip the
// indentation off every line of every code block.
// font-kerning: layout positions each run by multiplying
// columns by one fixed advance, off which a kern pair moves
pub open spec fn opening(
    width: Seq<char>,
    height: Seq<char>,
    w: Seq<char>,
    h: Seq<char>,
    shift: Seq<char>,
    bg: Rgb,
) -> Seq<char> {
    "<svg xmlns='http://www.w3.org/2000/svg' width='"@ + width + "' height='"@ + height
        + "' viewBox='0 0 "@ + w + " "@ + h + "' preserveAspectRatio='none"@
        + "' xml:space='preserve'><rect width='100%' height='100%' fill='"@ + hex_of(bg)
        + "'/><g font-family='Liberation Mono' font-kerning='none' transform='translate(0,"@ + shift
        + ")'>"@
}

/// Append the opening of a document.
pub fn open(out: &mut String, width: &str, height: &str, w: &str, h: &str, shift: &str, bg: Rgb)
    ensures
        final(out)@ == old(out)@ + opening(width@, height@, w@, h@, shift@, bg),
{
    out.push_str("<svg xmlns='http://www.w3.org/2000/svg' width='");
    out.push_str(width);
    out.push_str("' height='");
    out.push_str(height);
    out.push_str("' viewBox='0 0 ");
    out.push_str(w);
    out.push_str(" ");
    out.push_str(h);
    out.push_str("' preserveAspectRatio='none");
    out.push_str("' xml:space='preserve'><rect width='100%' height='100%' fill='");
    out.push_str(hex(bg).as_str());
    out.push_str(
        "'/><g font-family='Liberation Mono' font-kerning='none' transform='translate(0,",
    );
    out.push_str(shift);
    out.push_str(")'>");
    assert(out@ =~= old(out)@ + opening(width@, height@, w@, h@, shift@, bg));
}

/// A filled rectangle.
pub open spec fn rectangle(
    x: Seq<char>,
    y: Seq<char>,
    w: Seq<char>,
    h: Seq<char>,
    fill: Rgb,
) -> Seq<char> {
    "<rect x='"@ + x + "' y='"@ + y + "' width='"@ + w + "' height='"@ + h + "' fill='"@ + hex_of(
        fill,
    ) + "'/>"@
}

/// Append a filled rectangle.
pub fn rect(out: &mut String, x: &str, y: &str, w: &str, h: &str, fill: Rgb)
    ensures
        final(out)@ == old(out)@ + rectangle(x@, y@, w@, h@, fill),
{
    out.push_str("<rect x='");
    out.push_str(x);
    out.push_str("' y='");
    out.push_str(y);
    out.push_str("' width='");
    out.push_str(w);
    out.push_str("' height='");
    out.push_str(h);
    out.push_str("' fill='");
    out.push_str(hex(fill).as_str());
    out.push_str("'/>");
    assert(out@ =~= old(out)@ + rectangle(x@, y@, w@, h@, fill));
}

/// How a run of text is drawn.
#[derive(Clone, Copy, Debug, PartialEq, Eq, Structural)]
pub struct Look {
    pub bold: bool,
    pub italic: bool,
    pub strike: bool,
    pub fill: Rgb,
}

/// An attribute, where it is asked for.
pub open spec fn attribute(asked: bool, t: Seq<char>) -> Seq<char> {
    if asked {
        t
    } else {
        seq![]
    }
}

/// The attributes of a run's look.
pub open spec fn look_of(look: Look) -> Seq<char> {
    attribute(look.bold, " font-weight='bold'"@) + attribute(look.italic, " font-style='italic'"@)
        + attribute(look.strike, " text-decoration='line-through'"@) + " fill='"@ + hex_of(
        look.fill,
    ) + "'"@
}

fn push_look(out: &mut String, look: Look)
    ensures
        final(out)@ == old(out)@ + look_of(look),
{
    if look.bold {
        out.push_str(" font-weight='bold'");
    }
    assert(out@ =~= old(out)@ + attribute(look.bold, " font-weight='bold'"@));
    let ghost bold = out@;
    if look.italic {
        out.push_str(" font-style='italic'");
    }
    assert(out@ =~= bold + attribute(look.italic, " font-style='italic'"@));
    let ghost italic = out@;
    if look.strike {
        out.push_str(" text-decoration='line-through'");
    }
    assert(out@ =~= italic + attribute(look.strike, " text-decoration='line-through'"@));
    out.push_str(" fill='");
    out.push_str(hex(look.fill).as_str());
    out.push_str("'");
    assert(out@ =~= old(out)@ + look_of(look));
}

/// A run of text, from `x` on and on the baseline `y`.
pub open spec fn run_of(
    x: Seq<char>,
    y: Seq<char>,
    size: Seq<char>,
    look: Look,
    t: Seq<char>,
) -> Seq<char> {
    "<text x='"@ + x + "' y='"@ + y + "' font-size='"@ + size + "'"@ + look_of(look) + ">"@
        + escaped(t) + "</text>"@
}

/// Append a run of text.
pub fn run(out: &mut String, x: &str, y: &str, size: &str, look: Look, t: &str)
    ensures
        final(out)@ == old(out)@ + run_of(x@, y@, size@, look, t@),
{
    out.push_str("<text x='");
    out.push_str(x);
    out.push_str("' y='");
    out.push_str(y);
    out.push_str("' font-size='");
    out.push_str(size);
    out.push_str("'");
    push_look(out, look);
    out.push_str(">");
    out.push_str(escape(t).as_str());
    out.push_str("</text>");
    assert(out@ =~= old(out)@ + run_of(x@, y@, size@, look, t@));
}

/// Append the end of a document.
pub fn close(out: &mut String)
    ensures
        final(out)@ == old(out)@ + "</g></svg>"@,
{
    out.push_str("</g></svg>");
}

/// The element of a run says that it is bold exactly where it is, and the same of italic and struck
/// through: for each of the eight looks the attributes are these, and its colour behind them.
pub proof fn law_a_run_looks_as_it_should(look: Look)
    ensures
        ({
            let fill = " fill='"@ + hex_of(look.fill) + "'"@;
            look_of(look) == (match (look.bold, look.italic, look.strike) {
                (false, false, false) => fill,
                (true, false, false) => " font-weight='bold'"@ + fill,
                (false, true, false) => " font-style='italic'"@ + fill,
                (true, true, false) => " font-weight='bold' font-style='italic'"@ + fill,
                (false, false, true) => " text-decoration='line-through'"@ + fill,
                (true, false, true) => " font-weight='bold' text-decoration='line-through'"@ + fill,
                (false, true, true) => " font-style='italic' text-decoration='line-through'"@ + fill,
                (true, true, true) =>
                    " font-weight='bold' font-style='italic' text-decoration='line-through'"@ + fill,
            })
        }),
{
    reveal_strlit(" font-weight='bold'");
    reveal_strlit(" font-style='italic'");
    reveal_strlit(" text-decoration='line-through'");
    reveal_strlit(" font-weight='bold' font-style='italic'");
    reveal_strlit(" font-weight='bold' text-decoration='line-through'");
    reveal_strlit(" font-style='italic' text-decoration='line-through'");
    reveal_strlit(" font-weight='bold' font-style='italic' text-decoration='line-through'");
    let fill = " fill='"@ + hex_of(look.fill) + "'"@;
    let (b, i, s) = (
        " font-weight='bold'"@,
        " font-style='italic'"@,
        " text-decoration='line-through'"@,
    );
    assert(" font-weight='bold' font-style='italic'"@ =~= b + i);
    assert(" font-weight='bold' text-decoration='line-through'"@ =~= b + s);
    assert(" font-style='italic' text-decoration='line-through'"@ =~= i + s);
    assert(" font-weight='bold' font-style='italic' text-decoration='line-through'"@ =~= b + i + s);
    match (look.bold, look.italic, look.strike) {
        (false, false, false) => {
            assert(look_of(look) =~= fill);
        },
        (true, false, false) => {
            assert(look_of(look) =~= b + fill);
        },
        (false, true, false) => {
            assert(look_of(look) =~= i + fill);
        },
        (true, true, false) => {
            assert(look_of(look) =~= b + i + fill);
        },
        (false, false, true) => {
            assert(look_of(look) =~= s + fill);
        },
        (true, false, true) => {
            assert(look_of(look) =~= b + s + fill);
        },
        (false, true, true) => {
            assert(look_of(look) =~= i + s + fill);
        },
        (true, true, true) => {
            assert(look_of(look) =~= b + i + s + fill);
        },
    }
}

/// A run's element says where it begins, on which baseline and how large, how it looks and what it
/// says, and nothing else.
pub proof fn law_a_run_is_one_element(
    x: Seq<char>,
    y: Seq<char>,
    size: Seq<char>,
    look: Look,
    t: Seq<char>,
)
    ensures
        run_of(x, y, size, look, t) == "<text x='"@ + x + "' y='"@ + y + "' font-size='"@ + size
            + "'"@ + look_of(look) + ">"@ + escaped(t) + "</text>"@,
{
}

/// A rectangle's element says where it begins, how wide and how tall it is and in what colour.
pub proof fn law_a_rectangle_is_one_element(
    x: Seq<char>,
    y: Seq<char>,
    w: Seq<char>,
    h: Seq<char>,
    fill: Rgb,
)
    ensures
        rectangle(x, y, w, h, fill) == "<rect x='"@ + x + "' y='"@ + y + "' width='"@ + w
            + "' height='"@ + h + "' fill='"@ + hex_of(fill) + "'/>"@,
{
}

/// A colour is written so that it reads back as itself: red, green and blue, in that order.
pub proof fn law_a_colour_reads_back(c: Rgb)
    ensures
        args::colour_of(hex_of(c)) == Some(seq![c.0, c.1, c.2]),
        hex_of(c).len() == 7,
        hex_of(c)[0] == '#',
{
    let h = hex_of(c);
    let d = h.skip(1);
    assert(h =~= seq!['#', h[1], h[2], h[3], h[4], h[5], h[6]]);
    assert(d[0] == h[1] && d[1] == h[2] && d[2] == h[3] && d[3] == h[4] && d[4] == h[5] && d[5]
        == h[6]);
    lemma_hex_back(c.0);
    lemma_hex_back(c.1);
    lemma_hex_back(c.2);
    assert(h[1] == hex_byte(c.0)[0] && h[2] == hex_byte(c.0)[1]);
    assert(h[3] == hex_byte(c.1)[0] && h[4] == hex_byte(c.1)[1]);
    assert(h[5] == hex_byte(c.2)[0] && h[6] == hex_byte(c.2)[1]);
}

proof fn lemma_hex_back(b: u8)
    ensures
        args::hex_pair(hex_byte(b)[0], hex_byte(b)[1]) == Some(b),
{
    let (hi, lo) = (b as int / 16, b as int % 16);
    assert(hi * 16 + lo == b);
}

/// What a text says survives escaping, character by character: markup as its entity, what XML forbids
/// not at all, and all else as it is.
pub proof fn law_escaping_goes_by_character(a: Seq<char>, b: Seq<char>, c: char)
    ensures
        escaped(a + b) == escaped(a) + escaped(b),
        escaped(seq!['&']) == "&amp;"@,
        escaped(seq!['<']) == "&lt;"@,
        escaped(seq!['>']) == "&gt;"@,
        escaped(seq!['"']) == "&quot;"@,
        is_data(c) && c != '&' ==> escaped(seq![c]) == seq![c],
        !is_data(c) && c != '<' && c != '>' && c != '"' ==> escaped(seq![c]).len() == 0,
{
    lemma_escaped_joins(a, b);
    lemma_escaped_one('&');
    lemma_escaped_one('<');
    lemma_escaped_one('>');
    lemma_escaped_one('"');
    lemma_escaped_one(c);
}

proof fn lemma_escaped_one(c: char)
    ensures
        escaped(seq![c]) == escaped_char(c),
{
    assert(seq![c].drop_last() =~= seq![]);
    assert(escaped(seq![c].drop_last()) =~= seq![]);
    assert(escaped(seq![c]) =~= escaped_char(c));
}

proof fn lemma_escaped_joins(a: Seq<char>, b: Seq<char>)
    ensures
        escaped(a + b) == escaped(a) + escaped(b),
    decreases b.len(),
{
    if b.len() == 0 {
        assert(a + b =~= a);
        assert(escaped(a) + escaped(b) =~= escaped(a));
    } else {
        assert((a + b).drop_last() =~= a + b.drop_last());
        lemma_escaped_joins(a, b.drop_last());
        assert(escaped(a + b) =~= escaped(a) + escaped(b));
    }
}

/// A document says how large it is drawn, what it shows of itself, its background over all of it, the
/// face its text is set in and by how much it is moved.
pub proof fn law_a_document_opens_with_its_size(
    width: Seq<char>,
    height: Seq<char>,
    w: Seq<char>,
    h: Seq<char>,
    shift: Seq<char>,
    bg: Rgb,
)
    ensures
        ({
            let sized = "<svg xmlns='http://www.w3.org/2000/svg' width='"@ + width + "' height='"@
                + height + "' viewBox='0 0 "@ + w + " "@ + h + "' preserveAspectRatio='none"@;
            let filled = "' xml:space='preserve'><rect width='100%' height='100%' fill='"@ + hex_of(
                bg,
            ) + "'/>"@;
            let moved =
                "<g font-family='Liberation Mono' font-kerning='none' transform='translate(0,"@ + shift
                + ")'>"@;
            opening(width, height, w, h, shift, bg) == sized + filled + moved
        }),
{
    reveal_strlit("'/>");
    reveal_strlit("<g font-family='Liberation Mono' font-kerning='none' transform='translate(0,");
    reveal_strlit("'/><g font-family='Liberation Mono' font-kerning='none' transform='translate(0,");
    let sized = "<svg xmlns='http://www.w3.org/2000/svg' width='"@ + width + "' height='"@ + height
        + "' viewBox='0 0 "@ + w + " "@ + h + "' preserveAspectRatio='none"@;
    let filled = "' xml:space='preserve'><rect width='100%' height='100%' fill='"@ + hex_of(bg)
        + "'/>"@;
    let moved = "<g font-family='Liberation Mono' font-kerning='none' transform='translate(0,"@ + shift
        + ")'>"@;
    assert("'/><g font-family='Liberation Mono' font-kerning='none' transform='translate(0,"@
        =~= "'/>"@
        + "<g font-family='Liberation Mono' font-kerning='none' transform='translate(0,"@);
    assert(opening(width, height, w, h, shift, bg) =~= sized + filled + moved);
}

} // verus!
