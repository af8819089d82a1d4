//! The settings file: a flat subset of TOML.

use vstd::prelude::*;

use crate::text;
use crate::text::{chars_of, equals, find_chars, numeral, push_chars, quoted, split_lines, string_of, trim_range};

verus! {

/// Whether a run opens the viewer or prints and exits.
#[derive(Clone, Copy, Debug, PartialEq, Eq, Structural)]
pub enum Mode {
    Print,
    View,
}

/// The settings read from the file, each `None` where it is unset.
#[derive(Clone, Copy, Debug, PartialEq, Eq, Structural)]
pub struct Config {
    pub mode: Option<Mode>,
    pub max_px: Option<u64>,
}

impl Config {
    /// Nothing set.
    pub open spec fn unset() -> Config {
        Config { mode: None, max_px: None }
    }
}

impl Default for Config {
    fn default() -> (r: Self)
        ensures
            r == Config::unset(),
    {
        Config { mode: None, max_px: None }
    }
}

/// The most pixels an image has where nothing says otherwise.
pub const MAX_PX: u64 = 1_048_576;

/// The file written where there is none: every setting, commented out at its default.
pub fn default_text() -> (r: &'static str)
    ensures
        r@ == "\
# gat settings. Uncomment a line to change it; a flag on the command line
# wins over this file.

# what a run does with neither -p nor -i: \"view\" or \"print\"
# mode = \"view\"

# the most pixels an image sent to the terminal may have, as a count or as a
# string such as \"2M\". a document's width is held to the square root
# cap = 1048576
"@,
{
    "\
# gat settings. Uncomment a line to change it; a flag on the command line
# wins over this file.

# what a run does with neither -p nor -i: \"view\" or \"print\"
# mode = \"view\"

# the most pixels an image sent to the terminal may have, as a count or as a
# string such as \"2M\". a document's width is held to the square root
# cap = 1048576
"
}

/// Where the digits from `i` on end.
pub open spec fn digits_end(s: Seq<char>, i: int) -> int
    decreases s.len() - i,
{
    if 0 <= i < s.len() && text::is_digit(s[i]) {
        digits_end(s, i + 1)
    } else {
        i
    }
}

/// A number as it is written: its sign, its digits on either side of the point, its exponent.
pub struct Decimal {
    pub negative: bool,
    pub digits: Seq<char>,
    /// How many of the digits stand in front of the point, once the exponent has moved it.
    pub point: int,
}

/// The number that digits write.
pub open spec fn number(digits: Seq<char>) -> nat
    decreases digits.len(),
{
    if digits.len() == 0 {
        0
    } else {
        number(digits.drop_last()) * 10 + digit_value(digits.last())
    }
}

/// The value of a digit.
pub open spec fn digit_value(c: char) -> nat {
    if text::is_digit(c) {
        (c as u32 - 48) as nat
    } else {
        0
    }
}

/// Where what follows an optional sign at `i` begins.
pub open spec fn after_sign(s: Seq<char>, i: int) -> int {
    if 0 <= i < s.len() && (s[i] == '+' || s[i] == '-') {
        i + 1
    } else {
        i
    }
}

/// The exponent written from `i` to the end of `s`: nothing, or `e`, a sign and digits.
pub open spec fn exponent(s: Seq<char>, i: int) -> Option<int> {
    if i == s.len() {
        Some(0)
    } else if 0 <= i < s.len() && (s[i] == 'e' || s[i] == 'E') {
        let from = after_sign(s, i + 1);
        let end = digits_end(s, from);
        if end == s.len() && from < end {
            let n = number(s.subrange(from, end)) as int;
            Some(
                if s[i + 1] == '-' {
                    -n
                } else {
                    n
                },
            )
        } else {
            None
        }
    } else {
        None
    }
}

/// `s` as a decimal number: a sign, digits with a point before, among or behind them, and an
/// exponent, of which only the digits must be there.
pub open spec fn decimal(s: Seq<char>) -> Option<Decimal> {
    let from = after_sign(s, 0);
    let whole = digits_end(s, from);
    let (fraction, end) = if whole < s.len() && s[whole] == '.' {
        (s.subrange(whole + 1, digits_end(s, whole + 1)), digits_end(s, whole + 1))
    } else {
        (seq![], whole)
    };
    let digits = s.subrange(from, whole) + fraction;
    match exponent(s, end) {
        Some(e) => if digits.len() > 0 {
            Some(Decimal { negative: from > 0 && s[0] == '-', digits, point: whole - from + e })
        } else {
            None
        },
        None => None,
    }
}

/// The whole number that the first `n` digits write, with zeroes behind the last.
pub open spec fn whole_part(digits: Seq<char>, n: int) -> nat
    decreases n,
{
    if n <= 0 {
        0
    } else {
        whole_part(digits, n - 1) * 10 + if n <= digits.len() {
            digit_value(digits[n - 1])
        } else {
            0
        }
    }
}

/// The whole number nearest to the digits with `point` of them in front of the point; a half goes
/// up.
pub open spec fn rounded(digits: Seq<char>, point: int) -> nat {
    whole_part(digits, point) + if 0 <= point < digits.len() && digit_value(digits[point]) >= 5 {
        1nat
    } else {
        0nat
    }
}

/// How many places a pixel count's suffix moves the point.
pub open spec fn suffix_places(s: Seq<char>) -> int {
    if s.len() == 0 {
        0
    } else {
        match s.last() {
            'k' | 'K' => 3,
            'm' | 'M' => 6,
            _ => 0,
        }
    }
}

/// The pixel count `s` writes: a number, with a `K` for thousands or an `M` for millions, to the
/// nearest pixel; at least one, and no more than fit.
pub open spec fn pixels(s: Seq<char>) -> Option<u64> {
    let places = suffix_places(s);
    let num = if places > 0 {
        s.drop_last()
    } else {
        s
    };
    count_of(decimal(num), places)
}

/// The pixel count a number is, with the point moved by `places`.
pub open spec fn count_of(d: Option<Decimal>, places: int) -> Option<u64> {
    match d {
        Some(d) => {
            let px = rounded(d.digits, d.point + places);
            if !d.negative && 1 <= px <= u64::MAX {
                Some(px as u64)
            } else {
                None
            }
        },
        None => None,
    }
}

/// Zeroes in front add nothing, and each place behind the digits is a factor of ten.
proof fn lemma_whole_part(digits: Seq<char>, n: int, m: int)
    requires
        digits.len() <= n <= m,
    ensures
        whole_part(digits, n) == 0 ==> whole_part(digits, m) == 0,
        whole_part(digits, n) > 0 ==> whole_part(digits, m) >= whole_part(digits, n) + (m - n),
    decreases m - n,
{
    if n < m {
        lemma_whole_part(digits, n, m - 1);
    }
}

proof fn lemma_whole_part_grows(digits: Seq<char>, n: int, m: int)
    requires
        n <= m,
    ensures
        whole_part(digits, n) <= whole_part(digits, m),
    decreases m - n,
{
    if n < m {
        lemma_whole_part_grows(digits, n, m - 1);
    }
}

proof fn lemma_digits_end(s: Seq<char>, i: int)
    requires
        0 <= i <= s.len(),
    ensures
        i <= digits_end(s, i) <= s.len(),
        forall|j: int| i <= j < digits_end(s, i) ==> text::is_digit(s[j]),
    decreases s.len() - i,
{
    if i < s.len() && text::is_digit(s[i]) {
        lemma_digits_end(s, i + 1);
    }
}

/// Where the digits from `i` on end.
fn end_of_digits(s: &[char], i: usize) -> (r: usize)
    requires
        i <= s@.len(),
    ensures
        r == digits_end(s@, i as int),
        i <= r <= s@.len(),
{
    let mut k: usize = i;
    while k < s.len() && numeral(s[k])
        invariant
            i <= k <= s@.len(),
            digits_end(s@, i as int) == digits_end(s@, k as int),
        decreases s.len() - k,
    {
        k += 1;
    }
    k
}

/// Where what follows an optional sign at `i` begins.
fn skip_sign(s: &[char], i: usize) -> (r: usize)
    requires
        i <= s@.len(),
    ensures
        r == after_sign(s@, i as int),
        i <= r <= s@.len(),
{
    if i < s.len() && (s[i] == '+' || s[i] == '-') {
        i + 1
    } else {
        i
    }
}

/// A number so far from zero that no digits could bring a count of pixels back from it.
pub open spec fn far() -> int {
    0x1_0000_0000_0000_0000_0000
}

/// The number that digits write, or `far` where it is more.
fn small_number(s: &[char], from: usize, to: usize) -> (r: i128)
    requires
        from <= to <= s@.len(),
        forall|j: int| from <= j < to ==> text::is_digit(s@[j]),
    ensures
        r == number(s@.subrange(from as int, to as int)) || (r == far() && number(
            s@.subrange(from as int, to as int),
        ) >= far()),
        0 <= r <= far(),
{
    let mut n: i128 = 0;
    let mut i: usize = from;
    while i < to
        invariant
            from <= i <= to <= s@.len(),
            forall|j: int| from <= j < to ==> text::is_digit(s@[j]),
            n == number(s@.subrange(from as int, i as int)) || (n == far() && number(
                s@.subrange(from as int, i as int),
            ) >= far()),
            0 <= n <= far(),
        decreases to - i,
    {
        assert(s@.subrange(from as int, i + 1).drop_last() =~= s@.subrange(from as int, i as int));
        let d: u32 = s[i] as u32 - 48;
        let next: i128 = n * 10 + d as i128;
        if next > 0x1_0000_0000_0000_0000_0000 {
            n = 0x1_0000_0000_0000_0000_0000;
        } else {
            n = next;
        }
        i += 1;
    }
    n
}

/// The exponent written from `i` to the end of `s`, no farther from zero than `far`.
fn small_exponent(s: &[char], i: usize) -> (r: Option<i128>)
    requires
        i <= s@.len(),
    ensures
        r is Some == exponent(s@, i as int) is Some,
        r matches Some(e) ==> {
            let x = exponent(s@, i as int)->0;
            &&& e == x || (e == far() && x >= far()) || (e == -far() && x <= -far())
            &&& -far() <= e <= far()
        },
{
    if i == s.len() {
        return Some(0);
    }
    if s[i] != 'e' && s[i] != 'E' {
        return None;
    }
    let from: usize = skip_sign(s, i + 1);
    let end: usize = end_of_digits(s, from);
    if end != s.len() || from >= end {
        return None;
    }
    proof {
        lemma_digits_end(s@, from as int);
    }
    let n: i128 = small_number(s, from, end);
    if s[i + 1] == '-' {
        Some(-n)
    } else {
        Some(n)
    }
}

/// The digits' value to the nearest whole number, where that is a count of pixels.
fn round_digits(digits: &Vec<char>, point: i128) -> (r: Option<u64>)
    requires
        forall|j: int| 0 <= j < digits@.len() ==> text::is_digit(digits@[j]),
    ensures
        r matches Some(px) ==> px == rounded(digits@, point as int) && px >= 1,
        r is None ==> !(1 <= rounded(digits@, point as int) <= u64::MAX),
{
    let len: usize = digits.len();
    let mut n: u128 = 0;
    let mut i: i128 = 0;
    while i < point
        invariant
            len == digits@.len(),
            forall|j: int| 0 <= j < digits@.len() ==> text::is_digit(digits@[j]),
            0 <= i,
            i <= point || i == 0,
            n == whole_part(digits@, i as int),
            n <= u64::MAX,
        decreases point - i,
    {
        let d: u128 = if i < len as i128 {
            let at: usize = i as usize;
            (digits[at] as u32 - 48) as u128
        } else {
            if n == 0 {
                proof {
                    lemma_whole_part(digits@, i as int, point as int);
                }
                return None;
            }
            0
        };
        n = n * 10 + d;
        i = i + 1;
        if n > 0xffff_ffff_ffff_ffff {
            proof {
                lemma_whole_part_grows(digits@, i as int, point as int);
            }
            return None;
        }
    }
    assert(whole_part(digits@, point as int) == n);
    if 0 <= point && point < len as i128 {
        let at: usize = point as usize;
        if digits[at] as u32 >= 53 {
            n = n + 1;
        }
    }
    if 1 <= n && n <= 0xffff_ffff_ffff_ffff {
        Some(n as u64)
    } else {
        None
    }
}

/// A point moved beyond `far` leaves no count of pixels, wherever beyond it lies.
proof fn lemma_far(digits: Seq<char>, point: int)
    requires
        digits.len() <= u64::MAX,
        point >= far() - 2 * u64::MAX || point < 0,
    ensures
        !(1 <= rounded(digits, point) <= u64::MAX),
{
    if point >= 0 {
        lemma_whole_part(digits, digits.len() as int, point);
    }
}

/// A number as it is written: its digits, those in front of the point, its exponent.
struct Written {
    negative: bool,
    digits: Vec<char>,
    whole: usize,
    exponent: i128,
}

/// The number `s` writes, where it writes one, its exponent no farther from zero than `far`.
fn read_decimal(num: &[char]) -> (r: Option<Written>)
    ensures
        r is Some == decimal(num@) is Some,
        r matches Some(w) ==> {
            let d = decimal(num@)->0;
            let x = d.point - w.whole;
            &&& w.negative == d.negative
            &&& w.digits@ == d.digits
            &&& w.whole <= w.digits@.len()
            &&& forall|j: int| 0 <= j < w.digits@.len() ==> text::is_digit(w.digits@[j])
            &&& w.exponent == x || (w.exponent == far() && x >= far()) || (w.exponent == -far() && x
                <= -far())
            &&& -far() <= w.exponent <= far()
        },
{
    let from: usize = skip_sign(num, 0);
    let whole: usize = end_of_digits(num, from);
    let mut digits: Vec<char> = Vec::new();
    digits.extend_from_slice(vstd::slice::slice_subrange(num, from, whole));
    assert(digits@ =~= num@.subrange(from as int, whole as int));
    let mut end: usize = whole;
    proof {
        lemma_digits_end(num@, from as int);
    }
    if whole < num.len() && num[whole] == '.' {
        end = end_of_digits(num, whole + 1);
        proof {
            lemma_digits_end(num@, whole + 1);
        }
        digits.extend_from_slice(vstd::slice::slice_subrange(num, whole + 1, end));
        assert(digits@ =~= num@.subrange(from as int, whole as int) + num@.subrange(
            whole + 1,
            end as int,
        ));
    } else {
        assert(digits@ =~= num@.subrange(from as int, whole as int) + Seq::<char>::empty());
    }
    match small_exponent(num, end) {
        Some(exponent) => if digits.len() > 0 {
            let negative = from > 0 && num[0] == '-';
            Some(Written { negative, digits, whole: whole - from, exponent })
        } else {
            None
        },
        None => None,
    }
}

/// The pixel count a written number is, with the point moved by `places`.
fn read_count(num: &[char], places: u8) -> (r: Option<u64>)
    requires
        places <= 6,
    ensures
        r == count_of(decimal(num@), places as int),
{
    match read_decimal(num) {
        Some(w) => {
            if w.negative {
                return None;
            }
            let len: usize = w.digits.len();
            let point: i128 = w.whole as i128 + w.exponent + places as i128;
            proof {
                let d = decimal(num@)->0;
                assert(len == d.digits.len());
                if point != d.point + places {
                    lemma_far(d.digits, d.point + places);
                    lemma_far(d.digits, point as int);
                }
            }
            round_digits(&w.digits, point)
        },
        None => None,
    }
}

/// The pixel count `s` writes, where it writes one.
fn read_pixels(s: &[char]) -> (r: Option<u64>)
    ensures
        r == pixels(s@),
{
    let len: usize = s.len();
    let mut n: usize = len;
    let mut places: u8 = 0;
    if len > 0 {
        match s[len - 1] {
            'k' | 'K' => {
                places = 3;
                n = len - 1;
            },
            'm' | 'M' => {
                places = 6;
                n = len - 1;
            },
            _ => {},
        }
    }
    let num = vstd::slice::slice_subrange(s, 0, n);
    assert(num@ =~= if places > 0 {
        s@.drop_last()
    } else {
        s@
    });
    read_count(num, places)
}

/// What is said of a pixel count that is none.
pub open spec fn bad_pixels(s: Seq<char>) -> Seq<char> {
    "cap wants a pixel count such as 1048576 or 2M, not "@ + text::debug_quoted(s)
}

/// Parse a pixel count: a whole number, or one with a K or M suffix for thousands or millions, as
/// in `2M` or `1.5M`.
pub fn parse_pixels(s: &str) -> (r: Result<u64, String>)
    ensures
        r matches Ok(px) ==> pixels(s@) == Some(px),
        r matches Err(e) ==> pixels(s@) is None && e@ == bad_pixels(s@),
{
    let chars = chars_of(s);
    match read_pixels(&chars) {
        Some(px) => Ok(px),
        None => {
            let mut e = "cap wants a pixel count such as 1048576 or 2M, not ".to_owned();
            e.push_str(quoted(s).as_str());
            Err(e)
        },
    }
}

/// Where the comment of a line begins, looking from `i` on: at a `#` outside quotes, or at the end.
pub open spec fn comment_at(line: Seq<char>, i: int, inside: bool) -> int
    decreases line.len() - i,
{
    if i < 0 || i >= line.len() || (line[i] == '#' && !inside) {
        i
    } else {
        comment_at(line, i + 1, inside != (line[i] == '"'))
    }
}

/// A line up to a `#` that is not inside a string.
pub open spec fn uncommented(line: Seq<char>) -> Seq<char> {
    line.take(comment_at(line, 0, false))
}

/// What stands between the quotes of a string that holds neither quotes nor escapes.
pub open spec fn unquoted(value: Seq<char>) -> Option<Seq<char>> {
    if value.len() >= 2 && value[0] == '"' && value.last() == '"' {
        let inner = value.subrange(1, value.len() - 1);
        if inner.contains('"') || inner.contains('\\') {
            None
        } else {
            Some(inner)
        }
    } else {
        None
    }
}

/// `s` without its underscores.
pub open spec fn without_underscores(s: Seq<char>) -> Seq<char>
    decreases s.len(),
{
    if s.len() == 0 {
        s
    } else if s.last() == '_' {
        without_underscores(s.drop_last())
    } else {
        without_underscores(s.drop_last()).push(s.last())
    }
}

/// Whether `s` is an integer as TOML writes one: digits and underscores.
pub open spec fn is_integer(s: Seq<char>) -> bool {
    &&& s.len() > 0
    &&& forall|i: int| 0 <= i < s.len() ==> text::is_digit(#[trigger] s[i]) || s[i] == '_'
}

/// The mode a value names.
pub open spec fn mode_value(value: Seq<char>) -> Result<Mode, Seq<char>> {
    match unquoted(value) {
        None => Err("expected a quoted string, found "@ + value),
        Some(s) => if s == "print"@ {
            Ok(Mode::Print)
        } else if s == "view"@ {
            Ok(Mode::View)
        } else {
            Err("mode is \"print\" or \"view\", not "@ + text::debug_quoted(s))
        },
    }
}

/// The pixel count that `s` is, or what is wrong with it.
pub open spec fn pixel_count(s: Seq<char>) -> Result<u64, Seq<char>> {
    match pixels(s) {
        Some(px) => Ok(px),
        None => Err(bad_pixels(s)),
    }
}

/// The pixel count a value names: an integer, or a string for the suffixed forms.
pub open spec fn cap_value(value: Seq<char>) -> Result<u64, Seq<char>> {
    match unquoted(value) {
        Some(s) => pixel_count(s),
        None => if is_integer(value) {
            pixel_count(without_underscores(value))
        } else {
            Err("cap is an integer, or a string such as \"2M\", not "@ + value)
        },
    }
}

/// The settings with one more, or what is wrong with it.
pub open spec fn with_entry(c: Config, key: Seq<char>, value: Seq<char>) -> Result<
    Config,
    Seq<char>,
> {
    if key == "mode"@ {
        if c.mode is Some {
            Err("mode is set twice"@)
        } else {
            match mode_value(value) {
                Ok(m) => Ok(Config { mode: Some(m), ..c }),
                Err(e) => Err(e),
            }
        }
    } else if key == "cap"@ {
        if c.max_px is Some {
            Err("cap is set twice"@)
        } else {
            match cap_value(value) {
                Ok(px) => Ok(Config { max_px: Some(px), ..c }),
                Err(e) => Err(e),
            }
        }
    } else {
        Err("unknown key "@ + text::debug_quoted(key))
    }
}

/// The settings after one more line, or what is wrong with it.
pub open spec fn with_line(c: Config, line: Seq<char>) -> Result<Config, Seq<char>> {
    let l = text::trim(uncommented(line));
    if l.len() == 0 {
        Ok(c)
    } else if l[0] == '[' {
        Err("tables are not supported; settings go at the top level"@)
    } else {
        match text::first_from(l, seq!['='], 0) {
            Some(at) => with_entry(c, text::trim(l.take(at)), text::trim(l.skip(at + 1))),
            None => Err("expected key = value, found "@ + text::debug_quoted(l)),
        }
    }
}

/// The settings of the first `n` lines, or the number of the first line that is wrong and why.
pub open spec fn settings(lines: Seq<Seq<char>>, n: int) -> Result<Config, (int, Seq<char>)>
    decreases n,
{
    if n <= 0 {
        Ok(Config::unset())
    } else {
        match settings(lines, n - 1) {
            Err(e) => Err(e),
            Ok(c) => match with_line(c, lines[n - 1]) {
                Ok(c) => Ok(c),
                Err(e) => Err((n, e)),
            },
        }
    }
}

/// A prefix followed by a value, as an error says them.
fn said(prefix: &str, value: &[char]) -> (r: String)
    ensures
        r@ == prefix@ + value@,
{
    let mut out = prefix.to_owned();
    push_chars(&mut out, value);
    out
}

/// A prefix followed by a value in quotes, as an error says them.
fn said_quoted(prefix: &str, value: &[char]) -> (r: String)
    ensures
        r@ == prefix@ + text::debug_quoted(value@),
{
    let mut out = prefix.to_owned();
    let plain = string_of(value, 0, value.len());
    assert(plain@ =~= value@);
    out.push_str(quoted(plain.as_str()).as_str());
    out
}

/// Where the comment of `line` begins.
fn strip_comment_at(line: &[char]) -> (r: usize)
    ensures
        r == comment_at(line@, 0, false),
        r <= line@.len(),
{
    let mut inside = false;
    let mut i: usize = 0;
    while i < line.len()
        invariant
            i <= line@.len(),
            comment_at(line@, 0, false) == comment_at(line@, i as int, inside),
        decreases line.len() - i,
    {
        if line[i] == '#' && !inside {
            return i;
        }
        if line[i] == '"' {
            inside = !inside;
        }
        i += 1;
    }
    i
}

/// `line` up to a `#` that is not inside a string.
pub fn strip_comment(line: &str) -> (r: String)
    ensures
        r@ == uncommented(line@),
{
    let chars = chars_of(line);
    let end: usize = strip_comment_at(&chars);
    string_of(&chars, 0, end)
}

/// Whether `s` holds a quote or a backslash.
fn has_escape(s: &[char]) -> (r: bool)
    ensures
        r == (s@.contains('"') || s@.contains('\\')),
{
    let mut i: usize = 0;
    while i < s.len()
        invariant
            i <= s@.len(),
            forall|j: int| 0 <= j < i ==> s@[j] != '"' && s@[j] != '\\',
        decreases s.len() - i,
    {
        if s[i] == '"' || s[i] == '\\' {
            assert(s@.contains(s@[i as int]));
            return true;
        }
        i += 1;
    }
    false
}

/// The contents of a double-quoted string holding no escapes.
fn string(value: &[char]) -> (r: Option<Vec<char>>)
    ensures
        r is Some == unquoted(value@) is Some,
        r matches Some(s) ==> unquoted(value@) == Some(s@),
{
    let n: usize = value.len();
    if n < 2 || value[0] != '"' || value[n - 1] != '"' {
        return None;
    }
    let inner = vstd::slice::slice_subrange(value, 1, n - 1);
    if has_escape(inner) {
        return None;
    }
    let mut out: Vec<char> = Vec::new();
    out.extend_from_slice(inner);
    assert(out@ =~= inner@);
    Some(out)
}

fn read_mode(value: &[char]) -> (r: Result<Mode, String>)
    ensures
        r matches Ok(m) ==> mode_value(value@) == Ok::<Mode, Seq<char>>(m),
        r matches Err(e) ==> mode_value(value@) == Err::<Mode, Seq<char>>(e@),
{
    match string(value) {
        None => Err(said("expected a quoted string, found ", value)),
        Some(s) => if equals(&s, "print") {
            Ok(Mode::Print)
        } else if equals(&s, "view") {
            Ok(Mode::View)
        } else {
            Err(said_quoted("mode is \"print\" or \"view\", not ", &s))
        },
    }
}

/// `s` without its underscores, where it is an integer as TOML writes one.
fn integer(s: &[char]) -> (r: Option<Vec<char>>)
    ensures
        r is Some == is_integer(s@),
        r matches Some(n) ==> n@ == without_underscores(s@),
{
    let mut out: Vec<char> = Vec::new();
    let mut i: usize = 0;
    while i < s.len()
        invariant
            i <= s@.len(),
            forall|j: int| 0 <= j < i ==> text::is_digit(#[trigger] s@[j]) || s@[j] == '_',
            out@ == without_underscores(s@.take(i as int)),
        decreases s.len() - i,
    {
        if !numeral(s[i]) && s[i] != '_' {
            return None;
        }
        assert(s@.take(i + 1).drop_last() =~= s@.take(i as int));
        if s[i] != '_' {
            out.push(s[i]);
        }
        i += 1;
    }
    assert(s@.take(i as int) =~= s@);
    if s.len() > 0 {
        Some(out)
    } else {
        None
    }
}

fn read_cap(value: &[char]) -> (r: Result<u64, String>)
    ensures
        r matches Ok(px) ==> cap_value(value@) == Ok::<u64, Seq<char>>(px),
        r matches Err(e) ==> cap_value(value@) == Err::<u64, Seq<char>>(e@),
{
    // an integer as TOML writes one, or a string for
    // the suffixed forms --cap takes, since 2M is not
    // a TOML number
    let count = match string(value) {
        Some(s) => s,
        None => match integer(value) {
            Some(s) => s,
            None => {
                return Err(said("cap is an integer, or a string such as \"2M\", not ", value));
            },
        },
    };
    let count = string_of(&count, 0, count.len());
    assert(count@ =~= if unquoted(value@) is Some {
        unquoted(value@)->0
    } else {
        without_underscores(value@)
    });
    parse_pixels(count.as_str())
}

fn read_entry(c: Config, key: &[char], value: &[char]) -> (r: Result<Config, String>)
    ensures
        r matches Ok(n) ==> with_entry(c, key@, value@) == Ok::<Config, Seq<char>>(n),
        r matches Err(e) ==> with_entry(c, key@, value@) == Err::<Config, Seq<char>>(e@),
{
    if equals(key, "mode") {
        if c.mode.is_some() {
            return Err("mode is set twice".to_owned());
        }
        match read_mode(value) {
            Ok(m) => Ok(Config { mode: Some(m), ..c }),
            Err(e) => Err(e),
        }
    } else if equals(key, "cap") {
        if c.max_px.is_some() {
            return Err("cap is set twice".to_owned());
        }
        match read_cap(value) {
            Ok(px) => Ok(Config { max_px: Some(px), ..c }),
            Err(e) => Err(e),
        }
    } else {
        Err(said_quoted("unknown key ", key))
    }
}

fn read_line(c: Config, line: &[char]) -> (r: Result<Config, String>)
    ensures
        r matches Ok(n) ==> with_line(c, line@) == Ok::<Config, Seq<char>>(n),
        r matches Err(e) ==> with_line(c, line@) == Err::<Config, Seq<char>>(e@),
{
    let end: usize = strip_comment_at(line);
    let (from, to) = trim_range(line, 0, end);
    let l = vstd::slice::slice_subrange(line, from, to);
    assert(line@.subrange(0, end as int) =~= uncommented(line@));
    assert(l@ == text::trim(uncommented(line@)));
    if l.len() == 0 {
        return Ok(c);
    }
    if l[0] == '[' {
        return Err("tables are not supported; settings go at the top level".to_owned());
    }
    let eq = ['='];
    assert(eq@ =~= seq!['=']);
    match find_chars(l, &eq, 0) {
        None => Err(said_quoted("expected key = value, found ", l)),
        Some(at) => {
            let (a, b) = trim_range(l, 0, at);
            let key = vstd::slice::slice_subrange(l, a, b);
            assert(l@.subrange(0, at as int) =~= l@.take(at as int));
            let (a, b) = trim_range(l, at + 1, l.len());
            let value = vstd::slice::slice_subrange(l, a, b);
            assert(l@.subrange(at + 1, l@.len() as int) =~= l@.skip(at + 1));
            read_entry(c, key, value)
        },
    }
}

/// Parse the file's text, or say which line is wrong and why.
pub fn parse(text: &str) -> (r: Result<Config, (usize, String)>)
    ensures
        ({
            let lines = text::lines_of(text@);
            let all = settings(lines, lines.len() as int);
            &&& r matches Ok(c) ==> all == Ok::<Config, (int, Seq<char>)>(c)
            &&& r matches Err((n, e)) ==> all == Err::<Config, (int, Seq<char>)>((n as int, e@))
        }),
{
    let chars = chars_of(text);
    let lines = split_lines(&chars, chars.len());
    assert(chars@.take(chars@.len() as int) =~= text@);
    let ghost all = text::lines_of(text@);
    assert(text::strings(lines@) == all);
    let mut c = Config { mode: None, max_px: None };
    let mut i: usize = 0;
    while i < lines.len()
        invariant
            i <= lines@.len(),
            text::strings(lines@) == all,
            all == text::lines_of(text@),
            settings(all, i as int) == Ok::<Config, (int, Seq<char>)>(c),
        decreases lines.len() - i,
    {
        let line = chars_of(lines[i].as_str());
        assert(line@ == all[i as int]);
        match read_line(c, &line) {
            Ok(next) => {
                c = next;
            },
            Err(e) => {
                proof {
                    lemma_settings_stop(all, i + 1, all.len() as int);
                }
                return Err((i + 1, e));
            },
        }
        i += 1;
    }
    Ok(c)
}

/// The first mistake is the one reported, whatever follows it.
pub proof fn lemma_settings_stop(lines: Seq<Seq<char>>, n: int, m: int)
    requires
        n <= m,
        settings(lines, n) is Err,
    ensures
        settings(lines, m) == settings(lines, n),
    decreases m - n,
{
    if n < m {
        lemma_settings_stop(lines, n, m - 1);
    }
}

/// A file that is accepted names no count that could not be shown, and a mistake names a line of
/// the file.
pub proof fn law_settings(lines: Seq<Seq<char>>, n: int)
    requires
        0 <= n <= lines.len(),
    ensures
        settings(lines, n) matches Ok(c) ==> c.max_px matches Some(px) ==> px >= 1,
        settings(lines, n) matches Err((line, e)) ==> {
            &&& 1 <= line <= n
            &&& settings(lines, line - 1) is Ok
            &&& with_line(settings(lines, line - 1)->Ok_0, lines[line - 1]) == Err::<
                Config,
                Seq<char>,
            >(e)
        },
    decreases n,
{
    if n > 0 {
        law_settings(lines, n - 1);
    }
}

/// Comments and blank lines set nothing: a line whose comment begins it leaves the settings alone.
pub proof fn law_comment_sets_nothing(c: Config, line: Seq<char>)
    requires
        line.len() == 0 || line[0] == '#',
    ensures
        with_line(c, line) == Ok::<Config, Seq<char>>(c),
{
    assert(uncommented(line) =~= seq![]);
    assert(text::trim_start(uncommented(line)) =~= seq![]);
}

/// A file or directory of that name in a directory.
pub open spec fn joined(dir: Seq<u8>, name: Seq<u8>) -> Seq<u8> {
    if dir.len() == 0 || dir.last() == 0x2f {
        dir + name
    } else {
        dir.push(0x2f) + name
    }
}

fn join(dir: &mut Vec<u8>, name: &[u8])
    ensures
        final(dir)@ == joined(old(dir)@, name@),
{
    let n: usize = dir.len();
    if n > 0 && dir[n - 1] != 0x2f {
        dir.push(0x2f);
    }
    dir.extend_from_slice(name);
    assert(dir@ =~= joined(old(dir)@, name@));
}

/// Where settings live: where the environment says, if that is a path from the root, and else in the
/// home directory.
//
// the base directory specification says a relative
// XDG_CONFIG_HOME is invalid and is to be ignored
pub open spec fn base(xdg: Option<Seq<u8>>, home: Option<Seq<u8>>) -> Option<Seq<u8>> {
    match (xdg, home) {
        (Some(dir), _) if dir.len() > 0 && dir[0] == 0x2f => Some(dir),
        (_, Some(dir)) => Some(joined(dir, seq![0x2eu8, 0x63, 0x6f, 0x6e, 0x66, 0x69, 0x67])),
        (_, None) => None,
    }
}

/// The settings file below a directory that settings live in.
pub open spec fn file_in(dir: Seq<u8>) -> Seq<u8> {
    joined(
        joined(dir, seq![0x67u8, 0x61, 0x74]),
        seq![0x63u8, 0x6f, 0x6e, 0x66, 0x69, 0x67, 0x2e, 0x74, 0x6f, 0x6d, 0x6c],
    )
}

/// The bytes of a variable, where it is set.
pub open spec fn bytes_of(v: Option<Vec<u8>>) -> Option<Seq<u8>> {
    match v {
        Some(b) => Some(b@),
        None => None,
    }
}

/// Where the settings file lives: `$XDG_CONFIG_HOME/gat/config.toml`, falling back to `~/.config`.
pub fn path(xdg: Option<Vec<u8>>, home: Option<Vec<u8>>) -> (r: Option<Vec<u8>>)
    ensures
        match base(bytes_of(xdg), bytes_of(home)) {
            Some(dir) => r matches Some(p) && p@ == file_in(dir),
            None => r is None,
        },
{
    let config: [u8; 7] = [0x2e, 0x63, 0x6f, 0x6e, 0x66, 0x69, 0x67];
    let gat: [u8; 3] = [0x67, 0x61, 0x74];
    let file: [u8; 11] = [0x63, 0x6f, 0x6e, 0x66, 0x69, 0x67, 0x2e, 0x74, 0x6f, 0x6d, 0x6c];
    assert(config@ =~= seq![0x2eu8, 0x63, 0x6f, 0x6e, 0x66, 0x69, 0x67]);
    assert(gat@ =~= seq![0x67u8, 0x61, 0x74]);
    assert(file@ =~= seq![0x63u8, 0x6f, 0x6e, 0x66, 0x69, 0x67, 0x2e, 0x74, 0x6f, 0x6d, 0x6c]);
    let mut dir: Vec<u8> = match (xdg, home) {
        (Some(dir), _) if dir.len() > 0 && dir[0] == 0x2f => dir,
        (_, Some(dir)) => {
            let mut dir = dir;
            join(&mut dir, config.as_slice());
            dir
        },
        (_, None) => {
            return None;
        },
    };
    join(&mut dir, gat.as_slice());
    join(&mut dir, file.as_slice());
    Some(dir)
}

/// What a run does, by its command line and the settings file.
#[derive(Clone, Copy, Debug, PartialEq, Eq, Structural)]
pub struct Settled {
    /// Whether it prints even where there is a terminal to show the viewer on.
    pub print: bool,
    /// Whether it fails rather than prints where there is none.
    pub insists: bool,
    /// The most pixels an image has.
    pub cap: u64,
}

/// What a run does whose command line asks to print, or for the viewer, and for a cap, with those
/// settings.
pub open spec fn settled(print: bool, interactive: bool, cap: Option<u64>, c: Config) -> Settled {
    Settled {
        print: print || (!interactive && c.mode == Some(Mode::Print)),
        insists: interactive && !print,
        cap: match (cap, c.max_px) {
            (Some(px), _) => px,
            (None, Some(px)) => px,
            (None, None) => MAX_PX,
        },
    }
}

/// What a run does: a flag on its command line wins over the settings file, and the file over what is
/// done otherwise.
pub fn settle(print: bool, interactive: bool, cap: Option<u64>, c: &Config) -> (r: Settled)
    ensures
        r == settled(print, interactive, cap, *c),
{
    let by_file = match c.mode {
        Some(Mode::Print) => true,
        _ => false,
    };
    Settled {
        print: print || (!interactive && by_file),
        insists: interactive && !print,
        cap: match (cap, c.max_px) {
            (Some(px), _) => px,
            (None, Some(px)) => px,
            (None, None) => MAX_PX,
        },
    }
}

/// Whether a run opens the viewer, given whether there is a terminal to show it on. A run that was told
/// to and cannot says so; any other prints.
pub fn opens_viewer(s: &Settled, terminal: bool) -> (r: Result<bool, String>)
    ensures
        r is Err == (s.insists && !terminal),
        r matches Err(e) ==> e@ == "the viewer needs a terminal to draw on"@,
        r matches Ok(viewer) ==> viewer == (!s.print && terminal),
{
    if s.insists && !terminal {
        return Err("the viewer needs a terminal to draw on".to_owned());
    }
    Ok(!s.print && terminal)
}

/// A flag wins over the file: what the command line says is done whatever the settings are.
pub proof fn law_a_flag_wins_over_the_file(px: u64, c: Config)
    ensures
        settled(true, false, Some(px), c) == (Settled { print: true, insists: false, cap: px }),
        settled(false, true, Some(px), c) == (Settled { print: false, insists: true, cap: px }),
{
}

/// To uncomment the default file's settings changes nothing.
pub proof fn law_the_default_settings_are_what_is_done_anyway(
    print: bool,
    interactive: bool,
    cap: Option<u64>,
)
    ensures
        settled(print, interactive, cap, Config::unset()) == settled(
            print,
            interactive,
            cap,
            Config { mode: Some(Mode::View), max_px: Some(MAX_PX) },
        ),
{
}

proof fn lemma_digits_run(s: Seq<char>, i: int, n: int)
    requires
        0 <= i <= n <= s.len(),
        forall|j: int| i <= j < n ==> text::is_digit(#[trigger] s[j]),
        n == s.len() || !text::is_digit(s[n]),
    ensures
        digits_end(s, i) == n,
    decreases n - i,
{
    if i < n {
        lemma_digits_run(s, i + 1, n);
    }
}

proof fn lemma_number_is_value(d: Seq<char>)
    requires
        text::all_digits(d),
    ensures
        number(d) == text::digits_value(d),
        whole_part(d, d.len() as int) == number(d),
    decreases d.len(),
{
    if d.len() > 0 {
        let front = d.drop_last();
        assert forall|i: int| 0 <= i < front.len() implies text::is_digit(#[trigger] front[i]) by {
            assert(text::is_digit(d[i]));
        }
        assert(text::is_digit(d[d.len() - 1]));
        lemma_number_is_value(front);
        lemma_whole_part_front(d, front.len() as int);
        assert(d.take(front.len() as int) =~= front);
    }
}

proof fn lemma_whole_part_front(d: Seq<char>, n: int)
    requires
        0 <= n <= d.len(),
    ensures
        whole_part(d, n) == whole_part(d.take(n), n),
    decreases n,
{
    if n > 0 {
        lemma_whole_part_front(d, n - 1);
        lemma_whole_part_front(d.take(n), n - 1);
        assert(d.take(n).take(n - 1) =~= d.take(n - 1));
    }
}

proof fn lemma_places(d: Seq<char>, k: int)
    requires
        0 <= k <= 6,
    ensures
        k == 0 ==> whole_part(d, d.len() + k) == whole_part(d, d.len() as int),
        k == 3 ==> whole_part(d, d.len() + k) == 1000 * whole_part(d, d.len() as int),
        k == 6 ==> whole_part(d, d.len() + k) == 1_000_000 * whole_part(d, d.len() as int),
{
    let n = d.len() as int;
    assert(whole_part(d, n + 1) == 10 * whole_part(d, n));
    assert(whole_part(d, n + 2) == 10 * whole_part(d, n + 1));
    assert(whole_part(d, n + 3) == 10 * whole_part(d, n + 2));
    assert(whole_part(d, n + 4) == 10 * whole_part(d, n + 3));
    assert(whole_part(d, n + 5) == 10 * whole_part(d, n + 4));
    assert(whole_part(d, n + 6) == 10 * whole_part(d, n + 5));
}

proof fn lemma_digits_are_decimal(d: Seq<char>)
    requires
        text::all_digits(d),
        d.len() > 0,
    ensures
        decimal(d) matches Some(x) && !x.negative && x.digits == d && x.point == d.len(),
{
    assert(text::is_digit(d[0]));
    lemma_digits_run(d, 0, d.len() as int);
    assert(d.subrange(0, d.len() as int) + Seq::<char>::empty() =~= d);
}

/// A pixel count is the number it is written as, a thousand times that with a K behind it and a million
/// times with an M, capital or not; none at all is no count.
pub proof fn law_a_count_is_what_is_written(n: nat)
    requires
        n <= u64::MAX,
    ensures
        n >= 1 ==> pixels(text::dec(n)) == Some(n as u64),
        n >= 1 && 1000 * n <= u64::MAX ==> pixels(text::dec(n).push('K')) == Some((1000 * n) as u64),
        n >= 1 && 1000 * n <= u64::MAX ==> pixels(text::dec(n).push('k')) == Some((1000 * n) as u64),
        n >= 1 && 1_000_000 * n <= u64::MAX ==> pixels(text::dec(n).push('M')) == Some(
            (1_000_000 * n) as u64,
        ),
        n >= 1 && 1_000_000 * n <= u64::MAX ==> pixels(text::dec(n).push('m')) == Some(
            (1_000_000 * n) as u64,
        ),
        n == 0 ==> pixels(text::dec(n)) is None,
        1000 * n > u64::MAX ==> pixels(text::dec(n).push('K')) is None,
        1_000_000 * n > u64::MAX ==> pixels(text::dec(n).push('M')) is None,
{
    let d = text::dec(n);
    text::law_a_number_reads_back(n);
    lemma_digits_are_decimal(d);
    lemma_number_is_value(d);
    lemma_places(d, 0);
    lemma_places(d, 3);
    lemma_places(d, 6);
    assert(text::is_digit(d[d.len() - 1]));
    assert(d.push('K').drop_last() =~= d);
    assert(d.push('k').drop_last() =~= d);
    assert(d.push('M').drop_last() =~= d);
    assert(d.push('m').drop_last() =~= d);
}

/// A setting sets what it names and nothing else: how a run shows its files, in quotes, or how many
/// pixels an image may have, as a count or in quotes. One that is set already, or that there is none
/// of, is a mistake.
pub proof fn law_a_setting_sets_what_it_names(c: Config, n: nat, key: Seq<char>, value: Seq<char>)
    requires
        1 <= n <= u64::MAX,
    ensures
        c.mode is None ==> with_entry(c, "mode"@, "\"print\""@) == Ok::<Config, Seq<char>>(
            Config { mode: Some(Mode::Print), max_px: c.max_px },
        ),
        c.mode is None ==> with_entry(c, "mode"@, "\"view\""@) == Ok::<Config, Seq<char>>(
            Config { mode: Some(Mode::View), max_px: c.max_px },
        ),
        c.max_px is None ==> with_entry(c, "cap"@, text::dec(n)) == Ok::<Config, Seq<char>>(
            Config { mode: c.mode, max_px: Some(n as u64) },
        ),
        c.max_px is None ==> with_entry(c, "cap"@, seq!['"'] + text::dec(n) + seq!['"']) == Ok::<
            Config,
            Seq<char>,
        >(Config { mode: c.mode, max_px: Some(n as u64) }),
        c.mode is Some ==> with_entry(c, "mode"@, value) is Err,
        c.max_px is Some ==> with_entry(c, "cap"@, value) is Err,
        key != "mode"@ && key != "cap"@ ==> with_entry(c, key, value) is Err,
{
    reveal_strlit("mode");
    reveal_strlit("cap");
    assert("cap"@.len() != "mode"@.len());
    lemma_modes();
    lemma_caps(n);
}

proof fn lemma_modes()
    ensures
        mode_value("\"print\""@) == Ok::<Mode, Seq<char>>(Mode::Print),
        mode_value("\"view\""@) == Ok::<Mode, Seq<char>>(Mode::View),
{
    reveal_strlit("print");
    reveal_strlit("view");
    reveal_strlit("\"print\"");
    reveal_strlit("\"view\"");
    let (p, v) = ("\"print\""@, "\"view\""@);
    assert(p.subrange(1, p.len() - 1) =~= "print"@);
    assert(v.subrange(1, v.len() - 1) =~= "view"@);
    assert("print"@.len() != "view"@.len());
}

proof fn lemma_caps(n: nat)
    requires
        1 <= n <= u64::MAX,
    ensures
        cap_value(text::dec(n)) == Ok::<u64, Seq<char>>(n as u64),
        cap_value(seq!['"'] + text::dec(n) + seq!['"']) == Ok::<u64, Seq<char>>(n as u64),
{
    let d = text::dec(n);
    law_a_count_is_what_is_written(n);
    text::law_a_number_reads_back(n);
    assert forall|i: int| 0 <= i < d.len() implies text::is_digit(#[trigger] d[i]) && d[i] != '"' && d[i]
        != '\\' && d[i] != '_' by {
        assert(text::is_digit(d[i]));
    }
    lemma_no_underscores(d);
    assert(d[0] != '"');
    let q = seq!['"'] + d + seq!['"'];
    assert(q.subrange(1, q.len() - 1) =~= d);
}

proof fn lemma_no_underscores(s: Seq<char>)
    requires
        forall|i: int| 0 <= i < s.len() ==> s[i] != '_',
    ensures
        without_underscores(s) == s,
    decreases s.len(),
{
    if s.len() > 0 {
        lemma_no_underscores(s.drop_last());
        assert(s.drop_last().push(s.last()) =~= s);
    }
}

proof fn lemma_no_comment(line: Seq<char>, i: int, inside: bool)
    requires
        0 <= i <= line.len(),
        forall|j: int| 0 <= j < line.len() ==> line[j] != '#',
    ensures
        comment_at(line, i, inside) == line.len(),
    decreases line.len() - i,
{
    if i < line.len() {
        lemma_no_comment(line, i + 1, inside != (line[i] == '"'));
    }
}

proof fn lemma_trimmed_already(s: Seq<char>)
    requires
        s.len() > 0,
        !text::is_space(s[0]),
        !text::is_space(s.last()),
    ensures
        text::trim(s) == s,
{
}

/// A line names a setting before its first equals sign, and what it is set to behind it, whatever
/// whitespace stands around either.
pub proof fn law_a_line_names_a_setting(c: Config, key: Seq<char>, value: Seq<char>)
    requires
        key.len() > 0,
        value.len() > 0,
        !text::is_space(key[0]),
        key[0] != '[',
        !text::is_space(value.last()),
        forall|i: int| 0 <= i < key.len() ==> key[i] != '=' && key[i] != '#',
        forall|i: int| 0 <= i < value.len() ==> value[i] != '#',
    ensures
        with_line(c, key + seq!['='] + value) == with_entry(c, text::trim(key), text::trim(value)),
{
    let line = key + seq!['='] + value;
    let at = key.len() as int;
    assert forall|j: int| 0 <= j < line.len() implies line[j] != '#' by {
        if j < at {
            assert(line[j] == key[j]);
        } else if j > at {
            assert(line[j] == value[j - at - 1]);
        }
    }
    lemma_no_comment(line, 0, false);
    assert(uncommented(line) =~= line);
    assert(line[0] == key[0]);
    assert(line.last() == value.last());
    lemma_trimmed_already(line);
    assert(line.subrange(at, at + 1) =~= seq!['=']);
    assert forall|j: int| 0 <= j < at implies !text::occurs_at(line, seq!['='], j) by {
        if text::occurs_at(line, seq!['='], j) {
            assert(line.subrange(j, j + 1)[0] == key[j]);
        }
    }
    text::lemma_first_from(line, seq!['='], 0);
    assert(text::occurs_at(line, seq!['='], at));
    let found = text::first_from(line, seq!['='], 0);
    assert(found == Some(at));
    assert(line.take(at) =~= key);
    assert(line.skip(at + 1) =~= value);
}

/// Without flags a run does what the file says: it prints where that says so, and shows no image of more
/// pixels than it allows, or than 1048576 where it says nothing.
pub proof fn law_the_file_is_heard_without_flags(c: Config)
    ensures
        ({
            let s = settled(false, false, None, c);
            &&& s.print == (c.mode == Some(Mode::Print))
            &&& !s.insists
            &&& c.max_px matches Some(px) ==> s.cap == px
            &&& c.max_px is None ==> s.cap == 1_048_576
        }),
{
}

/// A number sign outside of quotes begins a comment: what stands behind it changes nothing.
pub proof fn law_a_comment_ends_the_line(c: Config, line: Seq<char>, rest: Seq<char>)
    requires
        forall|i: int| 0 <= i < line.len() ==> #[trigger] line[i] != '#',
        text::count(line, '"') % 2 == 0,
    ensures
        with_line(c, line + seq!['#'] + rest) == with_line(c, line),
{
    let all = line + seq!['#'] + rest;
    lemma_comment(line, all, 0, false);
    lemma_no_comment(line, 0, false);
    assert(all.take(line.len() as int) =~= line);
    assert(line.take(line.len() as int) =~= line);
    assert(line.take(0) =~= seq![]);
}

proof fn lemma_comment(line: Seq<char>, all: Seq<char>, i: int, inside: bool)
    requires
        0 <= i <= line.len() < all.len(),
        forall|j: int| 0 <= j < line.len() ==> #[trigger] line[j] != '#',
        forall|j: int| 0 <= j < line.len() ==> #[trigger] all[j] == line[j],
        all[line.len() as int] == '#',
        inside == (text::count(line.take(i), '"') % 2 == 1),
        text::count(line, '"') % 2 == 0,
    ensures
        comment_at(all, i, inside) == line.len(),
    decreases line.len() - i,
{
    if i < line.len() {
        assert(line.take(i + 1).drop_last() =~= line.take(i));
        assert(all[i] == line[i]);
        lemma_comment(line, all, i + 1, inside != (line[i] == '"'));
    } else {
        assert(line.take(i) =~= line);
    }
}

/// The settings live below the directory that the environment names for them, if that is a path from the
/// root, and else below the home directory's own.
pub proof fn law_settings_live_in_their_directory(dir: Seq<u8>, home: Option<Seq<u8>>, xdg: Seq<u8>)
    requires
        dir.len() > 0,
        dir[0] == 0x2f,
        dir.last() != 0x2f,
    ensures
        base(Some(dir), home) == Some(dir),
        file_in(dir) == dir + seq![0x2fu8] + seq![0x67u8, 0x61, 0x74] + seq![0x2fu8] + seq![
            0x63u8,
            0x6f,
            0x6e,
            0x66,
            0x69,
            0x67,
            0x2e,
            0x74,
            0x6f,
            0x6d,
            0x6c,
        ],
        xdg.len() == 0 || xdg[0] != 0x2f ==> base(Some(xdg), home) == base(None, home),
        base(None, Some(dir)) == Some(
            dir + seq![0x2fu8] + seq![0x2eu8, 0x63, 0x6f, 0x6e, 0x66, 0x69, 0x67],
        ),
        base(None, None) is None,
{
    let gat = seq![0x67u8, 0x61, 0x74];
    let below = joined(dir, gat);
    assert(dir.push(0x2f) =~= dir + seq![0x2fu8]);
    assert(below.last() == 0x74);
    assert(below.push(0x2f) =~= below + seq![0x2fu8]);
}

/// A count may have a point in it: what stands behind it counts as much as its place, to the nearest.
pub proof fn law_a_count_may_have_a_point(n: nat, d: nat)
    requires
        1 <= n,
        d < 10,
        1_000_000 * (n + 1) <= u64::MAX,
    ensures
        pixels(text::dec(n) + seq!['.'] + text::dec(d) + seq!['K']) == Some((1000 * n + 100 * d) as u64),
        pixels(text::dec(n) + seq!['.'] + text::dec(d) + seq!['M']) == Some(
            (1_000_000 * n + 100_000 * d) as u64,
        ),
{
    let (a, b) = (text::dec(n), text::dec(d));
    text::law_a_number_reads_back(n);
    text::law_a_number_reads_back(d);
    let s = a + seq!['.'] + b;
    let k = a.len() as int;
    assert(text::is_digit(a[0]) && text::is_digit(b[0]));
    assert(b =~= seq![text::digit(d)]);
    assert(s[0] == a[0]);
    assert forall|j: int| 0 <= j < k implies text::is_digit(#[trigger] s[j]) by {
        assert(s[j] == a[j]);
        assert(text::is_digit(a[j]));
    }
    assert(s[k] == '.');
    assert(s[k + 1] == b[0]);
    lemma_digits_run(s, 0, k);
    lemma_digits_run(s, k + 1, k + 2);
    let digits = a + b;
    assert(s.subrange(0, k) =~= a);
    assert(s.subrange(k + 1, k + 2) =~= b);
    assert(decimal(s) matches Some(x) && !x.negative && x.digits == digits && x.point == k);
    assert(digits.take(k) =~= a);
    lemma_number_is_value(a);
    lemma_whole_part_front(digits, k);
    let w = whole_part(digits, k);
    assert(w == n);
    assert(digits[k] == text::digit(d));
    assert(digit_value(digits[k]) == d);
    assert(whole_part(digits, k + 1) == 10 * n + d);
    assert(whole_part(digits, k + 2) == 10 * (10 * n + d));
    assert(whole_part(digits, k + 3) == 10 * whole_part(digits, k + 2));
    assert(whole_part(digits, k + 4) == 10 * whole_part(digits, k + 3));
    assert(whole_part(digits, k + 5) == 10 * whole_part(digits, k + 4));
    assert(whole_part(digits, k + 6) == 10 * whole_part(digits, k + 5));
    assert((s + seq!['K']).drop_last() =~= s);
    assert((s + seq!['M']).drop_last() =~= s);
}

/// A run opens the viewer unless it prints, where there is a terminal to show it on; without one it
/// prints, and says so as a mistake where it was told to view.
pub proof fn law_the_viewer_needs_a_terminal(s: Settled, terminal: bool, r: Result<bool, String>)
    requires
        call_ensures(opens_viewer, (&s, terminal), r),
    ensures
        terminal ==> r == Ok::<bool, String>(!s.print),
        !terminal && !s.insists ==> r == Ok::<bool, String>(false),
        !terminal && s.insists ==> r is Err,
{
}

/// A file is heard line by line: what another line at its end comes to is what that line makes of the
/// lines before it, and a file that is wrong stays wrong at the same line.
pub proof fn law_a_file_is_heard_line_by_line(lines: Seq<Seq<char>>, l: Seq<char>)
    ensures
        ({
            let (n, more) = (lines.len() as int, lines.push(l));
            let all = settings(more, n + 1);
            &&& settings(lines, n) matches Ok(c) ==> (with_line(c, l) matches Ok(d) ==> all == Ok::<
                Config,
                (int, Seq<char>),
            >(d)) && (with_line(c, l) matches Err(e) ==> all == Err::<Config, (int, Seq<char>)>(
                (n + 1, e),
            ))
            &&& settings(lines, n) is Err ==> all == settings(lines, n)
        }),
        settings(seq![], 0) == Ok::<Config, (int, Seq<char>)>(Config::unset()),
{
    lemma_first_lines(lines, l, lines.len() as int);
}

proof fn lemma_first_lines(lines: Seq<Seq<char>>, l: Seq<char>, n: int)
    requires
        0 <= n <= lines.len(),
    ensures
        settings(lines.push(l), n) == settings(lines, n),
    decreases n,
{
    if n > 0 {
        lemma_first_lines(lines, l, n - 1);
        assert(lines.push(l)[n - 1] == lines[n - 1]);
    }
}

/// A string is what stands between two quotes, as long as neither a quote nor a backslash stands in it.
pub proof fn law_a_string_stands_between_quotes(inner: Seq<char>)
    ensures
        ({
            let quoted = seq!['"'] + inner + seq!['"'];
            let plain = forall|i: int| 0 <= i < inner.len() ==> inner[i] != '"' && inner[i] != '\\';
            &&& plain ==> unquoted(quoted) == Some(inner)
            &&& !plain ==> unquoted(quoted) is None
        }),
        inner.len() > 0 && (inner[0] != '"' || inner.last() != '"') ==> unquoted(inner) is None,
{
    let quoted = seq!['"'] + inner + seq!['"'];
    assert(quoted.subrange(1, quoted.len() - 1) =~= inner);
    let plain = forall|i: int| 0 <= i < inner.len() ==> inner[i] != '"' && inner[i] != '\\';
    if !plain {
        let i = choose|i: int| 0 <= i < inner.len() && !(inner[i] != '"' && inner[i] != '\\');
        assert(inner.contains(inner[i]));
    }
}

/// Underscores between digits are left out, and the digits kept in their order.
pub proof fn law_underscores_are_left_out(a: Seq<char>, b: Seq<char>)
    ensures
        without_underscores(a + b) == without_underscores(a) + without_underscores(b),
        (forall|i: int| 0 <= i < a.len() ==> a[i] == '_') ==> without_underscores(a).len() == 0,
        (forall|i: int| 0 <= i < a.len() ==> a[i] != '_') ==> without_underscores(a) == a,
    decreases a.len() + b.len(),
{
    if b.len() > 0 {
        law_underscores_are_left_out(a, b.drop_last());
        assert((a + b).drop_last() =~= a + b.drop_last());
        assert((a + b).last() == b.last());
        assert(without_underscores(a + b) =~= without_underscores(a) + without_underscores(b));
    } else {
        assert(a + b =~= a);
        assert(without_underscores(a) + without_underscores(b) =~= without_underscores(a));
        if a.len() > 0 {
            law_underscores_are_left_out(a.drop_last(), b);
            let head = a.drop_last();
            if forall|i: int| 0 <= i < a.len() ==> a[i] == '_' {
                assert forall|i: int| 0 <= i < head.len() implies head[i] == '_' by {
                    assert(head[i] == a[i]);
                }
            }
            if forall|i: int| 0 <= i < a.len() ==> a[i] != '_' {
                assert forall|i: int| 0 <= i < head.len() implies head[i] != '_' by {
                    assert(head[i] == a[i]);
                }
                assert(head.push(a.last()) =~= a);
            }
        }
    }
}

} // verus!
