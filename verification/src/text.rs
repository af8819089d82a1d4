//! Text as sequences of characters: searching, trimming, numbers.

use vstd::prelude::*;

verus! {

/// `String::push` appends one character.
pub assume_specification[ String::push ](s: &mut String, c: char)
    ensures
        final(s)@ == old(s)@.push(c),
;

/// `String::push_str` appends a string slice.
pub assume_specification[ String::push_str ](s: &mut String, t: &str)
    ensures
        final(s)@ == old(s)@ + t@,
;

/// The character of one decimal digit.
pub open spec fn digit(d: nat) -> char {
    (48 + d) as char
}

/// `n` in decimal, without leading zeroes.
pub open spec fn dec(n: nat) -> Seq<char>
    decreases n,
{
    if n < 10 {
        seq![digit(n)]
    } else {
        dec(n / 10).push(digit(n % 10))
    }
}

/// `n` in decimal, with a minus in front where it is below zero.
pub open spec fn dec_int(n: int) -> Seq<char> {
    if n < 0 {
        seq!['-'] + dec((-n) as nat)
    } else {
        dec(n as nat)
    }
}

/// Whether `c` is an ASCII digit.
pub open spec fn is_digit(c: char) -> bool {
    48 <= c as u32 <= 57
}

/// Whether `c` has Unicode's `White_Space` property.
pub open spec fn is_space(c: char) -> bool {
    let u = c as u32;
    ||| 0x09 <= u <= 0x0d
    ||| u == 0x20
    ||| u == 0x85
    ||| u == 0xa0
    ||| u == 0x1680
    ||| 0x2000 <= u <= 0x200a
    ||| u == 0x2028
    ||| u == 0x2029
    ||| u == 0x202f
    ||| u == 0x205f
    ||| u == 0x3000
}

/// Whether `c` is a control character, of C0 or of C1.
pub open spec fn is_control(c: char) -> bool {
    let u = c as u32;
    u < 0x20 || 0x7f <= u <= 0x9f
}

/// How often `c` occurs in `s`.
pub open spec fn count(s: Seq<char>, c: char) -> nat
    decreases s.len(),
{
    if s.len() == 0 {
        0
    } else {
        count(s.drop_last(), c) + if s.last() == c {
            1nat
        } else {
            0nat
        }
    }
}

/// Whether `s` ends in `suffix`.
pub open spec fn ends_with(s: Seq<char>, suffix: Seq<char>) -> bool {
    occurs_at(s, suffix, s.len() - suffix.len())
}

/// Whether `c` is an ASCII letter.
pub open spec fn is_letter(c: char) -> bool {
    65 <= c as u32 <= 90 || 97 <= c as u32 <= 122
}

/// Whether `needle` stands in `hay` at position `i`.
pub open spec fn occurs_at<T>(hay: Seq<T>, needle: Seq<T>, i: int) -> bool {
    &&& 0 <= i
    &&& i + needle.len() <= hay.len()
    &&& hay.subrange(i, i + needle.len()) == needle
}

/// The first position from `from` on at which `needle` stands in `hay`.
pub open spec fn first_from<T>(hay: Seq<T>, needle: Seq<T>, from: int) -> Option<int>
    decreases hay.len() - from + 1,
{
    if from < 0 || from + needle.len() > hay.len() {
        None
    } else if occurs_at(hay, needle, from) {
        Some(from)
    } else {
        first_from(hay, needle, from + 1)
    }
}

/// `first_from` finds the first occurrence, and nothing where there is none.
pub proof fn lemma_first_from<T>(hay: Seq<T>, needle: Seq<T>, from: int)
    requires
        0 <= from,
    ensures
        first_from(hay, needle, from) matches Some(at) ==> {
            &&& from <= at
            &&& occurs_at(hay, needle, at)
            &&& forall|j: int| from <= j < at ==> !occurs_at(hay, needle, j)
        },
        first_from(hay, needle, from) is None ==> forall|j: int|
            from <= j ==> !occurs_at(hay, needle, j),
    decreases hay.len() - from + 1,
{
    if from + needle.len() <= hay.len() && !occurs_at(hay, needle, from) {
        lemma_first_from(hay, needle, from + 1);
    }
}

/// `s` without the whitespace it begins with.
pub open spec fn trim_start(s: Seq<char>) -> Seq<char>
    decreases s.len(),
{
    if s.len() > 0 && is_space(s[0]) {
        trim_start(s.skip(1))
    } else {
        s
    }
}

/// `s` without the whitespace it ends with.
pub open spec fn trim_end(s: Seq<char>) -> Seq<char>
    decreases s.len(),
{
    if s.len() > 0 && is_space(s.last()) {
        trim_end(s.drop_last())
    } else {
        s
    }
}

/// `s` without the whitespace around it.
pub open spec fn trim(s: Seq<char>) -> Seq<char> {
    trim_end(trim_start(s))
}

/// `c` with an ASCII capital made small.
pub open spec fn lower(c: char) -> char {
    if 65 <= c as u32 <= 90 {
        ((c as u32) + 32) as char
    } else {
        c
    }
}

/// `s` with every ASCII capital made small.
pub open spec fn lowered(s: Seq<char>) -> Seq<char> {
    s.map_values(|c: char| lower(c))
}

/// The characters of each string.
pub open spec fn strings(s: Seq<String>) -> Seq<Seq<char>> {
    s.map_values(|l: String| l@)
}

/// The lines of a text, parted at its newlines.
pub open spec fn lines_of(s: Seq<char>) -> Seq<Seq<char>>
    decreases s.len(),
{
    if s.len() == 0 {
        seq![seq![]]
    } else {
        let before = lines_of(s.drop_last());
        if s.last() == '\n' {
            before.push(seq![])
        } else {
            before.drop_last().push(before.last().push(s.last()))
        }
    }
}

/// Lines end to end, with a newline between each two.
pub open spec fn joined(lines: Seq<Seq<char>>) -> Seq<char>
    decreases lines.len(),
{
    if lines.len() == 0 {
        seq![]
    } else if lines.len() == 1 {
        lines[0]
    } else {
        joined(lines.drop_last()) + seq!['\n'] + lines.last()
    }
}

/// The lines of a text are the text, parted at its newlines and nowhere else.
pub proof fn law_lines_of(s: Seq<char>)
    ensures
        lines_of(s).len() > 0,
        joined(lines_of(s)) == s,
        forall|i: int, j: int|
            0 <= i < lines_of(s).len() && 0 <= j < lines_of(s)[i].len()
                ==> #[trigger] lines_of(s)[i][j] != '\n',
    decreases s.len(),
{
    if s.len() > 0 {
        law_lines_of(s.drop_last());
        let before = lines_of(s.drop_last());
        let after = lines_of(s);
        if s.last() == '\n' {
            assert(after.drop_last() =~= before);
            assert(joined(after) =~= s);
        } else {
            assert(after.drop_last() =~= before.drop_last());
            assert(joined(after) =~= joined(before).push(s.last()));
            assert(joined(after) =~= s);
        }
    }
}

/// Whether `c` has Unicode's `White_Space` property.
pub fn space(c: char) -> (r: bool)
    ensures
        r == is_space(c),
{
    let u: u32 = c as u32;
    (0x09 <= u && u <= 0x0d) || u == 0x20 || u == 0x85 || u == 0xa0 || u == 0x1680 || (0x2000 <= u
        && u <= 0x200a) || u == 0x2028 || u == 0x2029 || u == 0x202f || u == 0x205f || u == 0x3000
}

/// Whether `c` is an ASCII digit.
pub fn numeral(c: char) -> (r: bool)
    ensures
        r == is_digit(c),
{
    let u: u32 = c as u32;
    48 <= u && u <= 57
}

/// Whether `c` is a control character.
pub fn control(c: char) -> (r: bool)
    ensures
        r == is_control(c),
{
    let u: u32 = c as u32;
    u < 0x20 || (0x7f <= u && u <= 0x9f)
}

/// The characters of `s`.
pub fn chars_of(s: &str) -> (r: Vec<char>)
    ensures
        r@ == s@,
{
    let mut out: Vec<char> = Vec::new();
    for c in it: s.chars()
        invariant
            it.seq() == s@,
            out@ == s@.take(it.index() as int),
    {
        out.push(c);
    }
    proof {
        assert(s@.take(s@.len() as int) =~= s@);
    }
    out
}

/// The string of the characters from `from` up to `to`.
pub fn string_of(s: &[char], from: usize, to: usize) -> (r: String)
    requires
        from <= to <= s@.len(),
    ensures
        r@ == s@.subrange(from as int, to as int),
{
    let mut out = String::new();
    let mut i: usize = from;
    while i < to
        invariant
            from <= i <= to <= s@.len(),
            out@ =~= s@.subrange(from as int, i as int),
        decreases to - i,
    {
        out.push(s[i]);
        i += 1;
    }
    out
}

/// Append `n` in decimal.
pub fn push_dec(out: &mut String, n: u64)
    ensures
        final(out)@ == old(out)@ + dec(n as nat),
    decreases n,
{
    if n >= 10 {
        push_dec(out, n / 10);
    }
    let d: u8 = (n % 10) as u8;
    let c: char = (48 + d) as char;
    let ghost before = out@;
    out.push(c);
    assert(out@ =~= old(out)@ + dec(n as nat));
}

/// Append `n` in decimal, with a minus in front where it is below zero.
pub fn push_int(out: &mut String, n: i32)
    ensures
        final(out)@ == old(out)@ + dec_int(n as int),
{
    if n < 0 {
        out.push('-');
        let m: u64 = (-(n as i64)) as u64;
        push_dec(out, m);
    } else {
        push_dec(out, n as u64);
    }
    assert(out@ =~= old(out)@ + dec_int(n as int));
}

/// A number in decimal is digits, at least one.
pub proof fn lemma_dec(n: nat)
    ensures
        dec(n).len() > 0,
        forall|i: int| 0 <= i < dec(n).len() ==> is_digit(#[trigger] dec(n)[i]),
    decreases n,
{
    if n >= 10 {
        lemma_dec(n / 10);
    }
}

/// The bounds of what is left of `s[from..to]` without the whitespace around it.
pub fn trim_range(s: &[char], from: usize, to: usize) -> (r: (usize, usize))
    requires
        from <= to <= s@.len(),
    ensures
        from <= r.0 <= r.1 <= to,
        s@.subrange(r.0 as int, r.1 as int) == trim(s@.subrange(from as int, to as int)),
{
    let mut i: usize = from;
    while i < to && space(s[i])
        invariant
            from <= i <= to <= s@.len(),
            trim_start(s@.subrange(from as int, to as int)) == trim_start(
                s@.subrange(i as int, to as int),
            ),
        decreases to - i,
    {
        assert(s@.subrange(i as int, to as int).skip(1) =~= s@.subrange(i + 1, to as int));
        i += 1;
    }
    let ghost started = s@.subrange(i as int, to as int);
    assert(started == trim_start(s@.subrange(from as int, to as int)));
    let mut j: usize = to;
    while i < j && space(s[j - 1])
        invariant
            from <= i <= j <= to <= s@.len(),
            trim_end(started) == trim_end(s@.subrange(i as int, j as int)),
        decreases j - i,
    {
        assert(s@.subrange(i as int, j as int).drop_last() =~= s@.subrange(i as int, j - 1));
        j -= 1;
    }
    (i, j)
}

/// Whether `needle` stands in `hay` at position `i`.
fn stands_at(hay: &[char], needle: &[char], i: usize) -> (r: bool)
    requires
        i + needle@.len() <= hay@.len(),
    ensures
        r == occurs_at(hay@, needle@, i as int),
{
    let n: usize = hay.len();
    let mut k: usize = 0;
    while k < needle.len()
        invariant
            k <= needle@.len(),
            n == hay@.len(),
            i + needle@.len() <= n,
            forall|j: int| 0 <= j < k ==> hay@[i + j] == needle@[j],
        decreases needle.len() - k,
    {
        if hay[i + k] != needle[k] {
            assert(hay@.subrange(i as int, i + needle@.len())[k as int] != needle@[k as int]);
            return false;
        }
        k += 1;
    }
    assert(hay@.subrange(i as int, i + needle@.len()) =~= needle@);
    true
}

/// Whether `needle` stands in `hay` at position `i`, which may lie beyond the end.
pub fn has_at(hay: &[char], needle: &[char], i: usize) -> (r: bool)
    ensures
        r == occurs_at(hay@, needle@, i as int),
{
    i <= hay.len() && needle.len() <= hay.len() - i && stands_at(hay, needle, i)
}

/// How often `c` occurs in the first `n` characters of `s`.
pub fn count_in(s: &[char], n: usize, c: char) -> (r: usize)
    requires
        n <= s@.len(),
    ensures
        r == count(s@.take(n as int), c),
        r <= n,
{
    let mut k: usize = 0;
    let mut i: usize = 0;
    while i < n
        invariant
            i <= n <= s@.len(),
            k <= i,
            k == count(s@.take(i as int), c),
        decreases n - i,
    {
        assert(s@.take(i + 1).drop_last() =~= s@.take(i as int));
        if s[i] == c {
            k += 1;
        }
        i += 1;
    }
    k
}

/// Whether `s` holds the characters of `t`.
pub fn equals(s: &[char], t: &str) -> (r: bool)
    ensures
        r == (s@ == t@),
{
    let other = chars_of(t);
    assert(s@.subrange(0, s@.len() as int) =~= s@);
    s.len() == other.len() && stands_at(s, &other, 0)
}

/// Whether two strings hold the same characters.
pub fn same(a: &str, b: &str) -> (r: bool)
    ensures
        r == (a@ == b@),
{
    let chars = chars_of(a);
    equals(&chars, b)
}

/// How a string reads in quotes, with what would not print escaped.
pub uninterp spec fn debug_quoted(s: Seq<char>) -> Seq<char>;

/// `format!("{:?}")` of a string: the string in double quotes, with quotes, backslashes and what
/// would not print escaped.
#[verifier::external_body]
pub(crate) fn quoted(s: &str) -> (r: String)
    ensures
        r@ == debug_quoted(s@),
{
    format!("{s:?}")
}

/// The text of bytes, with what is not UTF-8 replaced.
pub uninterp spec fn lossy_text(bytes: Seq<u8>) -> Seq<char>;

/// `String::from_utf8_lossy`: the text of the bytes, with U+FFFD for what is not UTF-8. Bytes that
/// are UTF-8 give the text they encode.
#[verifier::external_body]
pub(crate) fn lossy(bytes: &[u8]) -> (r: String)
    ensures
        r@ == lossy_text(bytes@),
        vstd::utf8::valid_utf8(bytes@) ==> r@ == vstd::utf8::decode_utf8(bytes@),
{
    String::from_utf8_lossy(bytes).into_owned()
}

/// Whether the bytes `needle` stand in `hay` at position `i`, which may lie beyond the end.
pub fn bytes_at(hay: &[u8], needle: &[u8], i: usize) -> (r: bool)
    ensures
        r == occurs_at(hay@, needle@, i as int),
{
    i <= hay.len() && needle.len() <= hay.len() - i && bytes_stand_at(hay, needle, i)
}

/// Append characters.
pub fn push_chars(out: &mut String, s: &[char])
    ensures
        final(out)@ == old(out)@ + s@,
{
    let mut i: usize = 0;
    while i < s.len()
        invariant
            i <= s@.len(),
            out@ =~= old(out)@ + s@.take(i as int),
        decreases s.len() - i,
    {
        out.push(s[i]);
        i += 1;
    }
    assert(s@.take(i as int) =~= s@);
}

/// The first position from `from` on at which `needle` stands in `hay`.
pub fn find_chars(hay: &[char], needle: &[char], from: usize) -> (r: Option<usize>)
    ensures
        r matches Some(at) ==> first_from(hay@, needle@, from as int) == Some(at as int),
        r is None ==> first_from(hay@, needle@, from as int) is None,
        r matches Some(at) ==> from <= at && at + needle@.len() <= hay@.len(),
{
    let mut i: usize = from;
    while i <= hay.len() && needle.len() <= hay.len() - i
        invariant
            from <= i,
            i <= from || i <= hay@.len(),
            first_from(hay@, needle@, from as int) == first_from(hay@, needle@, i as int),
        decreases hay.len() + 1 - i,
    {
        if stands_at(hay, needle, i) {
            return Some(i);
        }
        assert(needle@.len() == 0 ==> hay@.subrange(i as int, i as int) =~= needle@);
        i += 1;
    }
    None
}

/// Whether `needle` stands in `hay` at position `i`.
fn bytes_stand_at(hay: &[u8], needle: &[u8], i: usize) -> (r: bool)
    requires
        i + needle@.len() <= hay@.len(),
    ensures
        r == occurs_at(hay@, needle@, i as int),
{
    let n: usize = hay.len();
    let mut k: usize = 0;
    while k < needle.len()
        invariant
            k <= needle@.len(),
            n == hay@.len(),
            i + needle@.len() <= n,
            forall|j: int| 0 <= j < k ==> hay@[i + j] == needle@[j],
        decreases needle.len() - k,
    {
        if hay[i + k] != needle[k] {
            assert(hay@.subrange(i as int, i + needle@.len())[k as int] != needle@[k as int]);
            return false;
        }
        k += 1;
    }
    assert(hay@.subrange(i as int, i + needle@.len()) =~= needle@);
    true
}

/// The first position from `from` on at which the bytes `needle` stand in `hay`.
pub fn find_bytes(hay: &[u8], needle: &[u8], from: usize) -> (r: Option<usize>)
    ensures
        r matches Some(at) ==> first_from(hay@, needle@, from as int) == Some(at as int),
        r is None ==> first_from(hay@, needle@, from as int) is None,
        r matches Some(at) ==> from <= at && at + needle@.len() <= hay@.len(),
{
    let mut i: usize = from;
    while i <= hay.len() && needle.len() <= hay.len() - i
        invariant
            from <= i,
            i <= from || i <= hay@.len(),
            first_from(hay@, needle@, from as int) == first_from(hay@, needle@, i as int),
        decreases hay.len() + 1 - i,
    {
        if bytes_stand_at(hay, needle, i) {
            return Some(i);
        }
        assert(needle@.len() == 0 ==> hay@.subrange(i as int, i as int) =~= needle@);
        i += 1;
    }
    None
}

/// `c` with an ASCII capital made small.
pub fn to_lower(c: char) -> (r: char)
    ensures
        r == lower(c),
{
    let u: u32 = c as u32;
    if 65 <= u && u <= 90 {
        let b: u8 = u as u8;
        (b + 32) as char
    } else {
        c
    }
}

/// The characters of `s` with every ASCII capital made small.
pub fn lowered_chars(s: &str) -> (r: Vec<char>)
    ensures
        r@ == lowered(s@),
{
    let src = chars_of(s);
    let mut out: Vec<char> = Vec::new();
    let mut i: usize = 0;
    while i < src.len()
        invariant
            src@ == s@,
            i <= src@.len(),
            out@ =~= lowered(s@.take(i as int)),
        decreases src.len() - i,
    {
        out.push(to_lower(src[i]));
        assert(s@.take(i + 1) =~= s@.take(i as int).push(s@[i as int]));
        i += 1;
    }
    assert(s@.take(i as int) =~= s@);
    out
}

/// The lines of a text, parted at its newlines.
pub fn split_lines(s: &[char], n: usize) -> (r: Vec<String>)
    requires
        n <= s@.len(),
    ensures
        strings(r@) == lines_of(s@.take(n as int)),
{
    let mut done: Vec<String> = Vec::new();
    let mut line = String::new();
    let mut i: usize = 0;
    while i < n
        invariant
            i <= n <= s@.len(),
            strings(done@).push(line@) =~= lines_of(s@.take(i as int)),
        decreases n - i,
    {
        assert(s@.take(i + 1).drop_last() =~= s@.take(i as int));
        let ghost before = strings(done@);
        if s[i] == '\n' {
            let full = line;
            line = String::new();
            done.push(full);
            assert(strings(done@) =~= before.push(full@));
        } else {
            line.push(s[i]);
            assert(before.push(line@) =~= lines_of(s@.take(i as int)).drop_last().push(line@));
        }
        i += 1;
    }
    let ghost before = strings(done@);
    done.push(line);
    assert(strings(done@) =~= before.push(line@));
    done
}

/// A number without the plus it may begin with.
pub open spec fn unsigned(s: Seq<char>) -> Seq<char> {
    if s.len() > 0 && s[0] == '+' {
        s.skip(1)
    } else {
        s
    }
}

/// The number that digits write, with a plus in front or without.
pub open spec fn whole_number(s: Seq<char>) -> Option<u32> {
    let digits = unsigned(s);
    if digits.len() > 0 && all_digits(digits) && digits_value(digits) <= u32::MAX {
        Some(digits_value(digits) as u32)
    } else {
        None
    }
}

/// Whether every character is a digit.
pub open spec fn all_digits(s: Seq<char>) -> bool {
    forall|i: int| 0 <= i < s.len() ==> is_digit(#[trigger] s[i])
}

/// The number that digits write.
pub open spec fn digits_value(s: Seq<char>) -> nat
    decreases s.len(),
{
    if s.len() == 0 {
        0
    } else {
        digits_value(s.drop_last()) * 10 + (s.last() as u32 - 48) as nat
    }
}

/// The number that digits write, with a plus in front or without.
pub fn read_number(s: &[char]) -> (r: Option<u32>)
    ensures
        r == whole_number(s@),
{
    let from: usize = if s.len() > 0 && s[0] == '+' {
        1
    } else {
        0
    };
    let digits = vstd::slice::slice_subrange(s, from, s.len());
    assert(digits@ =~= unsigned(s@));
    if digits.len() == 0 {
        return None;
    }
    let mut n: u64 = 0;
    let mut i: usize = 0;
    while i < digits.len()
        invariant
            i <= digits@.len(),
            digits@ == unsigned(s@),
            forall|j: int| 0 <= j < i ==> is_digit(#[trigger] digits@[j]),
            n == digits_value(digits@.take(i as int)) || (n == 0x1_0000_0000 && digits_value(
                digits@.take(i as int),
            ) >= 0x1_0000_0000),
            n <= 0x1_0000_0000,
        decreases digits.len() - i,
    {
        assert(digits@.take(i + 1).drop_last() =~= digits@.take(i as int));
        if !numeral(digits[i]) {
            assert(!is_digit(digits@[i as int]));
            return None;
        }
        let next: u64 = n * 10 + (digits[i] as u32 - 48) as u64;
        n = if next > 0x1_0000_0000 {
            0x1_0000_0000
        } else {
            next
        };
        i += 1;
    }
    assert(digits@.take(i as int) =~= digits@);
    if n > 0xffff_ffff {
        None
    } else {
        Some(n as u32)
    }
}

/// `std::str::from_utf8`: the text that bytes encode, if they are UTF-8.
#[verifier::external_body]
pub(crate) fn strict(bytes: &[u8]) -> (r: Option<String>)
    ensures
        r is Some == vstd::utf8::valid_utf8(bytes@),
        r matches Some(s) ==> s@ == vstd::utf8::decode_utf8(bytes@),
{
    std::str::from_utf8(bytes).ok().map(|s| s.to_owned())
}

/// A number reads back as itself: its digits write it, the first of them is no zero unless it is the
/// only one, and a number below zero is that of its size behind a minus.
pub proof fn law_a_number_reads_back(n: nat)
    ensures
        all_digits(dec(n)),
        digits_value(dec(n)) == n,
        dec(n).len() > 0,
        dec(n).len() > 1 ==> dec(n)[0] != '0',
        dec_int(n as int) == dec(n),
        n > 0 ==> dec_int(-n) == seq!['-'] + dec(n),
    decreases n,
{
    lemma_dec(n);
    if n >= 10 {
        law_a_number_reads_back(n / 10);
        assert(dec(n).drop_last() =~= dec(n / 10));
        assert(dec(n)[0] == dec(n / 10)[0]);
        if dec(n / 10).len() == 1 {
            lemma_short_dec(n / 10);
        }
    } else {
        assert(dec(n).drop_last() =~= seq![]);
        assert(digits_value(dec(n).drop_last()) == 0);
    }
}

proof fn lemma_short_dec(n: nat)
    requires
        n > 0,
        dec(n).len() == 1,
    ensures
        dec(n)[0] != '0',
{
    if n >= 10 {
        lemma_dec(n / 10);
    }
}

/// Numbers that differ are written differently.
pub proof fn law_numbers_are_told_apart(n: nat, m: nat)
    ensures
        dec(n) == dec(m) ==> n == m,
{
    law_a_number_reads_back(n);
    law_a_number_reads_back(m);
}

/// Trimming takes off whitespace and nothing else, and all of it at either end.
pub proof fn law_trimming_takes_whitespace_off(s: Seq<char>)
    ensures
        trim(s).len() > 0 ==> !is_space(trim(s)[0]) && !is_space(trim(s).last()),
        exists|a: Seq<char>, b: Seq<char>|
            {
                &&& s == #[trigger] (a + trim(s) + b)
                &&& forall|i: int| 0 <= i < a.len() ==> is_space(#[trigger] a[i])
                &&& forall|i: int| 0 <= i < b.len() ==> is_space(#[trigger] b[i])
            },
{
    let a = lemma_trim_start(s);
    let t = trim_start(s);
    let b = lemma_trim_end(t);
    assert(s =~= a + trim(s) + b);
    if trim(s).len() > 0 {
        assert(trim(s)[0] == t[0]);
    }
}

proof fn lemma_trim_start(s: Seq<char>) -> (a: Seq<char>)
    ensures
        s == a + trim_start(s),
        forall|i: int| 0 <= i < a.len() ==> is_space(#[trigger] a[i]),
        trim_start(s).len() > 0 ==> !is_space(trim_start(s)[0]),
    decreases s.len(),
{
    if s.len() > 0 && is_space(s[0]) {
        let a = lemma_trim_start(s.skip(1));
        let r = seq![s[0]] + a;
        assert(s =~= seq![s[0]] + s.skip(1));
        assert(s =~= r + trim_start(s));
        r
    } else {
        assert(s =~= Seq::<char>::empty() + s);
        seq![]
    }
}

proof fn lemma_trim_end(s: Seq<char>) -> (b: Seq<char>)
    ensures
        s == trim_end(s) + b,
        forall|i: int| 0 <= i < b.len() ==> is_space(#[trigger] b[i]),
        trim_end(s).len() > 0 ==> !is_space(trim_end(s).last()),
    decreases s.len(),
{
    if s.len() > 0 && is_space(s.last()) {
        let b = lemma_trim_end(s.drop_last());
        let r = b.push(s.last());
        assert(s =~= s.drop_last().push(s.last()));
        assert(s =~= trim_end(s) + r);
        r
    } else {
        assert(s =~= s + Seq::<char>::empty());
        seq![]
    }
}

/// What is made small is as long as it was, its ASCII capitals are the small letters they are, and
/// nothing else changes.
pub proof fn law_capitals_are_made_small(s: Seq<char>, i: int)
    requires
        0 <= i < s.len(),
    ensures
        lowered(s).len() == s.len(),
        'A' as u32 <= s[i] as u32 <= 'Z' as u32 ==> lowered(s)[i] as u32 == s[i] as u32 + 32,
        !('A' as u32 <= s[i] as u32 <= 'Z' as u32) ==> lowered(s)[i] == s[i],
{
}

} // verus!
