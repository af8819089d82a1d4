//! Bytes as text.

use vstd::prelude::*;

verus! {

/// The character that six bits are written as.
pub open spec fn sextet(v: int) -> char {
    if v < 26 {
        (65 + v) as char
    } else if v < 52 {
        (97 + v - 26) as char
    } else if v < 62 {
        (48 + v - 52) as char
    } else if v == 62 {
        '+'
    } else {
        '/'
    }
}

/// Bytes in base 64: three to four characters, the last group padded.
pub open spec fn base64_of(s: Seq<u8>) -> Seq<char>
    decreases s.len(),
{
    if s.len() == 0 {
        seq![]
    } else if s.len() == 1 {
        seq![sextet(s[0] as int / 4), sextet(s[0] as int % 4 * 16), '=', '=']
    } else if s.len() == 2 {
        seq![sextet(s[0] as int / 4), sextet(s[0] as int % 4 * 16 + s[1] as int / 16), sextet(s[1] as int % 16 * 4), '=']
    } else {
        seq![
            sextet(s[0] as int / 4),
            sextet(s[0] as int % 4 * 16 + s[1] as int / 16),
            sextet(s[1] as int % 16 * 4 + s[2] as int / 64),
            sextet(s[2] as int % 64),
        ] + base64_of(s.skip(3))
    }
}

/// The six bits that a character stands for.
pub open spec fn six_bits(c: char) -> int {
    let u = c as int;
    if 65 <= u <= 90 {
        u - 65
    } else if 97 <= u <= 122 {
        u - 97 + 26
    } else if 48 <= u <= 57 {
        u - 48 + 52
    } else if c == '+' {
        62
    } else {
        63
    }
}

/// The bytes that base 64 text stands for.
pub open spec fn unbase64(t: Seq<char>) -> Seq<u8>
    decreases t.len(),
{
    if t.len() < 4 {
        seq![]
    } else {
        let (a, b, c, d) = (six_bits(t[0]), six_bits(t[1]), six_bits(t[2]), six_bits(t[3]));
        let first = (a * 4 + b / 16) as u8;
        let second = (b % 16 * 16 + c / 4) as u8;
        let third = (c % 4 * 64 + d) as u8;
        if t[2] == '=' {
            seq![first]
        } else if t[3] == '=' {
            seq![first, second]
        } else {
            seq![first, second, third] + unbase64(t.skip(4))
        }
    }
}

/// `base64::engine::general_purpose::STANDARD.encode`: the standard alphabet, with padding. Of no
/// more bytes than could overflow the length of the text.
#[verifier::external_body]
pub(crate) fn encode(s: &[u8]) -> (r: String)
    requires
        s@.len() <= 0x3fff_ffff,
    ensures
        r@ == base64_of(s@),
{
    base64::Engine::encode(&base64::engine::general_purpose::STANDARD, s)
}

proof fn lemma_six_bits(v: int)
    requires
        0 <= v < 64,
    ensures
        six_bits(sextet(v)) == v,
        sextet(v) != '=',
        sextet(v) != ';',
        sextet(v) != '\u{1b}',
{
}

/// What base 64 writes it reads back: the bytes survive the text.
pub proof fn law_base64_round_trips(s: Seq<u8>)
    ensures
        unbase64(base64_of(s)) == s,
    decreases s.len(),
{
    if s.len() > 0 {
        lemma_six_bits(s[0] as int / 4);
        lemma_six_bits(s[0] as int % 4 * 16);
        if s.len() == 1 {
            assert(unbase64(base64_of(s)) =~= s);
        } else {
            lemma_six_bits(s[0] as int % 4 * 16 + s[1] as int / 16);
            lemma_six_bits(s[1] as int % 16 * 4);
            if s.len() == 2 {
                assert(unbase64(base64_of(s)) =~= s);
            } else {
                lemma_six_bits(s[1] as int % 16 * 4 + s[2] as int / 64);
                lemma_six_bits(s[2] as int % 64);
                law_base64_round_trips(s.skip(3));
                let t = base64_of(s);
                assert(t.skip(4) =~= base64_of(s.skip(3)));
                assert(unbase64(t) =~= s.take(3) + s.skip(3));
                assert(unbase64(t) =~= s);
            }
        }
    }
}

/// Text in base 64 joins up where its bytes do, as long as no padding comes between.
pub proof fn law_base64_joins(a: Seq<u8>, b: Seq<u8>)
    requires
        a.len() % 3 == 0,
    ensures
        base64_of(a + b) == base64_of(a) + base64_of(b),
    decreases a.len(),
{
    if a.len() == 0 {
        assert(a + b =~= b);
        assert(base64_of(a) + base64_of(b) =~= base64_of(b));
    } else {
        law_base64_joins(a.skip(3), b);
        assert((a + b).skip(3) =~= a.skip(3) + b);
        assert(base64_of(a + b) =~= base64_of(a) + base64_of(b));
    }
}

/// Text in base 64 holds nothing that would end a command or its header.
pub proof fn lemma_base64_chars(s: Seq<u8>)
    ensures
        forall|i: int|
            0 <= i < base64_of(s).len() ==> #[trigger] base64_of(s)[i] != ';' && base64_of(s)[i]
                != '\u{1b}',
    decreases s.len(),
{
    if s.len() > 0 {
        lemma_six_bits(s[0] as int / 4);
        lemma_six_bits(s[0] as int % 4 * 16);
        if s.len() > 1 {
            lemma_six_bits(s[0] as int % 4 * 16 + s[1] as int / 16);
            lemma_six_bits(s[1] as int % 16 * 4);
        }
        if s.len() > 2 {
            lemma_six_bits(s[1] as int % 16 * 4 + s[2] as int / 64);
            lemma_six_bits(s[2] as int % 64);
            lemma_base64_chars(s.skip(3));
            let (t, rest) = (base64_of(s), base64_of(s.skip(3)));
            assert forall|i: int| 0 <= i < t.len() implies #[trigger] t[i] != ';' && t[i]
                != '\u{1b}' by {
                if i >= 4 {
                    assert(t[i] == rest[i - 4]);
                }
            }
        }
    }
}

/// Bytes that fill their groups come to four characters for every three.
pub proof fn lemma_base64_len(s: Seq<u8>)
    ensures
        base64_of(s).len() == (s.len() + 2) / 3 * 4,
    decreases s.len(),
{
    if s.len() > 2 {
        lemma_base64_len(s.skip(3));
    }
}

/// Six bits are written in the standard alphabet: capitals, small letters, digits, plus and slash.
pub proof fn law_the_alphabet_is_the_standard_one(v: int)
    requires
        0 <= v < 64,
    ensures
        sextet(v) == "ABCDEFGHIJKLMNOPQRSTUVWXYZabcdefghijklmnopqrstuvwxyz0123456789+/"@[v],
{
    reveal_strlit("ABCDEFGHIJKLMNOPQRSTUVWXYZabcdefghijklmnopqrstuvwxyz0123456789+/");
}

} // verus!
