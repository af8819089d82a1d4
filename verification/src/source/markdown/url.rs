//! Bare URLs in prose.

use vstd::prelude::*;

use crate::text;
use crate::text::{count_in, has_at, space};

verus! {

/// What `char::is_alphanumeric` says of a character outside ASCII.
pub uninterp spec fn wide_alphanumeric(c: char) -> bool;

/// Whether `c` is a letter or a digit, of any script.
pub open spec fn is_alphanumeric(c: char) -> bool {
    if (c as u32) < 128 {
        text::is_letter(c) || text::is_digit(c)
    } else {
        wide_alphanumeric(c)
    }
}

/// `char::is_alphanumeric`: in ASCII the letters and the digits; beyond it what Unicode's tables
/// say of the character.
#[verifier::external_body]
fn alphanumeric(c: char) -> (r: bool)
    ensures
        (c as u32) < 128 ==> r == (text::is_letter(c) || text::is_digit(c)),
        (c as u32) >= 128 ==> r == wide_alphanumeric(c),
{
    c.is_alphanumeric()
}

/// Where the word that reaches `i` ends: at whitespace or with the text.
pub open spec fn word_end(t: Seq<char>, i: int) -> int
    decreases t.len() - i,
{
    if i < 0 || i >= t.len() || text::is_space(t[i]) {
        i
    } else {
        word_end(t, i + 1)
    }
}

/// Whether the last character of `url` is punctuation of the sentence around it. A closing
/// bracket is the URL's own where it matches one inside it.
pub open spec fn ends_in_prose(url: Seq<char>) -> bool {
    &&& url.len() > 0
    &&& match url.last() {
        '.' | ',' | ';' | ':' | '!' | '?' | '"' | '\'' => true,
        ')' => text::count(url, ')') > text::count(url, '('),
        ']' => text::count(url, ']') > text::count(url, '['),
        _ => false,
    }
}

/// `url` without the sentence punctuation it ends in.
pub open spec fn trimmed(url: Seq<char>) -> Seq<char>
    decreases url.len(),
{
    if ends_in_prose(url) {
        trimmed(url.drop_last())
    } else {
        url
    }
}

/// The URL that would begin at `at`: its word, without the sentence's punctuation.
pub open spec fn candidate(t: Seq<char>, at: int) -> Seq<char> {
    trimmed(t.subrange(at, word_end(t, at)))
}

/// Whether what begins at `at` is no tail of some longer word: neither `xhttps://` nor
/// `see:https://` is a link.
pub open spec fn at_edge(t: Seq<char>, at: int) -> bool {
    &&& at > 0 ==> !is_alphanumeric(t[at - 1])
    &&& at > 1 && t[at - 1] == ':' ==> !is_alphanumeric(t[at - 2])
}

/// Whether a URL begins at `at`: a scheme, at the edge of a word, with a body behind it.
pub open spec fn url_at(t: Seq<char>, at: int) -> bool {
    &&& 0 <= at < t.len()
    &&& at_edge(t, at)
    &&& text::occurs_at(t, "http://"@, at) || text::occurs_at(t, "https://"@, at)
    &&& !text::ends_with(candidate(t, at), "://"@)
}

/// Where the first URL from `from` on begins.
pub open spec fn first_url(t: Seq<char>, from: int) -> Option<int>
    decreases t.len() - from,
{
    if from >= t.len() {
        None
    } else if url_at(t, from) {
        Some(from)
    } else {
        first_url(t, from + 1)
    }
}

/// The bounds of the first URL in `t`.
pub open spec fn next_url(t: Seq<char>) -> Option<(int, int)> {
    match first_url(t, 0) {
        Some(at) => Some((at, at + candidate(t, at).len())),
        None => None,
    }
}

proof fn lemma_word_end(t: Seq<char>, i: int)
    requires
        0 <= i <= t.len(),
    ensures
        i <= word_end(t, i) <= t.len(),
        forall|j: int| i <= j < word_end(t, i) ==> !text::is_space(t[j]),
    decreases t.len() - i,
{
    if i < t.len() && !text::is_space(t[i]) {
        lemma_word_end(t, i + 1);
    }
}

/// The word at `i` reaches past every character that is no whitespace.
proof fn lemma_word_reaches(t: Seq<char>, i: int, n: int)
    requires
        0 <= i <= n <= t.len(),
        forall|j: int| i <= j < n ==> !text::is_space(t[j]),
    ensures
        n <= word_end(t, i),
    decreases n - i,
{
    if i < n {
        lemma_word_reaches(t, i + 1, n);
    } else {
        lemma_word_end(t, i);
    }
}

/// What is trimmed is a prefix, and a character that is no punctuation stays.
proof fn lemma_trimmed(url: Seq<char>, k: int)
    ensures
        trimmed(url).len() <= url.len(),
        trimmed(url) == url.take(trimmed(url).len() as int),
        0 <= k < url.len() && url[k] == '/' ==> k < trimmed(url).len(),
        !ends_in_prose(trimmed(url)),
    decreases url.len(),
{
    if ends_in_prose(url) {
        lemma_trimmed(url.drop_last(), k);
        assert(url.drop_last().take(trimmed(url).len() as int) =~= url.take(
            trimmed(url).len() as int,
        ));
    } else {
        assert(url.take(url.len() as int) =~= url);
    }
}

/// The next URL is the first one in the text. It lies in the text, holds no whitespace and does
/// not end in the punctuation of the sentence around it; where none is found there is none.
pub proof fn lemma_next_url(t: Seq<char>)
    ensures
        next_url(t) matches Some((at, end)) ==> {
            &&& 0 <= at < end <= t.len()
            &&& t.subrange(at, end) == candidate(t, at)
            &&& url_at(t, at)
            &&& forall|j: int| at <= j < end ==> !text::is_space(t[j])
            &&& !ends_in_prose(t.subrange(at, end))
            &&& forall|j: int| 0 <= j < at ==> !url_at(t, j)
        },
        next_url(t) is None ==> forall|j: int| !url_at(t, j),
{
    lemma_first_url(t, 0);
    if let Some(at) = first_url(t, 0) {
        lemma_url_body(t, at);
        lemma_word_end(t, at);
        lemma_trimmed(t.subrange(at, word_end(t, at)), 0);
    }
}

proof fn lemma_first_url(t: Seq<char>, from: int)
    requires
        0 <= from,
    ensures
        first_url(t, from) matches Some(at) ==> {
            &&& from <= at < t.len()
            &&& url_at(t, at)
            &&& forall|j: int| from <= j < at ==> !url_at(t, j)
        },
        first_url(t, from) is None ==> forall|j: int| from <= j ==> !url_at(t, j),
    decreases t.len() - from,
{
    if from < t.len() && !url_at(t, from) {
        lemma_first_url(t, from + 1);
    }
}

proof fn lemma_url_body(t: Seq<char>, at: int)
    requires
        url_at(t, at),
    ensures
        candidate(t, at).len() > 6,
        at + candidate(t, at).len() <= t.len(),
        t.subrange(at, at + candidate(t, at).len()) == candidate(t, at),
{
    reveal_strlit("http://");
    reveal_strlit("https://");
    let n: int = if text::occurs_at(t, "http://"@, at) {
        7
    } else {
        8
    };
    let lit = if n == 7 {
        "http://"@
    } else {
        "https://"@
    };
    assert(t.subrange(at, at + n) == lit);
    assert forall|j: int| at <= j < at + n implies !text::is_space(t[j]) by {
        assert(t[j] == t.subrange(at, at + n)[j - at]);
    }
    lemma_word_reaches(t, at, at + n);
    lemma_word_end(t, at);
    let run = t.subrange(at, word_end(t, at));
    assert(run[6] == t.subrange(at, at + n)[6]);
    lemma_trimmed(run, 6);
    assert(t.subrange(at, at + candidate(t, at).len()) =~= run.take(candidate(t, at).len() as int));
}

/// What is left of a URL is the longest of its beginnings that does not end in the punctuation of the
/// sentence around it, and nothing more is dropped from that.
pub proof fn law_trimming_leaves_the_longest(url: Seq<char>, k: int)
    ensures
        trimmed(url).is_prefix_of(url),
        !ends_in_prose(trimmed(url)),
        trimmed(url).len() < k <= url.len() ==> ends_in_prose(url.take(k)),
        trimmed(trimmed(url)) == trimmed(url),
    decreases url.len(),
{
    lemma_trimmed(url, 0);
    if ends_in_prose(url) {
        law_trimming_leaves_the_longest(url.drop_last(), k);
        assert(url.take(url.len() as int) =~= url);
        if trimmed(url).len() < k < url.len() {
            assert(url.drop_last().take(k) =~= url.take(k));
        }
    }
}

/// How much of `t[at..end]` is left without the sentence punctuation it ends in.
pub fn trim_url(t: &[char], at: usize, end: usize) -> (r: usize)
    requires
        at <= end <= t@.len(),
    ensures
        at <= r <= end,
        t@.subrange(at as int, r as int) == trimmed(t@.subrange(at as int, end as int)),
{
    let url = vstd::slice::slice_subrange(t, at, end);
    let n: usize = url.len();
    let mut k: usize = n;
    assert(url@.take(n as int) =~= url@);
    while k > 0
        invariant_except_break
            k <= n == url@.len(),
            trimmed(url@) == trimmed(url@.take(k as int)),
        ensures
            k <= n,
            trimmed(url@) == url@.take(k as int),
        decreases k,
    {
        let c = url[k - 1];
        let drop = match c {
            '.' | ',' | ';' | ':' | '!' | '?' | '"' | '\'' => true,
            ')' => count_in(url, k, ')') > count_in(url, k, '('),
            ']' => count_in(url, k, ']') > count_in(url, k, '['),
            _ => false,
        };
        if !drop {
            break;
        }
        assert(url@.take(k as int).drop_last() =~= url@.take(k - 1));
        k -= 1;
    }
    assert(t@.subrange(at as int, at + k) =~= url@.take(k as int));
    at + k
}

/// Whether a URL begins at `at`, and where it ends.
fn url_here(t: &[char], at: usize) -> (r: Option<usize>)
    requires
        at < t@.len(),
    ensures
        r is Some == url_at(t@, at as int),
        r matches Some(end) ==> end == at + candidate(t@, at as int).len(),
{
    proof {
        reveal_strlit("http://");
        reveal_strlit("https://");
        reveal_strlit("://");
        assert("http://"@ =~= seq!['h', 't', 't', 'p', ':', '/', '/']);
        assert("https://"@ =~= seq!['h', 't', 't', 'p', 's', ':', '/', '/']);
        assert("://"@ =~= seq![':', '/', '/']);
    }
    if at > 0 && alphanumeric(t[at - 1]) {
        return None;
    }
    if at > 1 && t[at - 1] == ':' && alphanumeric(t[at - 2]) {
        return None;
    }
    let http = ['h', 't', 't', 'p', ':', '/', '/'];
    let https = ['h', 't', 't', 'p', 's', ':', '/', '/'];
    assert(http@ =~= "http://"@);
    assert(https@ =~= "https://"@);
    if !has_at(t, &http, at) && !has_at(t, &https, at) {
        return None;
    }
    let mut end: usize = at;
    while end < t.len() && !space(t[end])
        invariant
            at <= end <= t@.len(),
            word_end(t@, at as int) == word_end(t@, end as int),
        decreases t.len() - end,
    {
        end += 1;
    }
    let cut: usize = trim_url(t, at, end);
    let url = vstd::slice::slice_subrange(t, at, cut);
    let tail = [':', '/', '/'];
    assert(tail@ =~= "://"@);
    assert(url@ == candidate(t@, at as int));
    if cut - at >= 3 && has_at(url, &tail, cut - at - 3) {
        return None;
    }
    Some(cut)
}

/// The bounds of the next bare URL in `t`.
pub fn split_url(t: &[char]) -> (r: Option<(usize, usize)>)
    ensures
        r matches Some((at, end)) ==> {
            &&& next_url(t@) == Some((at as int, end as int))
            &&& at < end <= t@.len()
        },
        r is None ==> next_url(t@) is None,
{
    let mut i: usize = 0;
    while i < t.len()
        invariant
            i <= t@.len(),
            first_url(t@, 0) == first_url(t@, i as int),
        decreases t.len() - i,
    {
        match url_here(t, i) {
            Some(end) => {
                proof {
                    lemma_url_body(t@, i as int);
                }
                return Some((i, end));
            },
            None => {
                i += 1;
            },
        }
    }
    None
}

/// Whether a scheme stands at `i`.
pub open spec fn schemed(t: Seq<char>, i: int) -> bool {
    text::occurs_at(t, "http://"@, i) || text::occurs_at(t, "https://"@, i)
}

/// An address is found where it stands: behind whitespace or at the start of the text, a scheme and
/// what is behind it up to the next whitespace, as long as that does not end in the punctuation of a
/// sentence and no other begins before it.
#[verifier::spinoff_prover]
#[verifier::rlimit(60)]
pub proof fn law_an_address_is_found(
    before: Seq<char>,
    scheme: Seq<char>,
    body: Seq<char>,
    after: Seq<char>,
)
    requires
        before.len() > 0 ==> text::is_space(before.last()) && (before.last() as u32) < 128,
        after.len() > 0 ==> text::is_space(after[0]),
        scheme == "http://"@ || scheme == "https://"@,
        body.len() > 0,
        forall|i: int| 0 <= i < body.len() ==> !text::is_space(#[trigger] body[i]),
        ({
            let c = body.last();
            &&& c != '.' && c != ',' && c != ';' && c != ':' && c != '!' && c != '?' && c != '"'
            &&& c != '\'' && c != ')' && c != ']' && c != '/'
        }),
        forall|i: int|
            0 <= i < before.len() ==> !#[trigger] schemed(before + scheme + body + after, i),
    ensures
        next_url(before + scheme + body + after) == Some(
            (before.len() as int, (before.len() + scheme.len() + body.len()) as int),
        ),
{
    reveal_strlit("https://");
    reveal_strlit("http://");
    reveal_strlit("://");
    let t = before + scheme + body + after;
    let at = before.len() as int;
    let whole = scheme + body;
    let n = whole.len() as int;
    assert(t.subrange(at, at + scheme.len()) =~= scheme);
    assert(text::occurs_at(t, scheme, at));
    assert forall|j: int| at <= j < at + n implies !text::is_space(t[j]) by {
        if j < at + scheme.len() {
            assert(t[j] == scheme[j - at]);
        } else {
            assert(t[j] == body[j - at - scheme.len()]);
        }
    }
    lemma_word_reaches(t, at, at + n);
    lemma_word_end(t, at);
    if at + n < t.len() {
        assert(t[at + n] == after[0]);
        if word_end(t, at) > at + n {
            assert(!text::is_space(t[at + n]));
        }
    }
    assert(t.subrange(at, word_end(t, at)) =~= whole);
    assert(whole.last() == body.last());
    assert(!ends_in_prose(whole));
    assert(candidate(t, at) == whole);
    assert(!text::ends_with(whole, "://"@)) by {
        if text::ends_with(whole, "://"@) {
            assert(whole.subrange(n - 3, n)[2] == whole[n - 1]);
        }
    }
    if at > 0 {
        assert(t[at - 1] == before.last());
        lemma_space_is_no_letter(t[at - 1]);
    }
    assert(url_at(t, at));
    lemma_first_url(t, 0);
    let found = first_url(t, 0);
    assert(found == Some(at)) by {
        if let Some(k) = found {
            if k < at {
                assert(schemed(t, k));
            }
        }
    }
}

/// Whitespace that ASCII has, and what an address may stand behind.
proof fn lemma_space_is_no_letter(c: char)
    requires
        text::is_space(c),
        (c as u32) < 128,
    ensures
        !is_alphanumeric(c),
        c != ':',
{
}

/// The punctuation of a sentence is no part of an address, and a closing bracket is one only where it
/// matches one inside it. All else stays.
pub proof fn law_a_sentence_keeps_its_punctuation(url: Seq<char>, c: char)
    ensures
        ({
            let more = trimmed(url.push(c));
            &&& c == '.' || c == ',' || c == ';' || c == ':' || c == '!' || c == '?' || c == '"' || c
                == '\'' ==> more == trimmed(url)
            &&& c == ')' && text::count(url, ')') >= text::count(url, '(') ==> more == trimmed(url)
            &&& c == ')' && text::count(url, ')') < text::count(url, '(') ==> more == url.push(c)
            &&& c == ']' && text::count(url, ']') >= text::count(url, '[') ==> more == trimmed(url)
            &&& c == ']' && text::count(url, ']') < text::count(url, '[') ==> more == url.push(c)
            &&& !(c == '.' || c == ',' || c == ';' || c == ':' || c == '!' || c == '?' || c == '"' || c
                == '\'' || c == ')' || c == ']') ==> more == url.push(c)
        }),
{
    let u = url.push(c);
    assert(u.drop_last() =~= url);
    assert(u.last() == c);
}

/// What is the tail of a longer word is no address, nor is a scheme with nothing behind it.
pub proof fn law_a_tail_is_no_address(before: Seq<char>, rest: Seq<char>)
    requires
        before.len() > 0,
        text::is_letter(before.last()) || text::is_digit(before.last()),
        (before.last() as u32) < 128,
    ensures
        !url_at(before + rest, before.len() as int),
        !url_at(before + seq![':'] + rest, (before.len() + 1) as int),
        next_url("https://"@) is None,
        next_url("http://"@) is None,
{
    let a = before + rest;
    assert(a[before.len() - 1] == before.last());
    let b = before + seq![':'] + rest;
    assert(b[before.len() as int] == ':');
    assert(b[before.len() - 1] == before.last());
    lemma_scheme_alone("https://"@);
    lemma_scheme_alone("http://"@);
}

proof fn lemma_scheme_alone(s: Seq<char>)
    requires
        s == "https://"@ || s == "http://"@,
    ensures
        next_url(s) is None,
{
    reveal_strlit("https://");
    reveal_strlit("http://");
    reveal_strlit("://");
    let n = s.len() as int;
    lemma_first_url(s, 0);
    if let Some(at) = first_url(s, 0) {
        assert(text::occurs_at(s, "http://"@, at) || text::occurs_at(s, "https://"@, at));
        assert(at <= 1);
        if at == 1 {
            assert(s.subrange(1, 8)[0] == s[1]);
        }
        assert(at == 0);
        assert forall|j: int| 0 <= j < n implies !text::is_space(s[j]) by {}
        lemma_word_reaches(s, 0, n);
        lemma_word_end(s, 0);
        assert(s.subrange(0, n) =~= s);
        assert(s.last() == '/');
        assert(candidate(s, 0) == s);
        assert(s.subrange(n - 3, n) =~= "://"@);
    }
}

} // verus!
