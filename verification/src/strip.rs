//! Noise stripping: bracketed segments, the fixed vocabulary of technical
//! tokens, the selected year, and the collapse of every remaining
//! non-alphanumeric character into a space.

use vstd::prelude::*;

use crate::chars::{is_alnum, lower};
use crate::pattern::kw_at;
use crate::unicode::is_word_char;

verus! {

/// The first position at or after `i` holding `c`, or `-1` if none.
pub open spec fn find_from(s: Seq<char>, i: int, c: char) -> int
    recommends
        0 <= i <= s.len(),
    decreases s.len() - i,
{
    if i < 0 || i >= s.len() {
        -1
    } else if s[i] == c {
        i
    } else {
        find_from(s, i + 1, c)
    }
}

pub proof fn lemma_find_from(s: Seq<char>, i: int, c: char)
    requires
        0 <= i <= s.len(),
    ensures
        find_from(s, i, c) >= 0 ==> i <= find_from(s, i, c) < s.len() && s[find_from(s, i, c)]
            == c,
        forall|k: int| i <= k < find_from(s, i, c) ==> s[k] != c,
        find_from(s, i, c) < 0 ==> forall|k: int| i <= k < s.len() ==> s[k] != c,
    decreases s.len() - i,
{
    if i < s.len() && s[i] != c {
        lemma_find_from(s, i + 1, c);
    }
}

pub fn find_from_exec(s: &Vec<char>, i: usize, c: char) -> (r: Option<usize>)
    requires
        i <= s@.len(),
    ensures
        find_from(s@, i as int, c) >= 0 ==> r == Some(find_from(s@, i as int, c) as usize),
        find_from(s@, i as int, c) < 0 ==> r.is_none(),
{
    let mut j = i;
    while j < s.len()
        invariant
            i <= j <= s@.len(),
            find_from(s@, i as int, c) == find_from(s@, j as int, c),
        decreases s@.len() - j,
    {
        if s[j] == c {
            return Some(j);
        }
        j = j + 1;
    }
    None
}

/// Bracket stripping from position `i` on: each `[...]` or `(...)` span,
/// closed by the nearest closing delimiter, becomes a single space; an
/// unclosed opening delimiter stays as an ordinary character.
pub open spec fn strip_brackets_from(s: Seq<char>, i: int) -> Seq<char>
    recommends
        0 <= i <= s.len(),
    decreases s.len() - i,
{
    if i < 0 || i >= s.len() {
        Seq::empty()
    } else if s[i] == '[' && i + 1 <= find_from(s, i + 1, ']') < s.len() {
        seq![' '] + strip_brackets_from(s, find_from(s, i + 1, ']') + 1)
    } else if s[i] == '(' && i + 1 <= find_from(s, i + 1, ')') < s.len() {
        seq![' '] + strip_brackets_from(s, find_from(s, i + 1, ')') + 1)
    } else {
        seq![s[i]] + strip_brackets_from(s, i + 1)
    }
}

/// The whole stem head with bracketed segments removed.
pub open spec fn strip_brackets(s: Seq<char>) -> Seq<char> {
    strip_brackets_from(s, 0)
}

/// Appends the bracket-stripped tail of `s` from `i` to `out`.
pub fn strip_brackets_into(s: &Vec<char>, i: usize, out: &mut Vec<char>)
    requires
        i <= s@.len(),
    ensures
        final(out)@ == old(out)@ + strip_brackets_from(s@, i as int),
    decreases s@.len() - i,
{
    proof {
        assert(s.len() == s@.len());
    }
    if i >= s.len() {
        return ;
    }
    if s[i] == '[' {
        proof {
            lemma_find_from(s@, i + 1, ']');
        }
        if let Some(j) = find_from_exec(s, i + 1, ']') {
            out.push(' ');
            strip_brackets_into(s, j + 1, out);
            proof {
                assert(out@ =~= old(out)@ + strip_brackets_from(s@, i as int));
            }
            return ;
        }
    }
    if s[i] == '(' {
        proof {
            lemma_find_from(s@, i + 1, ')');
        }
        if let Some(j) = find_from_exec(s, i + 1, ')') {
            out.push(' ');
            strip_brackets_into(s, j + 1, out);
            proof {
                assert(out@ =~= old(out)@ + strip_brackets_from(s@, i as int));
            }
            return ;
        }
    }
    out.push(s[i]);
    strip_brackets_into(s, i + 1, out);
    proof {
        assert(out@ =~= old(out)@ + strip_brackets_from(s@, i as int));
    }
}

/// The fixed noise vocabulary, in matching order: resolutions, codecs,
/// source and rip markers, languages, audio markers.
pub open spec fn noise_tokens() -> Seq<Seq<char>> {
    seq![
        "hdtv"@,
        "1080p"@,
        "720p"@,
        "4k"@,
        "2160p"@,
        "x264"@,
        "x265"@,
        "h264"@,
        "h265"@,
        "webrip"@,
        "web-dl"@,
        "bluray"@,
        "bdrip"@,
        "dvdrip"@,
        "xvid"@,
        "rip"@,
        "english"@,
        "spanish"@,
        "castellano"@,
        "subs"@,
        "multi"@,
        "dual"@,
        "ddp5.1"@,
        "atmos"@,
        "ac3"@,
        "dts"@,
    ]
}

/// The length of the first vocabulary token matching at `i`, trying the
/// tokens of `toks` in order; `-1` if none matches.
pub open spec fn kw_list_match(s: Seq<char>, i: int, toks: Seq<Seq<char>>) -> int
    decreases toks.len(),
{
    if toks.len() == 0 {
        -1
    } else if kw_at(s, i, toks[0]) {
        toks[0].len() as int
    } else {
        kw_list_match(s, i, toks.skip(1))
    }
}

/// A release-group suffix: `-` followed only by ASCII alphanumerics, at
/// least one, reaching the end of the string.
pub open spec fn dash_tail_at(s: Seq<char>, i: int) -> bool {
    &&& 0 <= i
    &&& i + 1 < s.len()
    &&& s[i] == '-'
    &&& forall|k: int| i < k < s.len() ==> is_alnum(s[k])
}

/// The length of the noise match at `i`: a vocabulary token, or a
/// release-group suffix running to the end; `-1` if neither.
pub open spec fn noise_match_len(s: Seq<char>, i: int) -> int {
    if kw_list_match(s, i, noise_tokens()) >= 0 {
        kw_list_match(s, i, noise_tokens())
    } else if dash_tail_at(s, i) {
        s.len() - i
    } else {
        -1
    }
}

/// Noise stripping from position `i` on: each match of the vocabulary (or a
/// trailing release-group suffix) becomes a single space, scanning left to
/// right without rescanning replaced text.
pub open spec fn strip_noise_from(s: Seq<char>, i: int) -> Seq<char>
    recommends
        0 <= i <= s.len(),
    decreases s.len() - i,
{
    if i < 0 || i >= s.len() {
        Seq::empty()
    } else if 1 <= noise_match_len(s, i) && i + noise_match_len(s, i) <= s.len() {
        seq![' '] + strip_noise_from(s, i + noise_match_len(s, i))
    } else {
        seq![s[i]] + strip_noise_from(s, i + 1)
    }
}

pub open spec fn strip_noise(s: Seq<char>) -> Seq<char> {
    strip_noise_from(s, 0)
}

/// A noise match never runs past the end of the string.
pub proof fn lemma_kw_list_match_le(s: Seq<char>, i: int, toks: Seq<Seq<char>>)
    requires
        0 <= i,
    ensures
        kw_list_match(s, i, toks) >= 0 ==> i + kw_list_match(s, i, toks) <= s.len(),
    decreases toks.len(),
{
    if toks.len() > 0 && !kw_at(s, i, toks[0]) {
        lemma_kw_list_match_le(s, i, toks.skip(1));
    }
}

/// The noise tokens held as character vectors, in matching order.
pub struct NoiseVocab {
    pub toks: Vec<Vec<char>>,
}

impl NoiseVocab {
    pub open spec fn wf(&self) -> bool {
        self.toks@.map_values(|t: Vec<char>| t@) == noise_tokens()
    }

    pub fn new() -> (r: NoiseVocab)
        ensures
            r.wf(),
    {
        let mut toks: Vec<Vec<char>> = Vec::new();
        toks.push(crate::text::str_to_chars("hdtv"));
        toks.push(crate::text::str_to_chars("1080p"));
        toks.push(crate::text::str_to_chars("720p"));
        toks.push(crate::text::str_to_chars("4k"));
        toks.push(crate::text::str_to_chars("2160p"));
        toks.push(crate::text::str_to_chars("x264"));
        toks.push(crate::text::str_to_chars("x265"));
        toks.push(crate::text::str_to_chars("h264"));
        toks.push(crate::text::str_to_chars("h265"));
        toks.push(crate::text::str_to_chars("webrip"));
        toks.push(crate::text::str_to_chars("web-dl"));
        toks.push(crate::text::str_to_chars("bluray"));
        toks.push(crate::text::str_to_chars("bdrip"));
        toks.push(crate::text::str_to_chars("dvdrip"));
        toks.push(crate::text::str_to_chars("xvid"));
        toks.push(crate::text::str_to_chars("rip"));
        toks.push(crate::text::str_to_chars("english"));
        toks.push(crate::text::str_to_chars("spanish"));
        toks.push(crate::text::str_to_chars("castellano"));
        toks.push(crate::text::str_to_chars("subs"));
        toks.push(crate::text::str_to_chars("multi"));
        toks.push(crate::text::str_to_chars("dual"));
        toks.push(crate::text::str_to_chars("ddp5.1"));
        toks.push(crate::text::str_to_chars("atmos"));
        toks.push(crate::text::str_to_chars("ac3"));
        toks.push(crate::text::str_to_chars("dts"));
        let r = NoiseVocab { toks };
        proof {
            assert(r.toks@.map_values(|t: Vec<char>| t@) =~= noise_tokens());
        }
        r
    }
}

/// The length of the first vocabulary token matching at `i`, or none.
fn kw_list_match_exec(vocab: &NoiseVocab, s: &Vec<char>, i: usize) -> (r: Option<usize>)
    requires
        vocab.wf(),
        i <= s@.len(),
    ensures
        kw_list_match(s@, i as int, noise_tokens()) >= 0 ==> r == Some(
            kw_list_match(s@, i as int, noise_tokens()) as usize,
        ),
        kw_list_match(s@, i as int, noise_tokens()) < 0 ==> r.is_none(),
{
    let ghost all = noise_tokens();
    proof {
        assert(all.skip(0) =~= all);
    }
    let mut t: usize = 0;
    while t < vocab.toks.len()
        invariant
            vocab.wf(),
            i <= s@.len(),
            0 <= t <= vocab.toks@.len(),
            kw_list_match(s@, i as int, all) == kw_list_match(s@, i as int, all.skip(t as int)),
            all == noise_tokens(),
        decreases vocab.toks@.len() - t,
    {
        proof {
            assert(all.skip(t as int)[0] == vocab.toks@[t as int]@);
        }
        if crate::pattern::kw_at_exec(s, i, &vocab.toks[t]) {
            return Some(vocab.toks[t].len());
        }
        proof {
            assert(all.skip(t as int).skip(1) =~= all.skip(t + 1));
        }
        t = t + 1;
    }
    proof {
        assert(all.skip(vocab.toks@.len() as int).len() == 0);
    }
    None
}

fn dash_tail_exec(s: &Vec<char>, i: usize) -> (b: bool)
    requires
        i < s@.len(),
    ensures
        b == dash_tail_at(s@, i as int),
{
    proof {
        assert(s.len() == s@.len());
    }
    if s[i] != '-' {
        return false;
    }
    if i + 1 >= s.len() {
        return false;
    }
    let mut k = i + 1;
    while k < s.len()
        invariant
            i < k <= s@.len(),
            s@[i as int] == '-',
            i + 1 < s@.len(),
            forall|m: int| i < m < k ==> is_alnum(s@[m]),
        decreases s@.len() - k,
    {
        if !crate::chars::alnum_exec(s[k]) {
            assert(!dash_tail_at(s@, i as int));
            return false;
        }
        k = k + 1;
    }
    true
}

/// The length of the noise match at `i`, or none.
fn noise_match_exec(vocab: &NoiseVocab, s: &Vec<char>, i: usize) -> (r: Option<usize>)
    requires
        vocab.wf(),
        i < s@.len(),
    ensures
        noise_match_len(s@, i as int) >= 0 ==> r == Some(noise_match_len(s@, i as int) as usize),
        noise_match_len(s@, i as int) < 0 ==> r.is_none(),
{
    proof {
        assert(s.len() == s@.len());
        lemma_kw_list_match_le(s@, i as int, noise_tokens());
    }
    match kw_list_match_exec(vocab, s, i) {
        Some(l) => Some(l),
        None => {
            if dash_tail_exec(s, i) {
                Some(s.len() - i)
            } else {
                None
            }
        },
    }
}

/// Appends the noise-stripped tail of `s` from `i` to `out`.
pub fn strip_noise_into(vocab: &NoiseVocab, s: &Vec<char>, i: usize, out: &mut Vec<char>)
    requires
        vocab.wf(),
        i <= s@.len(),
    ensures
        final(out)@ == old(out)@ + strip_noise_from(s@, i as int),
    decreases s@.len() - i,
{
    proof {
        assert(s.len() == s@.len());
    }
    if i >= s.len() {
        return ;
    }
    proof {
        lemma_kw_list_match_le(s@, i as int, noise_tokens());
    }
    match noise_match_exec(vocab, s, i) {
        Some(l) if l >= 1 => {
            out.push(' ');
            strip_noise_into(vocab, s, i + l, out);
            proof {
                assert(out@ =~= old(out)@ + strip_noise_from(s@, i as int));
            }
        },
        _ => {
            out.push(s[i]);
            strip_noise_into(vocab, s, i + 1, out);
            proof {
                assert(out@ =~= old(out)@ + strip_noise_from(s@, i as int));
            }
        },
    }
}

/// The rightmost position at or before `i` where `pat` occurs in `s`, or
/// `-1` if none.
pub open spec fn rfind_at(s: Seq<char>, pat: Seq<char>, i: int) -> int
    decreases i + 1,
{
    if i < 0 {
        -1
    } else if i + pat.len() <= s.len() && s.subrange(i, i + pat.len()) == pat {
        i
    } else {
        rfind_at(s, pat, i - 1)
    }
}

/// Removes the rightmost occurrence of `pat` (the selected year) from `s`,
/// replacing it with a single space; `s` is unchanged when `pat` does not
/// occur.
pub open spec fn remove_rightmost(s: Seq<char>, pat: Seq<char>) -> Seq<char> {
    let p = rfind_at(s, pat, s.len() - pat.len());
    if p >= 0 {
        s.take(p) + seq![' '] + s.skip(p + pat.len())
    } else {
        s
    }
}

/// Whether `pat` occurs at exactly position `i` of `s`.
fn match_at_exec(s: &Vec<char>, i: usize, pat: &Vec<char>) -> (b: bool)
    requires
        i + pat@.len() <= s@.len(),
    ensures
        b == (s@.subrange(i as int, i + pat@.len()) == pat@),
{
    let mut k: usize = 0;
    proof {
        assert(s.len() == s@.len());
    }
    while k < pat.len()
        invariant
            0 <= k <= pat@.len(),
            i + pat@.len() <= s@.len(),
            s@.len() <= usize::MAX,
            forall|m: int| 0 <= m < k ==> s@[i + m] == pat@[m],
        decreases pat@.len() - k,
    {
        if s[i + k] != pat[k] {
            assert(s@.subrange(i as int, i + pat@.len())[k as int] != pat@[k as int]);
            return false;
        }
        k = k + 1;
    }
    proof {
        assert(s@.subrange(i as int, i + pat@.len()) =~= pat@);
    }
    true
}

/// Removes the rightmost occurrence of `pat` from `s`, replacing it with a
/// single space.
pub fn remove_rightmost_exec(s: &Vec<char>, pat: &Vec<char>) -> (r: Vec<char>)
    requires
        pat@.len() >= 1,
    ensures
        r@ == remove_rightmost(s@, pat@),
{
    proof {
        assert(s.len() == s@.len());
    }
    if pat.len() > s.len() {
        proof {
            assert(rfind_at(s@, pat@, s@.len() - pat@.len()) == -1);
        }
        return crate::text::subvec(s, 0, s.len());
    }
    let mut i: usize = s.len() - pat.len();
    loop
        invariant
            pat@.len() >= 1,
            s@.len() <= usize::MAX,
            i + pat@.len() <= s@.len(),
            rfind_at(s@, pat@, s@.len() - pat@.len()) == rfind_at(s@, pat@, i as int),
        decreases i,
    {
        if match_at_exec(s, i, pat) {
            let mut r = crate::text::subvec(s, 0, i);
            r.push(' ');
            let mut tail = crate::text::subvec(s, i + pat.len(), s.len());
            r.append(&mut tail);
            proof {
                assert(r@ =~= remove_rightmost(s@, pat@));
            }
            return r;
        }
        if i == 0 {
            proof {
                assert(rfind_at(s@, pat@, -1) == -1);
            }
            return crate::text::subvec(s, 0, s.len());
        }
        i = i - 1;
    }
}

/// Every character that is not alphanumeric becomes a space.
pub open spec fn spaceify(s: Seq<char>) -> Seq<char> {
    Seq::new(s.len(), |i: int| if is_word_char(s[i]) { s[i] } else { ' ' })
}

pub fn spaceify_exec(s: &Vec<char>) -> (r: Vec<char>)
    ensures
        r@ == spaceify(s@),
{
    let mut r: Vec<char> = Vec::new();
    let mut i: usize = 0;
    while i < s.len()
        invariant
            0 <= i <= s@.len(),
            r@.len() == i,
            forall|m: int| 0 <= m < i ==> r@[m] == (if is_word_char(s@[m]) {
                s@[m]
            } else {
                ' '
            }),
        decreases s@.len() - i,
    {
        if crate::unicode::is_word_char_exec(s[i]) {
            r.push(s[i]);
        } else {
            r.push(' ');
        }
        i = i + 1;
    }
    proof {
        assert(r@ =~= spaceify(s@));
    }
    r
}

} // verus!
