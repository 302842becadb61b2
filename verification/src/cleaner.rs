//! The normalizer: turns a noisy media filename into a clean display name
//! with a season/episode tag or a release year.
//!
//! The pipeline has five stages, strictly in order: episode-anchor
//! detection fixes the title/metadata boundary; the rightmost year in the
//! head is selected; bracketed segments, the noise vocabulary and the
//! selected year are stripped; the remaining text is title-cased; and the
//! result is assembled as `Title - SxxEyy.ext`, `Title (year).ext` or
//! `Title.ext`.
//!
//! Policy decisions the stages leave open are fixed as follows: the stem is
//! everything before the last `.` of the input and the extension everything
//! after it, with a trailing `.` always rendered (an input without any `.`
//! gets one appended); the selected year is removed from the candidate text
//! once, at its rightmost occurrence; word characters are the Unicode
//! alphanumerics, every other character counts as a separator, and case
//! mapping applies each character's Unicode mapping, character by
//! character.

use vstd::prelude::*;

use crate::numbers::{dec_str, pad2};
use crate::pattern::{
    anchor_episode,
    anchor_season,
    boundary,
    lemma_anchor_from,
    lemma_year_before,
    year_pos,
    MarkerKws,
};
use crate::strip::{remove_rightmost, spaceify, strip_brackets, strip_noise, NoiseVocab};
use crate::title::render_title;

verus! {

/// The rightmost `.` at or before `i`, or `-1` if none.
pub open spec fn dot_before(s: Seq<char>, i: int) -> int
    decreases i + 1,
{
    if i < 0 {
        -1
    } else if s[i] == '.' {
        i
    } else {
        dot_before(s, i - 1)
    }
}

/// The position of the extension separator: the last `.`, or `-1` if none.
pub open spec fn last_dot(s: Seq<char>) -> int {
    dot_before(s, s.len() - 1)
}

/// The stem: everything before the last `.`, or the whole name if none.
pub open spec fn stem_of(s: Seq<char>) -> Seq<char> {
    if last_dot(s) >= 0 {
        s.take(last_dot(s))
    } else {
        s
    }
}

/// The extension: everything after the last `.`, or empty if none.
pub open spec fn ext_of(s: Seq<char>) -> Seq<char> {
    if last_dot(s) >= 0 {
        s.skip(last_dot(s) + 1)
    } else {
        Seq::empty()
    }
}

pub proof fn lemma_dot_before(s: Seq<char>, i: int)
    requires
        i < s.len(),
    ensures
        dot_before(s, i) >= 0 ==> 0 <= dot_before(s, i) <= i && s[dot_before(s, i)] == '.',
        forall|k: int| dot_before(s, i) < k <= i ==> s[k] != '.',
    decreases i + 1,
{
    if i >= 0 && s[i] != '.' {
        lemma_dot_before(s, i - 1);
    }
}

/// The head: the part of the stem before the episode anchor, or the whole
/// stem when no anchor occurs; years and title text come from it.
pub open spec fn head_of(s: Seq<char>) -> Seq<char> {
    stem_of(s).take(boundary(stem_of(s)))
}

/// The title candidate: the head with bracketed segments, noise tokens and
/// the selected year stripped.
pub open spec fn candidate_of(s: Seq<char>) -> Seq<char> {
    let head = head_of(s);
    let stripped = strip_noise(strip_brackets(head));
    if year_pos(head) >= 0 {
        remove_rightmost(stripped, head.subrange(year_pos(head), year_pos(head) + 4))
    } else {
        stripped
    }
}

/// The rendered title text of a filename.
pub open spec fn title_of(s: Seq<char>) -> Seq<char> {
    render_title(spaceify(candidate_of(s)))
}

/// The rendered season/episode tag.
pub open spec fn ep_tag(season: nat, episode: nat) -> Seq<char> {
    seq!['S'] + pad2(dec_str(season)) + seq!['E'] + pad2(dec_str(episode))
}

/// The cleaned filename: title, then the episode tag if an anchor was
/// found, else the year in parentheses if one was found, then `.` and the
/// extension. Episode information takes priority over the year.
pub open spec fn clean_spec(s: Seq<char>) -> Seq<char> {
    let stem = stem_of(s);
    let head = head_of(s);
    let title = title_of(s);
    if boundary(stem) < stem.len() {
        title + seq![' ', '-', ' '] + ep_tag(
            anchor_season(stem, boundary(stem)),
            anchor_episode(stem, boundary(stem)),
        ) + seq!['.'] + ext_of(s)
    } else if year_pos(head) >= 0 {
        title + seq![' ', '('] + head.subrange(year_pos(head), year_pos(head) + 4) + seq![')']
            + seq!['.'] + ext_of(s)
    } else {
        title + seq!['.'] + ext_of(s)
    }
}

/// The normalizer, holding its pattern tables, built once and shared by
/// every call.
pub struct NameCleaner {
    pub kws: MarkerKws,
    pub vocab: NoiseVocab,
}

impl NameCleaner {
    /// The pattern tables hold exactly the fixed vocabulary.
    pub open spec fn wf(&self) -> bool {
        self.kws.wf() && self.vocab.wf()
    }

    pub fn new() -> (r: NameCleaner)
        ensures
            r.wf(),
    {
        NameCleaner { kws: MarkerKws::new(), vocab: NoiseVocab::new() }
    }

    /// Cleans one filename. Never fails: every input, including empty
    /// strings and strings without an extension, produces an output.
    #[verifier::rlimit(100)]
    pub fn clean(&self, filename: &str) -> (r: String)
        requires
            self.wf(),
        ensures
            r@ == clean_spec(filename@),
    {
        let full = crate::text::str_to_chars(filename);
        let dot = last_dot_exec(&full);
        proof {
            assert(full.len() == full@.len());
            lemma_dot_before(full@, full@.len() - 1);
        }
        let (stem, ext) = match dot {
            Some(d) => (
                crate::text::subvec(&full, 0, d),
                crate::text::subvec(&full, d + 1, full.len()),
            ),
            None => (crate::text::subvec(&full, 0, full.len()), Vec::new()),
        };
        proof {
            if last_dot(full@) < 0 {
                assert(full@.subrange(0, full@.len() as int) =~= full@);
            }
            assert(stem@ == stem_of(filename@));
            assert(ext@ == ext_of(filename@));
        }
        let b = crate::pattern::find_boundary(&self.kws, &stem);
        proof {
            lemma_anchor_from(stem@, 0);
        }
        let head = crate::text::subvec(&stem, 0, b);
        assert(head@ == head_of(filename@));
        let yp = crate::pattern::year_pos_exec(&head);
        proof {
            lemma_year_before(head@, head@.len() - 4);
        }
        let mut stripped: Vec<char> = Vec::new();
        crate::strip::strip_brackets_into(&head, 0, &mut stripped);
        let mut stripped2: Vec<char> = Vec::new();
        crate::strip::strip_noise_into(&self.vocab, &stripped, 0, &mut stripped2);
        let cand = match yp {
            Some(p) => {
                let year = crate::text::subvec(&head, p, p + 4);
                crate::strip::remove_rightmost_exec(&stripped2, &year)
            },
            None => stripped2,
        };
        assert(cand@ == candidate_of(filename@));
        let sp = crate::strip::spaceify_exec(&cand);
        let mut out: Vec<char> = Vec::new();
        crate::title::title_words_into(&sp, 0, true, &mut out);
        assert(out@ == title_of(filename@));
        if b < stem.len() {
            let nums = crate::pattern::anchor_nums_exec(&self.kws, &stem, b);
            out.push(' ');
            out.push('-');
            out.push(' ');
            out.push('S');
            crate::numbers::push_dec_pad2(nums.0, &mut out);
            out.push('E');
            crate::numbers::push_dec_pad2(nums.1, &mut out);
        } else if let Some(p) = yp {
            out.push(' ');
            out.push('(');
            out.push(head[p]);
            out.push(head[p + 1]);
            out.push(head[p + 2]);
            out.push(head[p + 3]);
            out.push(')');
        }
        out.push('.');
        let mut ext2 = ext;
        out.append(&mut ext2);
        proof {
            assert(out@ =~= clean_spec(filename@));
        }
        crate::text::chars_to_string(&out)
    }
}

/// The position of the last `.` in `s`, or none.
fn last_dot_exec(s: &Vec<char>) -> (r: Option<usize>)
    ensures
        last_dot(s@) >= 0 ==> r == Some(last_dot(s@) as usize),
        last_dot(s@) < 0 ==> r.is_none(),
{
    if s.len() == 0 {
        return None;
    }
    let mut i: usize = s.len() - 1;
    loop
        invariant
            0 <= i < s@.len(),
            last_dot(s@) == dot_before(s@, i as int),
        decreases i,
    {
        if s[i] == '.' {
            return Some(i);
        }
        if i == 0 {
            proof {
                assert(dot_before(s@, -1) == -1);
            }
            return None;
        }
        i = i - 1;
    }
}

} // verus!
