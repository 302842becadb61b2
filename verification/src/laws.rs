//! Laws of the normalizer, proved against the specification of `clean`.

use vstd::prelude::*;

use crate::chars::{is_alnum, is_digit, lower, upper};
use crate::cleaner::{
    clean_spec,
    dot_before,
    lemma_dot_before,
    ep_tag,
    ext_of,
    head_of,
    last_dot,
    stem_of,
    title_of,
};
use crate::numbers::{dec_str, digit_char, pad2};
use crate::pattern::{
    anchor_at,
    anchor_episode,
    anchor_season,
    boundary,
    lemma_anchor_from,
    lemma_year_before,
    year_at,
    year_pos,
};
use crate::strip::{
    noise_match_len,
    spaceify,
    strip_brackets,
    strip_brackets_from,
    strip_noise,
    strip_noise_from,
};
use crate::title::{render_title, title_rest, title_words};
use crate::unicode::ascii_text;

verus! {

/// Text made only of ASCII letters, digits and spaces.
///
/// Rendered titles have this form whenever the candidate text is ASCII.
pub open spec fn clean_text(w: Seq<char>) -> bool {
    forall|k: int| 0 <= k < w.len() ==> is_alnum(w[k]) || w[k] == ' '
}

/// Rendered ASCII title text: letters, digits and single separating
/// spaces, with each word title-cased.
pub open spec fn titlecased(w: Seq<char>) -> bool {
    &&& clean_text(w)
    &&& w.len() > 0 ==> w[0] != ' ' && w[w.len() - 1] != ' '
    &&& forall|k: int| 0 < k < w.len() ==> !(w[k - 1] == ' ' && #[trigger] w[k] == ' ')
    &&& forall|k: int|
        0 <= k < w.len() && w[k] != ' ' && (k == 0 || w[k - 1] == ' ') ==> upper(w[k]) == w[k]
    &&& forall|k: int|
        0 < k < w.len() && w[k] != ' ' && w[k - 1] != ' ' ==> lower(w[k]) == w[k]
}

/// Text without brackets passes bracket stripping unchanged.
proof fn lemma_strip_brackets_id(w: Seq<char>, i: int)
    requires
        0 <= i <= w.len(),
        forall|k: int| 0 <= k < w.len() ==> w[k] != '[' && w[k] != '(',
    ensures
        strip_brackets_from(w, i) == w.skip(i),
    decreases w.len() - i,
{
    if i >= w.len() {
        assert(strip_brackets_from(w, i) =~= w.skip(i));
    } else {
        lemma_strip_brackets_id(w, i + 1);
        assert(strip_brackets_from(w, i) =~= w.skip(i));
    }
}

/// Text on which no noise token matches passes noise stripping unchanged.
proof fn lemma_strip_noise_id(w: Seq<char>, i: int)
    requires
        0 <= i <= w.len(),
        forall|k: int| 0 <= k < w.len() ==> noise_match_len(w, k) == -1,
    ensures
        strip_noise_from(w, i) == w.skip(i),
    decreases w.len() - i,
{
    if i >= w.len() {
        assert(strip_noise_from(w, i) =~= w.skip(i));
    } else {
        lemma_strip_noise_id(w, i + 1);
        assert(strip_noise_from(w, i) =~= w.skip(i));
    }
}

/// Letters, digits and spaces pass the separator collapse unchanged.
proof fn lemma_spaceify_id(w: Seq<char>)
    requires
        clean_text(w),
    ensures
        spaceify(w) == w,
{
    assert(spaceify(w) =~= w);
}

/// Inside a rendered word (the previous character is not a space), the
/// rest of the rendering reproduces the text.
proof fn lemma_title_rest_id(w: Seq<char>, i: int)
    requires
        titlecased(w),
        0 < i <= w.len(),
        w[i - 1] != ' ',
    ensures
        title_rest(w, i) == w.skip(i),
    decreases w.len() - i,
{
    if i >= w.len() {
        assert(title_rest(w, i) =~= w.skip(i));
    } else if w[i] != ' ' {
        assert(lower(w[i]) == w[i]);
        lemma_title_rest_id(w, i + 1);
        assert(title_rest(w, i) =~= w.skip(i));
    } else {
        assert(i + 1 < w.len());
        assert(w[i + 1] != ' ');
        assert(upper(w[i + 1]) == w[i + 1]);
        lemma_title_rest_id(w, i + 2);
        assert(title_words(w, i + 1, false) =~= w.skip(i));
        assert(title_rest(w, i) == w.skip(i));
    }
}

/// Rendered title text is a fixed point of title rendering.
proof fn lemma_render_title_id(w: Seq<char>)
    requires
        titlecased(w),
    ensures
        render_title(w) == w,
{
    if w.len() == 0 {
        assert(render_title(w) =~= w);
    } else {
        assert(w[0] != ' ');
        assert(upper(w[0]) == w[0]);
        lemma_title_rest_id(w, 1);
        assert(render_title(w) =~= w);
    }
}

/// Case mapping is idempotent.
proof fn lemma_case_idempotent(c: char)
    ensures
        upper(upper(c)) == upper(c),
        lower(lower(c)) == lower(c),
{
}

/// What title rendering emits, starting inside a word: never a leading or
/// trailing space, no double spaces, every word start uppercased and every
/// word inside lowercased.
proof fn lemma_title_rest_shape(s: Seq<char>, i: int)
    requires
        0 <= i <= s.len(),
        clean_text(s),
    ensures
        ({
            let o = title_rest(s, i);
            &&& clean_text(o)
            &&& o.len() > 0 ==> o[o.len() - 1] != ' '
            &&& o.len() > 0 && o[0] == ' ' ==> o.len() > 1 && o[1] != ' '
            &&& forall|k: int| 0 < k < o.len() ==> !(o[k - 1] == ' ' && #[trigger] o[k] == ' ')
            &&& forall|k: int|
                0 < k < o.len() && o[k] != ' ' && o[k - 1] == ' ' ==> upper(#[trigger] o[k]) == o[k]
            &&& forall|k: int|
                0 <= k < o.len() && o[k] != ' ' && (k == 0 || o[k - 1] != ' ') ==> lower(
                    #[trigger] o[k],
                ) == o[k]
        }),
    decreases s.len() - i, 0int,
{
    let o = title_rest(s, i);
    if i < s.len() {
        if s[i] == ' ' {
            lemma_title_words_shape(s, i + 1, false);
        } else {
            lemma_case_clean(s[i]);
            lemma_case_idempotent(s[i]);
            lemma_title_rest_shape(s, i + 1);
            let rest = title_rest(s, i + 1);
            assert(o == seq![lower(s[i])] + rest);
            assert forall|k: int|
                0 <= k < o.len() && o[k] != ' ' && (k == 0 || o[k - 1] != ' ') implies lower(
                #[trigger] o[k],
            ) == o[k] by {
                if k >= 1 {
                    assert(o[k] == rest[k - 1]);
                    if k >= 2 {
                        assert(o[k - 1] == rest[k - 2]);
                    }
                }
            }
            assert forall|k: int|
                0 < k < o.len() && o[k] != ' ' && o[k - 1] == ' ' implies upper(#[trigger] o[k])
                == o[k] by {
                assert(o[k] == rest[k - 1]);
                assert(o[k - 1] == rest[k - 2] || k == 1);
            }
            assert forall|k: int| 0 < k < o.len() implies !(o[k - 1] == ' ' && #[trigger] o[k]
                == ' ') by {
                if k >= 2 {
                    assert(o[k] == rest[k - 1] && o[k - 1] == rest[k - 2]);
                } else {
                    assert(o[k] == rest[0]);
                }
            }
        }
    }
}

/// What title rendering emits, starting between words: well-spaced,
/// title-cased words, preceded by a single separating space unless no word
/// was emitted before.
proof fn lemma_title_words_shape(s: Seq<char>, i: int, first: bool)
    requires
        0 <= i <= s.len(),
        clean_text(s),
    ensures
        ({
            let o = title_words(s, i, first);
            &&& clean_text(o)
            &&& o.len() > 0 ==> o[o.len() - 1] != ' '
            &&& first && o.len() > 0 ==> o[0] != ' '
            &&& !first && o.len() > 0 ==> o[0] == ' ' && o.len() > 1 && o[1] != ' '
            &&& forall|k: int| 0 < k < o.len() ==> !(o[k - 1] == ' ' && #[trigger] o[k] == ' ')
            &&& forall|k: int|
                0 <= k < o.len() && o[k] != ' ' && (k == 0 || o[k - 1] == ' ') ==> upper(
                    #[trigger] o[k],
                ) == o[k]
            &&& forall|k: int|
                0 < k < o.len() && o[k] != ' ' && o[k - 1] != ' ' ==> lower(#[trigger] o[k])
                    == o[k]
        }),
    decreases s.len() - i, 1int,
{
    let o = title_words(s, i, first);
    if i < s.len() {
        if s[i] == ' ' {
            lemma_title_words_shape(s, i + 1, first);
        } else {
            lemma_case_clean(s[i]);
            lemma_case_idempotent(s[i]);
            lemma_title_rest_shape(s, i + 1);
            let sep: Seq<char> = if first {
                Seq::empty()
            } else {
                seq![' ']
            };
            let rest = title_rest(s, i + 1);
            let d = sep.len() + 1;
            assert(o == sep + seq![upper(s[i])] + rest);
            assert(o[sep.len() as int] == upper(s[i]));
            assert forall|k: int| d <= k < o.len() implies o[k] == rest[k - d] by {}
            assert forall|k: int| 0 < k < o.len() implies !(o[k - 1] == ' ' && #[trigger] o[k]
                == ' ') by {
                if k >= d + 1 {
                    assert(o[k] == rest[k - d] && o[k - 1] == rest[k - d - 1]);
                }
            }
            assert forall|k: int|
                0 <= k < o.len() && o[k] != ' ' && (k == 0 || o[k - 1] == ' ') implies upper(
                #[trigger] o[k],
            ) == o[k] by {
                if k >= d + 1 {
                    assert(o[k] == rest[k - d] && o[k - 1] == rest[k - d - 1]);
                } else if k == d {
                    assert(o[k] == rest[0]);
                }
            }
            assert forall|k: int|
                0 < k < o.len() && o[k] != ' ' && o[k - 1] != ' ' implies lower(#[trigger] o[k])
                == o[k] by {
                if k >= d + 1 {
                    assert(o[k] == rest[k - d] && o[k - 1] == rest[k - d - 1]);
                } else if k == d {
                    assert(o[k] == rest[0] && o[k - 1] == upper(s[i]));
                }
            }
        }
    }
}

/// Every title the cleaner renders from ASCII candidate text is in
/// rendered form: the casing rules are a fixed point on it. (Beyond ASCII
/// the case mappings are the named results of the Unicode mappings, of
/// which nothing further is assumed.)
pub proof fn lemma_title_titlecased(s: Seq<char>)
    requires
        ascii_text(crate::cleaner::candidate_of(s)),
    ensures
        titlecased(title_of(s)),
{
    let cand = crate::cleaner::candidate_of(s);
    assert(clean_text(spaceify(cand)));
    lemma_title_words_shape(spaceify(cand), 0, true);
}

/// A `.` at `j` with none later pins the extension separator.
proof fn lemma_dot_before_pinned(s: Seq<char>, j: int, i: int)
    requires
        0 <= j <= i < s.len(),
        s[j] == '.',
        forall|k: int| j < k <= i ==> s[k] != '.',
    ensures
        dot_before(s, i) == j,
    decreases i,
{
    if i > j {
        lemma_dot_before_pinned(s, j, i - 1);
    }
}

/// Idempotence: an already-cleaned name — ASCII title text with an
/// extension, holding no further anchor, year, bracket or noise token — is
/// a fixed point of the cleaner. (Titles with characters beyond ASCII
/// render through the named Unicode case mappings, of which nothing
/// further is assumed, so the casing fixed point is stated on ASCII.)
pub proof fn lemma_clean_fixed_point(w: Seq<char>, e: Seq<char>)
    requires
        titlecased(w),
        forall|i: int| 0 <= i < w.len() ==> !anchor_at(w, i),
        forall|i: int| 0 <= i < w.len() ==> !year_at(w, i),
        forall|i: int| 0 <= i < w.len() ==> noise_match_len(w, i) == -1,
        forall|k: int| 0 <= k < e.len() ==> e[k] != '.',
    ensures
        clean_spec(w + seq!['.'] + e) == w + seq!['.'] + e,
{
    let s = w + seq!['.'] + e;
    assert(s[w.len() as int] == '.');
    lemma_dot_before_pinned(s, w.len() as int, s.len() - 1);
    assert(last_dot(s) == w.len());
    assert(stem_of(s) =~= w);
    assert(ext_of(s) =~= e);
    lemma_anchor_from(w, 0);
    assert(boundary(w) == w.len());
    assert(head_of(s) =~= w);
    lemma_year_before(w, w.len() - 4);
    assert(year_pos(w) < 0);
    lemma_strip_brackets_id(w, 0);
    assert(strip_brackets(w) =~= w);
    lemma_strip_noise_id(w, 0);
    assert(strip_noise(w) =~= w);
    assert(crate::cleaner::candidate_of(s) == w);
    lemma_spaceify_id(w);
    lemma_render_title_id(w);
    assert(title_of(s) == w);
    assert(clean_spec(s) =~= w + seq!['.'] + e);
}

/// A run of digits at the front of bracket stripping comes verbatim from
/// the input.
proof fn lemma_strip_brackets_digit_prefix(s: Seq<char>, i: int, m: int)
    requires
        0 <= i <= s.len(),
        0 <= m <= strip_brackets_from(s, i).len(),
        forall|t: int| 0 <= t < m ==> is_digit(#[trigger] strip_brackets_from(s, i)[t]),
    ensures
        i + m <= s.len(),
        strip_brackets_from(s, i).subrange(0, m) == s.subrange(i, i + m),
    decreases s.len() - i,
{
    let o = strip_brackets_from(s, i);
    if m == 0 {
        assert(o.subrange(0, 0) =~= s.subrange(i, i));
    } else {
        assert(is_digit(o[0]));
        if s[i] == '[' && i + 1 <= crate::strip::find_from(s, i + 1, ']') < s.len() {
            assert(o[0] == ' ');
            assert(false);
        }
        if s[i] == '(' && i + 1 <= crate::strip::find_from(s, i + 1, ')') < s.len() {
            assert(o[0] == ' ');
            assert(false);
        }
        let rest = strip_brackets_from(s, i + 1);
        assert(o == seq![s[i]] + rest);
        assert forall|t: int| 0 <= t < m - 1 implies is_digit(#[trigger] rest[t]) by {
            assert(rest[t] == o[t + 1]);
        }
        lemma_strip_brackets_digit_prefix(s, i + 1, m - 1);
        assert forall|t: int| 0 <= t < m implies o.subrange(0, m)[t] == s.subrange(i, i + m)[t] by {
            if t >= 1 {
                assert(o[t] == rest[t - 1]);
                assert(rest[t - 1] == rest.subrange(0, m - 1)[t - 1]);
                assert(rest.subrange(0, m - 1)[t - 1] == s.subrange(i + 1, i + m)[t - 1]);
            }
        }
        assert(o.subrange(0, m) =~= s.subrange(i, i + m));
    }
}

/// Bracket stripping introduces no year window.
proof fn lemma_strip_brackets_year(s: Seq<char>, i: int)
    requires
        0 <= i <= s.len(),
        forall|j: int| !year_at(s, j),
    ensures
        forall|k: int| !year_at(strip_brackets_from(s, i), k),
    decreases s.len() - i,
{
    let o = strip_brackets_from(s, i);
    if i < s.len() {
        if s[i] == '[' && i + 1 <= crate::strip::find_from(s, i + 1, ']') < s.len() {
            let n = crate::strip::find_from(s, i + 1, ']') + 1;
            lemma_strip_brackets_year(s, n);
            let rest = strip_brackets_from(s, n);
            assert(o == seq![' '] + rest);
            assert forall|k: int| !year_at(o, k) by {
                if year_at(o, k) {
                    assert(k >= 1);
                    assert forall|t: int| 0 <= t < 4 implies #[trigger] o[k + t] == rest[k - 1
                        + t] by {}
                    assert(year_at(rest, k - 1));
                }
            }
        } else if s[i] == '(' && i + 1 <= crate::strip::find_from(s, i + 1, ')') < s.len() {
            let n = crate::strip::find_from(s, i + 1, ')') + 1;
            lemma_strip_brackets_year(s, n);
            let rest = strip_brackets_from(s, n);
            assert(o == seq![' '] + rest);
            assert forall|k: int| !year_at(o, k) by {
                if year_at(o, k) {
                    assert(k >= 1);
                    assert forall|t: int| 0 <= t < 4 implies #[trigger] o[k + t] == rest[k - 1
                        + t] by {}
                    assert(year_at(rest, k - 1));
                }
            }
        } else {
            lemma_strip_brackets_year(s, i + 1);
            let rest = strip_brackets_from(s, i + 1);
            assert(o == seq![s[i]] + rest);
            assert forall|k: int| !year_at(o, k) by {
                if year_at(o, k) {
                    if k == 0 {
                        assert(is_digit(o[0]) && is_digit(o[1]) && is_digit(o[2]) && is_digit(
                            o[3],
                        ));
                        lemma_strip_brackets_digit_prefix(s, i, 4);
                        assert forall|t: int| 0 <= t < 4 implies #[trigger] o[t] == s[i + t] by {
                            assert(o[t] == o.subrange(0, 4)[t]);
                            assert(s[i + t] == s.subrange(i, i + 4)[t]);
                        }
                        assert(year_at(s, i));
                    } else {
                        assert forall|t: int| 0 <= t < 4 implies #[trigger] o[k + t] == rest[k - 1
                            + t] by {}
                        assert(year_at(rest, k - 1));
                    }
                }
            }
        }
    }
}

/// A run of digits at the front of noise stripping comes verbatim from
/// the input.
proof fn lemma_strip_noise_digit_prefix(s: Seq<char>, i: int, m: int)
    requires
        0 <= i <= s.len(),
        0 <= m <= strip_noise_from(s, i).len(),
        forall|t: int| 0 <= t < m ==> is_digit(#[trigger] strip_noise_from(s, i)[t]),
    ensures
        i + m <= s.len(),
        strip_noise_from(s, i).subrange(0, m) == s.subrange(i, i + m),
    decreases s.len() - i,
{
    let o = strip_noise_from(s, i);
    if m == 0 {
        assert(o.subrange(0, 0) =~= s.subrange(i, i));
    } else {
        assert(is_digit(o[0]));
        if 1 <= noise_match_len(s, i) && i + noise_match_len(s, i) <= s.len() {
            assert(o[0] == ' ');
            assert(false);
        }
        let rest = strip_noise_from(s, i + 1);
        assert(o == seq![s[i]] + rest);
        assert forall|t: int| 0 <= t < m - 1 implies is_digit(#[trigger] rest[t]) by {
            assert(rest[t] == o[t + 1]);
        }
        lemma_strip_noise_digit_prefix(s, i + 1, m - 1);
        assert forall|t: int| 0 <= t < m implies o.subrange(0, m)[t] == s.subrange(i, i + m)[t] by {
            if t >= 1 {
                assert(o[t] == rest[t - 1]);
                assert(rest[t - 1] == rest.subrange(0, m - 1)[t - 1]);
                assert(rest.subrange(0, m - 1)[t - 1] == s.subrange(i + 1, i + m)[t - 1]);
            }
        }
        assert(o.subrange(0, m) =~= s.subrange(i, i + m));
    }
}

/// Noise stripping introduces no year window.
proof fn lemma_strip_noise_year(s: Seq<char>, i: int)
    requires
        0 <= i <= s.len(),
        forall|j: int| !year_at(s, j),
    ensures
        forall|k: int| !year_at(strip_noise_from(s, i), k),
    decreases s.len() - i,
{
    let o = strip_noise_from(s, i);
    if i < s.len() {
        if 1 <= noise_match_len(s, i) && i + noise_match_len(s, i) <= s.len() {
            let n = i + noise_match_len(s, i);
            lemma_strip_noise_year(s, n);
            let rest = strip_noise_from(s, n);
            assert(o == seq![' '] + rest);
            assert forall|k: int| !year_at(o, k) by {
                if year_at(o, k) {
                    assert(k >= 1);
                    assert forall|t: int| 0 <= t < 4 implies #[trigger] o[k + t] == rest[k - 1
                        + t] by {}
                    assert(year_at(rest, k - 1));
                }
            }
        } else {
            lemma_strip_noise_year(s, i + 1);
            let rest = strip_noise_from(s, i + 1);
            assert(o == seq![s[i]] + rest);
            assert forall|k: int| !year_at(o, k) by {
                if year_at(o, k) {
                    if k == 0 {
                        assert(is_digit(o[0]) && is_digit(o[1]) && is_digit(o[2]) && is_digit(
                            o[3],
                        ));
                        lemma_strip_noise_digit_prefix(s, i, 4);
                        assert forall|t: int| 0 <= t < 4 implies #[trigger] o[t] == s[i + t] by {
                            assert(o[t] == o.subrange(0, 4)[t]);
                            assert(s[i + t] == s.subrange(i, i + 4)[t]);
                        }
                        assert(year_at(s, i));
                    } else {
                        assert forall|t: int| 0 <= t < 4 implies #[trigger] o[k + t] == rest[k - 1
                            + t] by {}
                        assert(year_at(rest, k - 1));
                    }
                }
            }
        }
    }
}

/// The separator collapse introduces no year window.
proof fn lemma_spaceify_year(s: Seq<char>)
    requires
        forall|j: int| !year_at(s, j),
    ensures
        forall|k: int| !year_at(spaceify(s), k),
{
    let o = spaceify(s);
    assert forall|k: int| !year_at(o, k) by {
        if year_at(o, k) {
            assert forall|t: int| 0 <= t < 4 implies #[trigger] o[k + t] == s[k + t] by {
                assert(is_digit(o[k + t]));
            }
            assert(year_at(s, k));
        }
    }
}

/// A run of digits at the front of a word rest comes verbatim from the
/// input.
proof fn lemma_title_rest_digit_prefix(s: Seq<char>, i: int, m: int)
    requires
        clean_text(s),
        0 <= i <= s.len(),
        0 <= m <= title_rest(s, i).len(),
        forall|t: int| 0 <= t < m ==> is_digit(#[trigger] title_rest(s, i)[t]),
    ensures
        i + m <= s.len(),
        title_rest(s, i).subrange(0, m) == s.subrange(i, i + m),
    decreases s.len() - i,
{
    let o = title_rest(s, i);
    if m == 0 {
        assert(o.subrange(0, 0) =~= s.subrange(i, i));
    } else {
        assert(is_digit(o[0]));
        if s[i] == ' ' {
            lemma_title_words_shape(s, i + 1, false);
            assert(o[0] == ' ');
            assert(false);
        }
        assert(crate::unicode::lower_c(s[i]) == seq![lower(s[i])]);
        let rest = title_rest(s, i + 1);
        assert(o == seq![lower(s[i])] + rest);
        assert(s[i] == lower(s[i]));
        assert forall|t: int| 0 <= t < m - 1 implies is_digit(#[trigger] rest[t]) by {
            assert(rest[t] == o[t + 1]);
        }
        lemma_title_rest_digit_prefix(s, i + 1, m - 1);
        assert forall|t: int| 0 <= t < m implies o.subrange(0, m)[t] == s.subrange(i, i + m)[t] by {
            if t >= 1 {
                assert(o[t] == rest[t - 1]);
                assert(rest[t - 1] == rest.subrange(0, m - 1)[t - 1]);
                assert(rest.subrange(0, m - 1)[t - 1] == s.subrange(i + 1, i + m)[t - 1]);
            }
        }
        assert(o.subrange(0, m) =~= s.subrange(i, i + m));
    }
}

/// Title rendering introduces no year window.
proof fn lemma_title_words_year(s: Seq<char>, i: int, first: bool)
    requires
        clean_text(s),
        0 <= i <= s.len(),
        forall|j: int| !year_at(s, j),
    ensures
        forall|k: int| !year_at(title_words(s, i, first), k),
    decreases s.len() - i, 1int,
{
    let o = title_words(s, i, first);
    if i < s.len() {
        if s[i] == ' ' {
            lemma_title_words_year(s, i + 1, first);
            assert forall|k: int| !year_at(o, k) by {
                assert(!year_at(title_words(s, i + 1, first), k));
            }
        } else {
            assert(crate::unicode::upper_c(s[i]) == seq![upper(s[i])]);
            let sep: Seq<char> = if first {
                Seq::empty()
            } else {
                seq![' ']
            };
            let d0 = sep.len() as int;
            let rest = title_rest(s, i + 1);
            assert(o == sep + seq![upper(s[i])] + rest);
            lemma_title_rest_year(s, i + 1);
            assert forall|k: int| !year_at(o, k) by {
                if year_at(o, k) {
                    if k < d0 {
                        assert(o[k] == ' ');
                        assert(false);
                    } else if k == d0 {
                        assert(o[k] == upper(s[i]));
                        assert(is_digit(upper(s[i])));
                        assert(s[i] == upper(s[i]));
                        assert forall|t: int| 0 <= t < 3 implies is_digit(#[trigger] rest[t]) by {
                            assert(rest[t] == o[k + 1 + t]);
                        }
                        lemma_title_rest_digit_prefix(s, i + 1, 3);
                        assert forall|t: int| 0 <= t < 3 implies #[trigger] rest[t] == s[i + 1
                            + t] by {
                            assert(rest[t] == rest.subrange(0, 3)[t]);
                            assert(s[i + 1 + t] == s.subrange(i + 1, i + 4)[t]);
                        }
                        assert(year_at(s, i));
                    } else {
                        assert forall|t: int| 0 <= t < 4 implies #[trigger] o[k + t] == rest[k - d0
                            - 1 + t] by {}
                        assert(year_at(rest, k - d0 - 1));
                    }
                }
            }
        }
    }
}

/// The rest of a word is rendered without introducing a year window.
proof fn lemma_title_rest_year(s: Seq<char>, i: int)
    requires
        clean_text(s),
        0 <= i <= s.len(),
        forall|j: int| !year_at(s, j),
    ensures
        forall|k: int| !year_at(title_rest(s, i), k),
    decreases s.len() - i, 0int,
{
    let o = title_rest(s, i);
    if i < s.len() {
        if s[i] == ' ' {
            lemma_title_words_year(s, i + 1, false);
            assert forall|k: int| !year_at(o, k) by {
                assert(!year_at(title_words(s, i + 1, false), k));
            }
        } else {
            assert(crate::unicode::lower_c(s[i]) == seq![lower(s[i])]);
            let rest = title_rest(s, i + 1);
            assert(o == seq![lower(s[i])] + rest);
            lemma_title_rest_year(s, i + 1);
            assert forall|k: int| !year_at(o, k) by {
                if year_at(o, k) {
                    if k == 0 {
                        assert(is_digit(o[0]));
                        assert(s[i] == lower(s[i]));
                        assert forall|t: int| 0 <= t < 3 implies is_digit(#[trigger] rest[t]) by {
                            assert(rest[t] == o[1 + t]);
                        }
                        lemma_title_rest_digit_prefix(s, i + 1, 3);
                        assert forall|t: int| 0 <= t < 3 implies #[trigger] rest[t] == s[i + 1
                            + t] by {
                            assert(rest[t] == rest.subrange(0, 3)[t]);
                            assert(s[i + 1 + t] == s.subrange(i + 1, i + 4)[t]);
                        }
                        assert(year_at(s, i));
                    } else {
                        assert forall|t: int| 0 <= t < 4 implies #[trigger] o[k + t] == rest[k - 1
                            + t] by {}
                        assert(year_at(rest, k - 1));
                    }
                }
            }
        }
    }
}

/// Where the head holds no year, the rendered title holds none either:
/// stripping replaces text with spaces and never moves digits together,
/// and rendering keeps digits apart across words.
proof fn lemma_title_year_free(x: Seq<char>)
    requires
        ascii_text(crate::cleaner::candidate_of(x)),
        year_pos(head_of(x)) < 0,
    ensures
        forall|k: int| !year_at(title_of(x), k),
{
    let head = head_of(x);
    lemma_year_before(head, head.len() - 4);
    assert forall|j: int| !year_at(head, j) by {
        if year_at(head, j) {
            assert(j <= head.len() - 4);
        }
    }
    lemma_strip_brackets_year(head, 0);
    let b = strip_brackets(head);
    lemma_strip_noise_year(b, 0);
    let cand = crate::cleaner::candidate_of(x);
    assert(cand == strip_noise(b));
    lemma_spaceify_year(cand);
    assert(clean_text(spaceify(cand)));
    lemma_title_words_year(spaceify(cand), 0, true);
}

/// Idempotence on the cleaner's own output: where an input renders with
/// neither episode tag nor year, and its title (ASCII, as rendered) holds
/// no further anchor or noise token, cleaning the output returns it
/// unchanged. That the title holds no year follows from the head holding
/// none: stripping and rendering replace text with spaces and never move
/// digits together.
pub proof fn lemma_clean_idempotent(x: Seq<char>)
    requires
        boundary(stem_of(x)) == stem_of(x).len(),
        year_pos(head_of(x)) < 0,
        ascii_text(crate::cleaner::candidate_of(x)),
        forall|i: int| 0 <= i < title_of(x).len() ==> !anchor_at(title_of(x), i),
        forall|i: int| 0 <= i < title_of(x).len() ==> noise_match_len(title_of(x), i) == -1,
    ensures
        clean_spec(clean_spec(x)) == clean_spec(x),
{
    let w = title_of(x);
    let e = ext_of(x);
    assert(clean_spec(x) == w + seq!['.'] + e);
    assert forall|k: int| 0 <= k < e.len() implies e[k] != '.' by {
        if last_dot(x) >= 0 {
            lemma_dot_before(x, x.len() - 1);
            assert(e[k] == x[last_dot(x) + 1 + k]);
        }
    }
    lemma_title_titlecased(x);
    lemma_title_year_free(x);
    lemma_clean_fixed_point(w, e);
}

/// Extension preservation: whenever the input has an extension separator,
/// the output ends with `.` and the same extension text.
pub proof fn lemma_extension_preserved(s: Seq<char>)
    requires
        last_dot(s) >= 0,
    ensures
        clean_spec(s).len() > ext_of(s).len(),
        clean_spec(s).skip(clean_spec(s).len() - ext_of(s).len() - 1) == seq!['.'] + ext_of(s),
{
    let out = clean_spec(s);
    let e = ext_of(s);
    let stem = stem_of(s);
    let head = head_of(s);
    if boundary(stem) < stem.len() {
        let pre = title_of(s) + seq![' ', '-', ' '] + ep_tag(
            anchor_season(stem, boundary(stem)),
            anchor_episode(stem, boundary(stem)),
        );
        assert(out == pre + seq!['.'] + e);
        assert(out.skip(pre.len() as int) =~= seq!['.'] + e);
    } else if year_pos(head) >= 0 {
        let pre = title_of(s) + seq![' ', '('] + head.subrange(
            year_pos(head),
            year_pos(head) + 4,
        ) + seq![')'];
        assert(out == pre + seq!['.'] + e);
        assert(out.skip(pre.len() as int) =~= seq!['.'] + e);
    } else {
        let pre = title_of(s);
        assert(out == pre + seq!['.'] + e);
        assert(out.skip(pre.len() as int) =~= seq!['.'] + e);
    }
}

/// Uppercasing and lowercasing keep letters and digits within letters and
/// digits.
proof fn lemma_case_clean(c: char)
    requires
        is_alnum(c),
    ensures
        is_alnum(upper(c)),
        is_alnum(lower(c)),
{
}

/// Title rendering emits only letters, digits and spaces when fed them.
proof fn lemma_title_words_clean(s: Seq<char>, i: int, first: bool)
    requires
        0 <= i <= s.len(),
        clean_text(s),
    ensures
        clean_text(title_words(s, i, first)),
    decreases s.len() - i, 1int,
{
    if i < s.len() {
        if s[i] == ' ' {
            lemma_title_words_clean(s, i + 1, first);
        } else {
            lemma_case_clean(s[i]);
            lemma_title_rest_clean(s, i + 1);
            assert forall|k: int|
                0 <= k < title_words(s, i, first).len() implies is_alnum(
                title_words(s, i, first)[k],
            ) || title_words(s, i, first)[k] == ' ' by {
                let sep: Seq<char> = if first {
                    Seq::empty()
                } else {
                    seq![' ']
                };
                let rest = title_rest(s, i + 1);
                if k >= sep.len() + 1 {
                    assert(title_words(s, i, first)[k] == rest[k - sep.len() - 1]);
                }
            }
        }
    }
}

/// The rest of a word is rendered with only letters, digits and spaces
/// when fed them.
proof fn lemma_title_rest_clean(s: Seq<char>, i: int)
    requires
        0 <= i <= s.len(),
        clean_text(s),
    ensures
        clean_text(title_rest(s, i)),
    decreases s.len() - i, 0int,
{
    if i < s.len() {
        if s[i] == ' ' {
            lemma_title_words_clean(s, i + 1, false);
        } else {
            lemma_case_clean(s[i]);
            lemma_title_rest_clean(s, i + 1);
            assert forall|k: int|
                0 <= k < title_rest(s, i).len() implies is_alnum(title_rest(s, i)[k])
                || title_rest(s, i)[k] == ' ' by {
                if k >= 1 {
                    assert(title_rest(s, i)[k] == title_rest(s, i + 1)[k - 1]);
                }
            }
        }
    }
}

/// The title text rendered from ASCII candidate text holds only letters,
/// digits and spaces.
pub proof fn lemma_title_clean(s: Seq<char>)
    requires
        ascii_text(crate::cleaner::candidate_of(s)),
    ensures
        clean_text(title_of(s)),
{
    let cand = crate::cleaner::candidate_of(s);
    assert(clean_text(spaceify(cand)));
    lemma_title_words_clean(spaceify(cand), 0, true);
}

/// A decimal rendering consists of digits only.
proof fn lemma_dec_str_digits(n: nat)
    ensures
        forall|k: int| 0 <= k < dec_str(n).len() ==> is_digit(#[trigger] dec_str(n)[k]),
    decreases n,
{
    assert(is_digit(digit_char(n % 10)));
    if n < 10 {
        assert(is_digit(digit_char(n)));
        assert(dec_str(n) == seq![digit_char(n)]);
    } else {
        lemma_dec_str_digits(n / 10);
        assert forall|k: int| 0 <= k < dec_str(n).len() implies is_digit(
            #[trigger] dec_str(n)[k],
        ) by {
            if k < dec_str(n / 10).len() {
                assert(dec_str(n)[k] == dec_str(n / 10)[k]);
            } else {
                assert(dec_str(n)[k] == digit_char(n % 10));
            }
        }
    }
}

/// A season/episode tag consists of letters and digits only.
proof fn lemma_ep_tag_clean(season: nat, episode: nat)
    ensures
        clean_text(ep_tag(season, episode)),
        ep_tag(season, episode).len() >= 6,
        ep_tag(season, episode)[0] == 'S',
{
    lemma_dec_str_digits(season);
    lemma_dec_str_digits(episode);
    crate::numbers::lemma_dec_str_len(season);
    crate::numbers::lemma_dec_str_len(episode);
    let t = ep_tag(season, episode);
    assert forall|k: int| 0 <= k < t.len() implies is_alnum(t[k]) || t[k] == ' ' by {
        let ps = pad2(dec_str(season));
        let pe = pad2(dec_str(episode));
        if 1 <= k < 1 + ps.len() {
            assert(t[k] == ps[k - 1]);
        } else if k >= 2 + ps.len() {
            assert(t[k] == pe[k - 2 - ps.len()]);
        }
    }
}

/// Episode priority: whenever an episode anchor is present, the output
/// carries the season/episode tag, and no parenthesized year appears
/// before the extension separator (the year, even when one was found, is
/// not rendered).
pub proof fn lemma_episode_priority(s: Seq<char>)
    requires
        boundary(stem_of(s)) < stem_of(s).len(),
    ensures
        clean_spec(s) == title_of(s) + seq![' ', '-', ' '] + ep_tag(
            anchor_season(stem_of(s), boundary(stem_of(s))),
            anchor_episode(stem_of(s), boundary(stem_of(s))),
        ) + seq!['.'] + ext_of(s),
        ascii_text(crate::cleaner::candidate_of(s)) ==> forall|k: int|
            0 <= k < clean_spec(s).len() - ext_of(s).len() - 1 ==> #[trigger] clean_spec(s)[k]
                != '(' && clean_spec(s)[k] != ')',
{
    let stem = stem_of(s);
    let title = title_of(s);
    let tag = ep_tag(anchor_season(stem, boundary(stem)), anchor_episode(stem, boundary(stem)));
    let pre = title + seq![' ', '-', ' '] + tag;
    lemma_ep_tag_clean(anchor_season(stem, boundary(stem)), anchor_episode(stem, boundary(stem)));
    assert(clean_spec(s) == pre + seq!['.'] + ext_of(s));
    if ascii_text(crate::cleaner::candidate_of(s)) {
        lemma_title_clean(s);
        assert forall|k: int| 0 <= k < clean_spec(s).len() - ext_of(s).len() - 1 implies #[trigger] clean_spec(
            s,
        )[k] != '(' && clean_spec(s)[k] != ')' by {
            assert(clean_spec(s)[k] == pre[k]);
            if k < title.len() {
                assert(pre[k] == title[k]);
                assert(is_alnum(title[k]) || title[k] == ' ');
            } else if k >= title.len() + 3 {
                assert(pre[k] == tag[k - title.len() - 3]);
                assert(is_alnum(tag[k - title.len() - 3]) || tag[k - title.len() - 3] == ' ');
            }
        }
    }
}

/// Rightmost-year selection: with two years in the head, the selected year
/// starts at or after the later one, and, when no episode anchor is
/// present, exactly that selection is rendered in parentheses.
pub proof fn lemma_rightmost_year(s: Seq<char>, i: int, j: int)
    requires
        year_at(head_of(s), i),
        year_at(head_of(s), j),
        i < j,
    ensures
        year_pos(head_of(s)) >= j,
        year_at(head_of(s), year_pos(head_of(s))),
        boundary(stem_of(s)) == stem_of(s).len() ==> clean_spec(s) == title_of(s) + seq![
            ' ',
            '(',
        ] + head_of(s).subrange(year_pos(head_of(s)), year_pos(head_of(s)) + 4) + seq![')'] + seq![
            '.',
        ] + ext_of(s),
{
    let head = head_of(s);
    lemma_year_before(head, head.len() - 4);
    assert(j <= head.len() - 4);
    assert(year_pos(head) >= j);
}

} // verus!
