//! Title rendering: split on spaces, title-case each word (first character
//! uppercased, the remaining characters lowercased, each through its
//! Unicode mapping), and rejoin with single spaces.

use vstd::prelude::*;

use crate::unicode::{lower_c, upper_c};

verus! {

/// The rendered title from position `i` on; `first` records whether no word
/// has been emitted yet, so that a single space is placed between words.
pub open spec fn title_words(s: Seq<char>, i: int, first: bool) -> Seq<char>
    recommends
        0 <= i <= s.len(),
    decreases s.len() - i, 1int,
{
    if i < 0 || i >= s.len() {
        Seq::empty()
    } else if s[i] == ' ' {
        title_words(s, i + 1, first)
    } else {
        (if first {
            Seq::empty()
        } else {
            seq![' ']
        }) + upper_c(s[i]) + title_rest(s, i + 1)
    }
}

/// The remainder of the current word, lowercased character by character,
/// followed by the rendering of the remaining words.
pub open spec fn title_rest(s: Seq<char>, i: int) -> Seq<char>
    recommends
        0 <= i <= s.len(),
    decreases s.len() - i, 0int,
{
    if i < 0 || i >= s.len() {
        Seq::empty()
    } else if s[i] == ' ' {
        title_words(s, i + 1, false)
    } else {
        lower_c(s[i]) + title_rest(s, i + 1)
    }
}

/// The whole rendered title of a space-separated candidate string.
pub open spec fn render_title(s: Seq<char>) -> Seq<char> {
    title_words(s, 0, true)
}

/// Appends the rendered title from `i` on to `out`.
pub fn title_words_into(s: &Vec<char>, i: usize, first: bool, out: &mut Vec<char>)
    requires
        i <= s@.len(),
    ensures
        final(out)@ == old(out)@ + title_words(s@, i as int, first),
    decreases s@.len() - i, 1int,
{
    proof {
        assert(s.len() == s@.len());
    }
    if i >= s.len() {
        return ;
    }
    if s[i] == ' ' {
        title_words_into(s, i + 1, first, out);
        return ;
    }
    if !first {
        out.push(' ');
    }
    let mapped = crate::unicode::upper_char_exec(s[i]);
    let mut mapped_chars = crate::text::str_to_chars(mapped.as_str());
    out.append(&mut mapped_chars);
    title_rest_into(s, i + 1, out);
    proof {
        assert(out@ =~= old(out)@ + title_words(s@, i as int, first));
    }
}

/// Appends the lowercased rest of the current word, then the remaining
/// words, to `out`.
pub fn title_rest_into(s: &Vec<char>, i: usize, out: &mut Vec<char>)
    requires
        i <= s@.len(),
    ensures
        final(out)@ == old(out)@ + title_rest(s@, i as int),
    decreases s@.len() - i, 0int,
{
    proof {
        assert(s.len() == s@.len());
    }
    if i >= s.len() {
        return ;
    }
    if s[i] == ' ' {
        title_words_into(s, i + 1, false, out);
        return ;
    }
    let mapped = crate::unicode::lower_char_exec(s[i]);
    let mut mapped_chars = crate::text::str_to_chars(mapped.as_str());
    out.append(&mut mapped_chars);
    title_rest_into(s, i + 1, out);
    proof {
        assert(out@ =~= old(out)@ + title_rest(s@, i as int));
    }
}

} // verus!
